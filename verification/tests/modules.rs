use dagger::modules::{crate_name, path_of};

fn strings(parts: &[&str]) -> Vec<String> {
    parts.iter().map(|p| p.to_string()).collect()
}

#[test]
fn a_manifest_gives_up_its_package_name() {
    let manifest: toml::Table = "[package]\nname = \"dagger-core\"\n".parse().unwrap();
    let package = manifest["package"]["name"].as_str().unwrap();
    assert_eq!(crate_name(package), "dagger_core".to_string());
}

#[test]
fn dashes_become_underscores_and_nothing_else_changes() {
    assert_eq!(crate_name("a-b-c"), "a_b_c");
    assert_eq!(crate_name("plain"), "plain");
    assert_eq!(crate_name(""), "");
}

#[test]
fn the_nearest_crate_names_the_path() {
    // crates/core/src/model/order.rs: the directories above are model, src, core, crates.
    let crates = vec![None, None, Some("dagger-core".to_string()), None];
    let (path, found) = path_of("crates/core/src/model/order.rs", &crates);
    assert!(found);
    assert_eq!(path, strings(&["dagger_core", "model", "order"]));
}

#[test]
fn lib_main_and_mod_name_no_module() {
    let crates = vec![None, Some("tool".to_string())];
    let (path, found) = path_of("tool/src/lib.rs", &crates);
    assert!(found);
    assert_eq!(path, strings(&["tool"]));

    let crates = vec![None, None, Some("tool".to_string())];
    let (path, found) = path_of("tool/src/walk/mod.rs", &crates);
    assert!(found);
    assert_eq!(path, strings(&["tool", "walk"]));
}

#[test]
fn a_closer_manifest_wins_over_one_further_up() {
    let crates = vec![None, Some("inner".to_string()), Some("outer".to_string())];
    let (path, found) = path_of("outer/inner/src/x.rs", &crates);
    assert!(found);
    assert_eq!(path, strings(&["inner", "x"]));
}

#[test]
fn with_no_crate_the_path_stands_in() {
    let crates = vec![None, None];
    let (path, found) = path_of("scripts/build/step.rs", &crates);
    assert!(!found);
    assert_eq!(path, strings(&["scripts", "build", "step"]));

    let (path, found) = path_of("scripts/build/step.rs", &Vec::new());
    assert!(!found);
    assert_eq!(path, strings(&["scripts", "build", "step"]));
}
