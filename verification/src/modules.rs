//! A Rust file's module path. The crate name comes from the nearest Cargo.toml above the
//! file, and `src`, `lib.rs`, `main.rs` and `mod.rs` name no module, so a locator survives
//! the crate moving directories. Which manifests declare which package is read off the
//! disk by the caller.

use crate::fallback::path_segments;
use crate::grouping::ancestors;
use crate::opened::{path_scope, path_scope_spec};
use crate::text::{chars_of, owned, str_eq, string_of, views};
use vstd::prelude::*;

verus! {

/// A package's name as Rust code spells its crate: dashes become underscores.
pub open spec fn crate_name_spec(package: Seq<char>) -> Seq<char> {
    package.map_values(|c: char| if c == '-' { '_' } else { c })
}

/// A package's name as Rust code spells its crate.
pub fn crate_name(package: &str) -> (r: String)
    ensures
        r@ == crate_name_spec(package@),
{
    let cs = chars_of(package);
    let mut out: Vec<char> = Vec::new();
    for i in 0..cs.len()
        invariant
            cs@ == package@,
            out@ == crate_name_spec(package@).take(i as int),
    {
        out.push(if cs[i] == '-' { '_' } else { cs[i] });
        assert(out@ =~= crate_name_spec(package@).take(i + 1));
    }
    assert(crate_name_spec(package@).take(cs@.len() as int) =~= crate_name_spec(package@));
    string_of(&out)
}

/// Whether a part of a path names a module: `src`, `lib`, `main` and `mod` don't.
pub open spec fn names_module(part: Seq<char>) -> bool {
    part != "src"@ && part != "lib"@ && part != "main"@ && part != "mod"@
}

/// The parts of a path that name modules, in order.
pub open spec fn module_parts(parts: Seq<Seq<char>>) -> Seq<Seq<char>>
    decreases parts.len(),
{
    if parts.len() == 0 {
        Seq::empty()
    } else if names_module(parts.last()) {
        module_parts(parts.drop_last()).push(parts.last())
    } else {
        module_parts(parts.drop_last())
    }
}

/// The first of the directories above a file whose manifest declares a package.
pub open spec fn first_crate(crates: Seq<Option<String>>, i: int) -> Option<int>
    decreases crates.len() - i,
{
    if i >= crates.len() || i < 0 {
        None
    } else if crates[i] is Some {
        Some(i)
    } else {
        first_crate(crates, i + 1)
    }
}

/// A file's module path, and whether a crate was found for it. `crates[i]` is the package
/// declared by the manifest in the `i`th directory above the file, nearest first, if one
/// is there and declares a package. The nearest such crate names the path, followed by the
/// modules between its directory and the file; with none, the file's path without its
/// extension stands in.
pub open spec fn path_of_spec(file: Seq<char>, crates: Seq<Option<String>>) -> (Seq<Seq<char>>, bool) {
    let dirs = ancestors(path_segments(file));
    match first_crate(crates, 0) {
        Some(i) => if i < dirs.len() {
            (
                seq![crate_name_spec(crates[i]->0@)] + module_parts(path_scope_spec(file).skip(dirs[i].len() as int)),
                true,
            )
        } else {
            (path_scope_spec(file), false)
        },
        None => (path_scope_spec(file), false),
    }
}

/// Whether a part of a path names a module.
fn names_module_exec(part: &str) -> (r: bool)
    ensures
        r == names_module(part@),
{
    !(str_eq(part, "src") || str_eq(part, "lib") || str_eq(part, "main") || str_eq(part, "mod"))
}

/// A file's module path, and whether a crate was found for it; with none, the caller says
/// its path is standing in for a module path.
pub fn path_of(file: &str, crates: &Vec<Option<String>>) -> (r: (Vec<String>, bool))
    ensures
        (views(r.0@), r.1) == path_of_spec(file@, crates@),
{
    let scope = path_scope(file);
    let segs = crate::fallback::segments(file);
    let ghost dirs = ancestors(path_segments(file@));
    let mut i: usize = 0;
    while i < crates.len() && crates[i].is_none()
        invariant
            i <= crates@.len(),
            first_crate(crates@, 0) == first_crate(crates@, i as int),
        decreases crates@.len() - i,
    {
        i = i + 1;
    }
    if i >= crates.len() || i >= segs.len() {
        return (scope, false);
    }
    let name = match &crates[i] {
        Some(n) => crate_name(n.as_str()),
        None => crate_name(""),
    };
    let depth = segs.len() - 1 - i;
    assert(dirs[i as int].len() == depth);
    let mut path: Vec<String> = Vec::new();
    path.push(name);
    let ghost head = views(path@);
    let ghost rest = views(scope@).skip(depth as int);
    for k in depth..scope.len()
        invariant
            views(scope@) == path_scope_spec(file@),
            depth <= scope@.len(),
            rest == views(scope@).skip(depth as int),
            views(path@) == head + module_parts(rest.take(k - depth)),
    {
        assert(rest.take(k - depth + 1).drop_last() =~= rest.take(k - depth));
        assert(rest.take(k - depth + 1).last() == scope@[k as int]@);
        if names_module_exec(scope[k].as_str()) {
            let ghost p0 = views(path@);
            path.push(owned(scope[k].as_str()));
            assert(views(path@) =~= p0.push(scope@[k as int]@));
        }
    }
    assert(rest.take(scope@.len() - depth) =~= rest);
    (path, true)
}

} // verus!
