//! Works out each definition's group from marker files: the nearest directory above it
//! holding a `BUILD.bazel`, `Cargo.toml`, `package.json`, and so on. Which directories hold
//! a marker is found by whoever can look at the disk; where that puts each definition is
//! worked out here.

use crate::fallback::{path_segments, segments};
use crate::group::{keyed_once, Grouping};
use crate::order::counts;
use crate::model::{Definition, Identity};
use crate::text::{join, joined, owned, str_eq, views};
use vstd::prelude::*;

verus! {

/// The directories above a file, nearest first, each as the names it is made of. The last
/// is the top, which has no names at all.
pub open spec fn ancestors(segs: Seq<Seq<char>>) -> Seq<Seq<Seq<char>>> {
    Seq::new(segs.len(), |i: int| segs.take(segs.len() - 1 - i))
}

/// A directory written out, its names joined by `/`.
pub open spec fn dir_name(dir: Seq<Seq<char>>) -> Seq<char> {
    joined(dir, seq!['/'])
}

/// The first of some directories that holds a marker.
pub open spec fn first_marked(dirs: Seq<Seq<Seq<char>>>, marked: Seq<Seq<char>>) -> Option<int>
    decreases dirs.len(),
{
    if dirs.len() == 0 {
        None
    } else if marked.contains(dir_name(dirs[0])) {
        Some(0)
    } else {
        match first_marked(dirs.drop_first(), marked) {
            Some(i) => Some(i + 1),
            None => None,
        }
    }
}

/// A file's group: the nearest directory above it that holds a marker, or the file's own
/// directory when none does, so unpackaged code isn't all lumped into one bin. Top-level
/// files share the empty directory and so are read together.
pub open spec fn group_of_spec(file: Seq<char>, marked: Seq<Seq<char>>) -> Seq<Seq<char>> {
    let segs = path_segments(file);
    let dirs = ancestors(segs);
    match first_marked(dirs, marked) {
        Some(i) => dirs[i],
        None => if segs.len() > 0 {
            segs.drop_last()
        } else {
            Seq::empty()
        },
    }
}

proof fn lemma_first_marked(dirs: Seq<Seq<Seq<char>>>, marked: Seq<Seq<char>>, i: int)
    requires
        0 <= i <= dirs.len(),
        forall|k: int| 0 <= k < i ==> !marked.contains(dir_name(#[trigger] dirs[k])),
    ensures
        i < dirs.len() && marked.contains(dir_name(dirs[i])) ==> first_marked(dirs, marked) == Some(i),
        i == dirs.len() ==> first_marked(dirs, marked) is None,
    decreases i,
{
    if i > 0 {
        assert forall|k: int| 0 <= k < i - 1 implies !marked.contains(dir_name(#[trigger] dirs.drop_first()[k])) by {
            assert(dirs.drop_first()[k] == dirs[k + 1]);
        }
        lemma_first_marked(dirs.drop_first(), marked, i - 1);
    }
}

/// The first `n` names of a path, as texts.
fn first_names(segs: &Vec<String>, n: usize) -> (r: Vec<String>)
    requires
        n <= segs@.len(),
    ensures
        views(r@) == views(segs@).take(n as int),
{
    let mut r: Vec<String> = Vec::new();
    for k in 0..n
        invariant
            n <= segs@.len(),
            r@.len() == k,
            forall|j: int| 0 <= j < k ==> (#[trigger] r@[j])@ == segs@[j]@,
    {
        r.push(owned(segs[k].as_str()));
    }
    assert(views(r@) =~= views(segs@).take(n as int));
    r
}

/// The directories above a file, nearest first, written out.
pub fn ancestor_dirs(file: &str) -> (r: Vec<String>)
    ensures
        views(r@) == ancestors(path_segments(file@)).map_values(|d: Seq<Seq<char>>| dir_name(d)),
{
    let segs = segments(file);
    let ghost names = views(segs@);
    let ghost want = ancestors(names).map_values(|d: Seq<Seq<char>>| dir_name(d));
    let sep = "/";
    proof {
        reveal_strlit("/");
        assert(sep@ =~= seq!['/']);
    }
    let mut r: Vec<String> = Vec::new();
    for i in 0..segs.len()
        invariant
            names == views(segs@),
            want == ancestors(names).map_values(|d: Seq<Seq<char>>| dir_name(d)),
            sep@ == seq!['/'],
            r@.len() == i,
            forall|j: int| 0 <= j < i ==> (#[trigger] r@[j])@ == want[j],
    {
        let dir = first_names(&segs, segs.len() - 1 - i);
        r.push(join(&dir, sep));
    }
    assert(views(r@) =~= want);
    r
}

/// Whether a list holds a text.
fn holds_text(list: &Vec<String>, t: &str) -> (r: bool)
    ensures
        r == views(list@).contains(t@),
{
    for m in 0..list.len()
        invariant
            forall|j: int| 0 <= j < m ==> list@[j]@ != t@,
    {
        if str_eq(list[m].as_str(), t) {
            assert(views(list@)[m as int] == t@);
            return true;
        }
    }
    assert(!views(list@).contains(t@)) by {
        if views(list@).contains(t@) {
            let j = choose|j: int| 0 <= j < views(list@).len() && views(list@)[j] == t@;
            assert(list@[j]@ == t@);
        }
    }
    false
}

/// A file's group, given which directories hold a marker.
pub fn group_of(file: &str, marked: &Vec<String>) -> (r: Vec<String>)
    ensures
        views(r@) == group_of_spec(file@, views(marked@)),
{
    let segs = segments(file);
    let ghost names = views(segs@);
    let ghost dirs = ancestors(names);
    let sep = "/";
    proof {
        reveal_strlit("/");
        assert(sep@ =~= seq!['/']);
    }
    for i in 0..segs.len()
        invariant
            names == views(segs@),
            names == path_segments(file@),
            dirs == ancestors(names),
            sep@ == seq!['/'],
            forall|k: int| 0 <= k < i ==> !views(marked@).contains(dir_name(#[trigger] dirs[k])),
    {
        let dir = first_names(&segs, segs.len() - 1 - i);
        let name = join(&dir, sep);
        assert(dirs[i as int] == names.take(names.len() - 1 - i));
        assert(name@ == dir_name(dirs[i as int]));
        let found = holds_text(marked, name.as_str());
        if found {
            proof {
                lemma_first_marked(dirs, views(marked@), i as int);
            }
            return dir;
        }
    }
    proof {
        lemma_first_marked(dirs, views(marked@), dirs.len() as int);
    }
    if segs.len() > 0 {
        first_names(&segs, segs.len() - 1)
    } else {
        Vec::new()
    }
}

/// Entry `e` is what the definition at `j`, the one that counts for its identity, is
/// grouped under.
pub open spec fn entry_from(defs: Seq<Definition>, marked: Seq<Seq<char>>, e: (Identity, Vec<String>), j: int) -> bool {
    &&& counts(defs, j)
    &&& e.0 == defs[j].identity
    &&& views(e.1@) == group_of_spec(defs[j]@.sides.latest().file, marked)
}

/// Entry `e` comes from one of the first `i` definitions.
pub open spec fn from_one_of(defs: Seq<Definition>, marked: Seq<Seq<char>>, e: (Identity, Vec<String>), i: int) -> bool {
    exists|j: int| 0 <= j < i && #[trigger] entry_from(defs, marked, e, j)
}

/// Some entry is for `x`.
pub open spec fn lists(of: Seq<(Identity, Vec<String>)>, x: Identity) -> bool {
    exists|k: int| 0 <= k < of.len() && (#[trigger] of[k]).0 == x
}

/// Each definition's group, by the file it now lives in: one entry for each identity, from
/// the definition that counts for it (the last handed over), in the order handed over.
pub fn of(name: &str, definitions: &Vec<Definition>, marked: &Vec<String>) -> (r: Grouping)
    ensures
        r.name@ == name@,
        keyed_once(r.of@),
        forall|k: int| 0 <= k < r.of@.len() ==> from_one_of(definitions@, views(marked@), #[trigger] r.of@[k], definitions@.len() as int),
        forall|i: int| #[trigger] counts(definitions@, i) ==> lists(r.of@, definitions@[i].identity),
{
    let ghost m = views(marked@);
    let mut of: Vec<(Identity, Vec<String>)> = Vec::new();
    for i in 0..definitions.len()
        invariant
            m == views(marked@),
            keyed_once(of@),
            forall|k: int| 0 <= k < of@.len() ==> from_one_of(definitions@, m, #[trigger] of@[k], i as int),
            forall|j: int| 0 <= j < i && #[trigger] counts(definitions@, j) ==> lists(of@, definitions@[j].identity),
    {
        if crate::order::counts_exec(definitions, i) {
            let file = definitions[i].sides.latest().file.as_str();
            let entry = (definitions[i].identity, group_of(file, marked));
            let ghost before = of@;
            of.push(entry);
            proof {
                assert(entry_from(definitions@, m, entry, i as int));
                assert forall|a: int, b: int| 0 <= a < b < of@.len() implies (#[trigger] of@[a]).0 != (#[trigger] of@[b]).0 by {
                    if b == before.len() {
                        assert(of@[a] == before[a]);
                        assert(from_one_of(definitions@, m, before[a], i as int));
                        let j = choose|j: int| 0 <= j < i && #[trigger] entry_from(definitions@, m, before[a], j);
                        assert(definitions@[i as int].identity != definitions@[j].identity);
                    } else {
                        assert(of@[a] == before[a] && of@[b] == before[b]);
                    }
                }
                assert forall|k: int| 0 <= k < of@.len() implies from_one_of(definitions@, m, #[trigger] of@[k], i + 1) by {
                    if k == before.len() {
                        assert(of@[k] == entry);
                    } else {
                        assert(of@[k] == before[k]);
                        assert(from_one_of(definitions@, m, before[k], i as int));
                    }
                }
                assert forall|j: int| 0 <= j < i + 1 && #[trigger] counts(definitions@, j) implies lists(of@, definitions@[j].identity) by {
                    if j == i {
                        assert(of@[before.len() as int].0 == definitions@[j].identity);
                    } else {
                        assert(lists(before, definitions@[j].identity));
                        let k = choose|k: int| 0 <= k < before.len() && (#[trigger] before[k]).0 == definitions@[j].identity;
                        assert(of@[k] == before[k]);
                    }
                }
            }
        } else {
            proof {
                assert forall|k: int| 0 <= k < of@.len() implies from_one_of(definitions@, m, #[trigger] of@[k], i + 1) by {
                    assert(from_one_of(definitions@, m, of@[k], i as int));
                }
            }
        }
    }
    Grouping { name: owned(name), of }
}

} // verus!
