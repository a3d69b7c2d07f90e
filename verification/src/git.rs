//! Reading what someone asked git for: a branch, two commits, or one of git's own ranges.

use crate::text::{chars_of, owned, str_eq, string_of};
use vstd::prelude::*;

verus! {

/// The two ends of what someone asked for, before git has been asked to resolve them.
#[derive(Debug, PartialEq, Eq)]
pub struct Ends {
    pub left: String,
    pub right: String,
    /// Whether the left end means the merge base (git's `...`) rather than the revision itself.
    pub parted: bool,
}

/// `pat` sits in `s` at `i`.
pub open spec fn occurs_at(s: Seq<char>, pat: Seq<char>, i: int) -> bool {
    0 <= i && i + pat.len() <= s.len() && s.subrange(i, i + pat.len()) == pat
}

/// `pat` sits in `s` at `i`, and nowhere earlier.
pub open spec fn first_at(s: Seq<char>, pat: Seq<char>, i: int) -> bool {
    occurs_at(s, pat, i) && forall|j: int| 0 <= j < i ==> !occurs_at(s, pat, j)
}

/// `pat` sits somewhere in `s`.
pub open spec fn holds_text(s: Seq<char>, pat: Seq<char>) -> bool {
    exists|i: int| occurs_at(s, pat, i)
}

pub open spec fn two_dots() -> Seq<char> {
    seq!['.', '.']
}

pub open spec fn three_dots() -> Seq<char> {
    seq!['.', '.', '.']
}

/// An end left out is where you are.
pub open spec fn or_head(s: Seq<char>) -> Seq<char> {
    if s.len() == 0 { seq!['H', 'E', 'A', 'D'] } else { s }
}

/// One of git's own ranges read as its two ends: split at the first `...` where there is
/// one, which is where two parted, and otherwise at the first `..`, the revisions
/// themselves.
pub open spec fn span_spec(range: Seq<char>) -> (Seq<char>, Seq<char>, bool) {
    if exists|i: int| #[trigger] first_at(range, three_dots(), i) {
        let i = choose|i: int| #[trigger] first_at(range, three_dots(), i);
        (or_head(range.subrange(0, i)), or_head(range.subrange(i + 3, range.len() as int)), true)
    } else {
        let j = choose|j: int| #[trigger] first_at(range, two_dots(), j);
        (or_head(range.subrange(0, j)), or_head(range.subrange(j + 2, range.len() as int)), false)
    }
}

/// What a request names, if it is one of the ways a change can be named: `branch <name>`,
/// `commits <a> <b>`, or a range on its own or after `commits`. The trunk is written as
/// the empty name.
pub open spec fn read_spec(asked: Seq<Seq<char>>) -> Option<(Seq<char>, Seq<char>, bool)> {
    if asked.len() == 2 && asked[0] == seq!['b', 'r', 'a', 'n', 'c', 'h'] {
        Some((Seq::empty(), asked[1], true))
    } else if asked.len() == 2 && asked[0] == seq!['c', 'o', 'm', 'm', 'i', 't', 's'] && holds_text(asked[1], two_dots()) {
        Some(span_spec(asked[1]))
    } else if asked.len() == 3 && asked[0] == seq!['c', 'o', 'm', 'm', 'i', 't', 's'] {
        Some((asked[1], asked[2], false))
    } else if asked.len() == 1 && holds_text(asked[0], two_dots()) {
        Some(span_spec(asked[0]))
    } else {
        None
    }
}

proof fn lemma_first_unique(s: Seq<char>, pat: Seq<char>, i: int, j: int)
    requires
        first_at(s, pat, i),
        first_at(s, pat, j),
    ensures
        i == j,
{
}

/// Where `pat` first sits in `s`, if anywhere.
fn find_first(s: &Vec<char>, pat: &Vec<char>) -> (r: Option<usize>)
    requires
        pat@.len() > 0,
    ensures
        r matches Some(i) ==> first_at(s@, pat@, i as int),
        r is None ==> !holds_text(s@, pat@),
{
    let n = s.len();
    let m = pat.len();
    if m > n {
        return None;
    }
    let mut i: usize = 0;
    while i <= n - m
        invariant
            n == s@.len(),
            m == pat@.len(),
            m <= n,
            i <= n - m + 1,
            forall|j: int| 0 <= j < i ==> !occurs_at(s@, pat@, j),
        decreases n - i,
    {
        let mut k: usize = 0;
        while k < m && s[i + k] == pat[k]
            invariant
                n == s@.len(),
                m == pat@.len(),
                i + m <= n,
                k <= m,
                forall|x: int| 0 <= x < k ==> s@[i + x] == pat@[x],
            decreases m - k,
        {
            k = k + 1;
        }
        if k == m {
            assert(s@.subrange(i as int, i + m) =~= pat@);
            return Some(i);
        }
        assert(s@.subrange(i as int, i + m)[k as int] != pat@[k as int]);
        i = i + 1;
    }
    proof {
        assert forall|j: int| !occurs_at(s@, pat@, j) by {
            if 0 <= j && j + m <= n {
                assert(j < i);
            }
        }
    }
    None
}

/// The characters from `a` to `b`.
fn chars_between(s: &Vec<char>, a: usize, b: usize) -> (r: Vec<char>)
    requires
        a <= b <= s@.len(),
    ensures
        r@ == s@.subrange(a as int, b as int),
{
    let mut r: Vec<char> = Vec::new();
    let mut i = a;
    while i < b
        invariant
            a <= i <= b <= s@.len(),
            r@ == s@.subrange(a as int, i as int),
        decreases b - i,
    {
        r.push(s[i]);
        assert(s@.subrange(a as int, i + 1) =~= s@.subrange(a as int, i as int).push(s@[i as int]));
        i = i + 1;
    }
    r
}

/// An end, or where you are if it was left out.
fn end_or_head(chars: &Vec<char>) -> (r: String)
    ensures
        r@ == or_head(chars@),
{
    if chars.len() == 0 {
        let r = owned("HEAD");
        proof {
            reveal_strlit("HEAD");
        }
        r
    } else {
        string_of(chars)
    }
}

/// One of git's own ranges. `...` is where two parted, `..` is the revisions themselves.
pub fn span(range: &str) -> (r: Ends)
    requires
        holds_text(range@, two_dots()),
    ensures
        span_spec(range@) == (r.left@, r.right@, r.parted),
{
    let s = chars_of(range);
    let mut three: Vec<char> = Vec::new();
    three.push('.');
    three.push('.');
    three.push('.');
    assert(three@ =~= three_dots());
    // Tried before `..`, which would otherwise read the third dot as part of a name.
    match find_first(&s, &three) {
        Some(i) => {
            assert(occurs_at(s@, three@, i as int));
            assert(i + 3 <= s.len());
            let left = chars_between(&s, 0, i);
            let right = chars_between(&s, i + 3, s.len());
            proof {
                let c = choose|c: int| #[trigger] first_at(range@, three_dots(), c);
                lemma_first_unique(range@, three_dots(), i as int, c);
            }
            Ends { left: end_or_head(&left), right: end_or_head(&right), parted: true }
        },
        None => {
            let mut two: Vec<char> = Vec::new();
            two.push('.');
            two.push('.');
            assert(two@ =~= two_dots());
            assert(!exists|i: int| #[trigger] first_at(range@, three_dots(), i));
            match find_first(&s, &two) {
                Some(j) => {
                    assert(occurs_at(s@, two@, j as int));
                    assert(j + 2 <= s.len());
                    let left = chars_between(&s, 0, j);
                    let right = chars_between(&s, j + 2, s.len());
                    proof {
                        let c = choose|c: int| #[trigger] first_at(range@, two_dots(), c);
                        lemma_first_unique(range@, two_dots(), j as int, c);
                    }
                    Ends { left: end_or_head(&left), right: end_or_head(&right), parted: false }
                },
                None => {
                    // A range always has two dots: this is never reached.
                    Ends { left: String::new(), right: String::new(), parted: false }
                },
            }
        },
    }
}

/// Whether `pat` sits somewhere in the text.
fn has_text(s: &str, pat: &Vec<char>) -> (r: bool)
    requires
        pat@.len() > 0,
    ensures
        r == holds_text(s@, pat@),
{
    let chars = chars_of(s);
    find_first(&chars, pat).is_some()
}

/// Every way a change can be named. Shown in dagger's help and in the error for anything else.
pub fn understood() -> (r: &'static str)
    ensures
        r@ == understood_spec(),
{
    "branch <name>        that branch, since it left the trunk\ncommits <a> <b>      those two revisions\ncommits <a>..<b>     or <a>...<b>, as git writes them"
}

/// Every way a change can be named.
pub open spec fn understood_spec() -> Seq<char> {
    "branch <name>        that branch, since it left the trunk\ncommits <a> <b>      those two revisions\ncommits <a>..<b>     or <a>...<b>, as git writes them"@
}

/// What is said of a request that names no change.
pub open spec fn refusal() -> Seq<char> {
    "dagger-git doesn't know what that means. It understands:\n"@ + understood_spec()
}

/// A bare name is refused rather than guessed: it could mean the branch to read or the
/// branch it came from, and a review of the wrong change looks just like the right one.
pub fn read(asked: &[String]) -> (r: Result<Ends, String>)
    ensures
        match r {
            Ok(e) => read_spec(crate::text::views(asked@)) == Some((e.left@, e.right@, e.parted)),
            Err(m) => read_spec(crate::text::views(asked@)) is None && m@ == refusal(),
        },
{
    let ghost a = crate::text::views(asked@);
    let mut two: Vec<char> = Vec::new();
    two.push('.');
    two.push('.');
    assert(two@ =~= two_dots());
    let branch = "branch";
    let commits = "commits";
    proof {
        reveal_strlit("branch");
        reveal_strlit("commits");
        assert(branch@ =~= seq!['b', 'r', 'a', 'n', 'c', 'h']);
        assert(commits@ =~= seq!['c', 'o', 'm', 'm', 'i', 't', 's']);
    }
    if asked.len() == 2 {
        assert(a[0] == asked@[0]@ && a[1] == asked@[1]@);
        if str_eq(asked[0].as_str(), branch) {
            return Ok(Ends { left: String::new(), right: asked[1].clone(), parted: true });
        }
        if str_eq(asked[0].as_str(), commits) && has_text(asked[1].as_str(), &two) {
            return Ok(span(asked[1].as_str()));
        }
    } else if asked.len() == 3 {
        assert(a[0] == asked@[0]@ && a[1] == asked@[1]@ && a[2] == asked@[2]@);
        if str_eq(asked[0].as_str(), commits) {
            return Ok(Ends { left: asked[1].clone(), right: asked[2].clone(), parted: false });
        }
    } else if asked.len() == 1 {
        assert(a[0] == asked@[0]@);
        if has_text(asked[0].as_str(), &two) {
            return Ok(span(asked[0].as_str()));
        }
    }
    let mut m = owned("dagger-git doesn't know what that means. It understands:\n");
    m.append(understood());
    Err(m)
}

// ---------------------------------------------------------------------------------------
// Reading git's answers.

/// A text with white space taken off both ends, as `str::trim` does.
pub open spec fn trim_start(s: Seq<char>) -> Seq<char>
    decreases s.len(),
{
    if s.len() > 0 && crate::matching::is_ws(s[0]) {
        trim_start(s.drop_first())
    } else {
        s
    }
}

/// A text with white space taken off its end.
pub open spec fn trim_end(s: Seq<char>) -> Seq<char>
    decreases s.len(),
{
    if s.len() > 0 && crate::matching::is_ws(s.last()) {
        trim_end(s.drop_last())
    } else {
        s
    }
}

/// A text with white space taken off both ends.
pub open spec fn trimmed(s: Seq<char>) -> Seq<char> {
    trim_end(trim_start(s))
}

/// A text with white space taken off both ends: one line of git's answer without the
/// line break git puts after it.
pub fn said(output: &str) -> (r: String)
    ensures
        r@ == trimmed(output@),
{
    let cs = chars_of(output);
    let mut from: usize = 0;
    assert(cs@.skip(0) =~= cs@);
    while from < cs.len() && crate::matching::is_ws_exec(cs[from])
        invariant
            cs@ == output@,
            from <= cs@.len(),
            trim_start(output@) == trim_start(cs@.skip(from as int)),
        decreases cs@.len() - from,
    {
        assert(cs@.skip(from as int).drop_first() =~= cs@.skip(from + 1));
        from = from + 1;
    }
    let mut to: usize = cs.len();
    let ghost rest = cs@.skip(from as int);
    assert(rest == trim_start(output@));
    assert(cs@.subrange(from as int, to as int) =~= rest);
    while to > from && crate::matching::is_ws_exec(cs[to - 1])
        invariant
            cs@ == output@,
            from <= to <= cs@.len(),
            rest == trim_start(output@),
            trim_end(rest) == trim_end(cs@.subrange(from as int, to as int)),
        decreases to,
    {
        assert(cs@.subrange(from as int, to as int).drop_last() =~= cs@.subrange(from as int, to - 1));
        to = to - 1;
    }
    let mut kept: Vec<char> = Vec::new();
    for k in from..to
        invariant
            from <= to <= cs@.len(),
            kept@ == cs@.subrange(from as int, k as int),
    {
        kept.push(cs[k]);
        assert(kept@ =~= cs@.subrange(from as int, k + 1));
    }
    string_of(&kept)
}

/// A text cut at each `sep`, every piece kept, empty ones too.
pub open spec fn cut(s: Seq<char>, sep: char) -> Seq<Seq<char>>
    decreases s.len(),
{
    if s.len() == 0 {
        seq![Seq::empty()]
    } else {
        let before = cut(s.drop_last(), sep);
        if s.last() == sep {
            before.push(Seq::empty())
        } else {
            before.update(before.len() - 1, before.last().push(s.last()))
        }
    }
}

/// The pieces of a list with something in them, in order.
pub open spec fn filled(pieces: Seq<Seq<char>>) -> Seq<Seq<char>>
    decreases pieces.len(),
{
    if pieces.len() == 0 {
        Seq::empty()
    } else if pieces.last().len() > 0 {
        filled(pieces.drop_last()).push(pieces.last())
    } else {
        filled(pieces.drop_last())
    }
}

/// The names in a NUL-separated answer, as `-z` makes git write them.
pub fn listed(output: &str) -> (r: Vec<String>)
    ensures
        crate::text::views(r@) == filled(cut(output@, '\0')),
{
    let cs = chars_of(output);
    let mut done: Vec<String> = Vec::new();
    let mut current: Vec<char> = Vec::new();
    let ghost mut pieces: Seq<Seq<char>> = seq![Seq::empty()];
    for i in 0..cs.len()
        invariant
            cs@ == output@,
            pieces == cut(cs@.subrange(0, i as int), '\0'),
            pieces.len() >= 1,
            current@ == pieces.last(),
            crate::text::views(done@) == filled(pieces.drop_last()),
    {
        let ghost before = pieces;
        assert(cs@.subrange(0, i + 1).drop_last() =~= cs@.subrange(0, i as int));
        if cs[i] == '\0' {
            if current.len() > 0 {
                let ghost d0 = crate::text::views(done@);
                done.push(string_of(&current));
                assert(crate::text::views(done@) =~= d0.push(current@));
            }
            current = Vec::new();
            proof {
                pieces = before.push(Seq::empty());
                assert(pieces.drop_last() =~= before);
            }
        } else {
            current.push(cs[i]);
            proof {
                pieces = before.update(before.len() - 1, before.last().push(cs@[i as int]));
                assert(pieces.drop_last() =~= before.drop_last());
            }
        }
    }
    assert(cs@.subrange(0, cs@.len() as int) =~= cs@);
    if current.len() > 0 {
        let ghost d0 = crate::text::views(done@);
        done.push(string_of(&current));
        assert(crate::text::views(done@) =~= d0.push(current@));
    }
    assert(pieces =~= pieces.drop_last().push(pieces.last()));
    done
}

/// An answer that comes a line at a time: each line trimmed, the empty ones dropped.
pub open spec fn answer_lines_spec(output: Seq<char>) -> Seq<Seq<char>> {
    filled(crate::diff::text_lines(output).map_values(|l: Seq<char>| trimmed(l)))
}

/// An answer that comes a line at a time, rather than NUL-separated.
pub fn answer_lines(output: &str) -> (r: Vec<String>)
    ensures
        crate::text::views(r@) == answer_lines_spec(output@),
{
    let ls = crate::diff::lines(output);
    let ghost all = crate::text::views(ls@).map_values(|l: Seq<char>| trimmed(l));
    let mut r: Vec<String> = Vec::new();
    for i in 0..ls.len()
        invariant
            all == crate::text::views(ls@).map_values(|l: Seq<char>| trimmed(l)),
            crate::text::views(r@) == filled(all.take(i as int)),
    {
        assert(all.take(i + 1).drop_last() =~= all.take(i as int));
        assert(all.take(i + 1).last() == trimmed(ls@[i as int]@));
        let line = said(ls[i].as_str());
        if !line.as_str().is_empty() {
            let ghost r0 = crate::text::views(r@);
            r.push(line);
            assert(crate::text::views(r@) =~= r0.push(all[i as int]));
        }
    }
    assert(all.take(all.len() as int) =~= all);
    r
}

/// The names of one list not in another, in order.
pub open spec fn without(listed: Seq<Seq<char>>, gone: Seq<Seq<char>>) -> Seq<Seq<char>>
    decreases listed.len(),
{
    if listed.len() == 0 {
        Seq::empty()
    } else if gone.contains(listed.last()) {
        without(listed.drop_last(), gone)
    } else {
        without(listed.drop_last(), gone).push(listed.last())
    }
}

/// The files git lists, less those it also lists as deleted: `--cached` still lists files
/// deleted from disk but not staged.
pub fn kept_files(listed: &Vec<String>, gone: &Vec<String>) -> (r: Vec<String>)
    ensures
        crate::text::views(r@) == without(crate::text::views(listed@), crate::text::views(gone@)),
{
    let ghost l = crate::text::views(listed@);
    let ghost g = crate::text::views(gone@);
    let mut r: Vec<String> = Vec::new();
    for i in 0..listed.len()
        invariant
            l == crate::text::views(listed@),
            g == crate::text::views(gone@),
            crate::text::views(r@) == without(l.take(i as int), g),
    {
        assert(l.take(i + 1).drop_last() =~= l.take(i as int));
        assert(l.take(i + 1).last() == listed@[i as int]@);
        let mut found = false;
        let name = listed[i].as_str();
        for k in 0..gone.len()
            invariant
                name@ == listed@[i as int]@,
                found == exists|j: int| 0 <= j < k && gone@[j]@ == listed@[i as int]@,
        {
            if str_eq(gone[k].as_str(), name) {
                found = true;
            }
        }
        assert(found == g.contains(listed@[i as int]@)) by {
            if found {
                let j = choose|j: int| 0 <= j < gone@.len() && gone@[j]@ == listed@[i as int]@;
                assert(g[j] == listed@[i as int]@);
            }
            if g.contains(listed@[i as int]@) {
                let j = choose|j: int| 0 <= j < g.len() && g[j] == listed@[i as int]@;
                assert(gone@[j]@ == listed@[i as int]@);
            }
        }
        if !found {
            let ghost r0 = crate::text::views(r@);
            r.push(owned(listed[i].as_str()));
            assert(crate::text::views(r@) =~= r0.push(listed@[i as int]@));
        }
    }
    assert(l.take(l.len() as int) =~= l);
    r
}

/// Why a name can't be taken as a commit when no remote, or more than one, tracks it.
pub open spec fn untracked_spec(name: Seq<char>, tracking: Seq<Seq<char>>) -> Result<Seq<char>, Seq<char>> {
    if tracking.len() == 1 {
        Ok(tracking[0])
    } else if tracking.len() == 0 {
        Err("there's no branch, tag or commit called "@ + name + " here. If it's someone else's branch, fetch it first"@)
    } else {
        Err(name + " is on more than one remote, so say which: "@ + crate::text::joined(tracking, ", "@))
    }
}

/// For a name git can't resolve itself, the one remote branch of that name, or why there
/// isn't one.
pub fn tracking_branch(name: &str, tracking: &Vec<String>) -> (r: Result<String, String>)
    ensures
        match r {
            Ok(s) => untracked_spec(name@, crate::text::views(tracking@)) == Ok::<Seq<char>, Seq<char>>(s@),
            Err(m) => untracked_spec(name@, crate::text::views(tracking@)) == Err::<Seq<char>, Seq<char>>(m@),
        },
{
    if tracking.len() == 1 {
        return Ok(owned(tracking[0].as_str()));
    }
    let mut m = String::new();
    if tracking.len() == 0 {
        m.append("there's no branch, tag or commit called ");
        m.append(name);
        m.append(" here. If it's someone else's branch, fetch it first");
    } else {
        m.append(name);
        m.append(" is on more than one remote, so say which: ");
        m.append(crate::text::join(tracking, ", ").as_str());
    }
    Err(m)
}

/// Where a branch parted from its base, as git's merge-base answered: nothing means no
/// shared history, and the tip itself means nothing beyond the base.
pub open spec fn parted_spec(found: Seq<char>, tip: Seq<char>, base: Seq<char>, right: Seq<char>) -> Result<Seq<char>, Seq<char>> {
    if found.len() == 0 {
        Err(right + " and "@ + base + " share no history, so there's nothing between them"@)
    } else if found == tip {
        Err(right + " has nothing beyond "@ + base + ", so there's nothing to read"@)
    } else {
        Ok(found)
    }
}

/// Where a branch parted from its base, or why there's nothing to read.
pub fn parted_before(found: &str, tip: &str, base: &str, right: &str) -> (r: Result<String, String>)
    ensures
        match r {
            Ok(s) => parted_spec(found@, tip@, base@, right@) == Ok::<Seq<char>, Seq<char>>(s@),
            Err(m) => parted_spec(found@, tip@, base@, right@) == Err::<Seq<char>, Seq<char>>(m@),
        },
{
    let mut m = String::new();
    if found.is_empty() {
        m.append(right);
        m.append(" and ");
        m.append(base);
        m.append(" share no history, so there's nothing between them");
        return Err(m);
    }
    if str_eq(found, tip) {
        m.append(right);
        m.append(" has nothing beyond ");
        m.append(base);
        m.append(", so there's nothing to read");
        return Err(m);
    }
    Ok(owned(found))
}

/// The revision that means the files as they are right now, uncommitted edits included.
pub open spec fn current_spec() -> Seq<char> {
    "current"@
}

/// What's worth reviewing: unfinished work when there is any, from the last commit to now;
/// failing that, the last commit, with its subject as the title.
pub fn worth_reviewing(dirty: bool, subject: Option<String>) -> (r: crate::protocol::Revisions)
    ensures
        dirty ==> r.before@ == "HEAD"@ && r.after@ == current_spec() && r.title is None,
        !dirty ==> r.before@ == "HEAD~1"@ && r.after@ == "HEAD"@ && r.title == subject,
{
    if dirty {
        crate::protocol::Revisions { before: owned("HEAD"), after: owned("current"), title: None }
    } else {
        crate::protocol::Revisions { before: owned("HEAD~1"), after: owned("HEAD"), title: subject }
    }
}

/// A commit's subject, when its line has anything on it.
pub fn subject_of(line: String) -> (r: Option<String>)
    ensures
        line@.len() == 0 ==> r is None,
        line@.len() > 0 ==> r == Some(line),
{
    if line.as_str().is_empty() { None } else { Some(line) }
}

/// A path with any slashes on its end taken off.
pub open spec fn without_trailing_slash(p: Seq<char>) -> Seq<char>
    decreases p.len(),
{
    if p.len() > 0 && p.last() == '/' {
        without_trailing_slash(p.drop_last())
    } else {
        p
    }
}

/// What `status --porcelain --ignored` names as ignored: the path after the `!! ` mark, with
/// no slash on its end. Any other entry names nothing ignored.
pub open spec fn ignored_spec(entry: Seq<char>) -> Option<Seq<char>> {
    if entry.len() >= 3 && entry.take(3) == "!! "@ {
        Some(without_trailing_slash(entry.skip(3)))
    } else {
        None
    }
}

/// The ignored path an entry of git's status names, if it names one.
pub fn ignored_entry(entry: &str) -> (r: Option<String>)
    ensures
        match r {
            Some(p) => ignored_spec(entry@) == Some(p@),
            None => ignored_spec(entry@) is None,
        },
{
    let cs = chars_of(entry);
    let mark = "!! ";
    proof {
        reveal_strlit("!! ");
    }
    if !(cs.len() >= 3 && cs[0] == '!' && cs[1] == '!' && cs[2] == ' ') {
        assert(ignored_spec(entry@) is None) by {
            if entry@.len() >= 3 && entry@.take(3) == mark@ {
                assert(entry@.take(3)[0] == '!' && entry@.take(3)[1] == '!' && entry@.take(3)[2] == ' ');
            }
        }
        return None;
    }
    assert(entry@.take(3) =~= mark@);
    let mut end = cs.len();
    assert(cs@.subrange(3, end as int) =~= entry@.skip(3));
    while end > 3 && cs[end - 1] == '/'
        invariant
            cs@ == entry@,
            3 <= end <= cs@.len(),
            without_trailing_slash(entry@.skip(3)) == without_trailing_slash(cs@.subrange(3, end as int)),
        decreases end,
    {
        assert(cs@.subrange(3, end as int).drop_last() =~= cs@.subrange(3, end - 1));
        end = end - 1;
    }
    let mut kept: Vec<char> = Vec::new();
    for k in 3..end
        invariant
            3 <= end <= cs@.len(),
            kept@ == cs@.subrange(3, k as int),
    {
        kept.push(cs[k]);
        assert(kept@ =~= cs@.subrange(3, k + 1));
    }
    Some(string_of(&kept))
}

} // verus!
