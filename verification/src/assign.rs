//! Deciding who speaks for each file, before any adapter is started.
//!
//! Keeping this on our side means adapter authors never write glob matching, and a
//! surprising assignment can be printed rather than guessed at.

use crate::text::{owned, views};
use vstd::prelude::*;

verus! {

/// Who speaks for which file.
#[derive(Debug, Default)]
pub struct Assignment {
    /// Files for each configured extractor, in the order they were configured.
    pub extractors: Vec<Vec<String>>,
    /// Files nobody claimed, which get read whole.
    pub fallback: Vec<String>,
    pub ignored: usize,
}

/// Whether `glob` is a pattern the `glob` crate's `Pattern::new` accepts.
pub uninterp spec fn glob_ok(glob: Seq<char>) -> bool;

/// Whether the `glob` crate's pattern written `glob` matches `file`, as
/// `Pattern::matches` decides it.
pub uninterp spec fn glob_matches(glob: Seq<char>, file: Seq<char>) -> bool;

/// Whether a glob is a valid pattern. Calls `glob::Pattern::new`; the contract names
/// whether it succeeds without saying which patterns do.
#[verifier::external_body]
fn valid_glob(glob: &str) -> (r: bool)
    ensures
        r == glob_ok(glob@),
{
    glob::Pattern::new(glob).is_ok()
}

/// Whether a valid glob matches a file. Calls `glob::Pattern::new` and
/// `Pattern::matches`; the contract names the answer without saying what it is.
#[verifier::external_body]
fn glob_match(glob: &str, file: &str) -> (r: bool)
    requires
        glob_ok(glob@),
    ensures
        r == glob_matches(glob@, file@),
{
    match glob::Pattern::new(glob) {
        Ok(pattern) => pattern.matches(file),
        Err(_) => false,
    }
}

/// Some glob of a list matches a file.
pub open spec fn any_match(globs: Seq<Seq<char>>, file: Seq<char>) -> bool {
    exists|g: int| 0 <= g < globs.len() && glob_matches(#[trigger] globs[g], file)
}

/// The extractor whose globs claim a file, the last that does: a broad rule can be
/// narrowed by a later one.
pub open spec fn claimant(includes: Seq<Seq<Seq<char>>>, file: Seq<char>) -> Option<int>
    decreases includes.len(),
{
    if includes.len() == 0 {
        None
    } else if any_match(includes.last(), file) {
        Some(includes.len() - 1)
    } else {
        claimant(includes.drop_last(), file)
    }
}

/// The first glob of a list that is no valid pattern.
pub open spec fn first_bad(globs: Seq<Seq<char>>) -> Option<Seq<char>>
    decreases globs.len(),
{
    if globs.len() == 0 {
        None
    } else if !glob_ok(globs[0]) {
        Some(globs[0])
    } else {
        first_bad(globs.drop_first())
    }
}

/// Each extractor's globs, one list after another.
pub open spec fn flat(includes: Seq<Seq<Seq<char>>>) -> Seq<Seq<char>>
    decreases includes.len(),
{
    if includes.len() == 0 { Seq::empty() } else { flat(includes.drop_last()) + includes.last() }
}

/// Each extractor's globs from the `e`th on, one list after another.
pub open spec fn flat_from(includes: Seq<Seq<Seq<char>>>, e: int) -> Seq<Seq<char>>
    decreases includes.len() - e,
{
    if e >= includes.len() { Seq::empty() } else { includes[e] + flat_from(includes, e + 1) }
}

proof fn lemma_flat_prefix(includes: Seq<Seq<Seq<char>>>, e: int)
    requires
        0 <= e <= includes.len(),
    ensures
        flat(includes) == flat(includes.subrange(0, e)) + flat_from(includes, e),
    decreases includes.len() - e,
{
    if e < includes.len() {
        lemma_flat_prefix(includes, e + 1);
        assert(includes.subrange(0, e + 1).drop_last() =~= includes.subrange(0, e));
        assert(includes.subrange(0, e + 1).last() == includes[e]);
        assert(flat(includes.subrange(0, e + 1)) == flat(includes.subrange(0, e)) + includes[e]);
        assert(flat(includes.subrange(0, e)) + includes[e] + flat_from(includes, e + 1) =~= flat(includes.subrange(0, e)) + (includes[e]
            + flat_from(includes, e + 1)));
    } else {
        assert(includes.subrange(0, e) =~= includes);
        assert(flat(includes) + Seq::<Seq<char>>::empty() =~= flat(includes));
    }
}

proof fn lemma_first_bad_concat(a: Seq<Seq<char>>, b: Seq<Seq<char>>)
    ensures
        first_bad(a + b) == if first_bad(a) is Some { first_bad(a) } else { first_bad(b) },
    decreases a.len(),
{
    if a.len() > 0 {
        assert((a + b).drop_first() =~= a.drop_first() + b);
        assert((a + b)[0] == a[0]);
        lemma_first_bad_concat(a.drop_first(), b);
    } else {
        assert(a + b =~= b);
    }
}

proof fn lemma_first_bad_none(a: Seq<Seq<char>>)
    requires
        forall|g: int| 0 <= g < a.len() ==> glob_ok(#[trigger] a[g]),
    ensures
        first_bad(a) is None,
    decreases a.len(),
{
    if a.len() > 0 {
        assert(glob_ok(a[0]));
        assert forall|g: int| 0 <= g < a.drop_first().len() implies glob_ok(#[trigger] a.drop_first()[g]) by {
            assert(a.drop_first()[g] == a[g + 1]);
        }
        lemma_first_bad_none(a.drop_first());
    }
}

proof fn lemma_first_bad_at(a: Seq<Seq<char>>, i: int)
    requires
        0 <= i < a.len(),
        !glob_ok(a[i]),
        forall|g: int| 0 <= g < i ==> glob_ok(#[trigger] a[g]),
    ensures
        first_bad(a) == Some(a[i]),
    decreases i,
{
    if i > 0 {
        assert(glob_ok(a[0]));
        assert forall|g: int| 0 <= g < i - 1 implies glob_ok(#[trigger] a.drop_first()[g]) by {
            assert(a.drop_first()[g] == a[g + 1]);
        }
        lemma_first_bad_at(a.drop_first(), i - 1);
    }
}

/// The files, of some, that an extractor (or nobody, for `None`) speaks for once the
/// ignored are left out.
pub open spec fn files_for(ignore: Seq<Seq<char>>, includes: Seq<Seq<Seq<char>>>, files: Seq<Seq<char>>, who: Option<int>) -> Seq<Seq<char>>
    decreases files.len(),
{
    if files.len() == 0 {
        Seq::empty()
    } else {
        let f = files.last();
        files_for(ignore, includes, files.drop_last(), who) + if !any_match(ignore, f) && claimant(includes, f) == who {
            seq![f]
        } else {
            Seq::empty()
        }
    }
}

/// How many of some files are ignored.
pub open spec fn ignored_count(ignore: Seq<Seq<char>>, files: Seq<Seq<char>>) -> nat
    decreases files.len(),
{
    if files.len() == 0 {
        0
    } else {
        ignored_count(ignore, files.drop_last()) + if any_match(ignore, files.last()) { 1nat } else { 0nat }
    }
}

/// The views of each extractor's globs.
pub open spec fn glob_views(includes: Seq<Vec<String>>) -> Seq<Seq<Seq<char>>> {
    includes.map_values(|g: Vec<String>| views(g@))
}

/// Whether any glob of a list matches a file.
fn matches_any(globs: &Vec<String>, file: &str) -> (r: bool)
    requires
        forall|g: int| 0 <= g < globs@.len() ==> glob_ok(#[trigger] globs@[g]@),
    ensures
        r == any_match(views(globs@), file@),
{
    for g in 0..globs.len()
        invariant
            forall|x: int| 0 <= x < globs@.len() ==> glob_ok(#[trigger] globs@[x]@),
            forall|x: int| 0 <= x < g ==> !glob_matches(#[trigger] views(globs@)[x], file@),
    {
        if glob_match(globs[g].as_str(), file) {
            assert(glob_matches(views(globs@)[g as int], file@));
            return true;
        }
    }
    false
}

/// The first invalid glob of a list, if any.
fn bad_in(globs: &Vec<String>) -> (r: Option<usize>)
    ensures
        match r {
            Some(g) => g < globs@.len() && !glob_ok(globs@[g as int]@) && forall|x: int| 0 <= x < g ==> glob_ok(#[trigger] globs@[x]@),
            None => forall|x: int| 0 <= x < globs@.len() ==> glob_ok(#[trigger] globs@[x]@),
        },
{
    for g in 0..globs.len()
        invariant
            forall|x: int| 0 <= x < g ==> glob_ok(#[trigger] globs@[x]@),
    {
        if !valid_glob(globs[g].as_str()) {
            return Some(g);
        }
    }
    None
}

/// Every extractor's globs are valid: the claim of each file can be asked.
pub open spec fn all_ok(includes: Seq<Vec<String>>) -> bool {
    forall|e: int, g: int| 0 <= e < includes.len() && 0 <= g < includes[e]@.len() ==> glob_ok(#[trigger] includes[e]@[g]@)
}

/// The extractor that claims a file: the last with a glob that matches it.
fn claim(includes: &Vec<Vec<String>>, file: &str) -> (r: Option<usize>)
    requires
        all_ok(includes@),
    ensures
        match r {
            Some(x) => x < includes@.len() && claimant(glob_views(includes@), file@) == Some(x as int),
            None => claimant(glob_views(includes@), file@) is None,
        },
{
    let ghost inc = glob_views(includes@);
    let mut e = includes.len();
    assert(inc.subrange(0, e as int) =~= inc);
    while e > 0
        invariant
            all_ok(includes@),
            inc == glob_views(includes@),
            e <= includes@.len(),
            claimant(inc, file@) == claimant(inc.subrange(0, e as int), file@),
        decreases e,
    {
        assert(inc.subrange(0, e as int).drop_last() =~= inc.subrange(0, e - 1));
        assert(inc.subrange(0, e as int).last() == views(includes@[e - 1]@));
        if matches_any(&includes[e - 1], file) {
            return Some(e - 1);
        }
        e = e - 1;
    }
    assert(inc.subrange(0, 0) =~= Seq::<Seq<Seq<char>>>::empty());
    None
}

/// Who speaks for each file: for each file, in order, the ignored are counted and left
/// out, the last extractor with a glob that matches takes the rest, and what nobody
/// claims is read whole. A glob that is no valid pattern stops it, the ignored checked
/// first and then each extractor's in order, and is named in what is said.
pub fn assign(ignore: &Vec<String>, includes: &Vec<Vec<String>>, files: &Vec<String>) -> (r: Result<Assignment, String>)
    ensures
        match r {
            Err(m) => first_bad(views(ignore@) + flat(glob_views(includes@))) matches Some(bad) && m@ == bad + " isn't a valid pattern"@,
            Ok(a) => {
                &&& first_bad(views(ignore@) + flat(glob_views(includes@))) is None
                &&& forall|g: int| 0 <= g < ignore@.len() ==> glob_ok(#[trigger] ignore@[g]@)
                &&& all_ok(includes@)
                &&& a.extractors@.len() == includes@.len()
                &&& forall|e: int| 0 <= e < includes@.len() ==> views(#[trigger] a.extractors@[e]@) == files_for(
                    views(ignore@),
                    glob_views(includes@),
                    views(files@),
                    Some(e),
                )
                &&& views(a.fallback@) == files_for(views(ignore@), glob_views(includes@), views(files@), None)
                &&& a.ignored == ignored_count(views(ignore@), views(files@))
            },
        },
{
    let ghost ig = views(ignore@);
    let ghost inc = glob_views(includes@);
    proof {
        lemma_first_bad_concat(ig, flat(inc));
    }
    match bad_in(ignore) {
        Some(g) => {
            proof {
                lemma_first_bad_at(ig, g as int);
            }
            let mut m = ignore[g].clone();
            m.append(" isn't a valid pattern");
            return Err(m);
        },
        None => {
            proof {
                lemma_first_bad_none(ig);
            }
        },
    }
    assert(inc.subrange(0, 0) =~= Seq::<Seq<Seq<char>>>::empty());
    for e in 0..includes.len()
        invariant
            inc == glob_views(includes@),
            ig == views(ignore@),
            first_bad(ig + flat(inc)) == first_bad(flat(inc)),
            first_bad(flat(inc.subrange(0, e as int))) is None,
            forall|x: int, g: int| 0 <= x < e && 0 <= g < includes@[x]@.len() ==> glob_ok(#[trigger] includes@[x]@[g]@),
    {
        let ghost done = inc.subrange(0, e as int);
        assert(inc.subrange(0, e + 1).drop_last() =~= done);
        assert(inc.subrange(0, e + 1).last() == inc[e as int]);
        assert(inc[e as int] == views(includes@[e as int]@));
        proof {
            lemma_first_bad_concat(flat(done), inc[e as int]);
            lemma_flat_prefix(inc, e + 1);
            lemma_first_bad_concat(flat(inc.subrange(0, e + 1)), flat_from(inc, e + 1));
        }
        match bad_in(&includes[e]) {
            Some(g) => {
                proof {
                    lemma_first_bad_at(inc[e as int], g as int);
                    assert(flat(inc.subrange(0, e + 1)) == flat(done) + inc[e as int]);
                    assert(first_bad(flat(inc.subrange(0, e + 1))) == Some(inc[e as int][g as int]));
                    assert(first_bad(flat(inc)) == Some(inc[e as int][g as int]));
                    assert(inc[e as int][g as int] == includes@[e as int]@[g as int]@);
                }
                let mut m = includes[e][g].clone();
                m.append(" isn't a valid pattern");
                return Err(m);
            },
            None => {
                proof {
                    lemma_first_bad_none(inc[e as int]);
                }
            },
        }
    }
    assert(inc.subrange(0, includes@.len() as int) =~= inc);
    let ghost fs = views(files@);
    let mut extractors: Vec<Vec<String>> = Vec::new();
    for e in 0..includes.len()
        invariant
            extractors@.len() == e,
            forall|x: int| 0 <= x < e ==> (#[trigger] extractors@[x])@.len() == 0,
    {
        extractors.push(Vec::new());
    }
    let mut fallback: Vec<String> = Vec::new();
    let mut ignored: usize = 0;
    for i in 0..files.len()
        invariant
            forall|g: int| 0 <= g < ignore@.len() ==> glob_ok(#[trigger] ignore@[g]@),
            all_ok(includes@),
            ig == views(ignore@),
            inc == glob_views(includes@),
            fs == views(files@),
            extractors@.len() == includes@.len(),
            forall|e: int| 0 <= e < includes@.len() ==> views(#[trigger] extractors@[e]@) == files_for(ig, inc, fs.subrange(0, i as int), Some(e)),
            views(fallback@) == files_for(ig, inc, fs.subrange(0, i as int), None),
            ignored == ignored_count(ig, fs.subrange(0, i as int)),
            ignored <= i,
    {
        let ghost prefix = fs.subrange(0, i as int);
        let ghost next = fs.subrange(0, i + 1);
        assert(next.drop_last() =~= prefix);
        assert(next.last() == files@[i as int]@);
        let file = files[i].as_str();
        let ghost before_ex = extractors@;
        let ghost before_fb = fallback@;
        if matches_any(ignore, file) {
            ignored = ignored + 1;
        } else {
            let who = claim(includes, file);
            match who {
                Some(x) => {
                    let c = files[i].clone();
                    extractors[x].push(c);
                    assert(extractors@[x as int]@ == before_ex[x as int]@.push(c));
                    assert(views(extractors@[x as int]@) =~= views(before_ex[x as int]@).push(files@[i as int]@));
                },
                None => {
                    fallback.push(files[i].clone());
                    assert(views(fallback@) =~= views(before_fb).push(files@[i as int]@));
                },
            }
            proof {
                assert forall|x: int| 0 <= x < includes@.len() implies views(#[trigger] extractors@[x]@) == files_for(ig, inc, next, Some(x)) by {
                    if who != Some(x as usize) {
                        assert(extractors@[x] == before_ex[x]);
                    }
                }
            }
        }
    }
    assert(fs.subrange(0, files@.len() as int) =~= fs);
    Ok(Assignment { extractors, fallback, ignored })
}

/// How many files the first `e` extractors speak for.
pub open spec fn claimed_total(ignore: Seq<Seq<char>>, includes: Seq<Seq<Seq<char>>>, files: Seq<Seq<char>>, e: int) -> nat
    decreases e,
{
    if e <= 0 {
        0
    } else {
        claimed_total(ignore, includes, files, e - 1) + files_for(ignore, includes, files, Some(e - 1)).len()
    }
}

proof fn lemma_claimant_range(includes: Seq<Seq<Seq<char>>>, f: Seq<char>)
    ensures
        claimant(includes, f) matches Some(e) ==> 0 <= e < includes.len(),
    decreases includes.len(),
{
    if includes.len() > 0 {
        lemma_claimant_range(includes.drop_last(), f);
    }
}

proof fn lemma_total_step(ignore: Seq<Seq<char>>, includes: Seq<Seq<Seq<char>>>, files: Seq<Seq<char>>, e: int)
    requires
        files.len() > 0,
        e >= 0,
    ensures
        claimed_total(ignore, includes, files, e) == claimed_total(ignore, includes, files.drop_last(), e) + if (!any_match(
            ignore,
            files.last(),
        ) && (claimant(includes, files.last()) matches Some(c) && c < e)) {
            1nat
        } else {
            0nat
        },
    decreases e,
{
    lemma_claimant_range(includes, files.last());
    if e > 0 {
        lemma_total_step(ignore, includes, files, e - 1);
        let f = files.last();
        assert(files_for(ignore, includes, files, Some(e - 1)).len() == files_for(ignore, includes, files.drop_last(), Some(e - 1)).len()
            + if !any_match(ignore, f) && claimant(includes, f) == Some(e - 1) { 1nat } else { 0nat });
    }
}

proof fn lemma_total_none(ignore: Seq<Seq<char>>, includes: Seq<Seq<Seq<char>>>, files: Seq<Seq<char>>, e: int)
    requires
        files.len() == 0,
    ensures
        claimed_total(ignore, includes, files, e) == 0,
    decreases e,
{
    if e > 0 {
        lemma_total_none(ignore, includes, files, e - 1);
    }
}

/// Every file is accounted for exactly once: ignored, given to one extractor, or read
/// whole, so the counts add up to the files there are.
pub proof fn lemma_every_file_once(ignore: Seq<Seq<char>>, includes: Seq<Seq<Seq<char>>>, files: Seq<Seq<char>>)
    ensures
        ignored_count(ignore, files) + files_for(ignore, includes, files, None).len() + claimed_total(
            ignore,
            includes,
            files,
            includes.len() as int,
        ) == files.len(),
    decreases files.len(),
{
    if files.len() > 0 {
        lemma_every_file_once(ignore, includes, files.drop_last());
        lemma_total_step(ignore, includes, files, includes.len() as int);
        lemma_claimant_range(includes, files.last());
        let f = files.last();
        assert(files_for(ignore, includes, files, None).len() == files_for(ignore, includes, files.drop_last(), None).len()
            + if !any_match(ignore, f) && claimant(includes, f) == None::<int> { 1nat } else { 0nat });
        assert(ignored_count(ignore, files) == ignored_count(ignore, files.drop_last()) + if any_match(ignore, f) { 1nat } else { 0nat });
        if !any_match(ignore, f) {
            match claimant(includes, f) {
                Some(c) => assert(c < includes.len()),
                None => {},
            }
        }
    } else {
        lemma_total_none(ignore, includes, files, includes.len() as int);
    }
}

} // verus!
