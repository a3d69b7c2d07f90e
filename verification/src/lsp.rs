//! What a language server's answers need before the rest of dagger can use them: which
//! language a file is in, what its kinds of symbol are called, and its file names.

use crate::text::{chars_of, owned, string_of};
use vstd::prelude::*;

verus! {

/// What comes after the last dot of a path, or the whole path where there is none.
pub open spec fn extension(path: Seq<char>) -> Seq<char>
    decreases path.len(),
{
    if path.len() == 0 {
        path
    } else if path.last() == '.' {
        Seq::empty()
    } else {
        extension(path.drop_last()).push(path.last())
    }
}

/// Whether some character of a path is a dot.
pub open spec fn dotted(path: Seq<char>) -> bool {
    exists|i: int| 0 <= i < path.len() && path[i] == '.'
}

/// The language a server is told a file is in, guessed from its extension.
pub open spec fn language_spec(path: Seq<char>) -> Seq<char> {
    let e = if dotted(path) { extension(path) } else { path };
    if e == "ts"@ {
        "typescript"@
    } else if e == "tsx"@ {
        "typescriptreact"@
    } else if e == "js"@ {
        "javascript"@
    } else if e == "jsx"@ {
        "javascriptreact"@
    } else if e == "c"@ || e == "h"@ {
        "c"@
    } else if e == "cc"@ || e == "cpp"@ || e == "hpp"@ {
        "cpp"@
    } else if e == "go"@ {
        "go"@
    } else if e == "py"@ {
        "python"@
    } else if e == "rs"@ {
        "rust"@
    } else {
        "plaintext"@
    }
}

/// What follows the last dot of a path is the extension, whatever comes before the dot.
proof fn lemma_extension_after_dot(stem: Seq<char>, e: Seq<char>)
    requires
        forall|i: int| 0 <= i < e.len() ==> e[i] != '.',
    ensures
        extension(stem.push('.') + e) == e,
        dotted(stem.push('.') + e),
    decreases e.len(),
{
    let p = stem.push('.') + e;
    assert(p[stem.len() as int] == '.');
    if e.len() == 0 {
        assert(p =~= stem.push('.'));
        assert(p.drop_last() =~= stem);
    } else {
        lemma_extension_after_dot(stem, e.drop_last());
        assert(p.drop_last() =~= stem.push('.') + e.drop_last());
        assert(extension(p) =~= extension(p.drop_last()).push(e.last()));
        assert(e.drop_last().push(e.last()) =~= e);
    }
}

/// A file is told the language its extension names, whatever the rest of its path:
/// `.py` is Python, `.rs` Rust, `.go` Go, `.ts` and `.tsx` TypeScript, `.js` and `.jsx`
/// JavaScript, `.c` and `.h` C, and `.cc`, `.cpp` and `.hpp` C++.
pub proof fn lemma_language_by_extension(stem: Seq<char>)
    ensures
        language_spec(stem + ".py"@) == "python"@,
        language_spec(stem + ".rs"@) == "rust"@,
        language_spec(stem + ".go"@) == "go"@,
        language_spec(stem + ".ts"@) == "typescript"@,
        language_spec(stem + ".tsx"@) == "typescriptreact"@,
        language_spec(stem + ".js"@) == "javascript"@,
        language_spec(stem + ".jsx"@) == "javascriptreact"@,
        language_spec(stem + ".c"@) == "c"@,
        language_spec(stem + ".h"@) == "c"@,
        language_spec(stem + ".cc"@) == "cpp"@,
        language_spec(stem + ".cpp"@) == "cpp"@,
        language_spec(stem + ".hpp"@) == "cpp"@,
{
    reveal_strlit(".py");
    reveal_strlit(".rs");
    reveal_strlit(".go");
    reveal_strlit(".ts");
    reveal_strlit(".tsx");
    reveal_strlit(".js");
    reveal_strlit(".jsx");
    reveal_strlit(".c");
    reveal_strlit(".h");
    reveal_strlit(".cc");
    reveal_strlit(".cpp");
    reveal_strlit(".hpp");
    reveal_strlit("py");
    reveal_strlit("rs");
    reveal_strlit("go");
    reveal_strlit("ts");
    reveal_strlit("tsx");
    reveal_strlit("js");
    reveal_strlit("jsx");
    reveal_strlit("c");
    reveal_strlit("h");
    reveal_strlit("cc");
    reveal_strlit("cpp");
    reveal_strlit("hpp");
    let exts = seq!["py"@, "rs"@, "go"@, "ts"@, "tsx"@, "js"@, "jsx"@, "c"@, "h"@, "cc"@, "cpp"@, "hpp"@];
    assert forall|k: int| 0 <= k < exts.len() implies stem + ("."@ + exts[k]) == stem.push('.') + exts[k]
        && extension(stem.push('.') + exts[k]) == exts[k] && dotted(stem.push('.') + exts[k]) by {
        reveal_strlit(".");
        assert(stem + ("."@ + exts[k]) =~= stem.push('.') + exts[k]);
        lemma_extension_after_dot(stem, exts[k]);
    }
    reveal_strlit(".");
    assert(".py"@ =~= "."@ + "py"@);
    assert(".rs"@ =~= "."@ + "rs"@);
    assert(".go"@ =~= "."@ + "go"@);
    assert(".ts"@ =~= "."@ + "ts"@);
    assert(".tsx"@ =~= "."@ + "tsx"@);
    assert(".js"@ =~= "."@ + "js"@);
    assert(".jsx"@ =~= "."@ + "jsx"@);
    assert(".c"@ =~= "."@ + "c"@);
    assert(".h"@ =~= "."@ + "h"@);
    assert(".cc"@ =~= "."@ + "cc"@);
    assert(".cpp"@ =~= "."@ + "cpp"@);
    assert(".hpp"@ =~= "."@ + "hpp"@);
    assert(exts[0] == "py"@);
    assert(exts[1] == "rs"@);
    assert(exts[2] == "go"@);
    assert(exts[3] == "ts"@);
    assert(exts[4] == "tsx"@);
    assert(exts[5] == "js"@);
    assert(exts[6] == "jsx"@);
    assert(exts[7] == "c"@);
    assert(exts[8] == "h"@);
    assert(exts[9] == "cc"@);
    assert(exts[10] == "cpp"@);
    assert(exts[11] == "hpp"@);
    assert("rs"@[0] != "ts"@[0] && "rs"@[0] != "js"@[0] && "rs"@[0] != "cc"@[0] && "rs"@[0] != "go"@[0] && "rs"@[0] != "py"@[0]);
    assert("js"@[0] != "ts"@[0]);
    assert("jsx"@[0] != "tsx"@[0]);
    assert("rs"@.len() != "tsx"@.len() && "rs"@.len() != "c"@.len());
}

/// Whether some characters read as a text.
fn is(chars: &Vec<char>, text: &str) -> (r: bool)
    ensures
        r == (chars@ == text@),
{
    let t = chars_of(text);
    if chars.len() != t.len() {
        return false;
    }
    for i in 0..chars.len()
        invariant
            chars@.len() == t@.len(),
            t@ == text@,
            forall|k: int| 0 <= k < i ==> chars@[k] == t@[k],
    {
        if chars[i] != t[i] {
            return false;
        }
    }
    assert(chars@ =~= t@);
    true
}

/// The language a server is told a file is in, guessed from its extension.
pub fn language_of(path: &str) -> (r: &'static str)
    ensures
        r@ == language_spec(path@),
{
    let chars = chars_of(path);
    let mut i = chars.len();
    assert(chars@.subrange(0, chars@.len() as int) =~= chars@);
    assert(chars@.subrange(chars@.len() as int, chars@.len() as int) =~= Seq::<char>::empty());
    while i > 0 && chars[i - 1] != '.'
        invariant
            i <= chars@.len(),
            chars@ == path@,
            forall|k: int| i <= k < chars@.len() ==> chars@[k] != '.',
            extension(chars@) == extension(chars@.subrange(0, i as int)) + chars@.subrange(i as int, chars@.len() as int),
        decreases i,
    {
        let ghost p = chars@.subrange(0, i as int);
        assert(p.drop_last() =~= chars@.subrange(0, i - 1));
        assert(chars@.subrange(i - 1, chars@.len() as int) =~= seq![p.last()] + chars@.subrange(i as int, chars@.len() as int));
        assert(extension(p) =~= extension(p.drop_last()).push(p.last()));
        i = i - 1;
    }
    assert(chars@.subrange(0, chars@.len() as int) =~= chars@);
    let mut ext: Vec<char> = Vec::new();
    let mut k = i;
    while k < chars.len()
        invariant
            i <= k <= chars@.len(),
            ext@ == chars@.subrange(i as int, k as int),
        decreases chars@.len() - k,
    {
        ext.push(chars[k]);
        assert(chars@.subrange(i as int, k + 1) =~= chars@.subrange(i as int, k as int).push(chars@[k as int]));
        k = k + 1;
    }
    proof {
        if i > 0 {
            let p = chars@.subrange(0, i as int);
            assert(p.last() == '.');
            assert(extension(p) == Seq::<char>::empty());
            assert(chars@[i - 1] == '.');
            assert(dotted(path@));
            assert(ext@ =~= extension(chars@));
        } else {
            assert(chars@.subrange(0, 0) =~= Seq::<char>::empty());
            assert(!dotted(path@));
            assert(ext@ =~= chars@);
        }
    }
    if is(&ext, "ts") {
        "typescript"
    } else if is(&ext, "tsx") {
        "typescriptreact"
    } else if is(&ext, "js") {
        "javascript"
    } else if is(&ext, "jsx") {
        "javascriptreact"
    } else if is(&ext, "c") || is(&ext, "h") {
        "c"
    } else if is(&ext, "cc") || is(&ext, "cpp") || is(&ext, "hpp") {
        "cpp"
    } else if is(&ext, "go") {
        "go"
    } else if is(&ext, "py") {
        "python"
    } else if is(&ext, "rs") {
        "rust"
    } else {
        "plaintext"
    }
}

/// Whether a server's children of this kind are definitions of their own. A class's methods
/// are; an interface's fields are part of its contract, and listing them separately hides
/// the callers a change broke. Variables are out so an arrow function's returned keys aren't listed.
pub open spec fn holds_spec(kind: Seq<char>) -> bool {
    kind == "class"@ || kind == "namespace"@ || kind == "module"@ || kind == "package"@ || kind == "file"@
}

/// Whether this kind of thing can hold others. Same answer as whether to descend into it:
/// if its children are definitions of their own, it's a box around them.
pub fn holds(kind: &str) -> (r: bool)
    ensures
        r == holds_spec(kind@),
{
    let k = chars_of(kind);
    is(&k, "class") || is(&k, "namespace") || is(&k, "module") || is(&k, "package") || is(&k, "file")
}

/// The protocol's numbers for kinds of symbol, in the words a reader would use.
pub open spec fn kind_spec(kind: u64) -> Seq<char> {
    if kind == 1 { "file"@ }
    else if kind == 2 { "module"@ }
    else if kind == 3 { "namespace"@ }
    else if kind == 4 { "package"@ }
    else if kind == 5 { "class"@ }
    else if kind == 6 { "method"@ }
    else if kind == 7 { "property"@ }
    else if kind == 8 { "field"@ }
    else if kind == 9 { "constructor"@ }
    else if kind == 10 { "enum"@ }
    else if kind == 11 { "interface"@ }
    else if kind == 12 { "function"@ }
    else if kind == 13 { "variable"@ }
    else if kind == 14 { "constant"@ }
    else if kind == 15 { "string"@ }
    else if kind == 16 { "number"@ }
    else if kind == 17 { "boolean"@ }
    else if kind == 18 { "array"@ }
    else if kind == 19 { "object"@ }
    else if kind == 20 { "key"@ }
    else if kind == 21 { "null"@ }
    else if kind == 22 { "enum member"@ }
    else if kind == 23 { "struct"@ }
    else if kind == 24 { "event"@ }
    else if kind == 25 { "operator"@ }
    else if kind == 26 { "type parameter"@ }
    else { "definition"@ }
}

/// The protocol's numbers, in the words a reader would use. Anything unrecognised is
/// called a definition, since dagger never reads these anyway.
pub fn kind_of(kind: u64) -> (r: &'static str)
    ensures
        r@ == kind_spec(kind),
{
    if kind == 1 { "file" }
    else if kind == 2 { "module" }
    else if kind == 3 { "namespace" }
    else if kind == 4 { "package" }
    else if kind == 5 { "class" }
    else if kind == 6 { "method" }
    else if kind == 7 { "property" }
    else if kind == 8 { "field" }
    else if kind == 9 { "constructor" }
    else if kind == 10 { "enum" }
    else if kind == 11 { "interface" }
    else if kind == 12 { "function" }
    else if kind == 13 { "variable" }
    else if kind == 14 { "constant" }
    else if kind == 15 { "string" }
    else if kind == 16 { "number" }
    else if kind == 17 { "boolean" }
    else if kind == 18 { "array" }
    else if kind == 19 { "object" }
    else if kind == 20 { "key" }
    else if kind == 21 { "null" }
    else if kind == 22 { "enum member" }
    else if kind == 23 { "struct" }
    else if kind == 24 { "event" }
    else if kind == 25 { "operator" }
    else if kind == 26 { "type parameter" }
    else { "definition" }
}

/// The file a path names, as a server wants it.
pub fn uri(path: &str) -> (r: String)
    ensures
        r@ == "file://"@ + path@,
{
    let mut r = owned("file://");
    r.append(path);
    r
}

/// The path left once `root` is taken off the front of `path`, going by whole components,
/// as `Path::strip_prefix` does; nothing where `root` doesn't lead to `path`.
pub uninterp spec fn path_under(path: Seq<char>, root: Seq<char>) -> Option<Seq<char>>;

/// Takes `root` off the front of `path`. Calls `std::path::Path::strip_prefix`, which
/// compares whole components; the contract names its result without saying more.
#[verifier::external_body]
fn strip_root(path: &str, root: &str) -> (r: Option<String>)
    ensures
        match r {
            Some(s) => path_under(path@, root@) == Some(s@),
            None => path_under(path@, root@) is None,
        },
{
    std::path::Path::new(path).strip_prefix(root).ok().map(|rest| rest.to_string_lossy().into_owned())
}

/// A file a server named, as a path inside `root`: nothing where it isn't a file URI or
/// doesn't lie under `root`.
pub fn relative(uri: &str, root: &str) -> (r: Option<String>)
    ensures
        !(uri@.len() >= 7 && uri@.subrange(0, 7) == "file://"@) ==> r is None,
        uri@.len() >= 7 && uri@.subrange(0, 7) == "file://"@ ==> match r {
            Some(s) => path_under(uri@.subrange(7, uri@.len() as int), root@) == Some(s@),
            None => path_under(uri@.subrange(7, uri@.len() as int), root@) is None,
        },
{
    let chars = chars_of(uri);
    let scheme = chars_of("file://");
    proof {
        reveal_strlit("file://");
    }
    if chars.len() < 7 {
        return None;
    }
    let mut k: usize = 0;
    while k < 7
        invariant
            k <= 7,
            chars@ == uri@,
            scheme@ == "file://"@,
            chars@.len() >= 7,
            scheme@.len() == 7,
            forall|x: int| 0 <= x < k ==> chars@[x] == scheme@[x],
        decreases 7 - k,
    {
        if chars[k] != scheme[k] {
            assert(chars@.subrange(0, 7)[k as int] != scheme@[k as int]);
            return None;
        }
        k = k + 1;
    }
    assert(chars@.subrange(0, 7) =~= scheme@);
    let mut rest: Vec<char> = Vec::new();
    let mut i: usize = 7;
    while i < chars.len()
        invariant
            7 <= i <= chars@.len(),
            rest@ == chars@.subrange(7, i as int),
        decreases chars@.len() - i,
    {
        rest.push(chars[i]);
        assert(chars@.subrange(7, i + 1) =~= chars@.subrange(7, i as int).push(chars@[i as int]));
        i = i + 1;
    }
    let path = string_of(&rest);
    strip_root(path.as_str(), root)
}

} // verus!
