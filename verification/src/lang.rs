//! The language of a file, guessed from its extension, for the code fence's info string.

use vstd::prelude::*;

use crate::size::{ascii_lowercase, chars_to_ascii_lowercase};
use crate::text::{chars_eq, chars_of};

verus! {

/// Index just past the last '/' of `p` (0 when it has none).
pub open spec fn after_last_slash(p: Seq<char>) -> nat
    decreases p.len(),
{
    if p.len() == 0 {
        0
    } else if p.last() == '/' {
        p.len()
    } else {
        after_last_slash(p.drop_last())
    }
}

pub proof fn lemma_after_last_slash_bound(p: Seq<char>)
    ensures
        after_last_slash(p) <= p.len(),
    decreases p.len(),
{
    if p.len() > 0 {
        lemma_after_last_slash_bound(p.drop_last());
    }
}

/// `Path::file_name` for a path with '/' separators: its last component, skipping trailing
/// separators and `.` components; none when that component is `..` or there is none.
pub open spec fn file_name(p: Seq<char>) -> Option<Seq<char>>
    decreases p.len(),
{
    if p.len() > 0 && p.last() == '/' {
        file_name(p.drop_last())
    } else {
        let start = after_last_slash(p);
        let name = p.skip(start as int);
        if name.len() == 0 {
            None
        } else if name == seq!['.'] {
            if start == 0 {
                None
            } else {
                proof {
                    lemma_after_last_slash_bound(p);
                }
                file_name(p.take(start as int))
            }
        } else if name == seq!['.', '.'] {
            None
        } else {
            Some(name)
        }
    }
}

/// Index just past the last '.' of `s` (0 when it has none).
pub open spec fn after_last_dot(s: Seq<char>) -> nat
    decreases s.len(),
{
    if s.len() == 0 {
        0
    } else if s.last() == '.' {
        s.len()
    } else {
        after_last_dot(s.drop_last())
    }
}

/// `Path::extension`: what follows the last '.' of the file name, unless that '.' starts
/// the name or there is none (or the name is `..`).
pub open spec fn extension(p: Seq<char>) -> Option<Seq<char>> {
    match file_name(p) {
        None => None,
        Some(name) => if after_last_dot(name) <= 1 {
            None
        } else {
            Some(name.skip(after_last_dot(name) as int))
        },
    }
}

/// The fence info string for a lower-case extension ("" when unknown).
pub open spec fn language_of_extension(e: Seq<char>) -> Seq<char> {
    if e == "rs"@ {
        "rust"@
    } else if e == "ts"@ || e == "mts"@ || e == "cts"@ {
        "ts"@
    } else if e == "tsx"@ {
        "tsx"@
    } else if e == "js"@ || e == "mjs"@ || e == "cjs"@ {
        "js"@
    } else if e == "jsx"@ {
        "jsx"@
    } else if e == "py"@ {
        "python"@
    } else if e == "rb"@ {
        "ruby"@
    } else if e == "go"@ {
        "go"@
    } else if e == "java"@ {
        "java"@
    } else if e == "c"@ || e == "h"@ {
        "c"@
    } else if e == "cpp"@ || e == "cc"@ || e == "hpp"@ {
        "cpp"@
    } else if e == "cs"@ {
        "csharp"@
    } else if e == "php"@ {
        "php"@
    } else if e == "sh"@ || e == "bash"@ || e == "zsh"@ {
        "bash"@
    } else if e == "md"@ || e == "markdown"@ {
        "markdown"@
    } else if e == "json"@ {
        "json"@
    } else if e == "toml"@ {
        "toml"@
    } else if e == "yaml"@ || e == "yml"@ {
        "yaml"@
    } else if e == "html"@ || e == "htm"@ {
        "html"@
    } else if e == "css"@ {
        "css"@
    } else if e == "sql"@ {
        "sql"@
    } else if e == "xml"@ {
        "xml"@
    } else {
        ""@
    }
}

/// The fence info string for a path: by its extension, compared without regard to ASCII
/// case ("" when it has none or it is unknown).
pub open spec fn language_of_path(p: Seq<char>) -> Seq<char> {
    match extension(p) {
        Some(e) => language_of_extension(ascii_lowercase(e)),
        None => language_of_extension(Seq::<char>::empty()),
    }
}

proof fn lemma_after_last_slash_at(p: Seq<char>, i: int)
    requires
        0 <= i <= p.len(),
        i == 0 || p[i - 1] == '/',
        forall|k: int| i <= k < p.len() ==> #[trigger] p[k] != '/',
    ensures
        after_last_slash(p) == i,
    decreases p.len(),
{
    if p.len() > i {
        assert forall|k: int| i <= k < p.drop_last().len() implies #[trigger] p.drop_last()[k] != '/' by {
            assert(p.drop_last()[k] == p[k]);
        }
        assert(p.last() == p[p.len() - 1]);
        lemma_after_last_slash_at(p.drop_last(), i);
    } else if p.len() > 0 {
        assert(p.last() == p[i - 1]);
    }
}

proof fn lemma_after_last_dot_at(p: Seq<char>, i: int)
    requires
        0 <= i <= p.len(),
        i == 0 || p[i - 1] == '.',
        forall|k: int| i <= k < p.len() ==> #[trigger] p[k] != '.',
    ensures
        after_last_dot(p) == i,
    decreases p.len(),
{
    if p.len() > i {
        assert forall|k: int| i <= k < p.drop_last().len() implies #[trigger] p.drop_last()[k] != '.' by {
            assert(p.drop_last()[k] == p[k]);
        }
        assert(p.last() == p[p.len() - 1]);
        lemma_after_last_dot_at(p.drop_last(), i);
    } else if p.len() > 0 {
        assert(p.last() == p[i - 1]);
    }
}

/// The file name of a path, as characters.
fn file_name_of(p: &Vec<char>) -> (r: Option<Vec<char>>)
    ensures
        r matches Some(v) ==> file_name(p@) == Some(v@),
        r is None ==> file_name(p@) is None,
{
    let mut end: usize = p.len();
    assert(p@.take(end as int) =~= p@);
    loop
        invariant
            end <= p@.len(),
            file_name(p@) == file_name(p@.take(end as int)),
        decreases end,
    {
        let ghost q = p@.take(end as int);
        // Strip trailing separators.
        if end > 0 && p[end - 1] == '/' {
            assert(q.last() == p@[end - 1]);
            assert(q.drop_last() =~= p@.take(end - 1));
            end = end - 1;
            continue;
        }
        // Find the start of the last component.
        let mut start: usize = end;
        while start > 0 && p[start - 1] != '/'
            invariant
                start <= end <= p@.len(),
                forall|k: int| start <= k < end ==> #[trigger] p@[k] != '/',
            decreases start,
        {
            start = start - 1;
        }
        proof {
            assert forall|k: int| start <= k < q.len() implies #[trigger] q[k] != '/' by {
                assert(q[k] == p@[k]);
            }
            if start > 0 {
                assert(q[start - 1] == p@[start - 1]);
            }
            lemma_after_last_slash_at(q, start as int);
            assert(!(q.len() > 0 && q.last() == '/')) by {
                if q.len() > 0 {
                    assert(q.last() == p@[end - 1]);
                }
            }
        }
        let ghost name = q.skip(start as int);
        assert(name =~= p@.subrange(start as int, end as int));
        let len = end - start;
        if len == 0 {
            return None;
        }
        if len == 1 && p[start] == '.' {
            assert(name =~= seq!['.']);
            if start == 0 {
                return None;
            }
            assert(q.take(start as int) =~= p@.take(start as int));
            end = start;
            continue;
        }
        if len == 1 {
            assert(name != seq!['.']) by {
                assert(name[0] == p@[start as int]);
            }
        }
        if len == 2 && p[start] == '.' && p[start + 1] == '.' {
            assert(name =~= seq!['.', '.']);
            return None;
        }
        if len == 2 {
            assert(name != seq!['.', '.']) by {
                assert(name[0] == p@[start as int]);
                assert(name[1] == p@[start + 1]);
            }
        }
        let mut out: Vec<char> = Vec::new();
        let mut k: usize = start;
        while k < end
            invariant
                start <= k <= end <= p@.len(),
                out@ == p@.subrange(start as int, k as int),
            decreases end - k,
        {
            out.push(p[k]);
            k = k + 1;
            assert(out@ =~= p@.subrange(start as int, k as int));
        }
        return Some(out);
    }
}

/// The extension of a path, as characters.
fn extension_of(p: &Vec<char>) -> (r: Option<Vec<char>>)
    ensures
        r matches Some(v) ==> extension(p@) == Some(v@),
        r is None ==> extension(p@) is None,
{
    let name = match file_name_of(p) {
        Some(n) => n,
        None => {
            return None;
        },
    };
    let mut dot: usize = name.len();
    while dot > 0 && name[dot - 1] != '.'
        invariant
            dot <= name@.len(),
            forall|k: int| dot <= k < name@.len() ==> #[trigger] name@[k] != '.',
        decreases dot,
    {
        dot = dot - 1;
    }
    proof {
        lemma_after_last_dot_at(name@, dot as int);
    }
    if dot <= 1 {
        return None;
    }
    let mut out: Vec<char> = Vec::new();
    let mut k: usize = dot;
    while k < name.len()
        invariant
            dot <= k <= name@.len(),
            out@ == name@.subrange(dot as int, k as int),
        decreases name@.len() - k,
    {
        out.push(name[k]);
        k = k + 1;
        assert(out@ =~= name@.subrange(dot as int, k as int));
    }
    assert(out@ =~= name@.skip(dot as int));
    Some(out)
}

/// Whether the characters of `v` are those of `s`.
fn chars_are_str(v: &Vec<char>, s: &str) -> (r: bool)
    ensures
        r == (v@ == s@),
{
    let w = chars_of(s);
    chars_eq(v, &w)
}

/// The info string for a lower-case extension.
fn language_of_ext(e: &Vec<char>) -> (r: &'static str)
    ensures
        r@ == language_of_extension(e@),
{
    if chars_are_str(e, "rs") {
        "rust"
    } else if chars_are_str(e, "ts") || chars_are_str(e, "mts") || chars_are_str(e, "cts") {
        "ts"
    } else if chars_are_str(e, "tsx") {
        "tsx"
    } else if chars_are_str(e, "js") || chars_are_str(e, "mjs") || chars_are_str(e, "cjs") {
        "js"
    } else if chars_are_str(e, "jsx") {
        "jsx"
    } else if chars_are_str(e, "py") {
        "python"
    } else if chars_are_str(e, "rb") {
        "ruby"
    } else if chars_are_str(e, "go") {
        "go"
    } else if chars_are_str(e, "java") {
        "java"
    } else if chars_are_str(e, "c") || chars_are_str(e, "h") {
        "c"
    } else if chars_are_str(e, "cpp") || chars_are_str(e, "cc") || chars_are_str(e, "hpp") {
        "cpp"
    } else if chars_are_str(e, "cs") {
        "csharp"
    } else if chars_are_str(e, "php") {
        "php"
    } else if chars_are_str(e, "sh") || chars_are_str(e, "bash") || chars_are_str(e, "zsh") {
        "bash"
    } else if chars_are_str(e, "md") || chars_are_str(e, "markdown") {
        "markdown"
    } else if chars_are_str(e, "json") {
        "json"
    } else if chars_are_str(e, "toml") {
        "toml"
    } else if chars_are_str(e, "yaml") || chars_are_str(e, "yml") {
        "yaml"
    } else if chars_are_str(e, "html") || chars_are_str(e, "htm") {
        "html"
    } else if chars_are_str(e, "css") {
        "css"
    } else if chars_are_str(e, "sql") {
        "sql"
    } else if chars_are_str(e, "xml") {
        "xml"
    } else {
        ""
    }
}

/// Guess a code-fence info string (language) from a file extension.
pub fn lang_for_path(path: &str) -> (r: &'static str)
    ensures
        r@ == language_of_path(path@),
{
    let p = chars_of(path);
    match extension_of(&p) {
        Some(e) => {
            let lower = chars_to_ascii_lowercase(&e);
            language_of_ext(&lower)
        },
        None => {
            let empty: Vec<char> = Vec::new();
            assert(empty@ =~= Seq::<char>::empty());
            language_of_ext(&empty)
        },
    }
}

/// The extension table, written out letter by letter: each known extension (already in
/// lower case) and the fence info string it gives.
pub proof fn law_extension_table()
    ensures
        language_of_extension(seq!['r', 's']) == seq!['r', 'u', 's', 't'],
        language_of_extension(seq!['t', 's']) == seq!['t', 's'],
        language_of_extension(seq!['m', 't', 's']) == seq!['t', 's'],
        language_of_extension(seq!['c', 't', 's']) == seq!['t', 's'],
        language_of_extension(seq!['t', 's', 'x']) == seq!['t', 's', 'x'],
        language_of_extension(seq!['j', 's']) == seq!['j', 's'],
        language_of_extension(seq!['m', 'j', 's']) == seq!['j', 's'],
        language_of_extension(seq!['c', 'j', 's']) == seq!['j', 's'],
        language_of_extension(seq!['j', 's', 'x']) == seq!['j', 's', 'x'],
        language_of_extension(seq!['p', 'y']) == seq!['p', 'y', 't', 'h', 'o', 'n'],
        language_of_extension(seq!['r', 'b']) == seq!['r', 'u', 'b', 'y'],
        language_of_extension(seq!['g', 'o']) == seq!['g', 'o'],
        language_of_extension(seq!['j', 'a', 'v', 'a']) == seq!['j', 'a', 'v', 'a'],
        language_of_extension(seq!['c']) == seq!['c'],
        language_of_extension(seq!['h']) == seq!['c'],
        language_of_extension(seq!['c', 'p', 'p']) == seq!['c', 'p', 'p'],
        language_of_extension(seq!['c', 'c']) == seq!['c', 'p', 'p'],
        language_of_extension(seq!['h', 'p', 'p']) == seq!['c', 'p', 'p'],
        language_of_extension(seq!['c', 's']) == seq!['c', 's', 'h', 'a', 'r', 'p'],
        language_of_extension(seq!['p', 'h', 'p']) == seq!['p', 'h', 'p'],
        language_of_extension(seq!['s', 'h']) == seq!['b', 'a', 's', 'h'],
        language_of_extension(seq!['b', 'a', 's', 'h']) == seq!['b', 'a', 's', 'h'],
        language_of_extension(seq!['z', 's', 'h']) == seq!['b', 'a', 's', 'h'],
        language_of_extension(seq!['m', 'd']) == seq!['m', 'a', 'r', 'k', 'd', 'o', 'w', 'n'],
        language_of_extension(seq!['m', 'a', 'r', 'k', 'd', 'o', 'w', 'n']) == seq!['m', 'a', 'r', 'k', 'd', 'o', 'w', 'n'],
        language_of_extension(seq!['j', 's', 'o', 'n']) == seq!['j', 's', 'o', 'n'],
        language_of_extension(seq!['t', 'o', 'm', 'l']) == seq!['t', 'o', 'm', 'l'],
        language_of_extension(seq!['y', 'a', 'm', 'l']) == seq!['y', 'a', 'm', 'l'],
        language_of_extension(seq!['y', 'm', 'l']) == seq!['y', 'a', 'm', 'l'],
        language_of_extension(seq!['h', 't', 'm', 'l']) == seq!['h', 't', 'm', 'l'],
        language_of_extension(seq!['h', 't', 'm']) == seq!['h', 't', 'm', 'l'],
        language_of_extension(seq!['c', 's', 's']) == seq!['c', 's', 's'],
        language_of_extension(seq!['s', 'q', 'l']) == seq!['s', 'q', 'l'],
        language_of_extension(seq!['x', 'm', 'l']) == seq!['x', 'm', 'l'],
{
    reveal_strlit("bash");
    assert("bash"@ =~= seq!['b', 'a', 's', 'h']);
    reveal_strlit("c");
    assert("c"@ =~= seq!['c']);
    reveal_strlit("cc");
    assert("cc"@ =~= seq!['c', 'c']);
    reveal_strlit("cjs");
    assert("cjs"@ =~= seq!['c', 'j', 's']);
    reveal_strlit("cpp");
    assert("cpp"@ =~= seq!['c', 'p', 'p']);
    reveal_strlit("cs");
    assert("cs"@ =~= seq!['c', 's']);
    reveal_strlit("csharp");
    assert("csharp"@ =~= seq!['c', 's', 'h', 'a', 'r', 'p']);
    reveal_strlit("css");
    assert("css"@ =~= seq!['c', 's', 's']);
    reveal_strlit("cts");
    assert("cts"@ =~= seq!['c', 't', 's']);
    reveal_strlit("go");
    assert("go"@ =~= seq!['g', 'o']);
    reveal_strlit("h");
    assert("h"@ =~= seq!['h']);
    reveal_strlit("hpp");
    assert("hpp"@ =~= seq!['h', 'p', 'p']);
    reveal_strlit("htm");
    assert("htm"@ =~= seq!['h', 't', 'm']);
    reveal_strlit("html");
    assert("html"@ =~= seq!['h', 't', 'm', 'l']);
    reveal_strlit("java");
    assert("java"@ =~= seq!['j', 'a', 'v', 'a']);
    reveal_strlit("js");
    assert("js"@ =~= seq!['j', 's']);
    reveal_strlit("json");
    assert("json"@ =~= seq!['j', 's', 'o', 'n']);
    reveal_strlit("jsx");
    assert("jsx"@ =~= seq!['j', 's', 'x']);
    reveal_strlit("markdown");
    assert("markdown"@ =~= seq!['m', 'a', 'r', 'k', 'd', 'o', 'w', 'n']);
    reveal_strlit("md");
    assert("md"@ =~= seq!['m', 'd']);
    reveal_strlit("mjs");
    assert("mjs"@ =~= seq!['m', 'j', 's']);
    reveal_strlit("mts");
    assert("mts"@ =~= seq!['m', 't', 's']);
    reveal_strlit("php");
    assert("php"@ =~= seq!['p', 'h', 'p']);
    reveal_strlit("py");
    assert("py"@ =~= seq!['p', 'y']);
    reveal_strlit("python");
    assert("python"@ =~= seq!['p', 'y', 't', 'h', 'o', 'n']);
    reveal_strlit("rb");
    assert("rb"@ =~= seq!['r', 'b']);
    reveal_strlit("rs");
    assert("rs"@ =~= seq!['r', 's']);
    reveal_strlit("ruby");
    assert("ruby"@ =~= seq!['r', 'u', 'b', 'y']);
    reveal_strlit("rust");
    assert("rust"@ =~= seq!['r', 'u', 's', 't']);
    reveal_strlit("sh");
    assert("sh"@ =~= seq!['s', 'h']);
    reveal_strlit("sql");
    assert("sql"@ =~= seq!['s', 'q', 'l']);
    reveal_strlit("toml");
    assert("toml"@ =~= seq!['t', 'o', 'm', 'l']);
    reveal_strlit("ts");
    assert("ts"@ =~= seq!['t', 's']);
    reveal_strlit("tsx");
    assert("tsx"@ =~= seq!['t', 's', 'x']);
    reveal_strlit("xml");
    assert("xml"@ =~= seq!['x', 'm', 'l']);
    reveal_strlit("yaml");
    assert("yaml"@ =~= seq!['y', 'a', 'm', 'l']);
    reveal_strlit("yml");
    assert("yml"@ =~= seq!['y', 'm', 'l']);
    reveal_strlit("zsh");
    assert("zsh"@ =~= seq!['z', 's', 'h']);
}

/// The extensions that have a fence info string.
pub open spec fn known_extensions() -> Seq<Seq<char>> {
    seq![
        seq!['r', 's'],
        seq!['t', 's'],
        seq!['m', 't', 's'],
        seq!['c', 't', 's'],
        seq!['t', 's', 'x'],
        seq!['j', 's'],
        seq!['m', 'j', 's'],
        seq!['c', 'j', 's'],
        seq!['j', 's', 'x'],
        seq!['p', 'y'],
        seq!['r', 'b'],
        seq!['g', 'o'],
        seq!['j', 'a', 'v', 'a'],
        seq!['c'],
        seq!['h'],
        seq!['c', 'p', 'p'],
        seq!['c', 'c'],
        seq!['h', 'p', 'p'],
        seq!['c', 's'],
        seq!['p', 'h', 'p'],
        seq!['s', 'h'],
        seq!['b', 'a', 's', 'h'],
        seq!['z', 's', 'h'],
        seq!['m', 'd'],
        seq!['m', 'a', 'r', 'k', 'd', 'o', 'w', 'n'],
        seq!['j', 's', 'o', 'n'],
        seq!['t', 'o', 'm', 'l'],
        seq!['y', 'a', 'm', 'l'],
        seq!['y', 'm', 'l'],
        seq!['h', 't', 'm', 'l'],
        seq!['h', 't', 'm'],
        seq!['c', 's', 's'],
        seq!['s', 'q', 'l'],
        seq!['x', 'm', 'l'],
    ]
}

/// Any other extension gives no info string.
pub proof fn law_unknown_extension_is_untagged(e: Seq<char>)
    ensures
        !known_extensions().contains(e) ==> language_of_extension(e) == Seq::<char>::empty(),
{
    reveal_strlit("");
    assert(""@ =~= Seq::<char>::empty());
    reveal_strlit("rs");
    assert("rs"@ =~= seq!['r', 's']);
    reveal_strlit("ts");
    assert("ts"@ =~= seq!['t', 's']);
    reveal_strlit("mts");
    assert("mts"@ =~= seq!['m', 't', 's']);
    reveal_strlit("cts");
    assert("cts"@ =~= seq!['c', 't', 's']);
    reveal_strlit("tsx");
    assert("tsx"@ =~= seq!['t', 's', 'x']);
    reveal_strlit("js");
    assert("js"@ =~= seq!['j', 's']);
    reveal_strlit("mjs");
    assert("mjs"@ =~= seq!['m', 'j', 's']);
    reveal_strlit("cjs");
    assert("cjs"@ =~= seq!['c', 'j', 's']);
    reveal_strlit("jsx");
    assert("jsx"@ =~= seq!['j', 's', 'x']);
    reveal_strlit("py");
    assert("py"@ =~= seq!['p', 'y']);
    reveal_strlit("rb");
    assert("rb"@ =~= seq!['r', 'b']);
    reveal_strlit("go");
    assert("go"@ =~= seq!['g', 'o']);
    reveal_strlit("java");
    assert("java"@ =~= seq!['j', 'a', 'v', 'a']);
    reveal_strlit("c");
    assert("c"@ =~= seq!['c']);
    reveal_strlit("h");
    assert("h"@ =~= seq!['h']);
    reveal_strlit("cpp");
    assert("cpp"@ =~= seq!['c', 'p', 'p']);
    reveal_strlit("cc");
    assert("cc"@ =~= seq!['c', 'c']);
    reveal_strlit("hpp");
    assert("hpp"@ =~= seq!['h', 'p', 'p']);
    reveal_strlit("cs");
    assert("cs"@ =~= seq!['c', 's']);
    reveal_strlit("php");
    assert("php"@ =~= seq!['p', 'h', 'p']);
    reveal_strlit("sh");
    assert("sh"@ =~= seq!['s', 'h']);
    reveal_strlit("bash");
    assert("bash"@ =~= seq!['b', 'a', 's', 'h']);
    reveal_strlit("zsh");
    assert("zsh"@ =~= seq!['z', 's', 'h']);
    reveal_strlit("md");
    assert("md"@ =~= seq!['m', 'd']);
    reveal_strlit("markdown");
    assert("markdown"@ =~= seq!['m', 'a', 'r', 'k', 'd', 'o', 'w', 'n']);
    reveal_strlit("json");
    assert("json"@ =~= seq!['j', 's', 'o', 'n']);
    reveal_strlit("toml");
    assert("toml"@ =~= seq!['t', 'o', 'm', 'l']);
    reveal_strlit("yaml");
    assert("yaml"@ =~= seq!['y', 'a', 'm', 'l']);
    reveal_strlit("yml");
    assert("yml"@ =~= seq!['y', 'm', 'l']);
    reveal_strlit("html");
    assert("html"@ =~= seq!['h', 't', 'm', 'l']);
    reveal_strlit("htm");
    assert("htm"@ =~= seq!['h', 't', 'm']);
    reveal_strlit("css");
    assert("css"@ =~= seq!['c', 's', 's']);
    reveal_strlit("sql");
    assert("sql"@ =~= seq!['s', 'q', 'l']);
    reveal_strlit("xml");
    assert("xml"@ =~= seq!['x', 'm', 'l']);
    let known = known_extensions();
    if language_of_extension(e) != Seq::<char>::empty() {
        if e == seq!['r', 's'] {
            assert(known[0] == e);
        }
        if e == seq!['t', 's'] {
            assert(known[1] == e);
        }
        if e == seq!['m', 't', 's'] {
            assert(known[2] == e);
        }
        if e == seq!['c', 't', 's'] {
            assert(known[3] == e);
        }
        if e == seq!['t', 's', 'x'] {
            assert(known[4] == e);
        }
        if e == seq!['j', 's'] {
            assert(known[5] == e);
        }
        if e == seq!['m', 'j', 's'] {
            assert(known[6] == e);
        }
        if e == seq!['c', 'j', 's'] {
            assert(known[7] == e);
        }
        if e == seq!['j', 's', 'x'] {
            assert(known[8] == e);
        }
        if e == seq!['p', 'y'] {
            assert(known[9] == e);
        }
        if e == seq!['r', 'b'] {
            assert(known[10] == e);
        }
        if e == seq!['g', 'o'] {
            assert(known[11] == e);
        }
        if e == seq!['j', 'a', 'v', 'a'] {
            assert(known[12] == e);
        }
        if e == seq!['c'] {
            assert(known[13] == e);
        }
        if e == seq!['h'] {
            assert(known[14] == e);
        }
        if e == seq!['c', 'p', 'p'] {
            assert(known[15] == e);
        }
        if e == seq!['c', 'c'] {
            assert(known[16] == e);
        }
        if e == seq!['h', 'p', 'p'] {
            assert(known[17] == e);
        }
        if e == seq!['c', 's'] {
            assert(known[18] == e);
        }
        if e == seq!['p', 'h', 'p'] {
            assert(known[19] == e);
        }
        if e == seq!['s', 'h'] {
            assert(known[20] == e);
        }
        if e == seq!['b', 'a', 's', 'h'] {
            assert(known[21] == e);
        }
        if e == seq!['z', 's', 'h'] {
            assert(known[22] == e);
        }
        if e == seq!['m', 'd'] {
            assert(known[23] == e);
        }
        if e == seq!['m', 'a', 'r', 'k', 'd', 'o', 'w', 'n'] {
            assert(known[24] == e);
        }
        if e == seq!['j', 's', 'o', 'n'] {
            assert(known[25] == e);
        }
        if e == seq!['t', 'o', 'm', 'l'] {
            assert(known[26] == e);
        }
        if e == seq!['y', 'a', 'm', 'l'] {
            assert(known[27] == e);
        }
        if e == seq!['y', 'm', 'l'] {
            assert(known[28] == e);
        }
        if e == seq!['h', 't', 'm', 'l'] {
            assert(known[29] == e);
        }
        if e == seq!['h', 't', 'm'] {
            assert(known[30] == e);
        }
        if e == seq!['c', 's', 's'] {
            assert(known[31] == e);
        }
        if e == seq!['s', 'q', 'l'] {
            assert(known[32] == e);
        }
        if e == seq!['x', 'm', 'l'] {
            assert(known[33] == e);
        }
    }
}

/// A path's info string comes from what follows the last '.' of its file name, compared
/// without regard to ASCII case, whatever directories come before it.
pub proof fn law_language_from_last_extension(dir: Seq<char>, stem: Seq<char>, e: Seq<char>)
    requires
        dir.len() == 0 || dir.last() == '/',
        stem.len() > 0,
        forall|k: int| 0 <= k < stem.len() ==> #[trigger] stem[k] != '/',
        forall|k: int| 0 <= k < e.len() ==> #[trigger] e[k] != '/' && e[k] != '.',
        !(stem == seq!['.'] && e.len() == 0),
    ensures
        language_of_path(dir + stem + seq!['.'] + e) == language_of_extension(ascii_lowercase(e)),
{
    let name = stem + seq!['.'] + e;
    let p = dir + name;
    assert(p =~= dir + stem + seq!['.'] + e);
    assert(name[stem.len() as int] == '.');
    assert forall|k: int| dir.len() <= k < p.len() implies #[trigger] p[k] != '/' by {
        assert(p[k] == name[k - dir.len()]);
        if k - dir.len() > stem.len() {
            assert(name[k - dir.len()] == e[k - dir.len() - stem.len() - 1]);
        } else if k - dir.len() < stem.len() {
            assert(name[k - dir.len()] == stem[k - dir.len()]);
        }
    }
    if dir.len() > 0 {
        assert(p[dir.len() - 1] == dir.last());
    }
    lemma_after_last_slash_at(p, dir.len() as int);
    assert(p.last() == name.last());
    assert(p.skip(dir.len() as int) =~= name);
    if name.len() == 2 {
        assert(stem.len() == 1 && e.len() == 0);
        assert(name[0] == stem[0]);
        if name == seq!['.', '.'] {
            assert(stem =~= seq!['.']);
        }
    }
    assert(name != seq!['.']);
    assert(file_name(p) == Some(name));
    assert forall|k: int| stem.len() + 1 <= k < name.len() implies #[trigger] name[k] != '.' by {
        assert(name[k] == e[k - stem.len() - 1]);
    }
    lemma_after_last_dot_at(name, stem.len() + 1int);
    assert(name.skip(stem.len() + 1int) =~= e);
}

/// A file name without a '.' after its first character has no extension, so no info
/// string.
pub proof fn law_no_extension_no_language(dir: Seq<char>, name: Seq<char>)
    requires
        dir.len() == 0 || dir.last() == '/',
        name.len() > 0,
        name != seq!['.'],
        name != seq!['.', '.'],
        forall|k: int| 0 <= k < name.len() ==> #[trigger] name[k] != '/',
        forall|k: int| 1 <= k < name.len() ==> #[trigger] name[k] != '.',
    ensures
        language_of_path(dir + name) == Seq::<char>::empty(),
{
    let p = dir + name;
    assert forall|k: int| dir.len() <= k < p.len() implies #[trigger] p[k] != '/' by {
        assert(p[k] == name[k - dir.len()]);
    }
    if dir.len() > 0 {
        assert(p[dir.len() - 1] == dir.last());
    }
    lemma_after_last_slash_at(p, dir.len() as int);
    assert(p.last() == name.last());
    assert(p.skip(dir.len() as int) =~= name);
    assert(file_name(p) == Some(name));
    if name[0] == '.' {
        lemma_after_last_dot_at(name, 1);
    } else {
        assert forall|k: int| 0 <= k < name.len() implies #[trigger] name[k] != '.' by {}
        lemma_after_last_dot_at(name, 0);
    }
    assert(extension(p) is None);
    law_unknown_extension_is_untagged(Seq::<char>::empty());
    assert(!known_extensions().contains(Seq::<char>::empty())) by {
        if known_extensions().contains(Seq::<char>::empty()) {
            let i = choose|i: int| 0 <= i < known_extensions().len() && known_extensions()[i] == Seq::<char>::empty();
            assert(known_extensions()[i].len() > 0);
        }
    }
}

} // verus!
