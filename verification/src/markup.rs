//! Code fences for Markdown and character escaping for XML.

use vstd::prelude::*;

use crate::text::{chars_of, string_from_chars};

verus! {

/// Length of the run of backticks at the end of `s`.
pub open spec fn trailing_backticks(s: Seq<char>) -> nat
    decreases s.len(),
{
    if s.len() > 0 && s.last() == '`' {
        trailing_backticks(s.drop_last()) + 1
    } else {
        0
    }
}

/// Length of the longest run of consecutive backticks in `s`.
pub open spec fn longest_backtick_run(s: Seq<char>) -> nat
    decreases s.len(),
{
    if s.len() == 0 {
        0
    } else {
        let prev = longest_backtick_run(s.drop_last());
        let here = trailing_backticks(s);
        if here > prev {
            here
        } else {
            prev
        }
    }
}

/// The fence for `content`: backticks, one more than its longest run and at least three.
pub open spec fn fence(content: Seq<char>) -> Seq<char> {
    let run = longest_backtick_run(content);
    let n: nat = if run > 2 {
        run + 1
    } else {
        3
    };
    Seq::new(n, |i: int| '`')
}

/// Whether `s[i..j]` consists of backticks only.
pub open spec fn all_backticks(s: Seq<char>, i: int, j: int) -> bool {
    forall|k: int| i <= k < j ==> #[trigger] s[k] == '`'
}

/// Build a fence of backticks longer than any run found in `content`.
pub fn fence_for(content: &str) -> (r: String)
    ensures
        r@ == fence(content@),
{
    let cs = chars_of(content);
    let mut max_run: usize = 0;
    let mut run: usize = 0;
    let mut i: usize = 0;
    while i < cs.len()
        invariant
            i <= cs@.len(),
            cs@ == content@,
            run == trailing_backticks(cs@.take(i as int)),
            max_run == longest_backtick_run(cs@.take(i as int)),
            run <= i,
            max_run <= i,
        decreases cs@.len() - i,
    {
        let ghost t = cs@.take(i + 1);
        assert(t.drop_last() =~= cs@.take(i as int));
        assert(t.last() == cs@[i as int]);
        if cs[i] == '`' {
            run = run + 1;
            if run > max_run {
                max_run = run;
            }
        } else {
            run = 0;
        }
        i = i + 1;
    }
    assert(cs@.take(i as int) =~= cs@);
    let base: usize = if max_run > 2 {
        max_run
    } else {
        2
    };
    let mut out: Vec<char> = Vec::new();
    let mut k: usize = 0;
    while k < base
        invariant
            k <= base,
            out@ == Seq::new(k as nat, |j: int| '`'),
        decreases base - k,
    {
        out.push('`');
        k = k + 1;
        assert(out@ =~= Seq::new(k as nat, |j: int| '`'));
    }
    out.push('`');
    assert(out@ =~= fence(content@));
    string_from_chars(out)
}

proof fn lemma_trailing_backticks_cover(s: Seq<char>, i: int)
    requires
        0 <= i <= s.len(),
        all_backticks(s, i, s.len() as int),
    ensures
        trailing_backticks(s) >= s.len() - i,
    decreases s.len() - i,
{
    if i < s.len() {
        assert(s.last() == s[s.len() - 1]);
        assert(all_backticks(s.drop_last(), i, s.len() - 1)) by {
            assert forall|k: int| i <= k < s.len() - 1 implies #[trigger] s.drop_last()[k] == '`' by {
                assert(s.drop_last()[k] == s[k]);
            }
        }
        lemma_trailing_backticks_cover(s.drop_last(), i);
    }
}

proof fn lemma_longest_run_prefix(s: Seq<char>, j: int)
    requires
        0 <= j <= s.len(),
    ensures
        longest_backtick_run(s.take(j)) <= longest_backtick_run(s),
    decreases s.len() - j,
{
    if j < s.len() {
        lemma_longest_run_prefix(s.drop_last(), j);
        assert(s.drop_last().take(j) =~= s.take(j));
    } else {
        assert(s.take(j) =~= s);
    }
}

/// A fence is made of backticks only, has at least three of them, and is longer than every
/// run of backticks in the content it encloses, so no line of the content can close it.
pub proof fn law_fence_outruns_content(content: Seq<char>, i: int, j: int)
    requires
        0 <= i <= j <= content.len(),
        all_backticks(content, i, j),
    ensures
        fence(content).len() >= 3,
        forall|k: int| 0 <= k < fence(content).len() ==> #[trigger] fence(content)[k] == '`',
        fence(content).len() > j - i,
{
    let t = content.take(j);
    assert(all_backticks(t, i, j)) by {
        assert forall|k: int| i <= k < j implies #[trigger] t[k] == '`' by {
            assert(t[k] == content[k]);
        }
    }
    lemma_trailing_backticks_cover(t, i);
    lemma_longest_run_prefix(content, j);
    assert(trailing_backticks(t) <= longest_backtick_run(t));
}

proof fn lemma_trailing_backticks_run(s: Seq<char>)
    ensures
        trailing_backticks(s) <= s.len(),
        all_backticks(s, s.len() - trailing_backticks(s), s.len() as int),
    decreases s.len(),
{
    if s.len() > 0 && s.last() == '`' {
        let t = s.drop_last();
        lemma_trailing_backticks_run(t);
        assert forall|k: int| s.len() - trailing_backticks(s) <= k < s.len() implies #[trigger] s[k] == '`' by {
            if k < s.len() - 1 {
                assert(t[k] == s[k]);
            }
        }
    }
}

proof fn lemma_longest_run_attained(s: Seq<char>)
    ensures
        exists|i: int| 0 <= i && i + longest_backtick_run(s) <= s.len() && #[trigger] all_backticks(
            s,
            i,
            i + longest_backtick_run(s),
        ),
    decreases s.len(),
{
    if s.len() == 0 {
        assert(all_backticks(s, 0, 0int + longest_backtick_run(s)));
    } else {
        let t = s.drop_last();
        lemma_longest_run_attained(t);
        lemma_trailing_backticks_run(s);
        let here = trailing_backticks(s);
        let big = longest_backtick_run(s);
        if here > longest_backtick_run(t) {
            assert(big == here);
            assert(all_backticks(s, s.len() - here, s.len() as int));
            let w = s.len() - big;
            assert(all_backticks(s, w, w + longest_backtick_run(s)));
        } else {
            let l = longest_backtick_run(t);
            let i = choose|i: int| 0 <= i && i + l <= t.len() && #[trigger] all_backticks(t, i, i + l);
            assert forall|k: int| i <= k < i + l implies #[trigger] s[k] == '`' by {
                assert(t[k] == s[k]);
            }
            assert(big == l);
            assert(all_backticks(s, i, i + longest_backtick_run(s)));
        }
    }
}

/// The fence is the shortest that works: any fence length of at least three that is longer
/// than every run of backticks in the content is at least as long as the one chosen.
pub proof fn law_fence_is_shortest(content: Seq<char>, n: int)
    requires
        n >= 3,
        forall|i: int, j: int| 0 <= i <= j <= content.len() && #[trigger] all_backticks(content, i, j) ==> j - i < n,
    ensures
        fence(content).len() <= n,
{
    lemma_longest_run_attained(content);
    let l = longest_backtick_run(content);
    let i = choose|i: int| 0 <= i && i + l <= content.len() && #[trigger] all_backticks(content, i, i + l);
    assert(l < n);
}

/// The XML form of one character: `&`, `<` and `>` as entities, anything else as itself.
pub open spec fn escape_char(c: char) -> Seq<char> {
    if c == '&' {
        seq!['&', 'a', 'm', 'p', ';']
    } else if c == '<' {
        seq!['&', 'l', 't', ';']
    } else if c == '>' {
        seq!['&', 'g', 't', ';']
    } else {
        seq![c]
    }
}

/// `s` with `&`, `<` and `>` replaced by their entities.
pub open spec fn xml_escaped(s: Seq<char>) -> Seq<char>
    decreases s.len(),
{
    if s.len() == 0 {
        Seq::empty()
    } else {
        escape_char(s[0]) + xml_escaped(s.drop_first())
    }
}

pub proof fn lemma_xml_escaped_concat(a: Seq<char>, b: Seq<char>)
    ensures
        xml_escaped(a + b) == xml_escaped(a) + xml_escaped(b),
    decreases a.len(),
{
    if a.len() == 0 {
        assert(a + b =~= b);
        assert(Seq::<char>::empty() + xml_escaped(b) =~= xml_escaped(b));
    } else {
        assert((a + b).drop_first() =~= a.drop_first() + b);
        assert((a + b)[0] == a[0]);
        lemma_xml_escaped_concat(a.drop_first(), b);
        assert(escape_char(a[0]) + (xml_escaped(a.drop_first()) + xml_escaped(b)) =~= (escape_char(a[0])
            + xml_escaped(a.drop_first())) + xml_escaped(b));
    }
}

/// Append the XML form of `s` to `out`.
pub fn push_xml_escaped(out: &mut Vec<char>, s: &Vec<char>)
    ensures
        final(out)@ == old(out)@ + xml_escaped(s@),
{
    let mut i: usize = 0;
    while i < s.len()
        invariant
            i <= s@.len(),
            out@ == old(out)@ + xml_escaped(s@.take(i as int)),
        decreases s@.len() - i,
    {
        let c = s[i];
        let ghost before = out@;
        if c == '&' {
            out.push('&');
            out.push('a');
            out.push('m');
            out.push('p');
            out.push(';');
        } else if c == '<' {
            out.push('&');
            out.push('l');
            out.push('t');
            out.push(';');
        } else if c == '>' {
            out.push('&');
            out.push('g');
            out.push('t');
            out.push(';');
        } else {
            out.push(c);
        }
        assert(out@ =~= before + escape_char(c));
        proof {
            lemma_xml_escaped_concat(s@.take(i as int), seq![c]);
            assert(s@.take(i + 1) =~= s@.take(i as int) + seq![c]);
            assert(seq![c].drop_first() =~= Seq::<char>::empty());
            assert(xml_escaped(seq![c]) == escape_char(c) + xml_escaped(Seq::<char>::empty()));
            assert(xml_escaped(seq![c]) =~= escape_char(c));
        }
        i = i + 1;
    }
    assert(s@.take(i as int) =~= s@);
}

/// Escape `&`, `<` and `>` for embedding in XML text.
pub fn xml_escape(s: &str) -> (r: String)
    ensures
        r@ == xml_escaped(s@),
{
    let cs = chars_of(s);
    let mut out: Vec<char> = Vec::new();
    push_xml_escaped(&mut out, &cs);
    assert(out@ =~= xml_escaped(s@));
    string_from_chars(out)
}

/// Reading entities back: `&amp;`, `&lt;` and `&gt;` stand for the characters they name.
pub open spec fn xml_unescaped(s: Seq<char>) -> Seq<char>
    decreases s.len(),
{
    if s.len() == 0 {
        Seq::empty()
    } else if s.len() >= 5 && s.take(5) == seq!['&', 'a', 'm', 'p', ';'] {
        seq!['&'] + xml_unescaped(s.skip(5))
    } else if s.len() >= 4 && s.take(4) == seq!['&', 'l', 't', ';'] {
        seq!['<'] + xml_unescaped(s.skip(4))
    } else if s.len() >= 4 && s.take(4) == seq!['&', 'g', 't', ';'] {
        seq!['>'] + xml_unescaped(s.skip(4))
    } else {
        seq![s[0]] + xml_unescaped(s.drop_first())
    }
}

/// Escaping loses nothing: reading the entities back gives the unescaped text, and the
/// escaped text holds no `<` or `>`.
pub proof fn law_xml_escape_round_trip(s: Seq<char>)
    ensures
        xml_unescaped(xml_escaped(s)) == s,
        forall|k: int|
            0 <= k < xml_escaped(s).len() ==> #[trigger] xml_escaped(s)[k] != '<' && xml_escaped(s)[k]
                != '>',
    decreases s.len(),
{
    if s.len() > 0 {
        let c = s[0];
        let rest = s.drop_first();
        law_xml_escape_round_trip(rest);
        let e = escape_char(c);
        let t = e + xml_escaped(rest);
        assert(t.take(e.len() as int) =~= e);
        assert(t.skip(e.len() as int) =~= xml_escaped(rest));
        if c == '&' {
            assert(xml_unescaped(t) == seq!['&'] + xml_unescaped(t.skip(5)));
        } else if c == '<' {
            assert(!(t.len() >= 5 && t.take(5) == seq!['&', 'a', 'm', 'p', ';'])) by {
                assert(t[1] == e[1]);
                if t.len() >= 5 {
                    assert(t.take(5)[1] == t[1]);
                }
            }
            assert(xml_unescaped(t) == seq!['<'] + xml_unescaped(t.skip(4)));
        } else if c == '>' {
            assert(t[1] == e[1]);
            assert(!(t.len() >= 5 && t.take(5) == seq!['&', 'a', 'm', 'p', ';'])) by {
                if t.len() >= 5 {
                    assert(t.take(5)[1] == t[1]);
                }
            }
            assert(!(t.len() >= 4 && t.take(4) == seq!['&', 'l', 't', ';'])) by {
                if t.len() >= 4 {
                    assert(t.take(4)[1] == t[1]);
                }
            }
            assert(xml_unescaped(t) == seq!['>'] + xml_unescaped(t.skip(4)));
        } else {
            assert(t[0] == c);
            assert(t.len() >= 5 ==> t.take(5)[0] == c);
            assert(t.len() >= 4 ==> t.take(4)[0] == c);
            assert(t.drop_first() =~= xml_escaped(rest));
            assert(xml_unescaped(t) == seq![c] + xml_unescaped(t.drop_first()));
        }
        assert(seq![c] + rest =~= s);
        assert forall|k: int| 0 <= k < t.len() implies #[trigger] t[k] != '<' && t[k] != '>' by {
            if k >= e.len() {
                assert(t[k] == xml_escaped(rest)[k - e.len()]);
            }
        }
    }
}

/// Whether an entity, `&amp;`, `&lt;` or `&gt;`, starts at position `k` of `t`.
pub open spec fn entity_at(t: Seq<char>, k: int) -> bool {
    ||| k + 5 <= t.len() && t.subrange(k, k + 5) == seq!['&', 'a', 'm', 'p', ';']
    ||| k + 4 <= t.len() && t.subrange(k, k + 4) == seq!['&', 'l', 't', ';']
    ||| k + 4 <= t.len() && t.subrange(k, k + 4) == seq!['&', 'g', 't', ';']
}

/// Every `&` of the escaped text begins one of the three entities, so no `&` of the text
/// is left bare.
pub proof fn law_xml_escape_ampersands_begin_entities(s: Seq<char>)
    ensures
        forall|k: int| 0 <= k < xml_escaped(s).len() && #[trigger] xml_escaped(s)[k] == '&' ==> entity_at(xml_escaped(s), k),
    decreases s.len(),
{
    if s.len() > 0 {
        let c = s[0];
        let rest = s.drop_first();
        law_xml_escape_ampersands_begin_entities(rest);
        let e = escape_char(c);
        let r = xml_escaped(rest);
        let t = e + r;
        assert(xml_escaped(s) == t);
        assert forall|k: int| 0 <= k < t.len() && #[trigger] t[k] == '&' implies entity_at(t, k) by {
            if k < e.len() {
                assert(k == 0);
                assert(t.subrange(0, e.len() as int) =~= e);
            } else {
                let j = k - e.len();
                assert(r[j] == t[k]);
                assert(entity_at(r, j));
                if j + 5 <= r.len() {
                    assert(t.subrange(k, k + 5) =~= r.subrange(j, j + 5));
                }
                if j + 4 <= r.len() {
                    assert(t.subrange(k, k + 4) =~= r.subrange(j, j + 4));
                }
            }
        }
    }
}

} // verus!
