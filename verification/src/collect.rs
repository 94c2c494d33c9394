//! The decisions of a directory walk: which files are kept, what each one becomes, and
//! the order of the result.

use vstd::prelude::*;
use vstd::multiset::Multiset;
use vstd::utf8::{decode_utf8, valid_utf8};
use vstd::seq_lib::{to_multiset_insert, to_multiset_remove};

use crate::entry::{Entry, EntryKind, Options};
use crate::text::{chars_of, lex_lt, lemma_lex_total, lemma_lex_transitive, lemma_lex_irreflexive, string_from_chars};

verus! {

/// `String::from_utf8`: the text the bytes encode, when they are valid UTF-8.
#[verifier::external_body]
fn utf8_string(bytes: Vec<u8>) -> (r: Option<String>)
    ensures
        r is Some <==> valid_utf8(bytes@),
        r matches Some(s) ==> s@ == decode_utf8(bytes@),
{
    String::from_utf8(bytes).ok()
}

/// Whether the bytes hold a NUL byte.
pub fn is_binary(bytes: &[u8]) -> (r: bool)
    ensures
        r == bytes@.contains(0u8),
{
    let mut i: usize = 0;
    while i < bytes.len()
        invariant
            i <= bytes@.len(),
            forall|j: int| 0 <= j < i ==> #[trigger] bytes@[j] != 0u8,
        decreases bytes@.len() - i,
    {
        if bytes[i] == 0u8 {
            assert(bytes@[i as int] == 0u8);
            return true;
        }
        i = i + 1;
    }
    false
}

/// What a readable file becomes: binary when it holds a NUL byte or is not valid UTF-8,
/// else text with the characters it encodes.
pub fn classify(bytes: Vec<u8>) -> (k: EntryKind)
    ensures
        (bytes@.contains(0u8) || !valid_utf8(bytes@)) ==> k is Binary,
        !(bytes@.contains(0u8) || !valid_utf8(bytes@)) ==> (k matches EntryKind::Text(t) && t@
            == decode_utf8(bytes@)),
{
    if is_binary(bytes.as_slice()) {
        return EntryKind::Binary;
    }
    match utf8_string(bytes) {
        Some(text) => EntryKind::Text(text),
        None => EntryKind::Binary,
    }
}

/// Whether a file of `size` bytes is over the limit, so that its contents are not read.
pub fn oversized(size: u64, opts: &Options) -> (r: bool)
    ensures
        r == (size > opts.max_size),
{
    size > opts.max_size
}

/// The entry for a file of at most the limit: its classified contents, or unreadable when
/// reading failed (`None`).
pub fn file_entry(rel_path: String, contents: Option<Vec<u8>>) -> (e: Entry)
    ensures
        e.rel_path == rel_path,
        contents is None ==> e.kind is Unreadable,
        contents matches Some(b) ==> ((b@.contains(0u8) || !valid_utf8(b@)) ==> e.kind is Binary),
        contents matches Some(b) ==> (!(b@.contains(0u8) || !valid_utf8(b@)) ==> (e.kind matches EntryKind::Text(t) && t@ == decode_utf8(b@))),
{
    match contents {
        Some(b) => Entry { rel_path, kind: classify(b) },
        None => Entry { rel_path, kind: EntryKind::Unreadable },
    }
}

/// `s` with every backslash turned into a forward slash.
pub open spec fn forward_slashes(s: Seq<char>) -> Seq<char> {
    s.map_values(|c: char| if c == '\\' { '/' } else { c })
}

/// A relative path with forward slashes only, as the document shows it.
pub fn slash_path(s: &str) -> (r: String)
    ensures
        r@ == forward_slashes(s@),
{
    let cs = chars_of(s);
    let mut out: Vec<char> = Vec::new();
    let mut i: usize = 0;
    while i < cs.len()
        invariant
            i <= cs@.len(),
            cs@ == s@,
            out@ == forward_slashes(cs@.take(i as int)),
        decreases cs@.len() - i,
    {
        let c = cs[i];
        out.push(if c == '\\' { '/' } else { c });
        i = i + 1;
        assert(out@ =~= forward_slashes(cs@.take(i as int)));
    }
    assert(cs@.take(i as int) =~= cs@);
    string_from_chars(out)
}

/// Entries in order of their paths (lexicographic; equal paths in any order).
pub open spec fn sorted_by_path(es: Seq<Entry>) -> bool {
    forall|i: int, j: int| 0 <= i < j < es.len() ==> !lex_lt(#[trigger] es[j].rel_path@, #[trigger] es[i].rel_path@)
}

/// Whether entry path `a` comes strictly before `b`.
fn path_before(a: &String, b: &String) -> (r: bool)
    ensures
        r == lex_lt(a@, b@),
{
    let x = chars_of(a.as_str());
    let y = chars_of(b.as_str());
    crate::text::chars_lt(&x, &y)
}

/// The entries with path `p`, in their order in `es`.
pub open spec fn with_path(es: Seq<Entry>, p: Seq<char>) -> Seq<Entry>
    decreases es.len(),
{
    if es.len() == 0 {
        Seq::empty()
    } else if es.last().rel_path@ == p {
        with_path(es.drop_last(), p).push(es.last())
    } else {
        with_path(es.drop_last(), p)
    }
}

proof fn lemma_with_path_concat(a: Seq<Entry>, b: Seq<Entry>, p: Seq<char>)
    ensures
        with_path(a + b, p) == with_path(a, p) + with_path(b, p),
    decreases b.len(),
{
    if b.len() == 0 {
        assert(a + b =~= a);
        assert(with_path(a, p) + Seq::<Entry>::empty() =~= with_path(a, p));
    } else {
        lemma_with_path_concat(a, b.drop_last(), p);
        assert((a + b).drop_last() =~= a + b.drop_last());
        assert((a + b).last() == b.last());
        if b.last().rel_path@ == p {
            assert(with_path(a, p) + with_path(b.drop_last(), p).push(b.last()) =~= (with_path(a, p)
                + with_path(b.drop_last(), p)).push(b.last()));
        }
    }
}

proof fn lemma_with_path_none(s: Seq<Entry>, p: Seq<char>)
    requires
        forall|i: int| 0 <= i < s.len() ==> (#[trigger] s[i]).rel_path@ != p,
    ensures
        with_path(s, p) == Seq::<Entry>::empty(),
    decreases s.len(),
{
    if s.len() > 0 {
        assert forall|i: int| 0 <= i < s.drop_last().len() implies (#[trigger] s.drop_last()[i]).rel_path@ != p by {
            assert(s.drop_last()[i] == s[i]);
        }
        lemma_with_path_none(s.drop_last(), p);
        assert(s.last() == s[s.len() - 1]);
    }
}

proof fn lemma_with_path_single(x: Entry, p: Seq<char>)
    ensures
        with_path(seq![x], p) == if x.rel_path@ == p {
            seq![x]
        } else {
            Seq::<Entry>::empty()
        },
{
    let s = seq![x];
    assert(s.len() == 1);
    assert(s.drop_last() =~= Seq::<Entry>::empty());
    assert(s.last() == x);
    assert(with_path(Seq::<Entry>::empty(), p) == Seq::<Entry>::empty());
    assert(with_path(s.drop_last(), p) == Seq::<Entry>::empty());
    assert(Seq::<Entry>::empty().push(x) =~= s);
}

/// Sort entries by path, keeping the entries themselves; the sort is stable: entries with
/// the same path keep their order.
pub fn sort_entries(entries: &mut Vec<Entry>)
    ensures
        final(entries)@.to_multiset() == old(entries)@.to_multiset(),
        sorted_by_path(final(entries)@),
        forall|p: Seq<char>| #[trigger] with_path(final(entries)@, p) == with_path(old(entries)@, p),
{
    broadcast use vstd::seq_lib::group_to_multiset_ensures;
    let mut pending: Vec<Entry> = Vec::new();
    std::mem::swap(entries, &mut pending);
    let ghost all = pending@.to_multiset();
    let ghost orig = pending@;
    assert forall|q: Seq<char>| #[trigger] with_path(orig, q) == with_path(entries@, q) + with_path(pending@, q) by {
        assert(with_path(entries@, q) == Seq::<Entry>::empty());
        assert(Seq::<Entry>::empty() + with_path(pending@, q) =~= with_path(pending@, q));
    }
    while pending.len() > 0
        invariant
            entries@.to_multiset().add(pending@.to_multiset()) == all,
            sorted_by_path(entries@),
            orig == old(entries)@,
            forall|q: Seq<char>| #[trigger] with_path(orig, q) == with_path(entries@, q) + with_path(pending@, q),
        decreases pending@.len(),
    {
        let ghost before_pending = pending@;
        let e = pending.remove(0);
        proof {
            to_multiset_remove(before_pending, 0);
        }
        let ghost p = e.rel_path@;
        let mut lo: usize = 0;
        let mut hi: usize = entries.len();
        while lo < hi
            invariant
                lo <= hi <= entries@.len(),
                p == e.rel_path@,
                sorted_by_path(entries@),
                forall|j: int| 0 <= j < lo ==> !lex_lt(p, #[trigger] entries@[j].rel_path@),
                forall|j: int| hi <= j < entries@.len() ==> lex_lt(p, #[trigger] entries@[j].rel_path@),
            decreases hi - lo,
        {
            let mid = lo + (hi - lo) / 2;
            let ghost m = entries@[mid as int].rel_path@;
            if path_before(&e.rel_path, &entries[mid].rel_path) {
                assert forall|j: int| mid <= j < hi implies lex_lt(p, #[trigger] entries@[j].rel_path@) by {
                    if j > mid {
                        let x = entries@[j].rel_path@;
                        assert(!lex_lt(x, m));
                        lemma_lex_total(x, m);
                        if x != m {
                            lemma_lex_transitive(p, m, x);
                        }
                    }
                }
                hi = mid;
            } else {
                assert forall|j: int| 0 <= j <= mid implies !lex_lt(p, #[trigger] entries@[j].rel_path@) by {
                    if j < mid && j >= lo {
                        let x = entries@[j].rel_path@;
                        assert(!lex_lt(m, x));
                        lemma_lex_total(x, m);
                        if lex_lt(p, x) {
                            if x == m {
                            } else {
                                lemma_lex_transitive(p, x, m);
                            }
                        }
                    }
                }
                lo = mid + 1;
            }
        }
        let pos = lo;
        let ghost before = entries@;
        proof {
            to_multiset_insert(before, pos as int, e);
        }
        entries.insert(pos, e);
        assert(entries@ == before.insert(pos as int, e));
        proof {
            let head = before.take(pos as int);
            let tail = before.skip(pos as int);
            assert(before =~= head + tail);
            assert(entries@ =~= head + seq![e] + tail);
            assert(before_pending =~= seq![e] + pending@);
            assert forall|q: Seq<char>| #[trigger] with_path(orig, q) == with_path(entries@, q) + with_path(pending@, q) by {
                lemma_with_path_concat(head, tail, q);
                lemma_with_path_concat(head + seq![e], tail, q);
                lemma_with_path_concat(head, seq![e], q);
                lemma_with_path_concat(seq![e], pending@, q);
                lemma_with_path_single(e, q);
                assert(with_path(orig, q) == with_path(before, q) + with_path(before_pending, q));
                if p == q {
                    assert forall|i: int| 0 <= i < tail.len() implies (#[trigger] tail[i]).rel_path@ != q by {
                        assert(tail[i] == before[pos + i]);
                        assert(lex_lt(p, before[pos + i].rel_path@));
                        lemma_lex_irreflexive(p);
                    }
                    lemma_with_path_none(tail, q);
                    assert(with_path(before, q) + with_path(before_pending, q) =~= with_path(entries@, q)
                        + with_path(pending@, q));
                } else {
                    assert(with_path(before, q) + with_path(before_pending, q) =~= with_path(entries@, q)
                        + with_path(pending@, q));
                }
            }
        }
        proof {
            broadcast use vstd::multiset::group_multiset_axioms;
            assert(e == before_pending[0]);
            assert(before_pending.contains(e));
            before_pending.to_multiset_ensures();
            assert(before_pending.to_multiset().count(e) > 0);
            assert(entries@.to_multiset().add(pending@.to_multiset()) =~= all);
        }
        proof {
            assert forall|i: int, j: int| 0 <= i < j < entries@.len() implies !lex_lt(
                #[trigger] entries@[j].rel_path@,
                #[trigger] entries@[i].rel_path@,
            ) by {
                let p = e.rel_path@;
                if i < pos && j == pos {
                    assert(entries@[i] == before[i]);
                    lemma_lex_total(p, before[i].rel_path@);
                    if p == before[i].rel_path@ {
                        lemma_lex_irreflexive(p);
                    }
                } else if i == pos && j > pos {
                    assert(entries@[j] == before[j - 1]);
                    // before[pos] comes after e, and before[j - 1] does not come before before[pos].
                    assert(lex_lt(p, before[pos as int].rel_path@));
                    if j - 1 > pos {
                        assert(!lex_lt(before[j - 1].rel_path@, before[pos as int].rel_path@));
                        lemma_lex_total(before[j - 1].rel_path@, before[pos as int].rel_path@);
                        if lex_lt(before[j - 1].rel_path@, p) {
                            if before[j - 1].rel_path@ == before[pos as int].rel_path@ {
                                lemma_lex_total(p, before[pos as int].rel_path@);
                            } else {
                                lemma_lex_transitive(before[pos as int].rel_path@, before[j - 1].rel_path@, p);
                                lemma_lex_total(p, before[pos as int].rel_path@);
                            }
                        }
                    } else {
                        lemma_lex_total(p, before[pos as int].rel_path@);
                    }
                } else if i < pos && j > pos {
                    assert(entries@[i] == before[i]);
                    assert(entries@[j] == before[j - 1]);
                } else if i > pos {
                    assert(entries@[i] == before[i - 1]);
                    assert(entries@[j] == before[j - 1]);
                } else {
                    assert(entries@[i] == before[i]);
                    assert(entries@[j] == before[j]);
                }
            }
        }
    }
    assert(pending@.to_multiset() =~= Multiset::<Entry>::empty());
    assert forall|q: Seq<char>| #[trigger] with_path(entries@, q) == with_path(orig, q) by {
        assert(pending@ =~= Seq::<Entry>::empty());
        assert(with_path(entries@, q) + Seq::<Entry>::empty() =~= with_path(entries@, q));
    }
}

} // verus!
