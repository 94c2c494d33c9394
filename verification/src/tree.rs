//! The directory-tree section: every collected path, grouped under its directories.

use vstd::prelude::*;

use crate::entry::{entry_label, label_of, Entry};
use crate::text::{
    lemma_lex_irreflexive, lemma_lex_total, lemma_lex_transitive,
    chars_eq, chars_lt, chars_of, indent, lex_lt, push_chars, push_indent, string_from_chars,
    lemma_occurs_in_middle, lemma_occurs_in_self, occurs_in,
};

verus! {

/// The pieces of `s` between '/' separators, as `str::split('/')` yields them.
pub open spec fn split_slash(s: Seq<char>) -> Seq<Seq<char>>
    decreases s.len(),
{
    if s.len() == 0 {
        seq![Seq::<char>::empty()]
    } else {
        let init = split_slash(s.drop_last());
        if s.last() == '/' {
            init.push(Seq::<char>::empty())
        } else {
            init.update(init.len() - 1, init.last().push(s.last()))
        }
    }
}

pub proof fn lemma_split_slash_nonempty(s: Seq<char>)
    ensures
        split_slash(s).len() >= 1,
    decreases s.len(),
{
    if s.len() > 0 {
        lemma_split_slash_nonempty(s.drop_last());
    }
}

/// The path of an entry, as components.
pub open spec fn path_components(e: Entry) -> Seq<Seq<char>> {
    split_slash(e.rel_path@)
}

/// Tree order on component paths: at the first level where two paths part, a directory
/// comes before a file, and otherwise names are in lexicographic order.
pub open spec fn path_lt(p: Seq<Seq<char>>, q: Seq<Seq<char>>) -> bool
    decreases p.len(),
{
    if p.len() == 0 || q.len() == 0 {
        false
    } else if (p.len() > 1) != (q.len() > 1) {
        p.len() > 1
    } else if p[0] != q[0] {
        lex_lt(p[0], q[0])
    } else if p.len() == 1 {
        false
    } else {
        path_lt(p.drop_first(), q.drop_first())
    }
}

/// One listed file: its path components and the note shown after it.
pub type Row = (Seq<Seq<char>>, Option<Seq<char>>);

/// Add a file to a listing kept in tree order: a path already listed takes the new note,
/// a new path goes in before the first path that follows it.
pub open spec fn listing_insert(rows: Seq<Row>, p: Seq<Seq<char>>, note: Option<Seq<char>>) -> Seq<Row>
    decreases rows.len(),
{
    if rows.len() == 0 {
        seq![(p, note)]
    } else if rows[0].0 == p {
        rows.update(0, (p, note))
    } else if path_lt(p, rows[0].0) {
        seq![(p, note)] + rows
    } else {
        seq![rows[0]] + listing_insert(rows.drop_first(), p, note)
    }
}

/// The listing of a sequence of entries: each one added in turn.
pub open spec fn listing(es: Seq<Entry>) -> Seq<Row>
    decreases es.len(),
{
    if es.len() == 0 {
        Seq::empty()
    } else {
        listing_insert(listing(es.drop_last()), path_components(es.last()), label_of(es.last().kind))
    }
}

/// The length of the longest common prefix of two component paths.
pub open spec fn common_prefix_len(x: Seq<Seq<char>>, y: Seq<Seq<char>>) -> nat
    decreases x.len(),
{
    if x.len() == 0 || y.len() == 0 || x[0] != y[0] {
        0
    } else {
        1 + common_prefix_len(x.drop_first(), y.drop_first())
    }
}

/// The directory header at level `i` of path `p`.
pub open spec fn dir_line(p: Seq<Seq<char>>, i: int) -> Seq<char> {
    indent(i as nat) + p[i] + seq!['/', '\n']
}

/// Directory headers for levels `from` up to (not including) `to` of path `p`.
pub open spec fn dir_lines(p: Seq<Seq<char>>, from: int, to: int) -> Seq<char>
    decreases to - from,
{
    if to <= from {
        Seq::empty()
    } else {
        dir_lines(p, from, to - 1) + dir_line(p, to - 1)
    }
}

/// The line naming a file, with its note when its contents are omitted.
pub open spec fn file_line(row: Row) -> Seq<char> {
    let p = row.0;
    let d = p.len() - 1;
    indent(d as nat) + p[d] + match row.1 {
        Some(l) => seq![' ', ' '] + l,
        None => Seq::empty(),
    } + seq!['\n']
}

/// The text of a listing: before each file, the headers of its directories that the
/// previous file does not share.
pub open spec fn listing_text(rows: Seq<Row>) -> Seq<char>
    decreases rows.len(),
{
    if rows.len() == 0 {
        Seq::empty()
    } else {
        let n = rows.len() - 1;
        let p = rows[n].0;
        let shared: int = if n == 0 {
            0
        } else {
            common_prefix_len(rows[n - 1].0.drop_last(), p.drop_last()) as int
        };
        listing_text(rows.drop_last()) + dir_lines(p, shared, p.len() - 1) + file_line(rows[n])
    }
}

/// The directory-tree text of a sequence of entries.
pub open spec fn tree_text(es: Seq<Entry>) -> Seq<char> {
    listing_text(listing(es))
}

// ---- executable side ----

/// A listed file as the renderer holds it.
pub struct ListedFile {
    pub components: Vec<Vec<char>>,
    pub note: Option<Vec<char>>,
}

pub open spec fn components_view(c: Seq<Vec<char>>) -> Seq<Seq<char>> {
    c.map_values(|v: Vec<char>| v@)
}

pub open spec fn note_view(n: Option<Vec<char>>) -> Option<Seq<char>> {
    match n {
        Some(v) => Some(v@),
        None => None,
    }
}

pub open spec fn row_view(f: ListedFile) -> Row {
    (components_view(f.components@), note_view(f.note))
}

pub open spec fn rows_view(fs: Seq<ListedFile>) -> Seq<Row> {
    fs.map_values(|f: ListedFile| row_view(f))
}

/// The components of `s` between '/' separators.
pub fn split_components(s: &str) -> (r: Vec<Vec<char>>)
    ensures
        components_view(r@) == split_slash(s@),
{
    let cs = chars_of(s);
    let mut done: Vec<Vec<char>> = Vec::new();
    let mut cur: Vec<char> = Vec::new();
    let mut i: usize = 0;
    while i < cs.len()
        invariant
            i <= cs@.len(),
            cs@ == s@,
            components_view(done@).push(cur@) == split_slash(cs@.take(i as int)),
        decreases cs@.len() - i,
    {
        let c = cs[i];
        let ghost before = components_view(done@).push(cur@);
        assert(cs@.take(i + 1).drop_last() =~= cs@.take(i as int));
        if c == '/' {
            let finished = cur;
            done.push(finished);
            cur = Vec::new();
            assert(components_view(done@).push(cur@) =~= before.push(Seq::<char>::empty()));
        } else {
            cur.push(c);
            assert(components_view(done@).push(cur@) =~= before.update(
                before.len() - 1,
                before.last().push(c),
            ));
        }
        i = i + 1;
    }
    done.push(cur);
    assert(cs@.take(i as int) =~= cs@);
    done
}

/// Whether two component paths are equal.
fn components_eq(p: &Vec<Vec<char>>, q: &Vec<Vec<char>>) -> (r: bool)
    ensures
        r == (components_view(p@) == components_view(q@)),
{
    if p.len() != q.len() {
        return false;
    }
    let mut i: usize = 0;
    while i < p.len()
        invariant
            i <= p@.len(),
            p@.len() == q@.len(),
            forall|j: int| 0 <= j < i ==> p@[j]@ == q@[j]@,
        decreases p@.len() - i,
    {
        if !chars_eq(&p[i], &q[i]) {
            assert(components_view(p@)[i as int] != components_view(q@)[i as int]);
            return false;
        }
        i = i + 1;
    }
    assert(components_view(p@) =~= components_view(q@));
    true
}

proof fn lemma_path_lt_step(p: Seq<Seq<char>>, q: Seq<Seq<char>>, i: int)
    requires
        0 <= i,
        i + 1 < p.len(),
        i + 1 < q.len(),
        p[i] == q[i],
    ensures
        path_lt(p.skip(i), q.skip(i)) == path_lt(p.skip(i + 1), q.skip(i + 1)),
{
    assert(p.skip(i).drop_first() =~= p.skip(i + 1));
    assert(q.skip(i).drop_first() =~= q.skip(i + 1));
}

/// Whether component path `p` comes strictly before `q` in tree order.
fn components_lt(p: &Vec<Vec<char>>, q: &Vec<Vec<char>>) -> (r: bool)
    ensures
        r == path_lt(components_view(p@), components_view(q@)),
{
    let ghost pv = components_view(p@);
    let ghost qv = components_view(q@);
    if p.len() == 0 || q.len() == 0 {
        return false;
    }
    let mut i: usize = 0;
    assert(pv.skip(0) =~= pv);
    assert(qv.skip(0) =~= qv);
    loop
        invariant
            i < p@.len(),
            i < q@.len(),
            pv == components_view(p@),
            qv == components_view(q@),
            path_lt(pv, qv) == path_lt(pv.skip(i as int), qv.skip(i as int)),
        decreases p@.len() - i,
    {
        let p_dir = i < p.len() - 1;
        let q_dir = i < q.len() - 1;
        assert(pv.skip(i as int)[0] == pv[i as int]);
        assert(qv.skip(i as int)[0] == qv[i as int]);
        if p_dir != q_dir {
            return p_dir;
        }
        if !chars_eq(&p[i], &q[i]) {
            return chars_lt(&p[i], &q[i]);
        }
        if !p_dir {
            return false;
        }
        proof {
            lemma_path_lt_step(pv, qv, i as int);
        }
        i = i + 1;
    }
}

proof fn lemma_listing_insert_skip(rows: Seq<Row>, p: Seq<Seq<char>>, note: Option<Seq<char>>, i: int)
    requires
        0 <= i <= rows.len(),
        forall|j: int| 0 <= j < i ==> rows[j].0 != p && !path_lt(p, #[trigger] rows[j].0),
    ensures
        listing_insert(rows, p, note) == rows.take(i) + listing_insert(rows.skip(i), p, note),
    decreases i,
{
    if i == 0 {
        assert(rows.skip(0) =~= rows);
        assert(rows.take(0) + rows =~= rows);
    } else {
        let tail = rows.drop_first();
        assert forall|j: int| 0 <= j < i - 1 implies tail[j].0 != p && !path_lt(p, #[trigger] tail[j].0) by {
            assert(tail[j] == rows[j + 1]);
        }
        lemma_listing_insert_skip(tail, p, note, i - 1);
        assert(rows[0].0 != p && !path_lt(p, rows[0].0));
        assert(tail.skip(i - 1) =~= rows.skip(i));
        assert(seq![rows[0]] + tail.take(i - 1) =~= rows.take(i));
        assert(seq![rows[0]] + (tail.take(i - 1) + listing_insert(rows.skip(i), p, note))
            =~= rows.take(i) + listing_insert(rows.skip(i), p, note));
    }
}

/// Add a file to a listing kept in tree order.
fn insert_listed(rows: &mut Vec<ListedFile>, file: ListedFile)
    requires
        rows_ordered(rows_view(old(rows)@)),
        rows_nonempty(rows_view(old(rows)@)),
        row_view(file).0.len() >= 1,
    ensures
        rows_view(final(rows)@) == listing_insert(rows_view(old(rows)@), row_view(file).0, row_view(file).1),
{
    let ghost old_rows = rows_view(rows@);
    let ghost p = row_view(file).0;
    let ghost note = row_view(file).1;
    // Binary search for the first row that does not come before the new path.
    let mut lo: usize = 0;
    let mut hi: usize = rows.len();
    while lo < hi
        invariant
            lo <= hi <= rows@.len(),
            rows_view(rows@) == old_rows,
            old_rows.len() == rows@.len(),
            rows_ordered(old_rows),
            p == components_view(file.components@),
            forall|j: int| 0 <= j < lo ==> path_lt(#[trigger] old_rows[j].0, p),
            forall|j: int| hi <= j < old_rows.len() ==> !path_lt(#[trigger] old_rows[j].0, p),
        decreases hi - lo,
    {
        let mid = lo + (hi - lo) / 2;
        assert(old_rows[mid as int] == row_view(rows@[mid as int]));
        let ghost m = old_rows[mid as int].0;
        if components_lt(&rows[mid].components, &file.components) {
            assert forall|j: int| 0 <= j <= mid implies path_lt(#[trigger] old_rows[j].0, p) by {
                if lo <= j < mid {
                    lemma_path_lt_transitive(old_rows[j].0, m, p);
                }
            }
            lo = mid + 1;
        } else {
            assert forall|j: int| mid <= j < old_rows.len() implies !path_lt(#[trigger] old_rows[j].0, p) by {
                if mid < j < hi && path_lt(old_rows[j].0, p) {
                    lemma_path_lt_transitive(m, old_rows[j].0, p);
                }
            }
            hi = mid;
        }
    }
    let i = lo;
    assert forall|j: int| 0 <= j < i implies old_rows[j].0 != p && !path_lt(p, #[trigger] old_rows[j].0) by {
        assert(path_lt(old_rows[j].0, p));
        lemma_path_lt_irreflexive(p);
        lemma_path_lt_total(old_rows[j].0, p);
    }
    proof {
        lemma_listing_insert_skip(old_rows, p, note, i as int);
    }
    if i < rows.len() {
        assert(old_rows[i as int] == row_view(rows@[i as int]));
        let same = components_eq(&rows[i].components, &file.components);
        let ghost rest = old_rows.skip(i as int);
        proof {
            assert(rest[0] == old_rows[i as int]);
            assert(rest.len() > 0);
            assert(!path_lt(old_rows[i as int].0, p));
            lemma_path_lt_total(old_rows[i as int].0, p);
            if same {
                assert(listing_insert(rest, p, note) == rest.update(0, (p, note)));
            } else {
                assert(path_lt(p, old_rows[i as int].0));
                assert(listing_insert(rest, p, note) == seq![(p, note)] + rest);
            }
        }
        if same {
            rows.set(i, file);
            assert(rows_view(rows@) =~= old_rows.take(i as int) + old_rows.skip(i as int).update(0, (p, note)));
        } else {
            rows.insert(i, file);
            assert(rows_view(rows@) =~= old_rows.take(i as int) + (seq![(p, note)] + old_rows.skip(i as int)));
        }
        return;
    }
    assert(old_rows.skip(i as int) =~= Seq::<Row>::empty());
    rows.push(file);
    assert(rows_view(rows@) =~= old_rows.take(i as int) + seq![(p, note)]);
}

proof fn lemma_listing_insert_rows(rows: Seq<Row>, p: Seq<Seq<char>>, note: Option<Seq<char>>)
    ensures
        forall|k: int|
            0 <= k < listing_insert(rows, p, note).len() ==> #[trigger] listing_insert(rows, p, note)[k]
                == (p, note) || rows.contains(listing_insert(rows, p, note)[k]),
    decreases rows.len(),
{
    let r = listing_insert(rows, p, note);
    if rows.len() > 0 && rows[0].0 != p && !path_lt(p, rows[0].0) {
        let tail = rows.drop_first();
        lemma_listing_insert_rows(tail, p, note);
        assert forall|k: int| 0 <= k < r.len() implies #[trigger] r[k] == (p, note) || rows.contains(r[k]) by {
            if k == 0 {
                assert(rows[0] == r[0]);
            } else {
                let t = listing_insert(tail, p, note);
                assert(r[k] == t[k - 1]);
                if t[k - 1] != (p, note) {
                    let j = choose|j: int| 0 <= j < tail.len() && tail[j] == t[k - 1];
                    assert(rows[j + 1] == tail[j]);
                }
            }
        }
    } else if rows.len() > 0 && rows[0].0 == p {
        assert forall|k: int| 0 <= k < r.len() implies #[trigger] r[k] == (p, note) || rows.contains(r[k]) by {
            if k > 0 {
                assert(rows[k] == r[k]);
            }
        }
    } else if rows.len() > 0 {
        assert forall|k: int| 0 <= k < r.len() implies #[trigger] r[k] == (p, note) || rows.contains(r[k]) by {
            if k > 0 {
                assert(rows[k - 1] == r[k]);
            }
        }
    }
}

/// Every listed path has at least one component.
pub proof fn lemma_listing_paths_nonempty(es: Seq<Entry>)
    ensures
        forall|k: int| 0 <= k < listing(es).len() ==> (#[trigger] listing(es)[k]).0.len() >= 1,
    decreases es.len(),
{
    if es.len() > 0 {
        let prev = listing(es.drop_last());
        lemma_listing_paths_nonempty(es.drop_last());
        lemma_split_slash_nonempty(es.last().rel_path@);
        lemma_listing_insert_rows(prev, path_components(es.last()), label_of(es.last().kind));
        assert forall|k: int| 0 <= k < listing(es).len() implies (#[trigger] listing(es)[k]).0.len() >= 1 by {
            let r = listing(es)[k];
            if r != (path_components(es.last()), label_of(es.last().kind)) {
                let j = choose|j: int| 0 <= j < prev.len() && prev[j] == r;
                assert(prev[j].0.len() >= 1);
            }
        }
    }
}

proof fn lemma_common_prefix_len_at(x: Seq<Seq<char>>, y: Seq<Seq<char>>, i: int)
    requires
        0 <= i <= x.len(),
        i <= y.len(),
        x.take(i) == y.take(i),
        i == x.len() || i == y.len() || x[i] != y[i],
    ensures
        common_prefix_len(x, y) == i,
    decreases i,
{
    if i > 0 {
        assert(x[0] == x.take(i)[0]);
        assert(y[0] == y.take(i)[0]);
        assert(x.drop_first().take(i - 1) =~= x.take(i).drop_first());
        assert(y.drop_first().take(i - 1) =~= y.take(i).drop_first());
        lemma_common_prefix_len_at(x.drop_first(), y.drop_first(), i - 1);
    }
}

/// How many leading directories two listed paths share.
fn shared_dirs(a: &Vec<Vec<char>>, b: &Vec<Vec<char>>) -> (r: usize)
    requires
        a@.len() >= 1,
        b@.len() >= 1,
    ensures
        r == common_prefix_len(components_view(a@).drop_last(), components_view(b@).drop_last()),
        r <= b@.len() - 1,
{
    let ghost x = components_view(a@).drop_last();
    let ghost y = components_view(b@).drop_last();
    let mut i: usize = 0;
    while i < a.len() - 1 && i < b.len() - 1 && chars_eq(&a[i], &b[i])
        invariant
            i <= a@.len() - 1,
            i <= b@.len() - 1,
            x == components_view(a@).drop_last(),
            y == components_view(b@).drop_last(),
            x.take(i as int) == y.take(i as int),
        decreases a@.len() - i,
    {
        assert(x[i as int] == y[i as int]);
        i = i + 1;
        assert(x.take(i as int) =~= x.take(i - 1).push(x[i - 1]));
        assert(y.take(i as int) =~= y.take(i - 1).push(y[i - 1]));
    }
    proof {
        lemma_common_prefix_len_at(x, y, i as int);
    }
    i
}

/// Append the directory headers for levels `from..to` of `p`.
fn push_dir_lines(out: &mut Vec<char>, p: &Vec<Vec<char>>, from: usize, to: usize)
    requires
        from <= to <= p@.len(),
    ensures
        final(out)@ == old(out)@ + dir_lines(components_view(p@), from as int, to as int),
{
    let ghost pv = components_view(p@);
    let mut lvl: usize = from;
    while lvl < to
        invariant
            from <= lvl <= to <= p@.len(),
            pv == components_view(p@),
            out@ == old(out)@ + dir_lines(pv, from as int, lvl as int),
        decreases to - lvl,
    {
        let ghost before = out@;
        push_indent(out, lvl);
        push_chars(out, &p[lvl]);
        out.push('/');
        out.push('\n');
        lvl = lvl + 1;
        assert(dir_lines(pv, from as int, lvl as int) == dir_lines(pv, from as int, lvl - 1) + dir_line(pv, lvl - 1));
        assert(out@ =~= old(out)@ + dir_lines(pv, from as int, lvl as int));
    }
}

/// Append the line naming a listed file.
fn push_file_line(out: &mut Vec<char>, f: &ListedFile)
    requires
        f.components@.len() >= 1,
    ensures
        final(out)@ == old(out)@ + file_line(row_view(*f)),
{
    let d = f.components.len() - 1;
    push_indent(out, d);
    push_chars(out, &f.components[d]);
    match &f.note {
        Some(l) => {
            out.push(' ');
            out.push(' ');
            push_chars(out, l);
        },
        None => {},
    }
    out.push('\n');
    assert(out@ =~= old(out)@ + file_line(row_view(*f)));
}

/// The listing of `entries` in tree order.
fn build_listing(entries: &[Entry]) -> (rows: Vec<ListedFile>)
    ensures
        rows_view(rows@) == listing(entries@),
{
    let mut rows: Vec<ListedFile> = Vec::new();
    let mut k: usize = 0;
    while k < entries.len()
        invariant
            k <= entries@.len(),
            rows_view(rows@) == listing(entries@.take(k as int)),
        decreases entries@.len() - k,
    {
        let e = &entries[k];
        let components = split_components(e.rel_path.as_str());
        let note = entry_label(&e.kind);
        let file = ListedFile { components, note };
        assert(row_view(file).1 == label_of(e.kind));
        proof {
            law_tree_lists_each_path_once(entries@.take(k as int));
            lemma_listing_paths_nonempty(entries@.take(k as int));
            lemma_split_slash_nonempty(e.rel_path@);
        }
        insert_listed(&mut rows, file);
        k = k + 1;
        let ghost es = entries@.take(k as int);
        assert(es.drop_last() =~= entries@.take(k - 1));
        assert(es.last() == entries@[k - 1]);
    }
    assert(entries@.take(k as int) =~= entries@);
    rows
}

/// Render an indented directory tree from the collected entries: directories (with a
/// trailing '/') before files at each level, each group in name order, a file's note
/// after its name when its contents are omitted.
pub fn render_tree(entries: &[Entry]) -> (r: String)
    ensures
        r@ == tree_text(entries@),
{
    let rows = build_listing(entries);
    let ghost rv = rows_view(rows@);
    proof {
        lemma_listing_paths_nonempty(entries@);
    }
    let mut out: Vec<char> = Vec::new();
    let mut k: usize = 0;
    while k < rows.len()
        invariant
            k <= rows@.len(),
            rv == rows_view(rows@),
            rv == listing(entries@),
            forall|j: int| 0 <= j < rv.len() ==> (#[trigger] rv[j]).0.len() >= 1,
            out@ == listing_text(rv.take(k as int)),
        decreases rows@.len() - k,
    {
        let f = &rows[k];
        assert(rv[k as int] == row_view(*f));
        assert(rv[k as int].0.len() >= 1);
        let shared = if k == 0 {
            0
        } else {
            assert(rv[k - 1] == row_view(rows@[k - 1]));
            assert(rv[k - 1].0.len() >= 1);
            shared_dirs(&rows[k - 1].components, &f.components)
        };
        push_dir_lines(&mut out, &f.components, shared, f.components.len() - 1);
        push_file_line(&mut out, f);
        k = k + 1;
        let ghost t = rv.take(k as int);
        assert(t.drop_last() =~= rv.take(k - 1));
        assert(t[k - 1] == rv[k - 1]);
        assert(k >= 2 ==> t[k - 2] == rv[k - 2]);
    }
    assert(rv.take(k as int) =~= rv);
    string_from_chars(out)
}


// ---- laws of the listing ----

pub proof fn lemma_path_lt_irreflexive(p: Seq<Seq<char>>)
    ensures
        !path_lt(p, p),
    decreases p.len(),
{
    if p.len() > 1 {
        lemma_path_lt_irreflexive(p.drop_first());
    } else if p.len() == 1 {
        lemma_lex_irreflexive(p[0]);
    }
}

pub proof fn lemma_path_lt_total(p: Seq<Seq<char>>, q: Seq<Seq<char>>)
    requires
        p.len() >= 1,
        q.len() >= 1,
    ensures
        p != q ==> (path_lt(p, q) || path_lt(q, p)),
        !(path_lt(p, q) && path_lt(q, p)),
    decreases p.len(),
{
    lemma_lex_total(p[0], q[0]);
    if (p.len() > 1) == (q.len() > 1) && p[0] == q[0] {
        if p.len() > 1 {
            lemma_path_lt_total(p.drop_first(), q.drop_first());
            if p != q {
                assert(p.drop_first() != q.drop_first()) by {
                    if p.drop_first() == q.drop_first() {
                        assert(p =~= seq![p[0]] + p.drop_first());
                        assert(q =~= seq![q[0]] + q.drop_first());
                    }
                }
            }
        } else {
            assert(p =~= q);
        }
    }
}

pub proof fn lemma_path_lt_transitive(p: Seq<Seq<char>>, q: Seq<Seq<char>>, r: Seq<Seq<char>>)
    requires
        path_lt(p, q),
        path_lt(q, r),
    ensures
        path_lt(p, r),
    decreases p.len(),
{
    let dp = p.len() > 1;
    let dq = q.len() > 1;
    let dr = r.len() > 1;
    if dp == dq && dq == dr {
        if p[0] != q[0] && q[0] != r[0] {
            lemma_lex_transitive(p[0], q[0], r[0]);
            lemma_lex_irreflexive(p[0]);
        } else if p[0] == q[0] && q[0] == r[0] {
            lemma_path_lt_transitive(p.drop_first(), q.drop_first(), r.drop_first());
        }
    }
}

/// Rows strictly in tree order.
pub open spec fn rows_ordered(rows: Seq<Row>) -> bool {
    forall|i: int, j: int| 0 <= i < j < rows.len() ==> path_lt(#[trigger] rows[i].0, #[trigger] rows[j].0)
}

/// Rows whose paths all have at least one component.
pub open spec fn rows_nonempty(rows: Seq<Row>) -> bool {
    forall|i: int| 0 <= i < rows.len() ==> (#[trigger] rows[i]).0.len() >= 1
}

/// Inserting into an ordered listing keeps it ordered; the path inserted is listed with its
/// note, and every other row keeps its place in the set of rows.
proof fn lemma_listing_insert_laws(rows: Seq<Row>, p: Seq<Seq<char>>, note: Option<Seq<char>>)
    requires
        rows_ordered(rows),
        rows_nonempty(rows),
        p.len() >= 1,
    ensures
        rows_ordered(listing_insert(rows, p, note)),
        rows_nonempty(listing_insert(rows, p, note)),
        listing_insert(rows, p, note).contains((p, note)),
        forall|r: Row| rows.contains(r) && r.0 != p ==> #[trigger] listing_insert(rows, p, note).contains(r),
        forall|r: Row| #[trigger] listing_insert(rows, p, note).contains(r) ==> r == (p, note) || (rows.contains(r) && r.0 != p),
    decreases rows.len(),
{
    let res = listing_insert(rows, p, note);
    lemma_listing_insert_rows(rows, p, note);
    if rows.len() == 0 {
        assert(res[0] == (p, note));
    } else if rows[0].0 == p {
        assert(res[0] == (p, note));
        assert forall|r: Row| rows.contains(r) && r.0 != p implies #[trigger] res.contains(r) by {
            let j = choose|j: int| 0 <= j < rows.len() && rows[j] == r;
            assert(res[j] == r);
        }
        assert forall|r: Row| #[trigger] res.contains(r) implies r == (p, note) || (rows.contains(r) && r.0 != p) by {
            let j = choose|j: int| 0 <= j < res.len() && res[j] == r;
            if j > 0 {
                assert(rows[j] == r);
                lemma_path_lt_irreflexive(p);
            }
        }
    } else if path_lt(p, rows[0].0) {
        assert(res[0] == (p, note));
        assert forall|i: int, j: int| 0 <= i < j < res.len() implies path_lt(#[trigger] res[i].0, #[trigger] res[j].0) by {
            if i == 0 {
                assert(res[j] == rows[j - 1]);
                if j - 1 > 0 {
                    lemma_path_lt_transitive(p, rows[0].0, rows[j - 1].0);
                }
            } else {
                assert(res[i] == rows[i - 1]);
                assert(res[j] == rows[j - 1]);
            }
        }
        assert forall|r: Row| rows.contains(r) && r.0 != p implies #[trigger] res.contains(r) by {
            let j = choose|j: int| 0 <= j < rows.len() && rows[j] == r;
            assert(res[j + 1] == r);
        }
        assert forall|r: Row| #[trigger] res.contains(r) implies r == (p, note) || (rows.contains(r) && r.0 != p) by {
            let j = choose|j: int| 0 <= j < res.len() && res[j] == r;
            if j > 0 {
                assert(rows[j - 1] == r);
                if r.0 == p {
                    if j - 1 > 0 {
                        assert(path_lt(rows[0].0, rows[j - 1].0));
                        lemma_path_lt_transitive(p, rows[0].0, p);
                    }
                    lemma_path_lt_irreflexive(p);
                }
            }
        }
    } else {
        let tail = rows.drop_first();
        assert(rows_ordered(tail)) by {
            assert forall|i: int, j: int| 0 <= i < j < tail.len() implies path_lt(#[trigger] tail[i].0, #[trigger] tail[j].0) by {
                assert(tail[i] == rows[i + 1]);
                assert(tail[j] == rows[j + 1]);
            }
        }
        assert(rows_nonempty(tail)) by {
            assert forall|i: int| 0 <= i < tail.len() implies (#[trigger] tail[i]).0.len() >= 1 by {
                assert(tail[i] == rows[i + 1]);
            }
        }
        lemma_listing_insert_laws(tail, p, note);
        let sub = listing_insert(tail, p, note);
        assert(res == seq![rows[0]] + sub);
        lemma_path_lt_total(p, rows[0].0);
        assert(path_lt(rows[0].0, p));
        assert forall|i: int, j: int| 0 <= i < j < res.len() implies path_lt(#[trigger] res[i].0, #[trigger] res[j].0) by {
            if i == 0 {
                assert(res[j] == sub[j - 1]);
                assert(sub.contains(sub[j - 1]));
                if sub[j - 1] != (p, note) {
                    let k = choose|k: int| 0 <= k < tail.len() && tail[k] == sub[j - 1];
                    assert(tail[k] == rows[k + 1]);
                }
            } else {
                assert(res[i] == sub[i - 1]);
                assert(res[j] == sub[j - 1]);
            }
        }
        assert(rows_nonempty(res)) by {
            assert forall|i: int| 0 <= i < res.len() implies (#[trigger] res[i]).0.len() >= 1 by {
                if i > 0 {
                    assert(res[i] == sub[i - 1]);
                }
            }
        }
        assert(res.contains((p, note))) by {
            let k = choose|k: int| 0 <= k < sub.len() && sub[k] == (p, note);
            assert(res[k + 1] == (p, note));
        }
        assert forall|r: Row| rows.contains(r) && r.0 != p implies #[trigger] res.contains(r) by {
            let j = choose|j: int| 0 <= j < rows.len() && rows[j] == r;
            if j == 0 {
                assert(res[0] == r);
            } else {
                assert(tail[j - 1] == r);
                assert(tail.contains(r));
                assert(sub.contains(r));
                let k = choose|k: int| 0 <= k < sub.len() && sub[k] == r;
                assert(res[k + 1] == r);
            }
        }
        assert forall|r: Row| #[trigger] res.contains(r) implies r == (p, note) || (rows.contains(r) && r.0 != p) by {
            let j = choose|j: int| 0 <= j < res.len() && res[j] == r;
            if j == 0 {
                assert(rows[0] == r);
            } else {
                assert(sub[j - 1] == r);
                assert(sub.contains(r));
                if r != (p, note) {
                    let k = choose|k: int| 0 <= k < tail.len() && tail[k] == r;
                    assert(rows[k + 1] == r);
                }
            }
        }
    }
}

/// The note an entry list gives a path: that of the last entry with this path.
pub open spec fn last_note(es: Seq<Entry>, p: Seq<Seq<char>>) -> Option<Option<Seq<char>>>
    decreases es.len(),
{
    if es.len() == 0 {
        None
    } else if path_components(es.last()) == p {
        Some(label_of(es.last().kind))
    } else {
        last_note(es.drop_last(), p)
    }
}

/// The directory tree lists every collected path exactly once, in tree order (directories
/// before files at each level, names in order), each with the note of the last entry
/// that has that path; it lists nothing else.
pub proof fn law_tree_lists_each_path_once(es: Seq<Entry>)
    ensures
        rows_ordered(listing(es)),
        forall|i: int| 0 <= i < es.len() ==> #[trigger] listing(es).contains(
            (path_components(es[i]), last_note(es, path_components(es[i])).unwrap()),
        ),
        forall|r: Row| #[trigger] listing(es).contains(r) ==> last_note(es, r.0) == Some(r.1),
    decreases es.len(),
{
    if es.len() > 0 {
        let init = es.drop_last();
        let e = es.last();
        let p = path_components(e);
        let note = label_of(e.kind);
        let prev = listing(init);
        law_tree_lists_each_path_once(init);
        lemma_listing_paths_nonempty(init);
        lemma_split_slash_nonempty(e.rel_path@);
        lemma_listing_insert_laws(prev, p, note);
        let cur = listing(es);
        assert(cur == listing_insert(prev, p, note));
        assert forall|i: int| 0 <= i < es.len() implies #[trigger] cur.contains(
            (path_components(es[i]), last_note(es, path_components(es[i])).unwrap()),
        ) by {
            if path_components(es[i]) == p {
                assert(last_note(es, p) == Some(note));
            } else {
                assert(i < es.len() - 1);
                assert(init[i] == es[i]);
                assert(prev.contains((path_components(init[i]), last_note(init, path_components(init[i])).unwrap())));
            }
        }
        assert forall|r: Row| #[trigger] cur.contains(r) implies last_note(es, r.0) == Some(r.1) by {
            if r != (p, note) {
                assert(prev.contains(r));
            }
        }
    }
}


proof fn lemma_listing_text_holds_rows(rows: Seq<Row>, k: int)
    requires
        0 <= k < rows.len(),
    ensures
        occurs_in(file_line(rows[k]), listing_text(rows)),
    decreases rows.len(),
{
    let n = rows.len() - 1;
    let p = rows[n].0;
    let shared: int = if n == 0 {
        0
    } else {
        common_prefix_len(rows[n - 1].0.drop_last(), p.drop_last()) as int
    };
    let head = listing_text(rows.drop_last()) + dir_lines(p, shared, p.len() - 1);
    if k == n {
        lemma_occurs_in_self(file_line(rows[n]));
        lemma_occurs_in_middle(file_line(rows[n]), head, file_line(rows[n]), Seq::empty());
        assert(head + file_line(rows[n]) + Seq::<char>::empty() =~= listing_text(rows));
    } else {
        assert(rows.drop_last()[k] == rows[k]);
        lemma_listing_text_holds_rows(rows.drop_last(), k);
        lemma_occurs_in_middle(
            file_line(rows[k]),
            Seq::empty(),
            listing_text(rows.drop_last()),
            dir_lines(p, shared, p.len() - 1) + file_line(rows[n]),
        );
        assert(Seq::<char>::empty() + listing_text(rows.drop_last()) + (dir_lines(p, shared, p.len() - 1)
            + file_line(rows[n])) =~= listing_text(rows));
    }
}

/// Every collected file, text or not, is named in the directory tree: its last path
/// component at its depth, followed by the note of the last entry with its path (for a
/// binary, oversized or unreadable file, why its contents are omitted).
pub proof fn law_tree_names_every_file(es: Seq<Entry>, i: int)
    requires
        0 <= i < es.len(),
    ensures
        occurs_in(
            file_line((path_components(es[i]), last_note(es, path_components(es[i])).unwrap())),
            tree_text(es),
        ),
{
    law_tree_lists_each_path_once(es);
    let row = (path_components(es[i]), last_note(es, path_components(es[i])).unwrap());
    assert(listing(es).contains(row));
    let k = choose|k: int| 0 <= k < listing(es).len() && listing(es)[k] == row;
    lemma_listing_text_holds_rows(listing(es), k);
}


/// Joining components with '/' between them, the inverse of splitting.
pub open spec fn join_slash(ps: Seq<Seq<char>>) -> Seq<char>
    decreases ps.len(),
{
    if ps.len() <= 1 {
        if ps.len() == 1 {
            ps[0]
        } else {
            Seq::empty()
        }
    } else {
        join_slash(ps.drop_last()) + seq!['/'] + ps.last()
    }
}

proof fn lemma_join_split(s: Seq<char>)
    ensures
        join_slash(split_slash(s)) == s,
    decreases s.len(),
{
    if s.len() > 0 {
        let init = s.drop_last();
        let ps = split_slash(init);
        lemma_join_split(init);
        lemma_split_slash_nonempty(init);
        if s.last() == '/' {
            let q = ps.push(Seq::<char>::empty());
            assert(q.drop_last() =~= ps);
            assert(join_slash(q) =~= init + seq!['/'] + Seq::<char>::empty());
        } else {
            let n = ps.len() - 1;
            let q = ps.update(n, ps[n].push(s.last()));
            if ps.len() == 1 {
                assert(join_slash(q) == q[0]);
                assert(join_slash(ps) == ps[0]);
            } else {
                assert(q.drop_last() =~= ps.drop_last());
                assert(join_slash(q) == join_slash(ps.drop_last()) + seq!['/'] + ps[n].push(s.last()));
            }
            assert(join_slash(q) =~= init.push(s.last()));
        }
        assert(init.push(s.last()) =~= s);
    }
}

/// Different paths have different components.
pub proof fn lemma_split_slash_injective(s: Seq<char>, t: Seq<char>)
    ensures
        split_slash(s) == split_slash(t) ==> s == t,
{
    lemma_join_split(s);
    lemma_join_split(t);
}

proof fn lemma_ordered_rows_unique(a: Seq<Row>, b: Seq<Row>)
    requires
        rows_ordered(a),
        rows_ordered(b),
        rows_nonempty(a),
        rows_nonempty(b),
        forall|r: Row| a.contains(r) <==> b.contains(r),
    ensures
        a == b,
    decreases a.len(),
{
    if a.len() == 0 {
        if b.len() > 0 {
            assert(b.contains(b[0]));
        }
        assert(a =~= b);
    } else if b.len() == 0 {
        assert(a.contains(a[0]));
    } else {
        assert(a.contains(a[0]));
        assert(b.contains(b[0]));
        if a[0] != b[0] {
            let j = choose|j: int| 0 <= j < b.len() && b[j] == a[0];
            let i = choose|i: int| 0 <= i < a.len() && a[i] == b[0];
            assert(j > 0 && i > 0);
            assert(path_lt(b[0].0, a[0].0));
            assert(path_lt(a[0].0, b[0].0));
            lemma_path_lt_total(a[0].0, b[0].0);
        }
        let ta = a.drop_first();
        let tb = b.drop_first();
        assert(rows_ordered(ta)) by {
            assert forall|i: int, j: int| 0 <= i < j < ta.len() implies path_lt(#[trigger] ta[i].0, #[trigger] ta[j].0) by {
                assert(ta[i] == a[i + 1]);
                assert(ta[j] == a[j + 1]);
            }
        }
        assert(rows_ordered(tb)) by {
            assert forall|i: int, j: int| 0 <= i < j < tb.len() implies path_lt(#[trigger] tb[i].0, #[trigger] tb[j].0) by {
                assert(tb[i] == b[i + 1]);
                assert(tb[j] == b[j + 1]);
            }
        }
        assert(rows_nonempty(ta)) by {
            assert forall|i: int| 0 <= i < ta.len() implies (#[trigger] ta[i]).0.len() >= 1 by {
                assert(ta[i] == a[i + 1]);
            }
        }
        assert(rows_nonempty(tb)) by {
            assert forall|i: int| 0 <= i < tb.len() implies (#[trigger] tb[i]).0.len() >= 1 by {
                assert(tb[i] == b[i + 1]);
            }
        }
        assert forall|r: Row| ta.contains(r) <==> tb.contains(r) by {
            if ta.contains(r) {
                let i = choose|i: int| 0 <= i < ta.len() && ta[i] == r;
                assert(a[i + 1] == r);
                assert(a.contains(r));
                let j = choose|j: int| 0 <= j < b.len() && b[j] == r;
                if j == 0 {
                    assert(path_lt(a[0].0, a[i + 1].0));
                    lemma_path_lt_irreflexive(a[0].0);
                }
                assert(tb[j - 1] == r);
            }
            if tb.contains(r) {
                let j = choose|j: int| 0 <= j < tb.len() && tb[j] == r;
                assert(b[j + 1] == r);
                assert(b.contains(r));
                let i = choose|i: int| 0 <= i < a.len() && a[i] == r;
                if i == 0 {
                    assert(path_lt(b[0].0, b[j + 1].0));
                    lemma_path_lt_irreflexive(b[0].0);
                }
                assert(ta[i - 1] == r);
            }
        }
        lemma_ordered_rows_unique(ta, tb);
        assert(a =~= seq![a[0]] + ta);
        assert(b =~= seq![b[0]] + tb);
    }
}

/// Entries whose paths are all different.
pub open spec fn distinct_paths(es: Seq<Entry>) -> bool {
    forall|i: int, j: int| 0 <= i < j < es.len() ==> #[trigger] es[i].rel_path@ != #[trigger] es[j].rel_path@
}

proof fn lemma_last_note_found(es: Seq<Entry>, p: Seq<Seq<char>>)
    ensures
        last_note(es, p) matches Some(n) ==> exists|i: int|
            0 <= i < es.len() && #[trigger] path_components(es[i]) == p && label_of(es[i].kind) == n,
    decreases es.len(),
{
    if es.len() > 0 {
        if path_components(es.last()) == p {
            assert(path_components(es[es.len() - 1]) == p);
        } else {
            lemma_last_note_found(es.drop_last(), p);
            if last_note(es, p) is Some {
                let i = choose|i: int|
                    0 <= i < es.drop_last().len() && #[trigger] path_components(es.drop_last()[i]) == p
                        && label_of(es.drop_last()[i].kind) == last_note(es, p)->0;
                assert(es.drop_last()[i] == es[i]);
            }
        }
    }
}

/// The rows of a listing of entries with distinct paths: one per entry.
proof fn lemma_listing_rows_of_distinct(es: Seq<Entry>, r: Row)
    requires
        distinct_paths(es),
    ensures
        listing(es).contains(r) <==> exists|e: Entry| es.contains(e) && r == (path_components(e), label_of(e.kind)),
{
    law_tree_lists_each_path_once(es);
    if listing(es).contains(r) {
        lemma_last_note_found(es, r.0);
        let i = choose|i: int| 0 <= i < es.len() && #[trigger] path_components(es[i]) == r.0 && label_of(es[i].kind) == r.1;
        assert(es.contains(es[i]));
    }
    if exists|e: Entry| es.contains(e) && r == (path_components(e), label_of(e.kind)) {
        let e = choose|e: Entry| es.contains(e) && r == (path_components(e), label_of(e.kind));
        let i = choose|i: int| 0 <= i < es.len() && es[i] == e;
        assert(listing(es).contains((path_components(es[i]), last_note(es, path_components(es[i])).unwrap())));
        lemma_last_note_found(es, path_components(es[i]));
        let k = choose|k: int|
            0 <= k < es.len() && #[trigger] path_components(es[k]) == path_components(es[i]) && label_of(es[k].kind)
                == last_note(es, path_components(es[i])).unwrap();
        lemma_split_slash_injective(es[k].rel_path@, es[i].rel_path@);
        assert(k == i);
    }
}

/// The directory tree does not depend on the order in which the files were found: two
/// lists of the same entries, each path appearing once, give the same tree.
pub proof fn law_tree_ignores_entry_order(es1: Seq<Entry>, es2: Seq<Entry>)
    requires
        es1.to_multiset() == es2.to_multiset(),
        distinct_paths(es1),
        distinct_paths(es2),
    ensures
        tree_text(es1) == tree_text(es2),
{
    broadcast use vstd::seq_lib::group_to_multiset_ensures;
    law_tree_lists_each_path_once(es1);
    law_tree_lists_each_path_once(es2);
    lemma_listing_paths_nonempty(es1);
    lemma_listing_paths_nonempty(es2);
    assert forall|e: Entry| es1.contains(e) <==> es2.contains(e) by {
        es1.to_multiset_ensures();
        es2.to_multiset_ensures();
        assert(es1.to_multiset().count(e) == es2.to_multiset().count(e));
        assert(es1.contains(e) <==> es1.to_multiset().count(e) > 0);
        assert(es2.contains(e) <==> es2.to_multiset().count(e) > 0);
    }
    assert forall|r: Row| listing(es1).contains(r) <==> listing(es2).contains(r) by {
        lemma_listing_rows_of_distinct(es1, r);
        lemma_listing_rows_of_distinct(es2, r);
    }
    lemma_ordered_rows_unique(listing(es1), listing(es2));
}

// ---- the headers before each file ----

/// A directory header: its depth and its name.
pub type Header = (int, Seq<char>);

/// The line of a directory header: indented by its depth, its name and a '/'.
pub open spec fn header_line(h: Header) -> Seq<char> {
    indent(h.0 as nat) + h.1 + seq!['/', '\n']
}

/// The lines of a run of headers, in order.
pub open spec fn headers_text(hs: Seq<Header>) -> Seq<char>
    decreases hs.len(),
{
    if hs.len() == 0 {
        Seq::empty()
    } else {
        headers_text(hs.drop_last()) + header_line(hs.last())
    }
}

/// The directories open after a header, given those open before it: the ones above its
/// depth, then the directory it names.
pub open spec fn open_after(open: Seq<Seq<char>>, h: Header) -> Seq<Seq<char>> {
    open.take(h.0).push(h.1)
}

/// The directories open after a run of headers.
pub open spec fn open_dirs(open: Seq<Seq<char>>, hs: Seq<Header>) -> Seq<Seq<char>>
    decreases hs.len(),
{
    if hs.len() == 0 {
        open
    } else {
        open_dirs(open_after(open, hs[0]), hs.drop_first())
    }
}

/// Whether a run of headers is well placed after the directories `open`: each header is
/// at most one level below the directories open at that point, does not name again the
/// directory already open at its depth, and the next header is one level deeper.
pub open spec fn headers_proper(open: Seq<Seq<char>>, hs: Seq<Header>) -> bool
    decreases hs.len(),
{
    hs.len() == 0 || {
        &&& 0 <= hs[0].0 <= open.len()
        &&& !(hs[0].0 < open.len() && open[hs[0].0] == hs[0].1)
        &&& (hs.len() > 1 ==> hs[1].0 == hs[0].0 + 1)
        &&& headers_proper(open_after(open, hs[0]), hs.drop_first())
    }
}

/// Whether the headers `hs`, printed after a file whose directories were `open`, open
/// exactly the directories `dirs` of the next file, printing no header it did not need.
pub open spec fn opens_exactly(open: Seq<Seq<char>>, hs: Seq<Header>, dirs: Seq<Seq<char>>) -> bool {
    &&& headers_proper(open, hs)
    &&& open_dirs(open, hs).len() >= dirs.len()
    &&& open_dirs(open, hs).take(dirs.len() as int) == dirs
}

/// A listing printed as: for each file, a run of headers, then its file line.
pub open spec fn blocks_text(blocks: Seq<Seq<Header>>, rows: Seq<Row>) -> Seq<char>
    decreases rows.len(),
{
    if rows.len() == 0 || blocks.len() == 0 {
        Seq::empty()
    } else {
        blocks_text(blocks.drop_last(), rows.drop_last()) + headers_text(blocks.last()) + file_line(rows.last())
    }
}

/// The directories of the file listed before row `k` (none before the first).
pub open spec fn dirs_before(rows: Seq<Row>, k: int) -> Seq<Seq<char>> {
    if k == 0 {
        Seq::empty()
    } else {
        rows[k - 1].0.drop_last()
    }
}

/// Headers for levels `from` up to (not including) `to` of `p`.
pub open spec fn levels(p: Seq<Seq<char>>, from: int, to: int) -> Seq<Header> {
    if to <= from {
        Seq::empty()
    } else {
        Seq::new((to - from) as nat, |j: int| (from + j, p[from + j]))
    }
}

proof fn lemma_common_prefix_facts(x: Seq<Seq<char>>, y: Seq<Seq<char>>)
    ensures
        common_prefix_len(x, y) <= x.len(),
        common_prefix_len(x, y) <= y.len(),
        x.take(common_prefix_len(x, y) as int) == y.take(common_prefix_len(x, y) as int),
        common_prefix_len(x, y) < x.len() && common_prefix_len(x, y) < y.len() ==> x[common_prefix_len(x, y) as int]
            != y[common_prefix_len(x, y) as int],
    decreases x.len(),
{
    let c = common_prefix_len(x, y) as int;
    if x.len() == 0 || y.len() == 0 || x[0] != y[0] {
        assert(x.take(0) =~= y.take(0));
    } else {
        lemma_common_prefix_facts(x.drop_first(), y.drop_first());
        assert(x.take(c) =~= seq![x[0]] + x.drop_first().take(c - 1));
        assert(y.take(c) =~= seq![y[0]] + y.drop_first().take(c - 1));
        if c < x.len() && c < y.len() {
            assert(x[c] == x.drop_first()[c - 1]);
            assert(y[c] == y.drop_first()[c - 1]);
        }
    }
}

proof fn lemma_dir_lines_are_headers(p: Seq<Seq<char>>, from: int, to: int)
    requires
        0 <= from <= to <= p.len(),
    ensures
        dir_lines(p, from, to) == headers_text(levels(p, from, to)),
    decreases to - from,
{
    if to > from {
        lemma_dir_lines_are_headers(p, from, to - 1);
        let hs = levels(p, from, to);
        assert(hs.drop_last() =~= levels(p, from, to - 1));
        assert(hs.last() == (to - 1, p[to - 1]));
    } else {
        assert(levels(p, from, to) =~= Seq::<Header>::empty());
    }
}

proof fn lemma_levels_open_exactly(open: Seq<Seq<char>>, dirs: Seq<Seq<char>>, i: int)
    requires
        0 <= i <= dirs.len(),
        i <= open.len(),
        open.take(i) == dirs.take(i),
        i < open.len() && i < dirs.len() ==> open[i] != dirs[i],
    ensures
        opens_exactly(open, levels(dirs, i, dirs.len() as int), dirs),
    decreases dirs.len() - i,
{
    let hs = levels(dirs, i, dirs.len() as int);
    if i == dirs.len() {
        assert(hs =~= Seq::<Header>::empty());
        assert(dirs.take(i) =~= dirs);
    } else {
        assert(hs[0] == (i, dirs[i]));
        let next = open_after(open, hs[0]);
        assert(next =~= dirs.take(i + 1));
        assert(hs.drop_first() =~= levels(dirs, i + 1, dirs.len() as int));
        assert(next.take(i + 1) =~= next);
        assert(dirs.take(i + 1).take(i + 1) =~= dirs.take(i + 1));
        lemma_levels_open_exactly(next, dirs, i + 1);
    }
}

/// The headers the listing prints before each row.
pub open spec fn row_headers(rows: Seq<Row>) -> Seq<Seq<Header>> {
    Seq::new(
        rows.len(),
        |k: int|
            levels(
                rows[k].0,
                if k == 0 {
                    0
                } else {
                    common_prefix_len(rows[k - 1].0.drop_last(), rows[k].0.drop_last()) as int
                },
                rows[k].0.len() - 1,
            ),
    )
}

proof fn lemma_listing_text_blocks(rows: Seq<Row>)
    requires
        rows_nonempty(rows),
    ensures
        listing_text(rows) == blocks_text(row_headers(rows), rows),
    decreases rows.len(),
{
    if rows.len() > 0 {
        let n = rows.len() - 1;
        let init = rows.drop_last();
        assert(rows_nonempty(init)) by {
            assert forall|i: int| 0 <= i < init.len() implies (#[trigger] init[i]).0.len() >= 1 by {
                assert(init[i] == rows[i]);
            }
        }
        lemma_listing_text_blocks(init);
        assert(row_headers(rows).drop_last() =~= row_headers(init)) by {
            assert forall|k: int| 0 <= k < n implies row_headers(rows)[k] == #[trigger] row_headers(init)[k] by {
                assert(init[k] == rows[k]);
                if k > 0 {
                    assert(init[k - 1] == rows[k - 1]);
                }
            }
        }
        let p = rows[n].0;
        assert(p.len() >= 1);
        let shared: int = if n == 0 {
            0
        } else {
            common_prefix_len(rows[n - 1].0.drop_last(), p.drop_last()) as int
        };
        if n > 0 {
            lemma_common_prefix_facts(rows[n - 1].0.drop_last(), p.drop_last());
        }
        lemma_dir_lines_are_headers(p, shared, p.len() - 1);
        assert(row_headers(rows).last() == levels(p, shared, p.len() - 1));
    }
}

/// Before each file line the tree prints exactly the headers that open that file's own
/// directories: read in order from the directories of the previous file, each header sits
/// at most one level below those open, never names again a directory that is already open
/// at its depth, and once they are read the open directories begin with the file's whole
/// directory path. So a file is never shown inside another file's directory, and a
/// directory header appears once for each run of files below it.
pub proof fn law_tree_headers_open_each_files_directories(es: Seq<Entry>)
    ensures
        exists|blocks: Seq<Seq<Header>>|
            #![trigger blocks_text(blocks, listing(es))]
            blocks.len() == listing(es).len() && tree_text(es) == blocks_text(blocks, listing(es)) && forall|k: int|
                0 <= k < blocks.len() ==> opens_exactly(
                    dirs_before(listing(es), k),
                    #[trigger] blocks[k],
                    listing(es)[k].0.drop_last(),
                ),
{
    let rows = listing(es);
    lemma_listing_paths_nonempty(es);
    lemma_listing_text_blocks(rows);
    let blocks = row_headers(rows);
    assert forall|k: int| 0 <= k < blocks.len() implies opens_exactly(
        dirs_before(rows, k),
        #[trigger] blocks[k],
        rows[k].0.drop_last(),
    ) by {
        let p = rows[k].0;
        assert(p.len() >= 1);
        let dirs = p.drop_last();
        let open = dirs_before(rows, k);
        let c: int = if k == 0 {
            0
        } else {
            common_prefix_len(open, dirs) as int
        };
        if k == 0 {
            assert(open.take(0) =~= dirs.take(0));
        } else {
            lemma_common_prefix_facts(open, dirs);
        }
        lemma_levels_open_exactly(open, dirs, c);
        assert(blocks[k] =~= levels(dirs, c, dirs.len() as int));
    }
    assert(blocks_text(blocks, rows) == tree_text(es));
}

/// How two paths compare at level `i`: a directory there (a component before the last)
/// comes before a file there, and between two of the same kind the name decides.
pub open spec fn level_before(p: Seq<Seq<char>>, q: Seq<Seq<char>>, i: int) -> bool {
    let p_dir = i < p.len() - 1;
    let q_dir = i < q.len() - 1;
    (p_dir && !q_dir) || (p_dir == q_dir && lex_lt(p[i], q[i]))
}

/// The tree order: `p` comes before `q` exactly when, at some level where their leading
/// components agree, a directory of `p` meets a file of `q`, or two entries of the same
/// kind meet and `p`'s name comes first.
pub proof fn law_tree_order(p: Seq<Seq<char>>, q: Seq<Seq<char>>)
    requires
        p.len() >= 1,
        q.len() >= 1,
    ensures
        path_lt(p, q) <==> exists|i: int| 0 <= i < p.len() && i < q.len() && p.take(i) == q.take(i) && #[trigger] level_before(p, q, i),
    decreases p.len(),
{
    assert(p.take(0) =~= q.take(0));
    if (p.len() > 1) != (q.len() > 1) {
        if exists|i: int| 0 <= i < p.len() && i < q.len() && p.take(i) == q.take(i) && #[trigger] level_before(p, q, i) {
            let i = choose|i: int| 0 <= i < p.len() && i < q.len() && p.take(i) == q.take(i) && #[trigger] level_before(p, q, i);
            assert(i == 0);
        }
        if p.len() > 1 {
            assert(level_before(p, q, 0));
        }
    } else if p[0] != q[0] {
        if exists|i: int| 0 <= i < p.len() && i < q.len() && p.take(i) == q.take(i) && #[trigger] level_before(p, q, i) {
            let i = choose|i: int| 0 <= i < p.len() && i < q.len() && p.take(i) == q.take(i) && #[trigger] level_before(p, q, i);
            if i > 0 {
                assert(p.take(i)[0] == q.take(i)[0]);
            }
        }
        if lex_lt(p[0], q[0]) {
            assert(level_before(p, q, 0));
        }
    } else if p.len() == 1 {
        lemma_lex_irreflexive(p[0]);
        if exists|i: int| 0 <= i < p.len() && i < q.len() && p.take(i) == q.take(i) && #[trigger] level_before(p, q, i) {
            let i = choose|i: int| 0 <= i < p.len() && i < q.len() && p.take(i) == q.take(i) && #[trigger] level_before(p, q, i);
            assert(i == 0);
        }
    } else {
        let p1 = p.drop_first();
        let q1 = q.drop_first();
        law_tree_order(p1, q1);
        lemma_lex_irreflexive(p[0]);
        if exists|i: int| 0 <= i < p.len() && i < q.len() && p.take(i) == q.take(i) && #[trigger] level_before(p, q, i) {
            let i = choose|i: int| 0 <= i < p.len() && i < q.len() && p.take(i) == q.take(i) && #[trigger] level_before(p, q, i);
            assert(i > 0);
            assert(p1.take(i - 1) =~= p.take(i).drop_first());
            assert(q1.take(i - 1) =~= q.take(i).drop_first());
            assert(p1[i - 1] == p[i] && q1[i - 1] == q[i]);
            assert(level_before(p1, q1, i - 1));
        }
        if exists|i: int| 0 <= i < p1.len() && i < q1.len() && p1.take(i) == q1.take(i) && #[trigger] level_before(p1, q1, i) {
            let i = choose|i: int| 0 <= i < p1.len() && i < q1.len() && p1.take(i) == q1.take(i) && #[trigger] level_before(p1, q1, i);
            assert(p.take(i + 1) =~= seq![p[0]] + p1.take(i));
            assert(q.take(i + 1) =~= seq![q[0]] + q1.take(i));
            assert(p[i + 1] == p1[i] && q[i + 1] == q1[i]);
            assert(level_before(p, q, i + 1));
        }
    }
}

} // verus!
