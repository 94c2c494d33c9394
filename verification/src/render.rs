//! The packed document: a header, a summary, the directory tree and the file bodies, in
//! Markdown or XML, or just the paths.

use vstd::prelude::*;

use crate::entry::{count_text, stats, total_chars, total_text_bytes, Entry, EntryKind, Format, Options, Stats};
use crate::lang::{lang_for_path, language_of_path};
use crate::markup::{fence, fence_for, push_xml_escaped, xml_escaped};
use crate::size::approx_tokens;
use crate::text::{
    chars_of, decimal, lemma_occurs_in_middle, lemma_occurs_in_self, occurs_in, push_chars, push_decimal,
    push_str, string_from_chars,
};
use crate::tree::{render_tree, tree_text};

verus! {

/// The summary lines for the given counts.
pub open spec fn stats_lines(text: nat, skipped: nat, bytes: nat, chars: nat, tokens: bool) -> Seq<Seq<char>> {
    let lines = seq![
        "- Files: "@ + decimal(text) + " text, "@ + decimal(skipped) + " skipped"@,
        "- Text size: "@ + decimal(bytes) + " bytes"@,
    ];
    if tokens {
        lines.push("- Approx tokens: ~"@ + decimal((chars + 3) / 4))
    } else {
        lines
    }
}

/// The summary lines for the counts held in `st`.
pub open spec fn stats_summary(st: Stats, tokens: bool) -> Seq<Seq<char>> {
    stats_lines(st.text_files as nat, st.skipped_files as nat, st.text_bytes as nat, st.chars as nat, tokens)
}

/// The summary lines of a set of entries.
pub open spec fn summary_for(es: Seq<Entry>, tokens: bool) -> Seq<Seq<char>> {
    stats_lines(count_text(es), (es.len() - count_text(es)) as nat, total_text_bytes(es), total_chars(es), tokens)
}

/// Each line followed by a line break.
pub open spec fn lines_block(lines: Seq<Seq<char>>) -> Seq<char>
    decreases lines.len(),
{
    if lines.len() == 0 {
        Seq::empty()
    } else {
        lines_block(lines.drop_last()) + lines.last() + seq!['\n']
    }
}

/// Whether the approximate token count of `used` characters has reached the budget.
pub open spec fn budget_reached(budget: Option<usize>, used: nat) -> bool {
    budget matches Some(b) && (used + 3) / 4 >= b
}

/// A line break, unless `s` already ends in one.
pub open spec fn newline_unless_ends(s: Seq<char>) -> Seq<char> {
    if s.len() > 0 && s.last() == '\n' {
        Seq::empty()
    } else {
        seq!['\n']
    }
}

/// The Markdown section of one text file: its path as a heading, then its contents in a
/// fence longer than any backtick run inside, tagged with its language.
pub open spec fn md_file_section(path: Seq<char>, content: Seq<char>) -> Seq<char> {
    "### `"@ + path + "`\n\n"@ + fence(content) + language_of_path(path) + seq!['\n'] + content + newline_unless_ends(content)
        + fence(content) + "\n\n"@
}

/// The XML element of one text file: its escaped path as an attribute, its escaped
/// contents as the body.
pub open spec fn xml_file_section(path: Seq<char>, content: Seq<char>) -> Seq<char> {
    "  <file path=\""@ + xml_escaped(path) + "\">\n"@ + xml_escaped(content) + newline_unless_ends(
        content,
    ) + "  </file>\n"@
}

/// The sections of the text files among `es`, in order, until the characters already emitted
/// (`used`) reach the token budget.
pub open spec fn file_sections(es: Seq<Entry>, xml: bool, budget: Option<usize>, used: nat) -> Seq<char>
    decreases es.len(),
{
    if es.len() == 0 {
        Seq::empty()
    } else {
        match es[0].kind {
            EntryKind::Text(t) => if budget_reached(budget, used) {
                Seq::empty()
            } else {
                (if xml {
                    xml_file_section(es[0].rel_path@, t@)
                } else {
                    md_file_section(es[0].rel_path@, t@)
                }) + file_sections(es.drop_first(), xml, budget, used + t@.len())
            },
            _ => file_sections(es.drop_first(), xml, budget, used),
        }
    }
}

/// The Markdown document with the given summary lines.
pub open spec fn md_page(root: Seq<char>, es: Seq<Entry>, opts: Options, summary: Seq<Seq<char>>) -> Seq<char> {
    "# Repository: "@ + root + "\n\n"@ + "## Summary\n\n"@ + lines_block(summary)
        + "\n"@ + (if opts.tree {
        "## Structure\n\n```\n"@ + tree_text(es) + "```\n\n"@
    } else {
        Seq::empty()
    }) + (if opts.contents {
        "## Files\n\n"@ + file_sections(es, false, opts.max_tokens, 0)
    } else {
        Seq::empty()
    })
}

/// The Markdown document, summarising the entries themselves.
pub open spec fn md_document(root: Seq<char>, es: Seq<Entry>, opts: Options) -> Seq<char> {
    md_page(root, es, opts, summary_for(es, opts.tokens))
}

/// `s` without any number of leading "- ".
pub open spec fn strip_dashes(s: Seq<char>) -> Seq<char>
    decreases s.len(),
{
    if s.len() >= 2 && s[0] == '-' && s[1] == ' ' {
        strip_dashes(s.skip(2))
    } else {
        s
    }
}

/// Each summary line in XML: indented, its "- " dropped and the rest escaped.
pub open spec fn xml_summary_block(lines: Seq<Seq<char>>) -> Seq<char>
    decreases lines.len(),
{
    if lines.len() == 0 {
        Seq::empty()
    } else {
        xml_summary_block(lines.drop_last()) + "    "@ + xml_escaped(strip_dashes(lines.last())) + seq!['\n']
    }
}

/// The XML document with the given summary lines.
pub open spec fn xml_page(root: Seq<char>, es: Seq<Entry>, opts: Options, summary: Seq<Seq<char>>) -> Seq<char> {
    "<repotome path=\""@ + xml_escaped(root) + "\">\n"@ + "  <summary>\n"@ + xml_summary_block(summary) + "  </summary>\n"@ + (if opts.tree {
        "  <structure>\n"@ + xml_escaped(tree_text(es)) + "  </structure>\n"@
    } else {
        Seq::empty()
    }) + (if opts.contents {
        file_sections(es, true, opts.max_tokens, 0)
    } else {
        Seq::empty()
    }) + "</repotome>\n"@
}

/// The XML document, summarising the entries themselves.
pub open spec fn xml_document(root: Seq<char>, es: Seq<Entry>, opts: Options) -> Seq<char> {
    xml_page(root, es, opts, summary_for(es, opts.tokens))
}

/// The paths of the entries, one per line.
pub open spec fn paths_document(es: Seq<Entry>) -> Seq<char>
    decreases es.len(),
{
    if es.len() == 0 {
        Seq::empty()
    } else {
        paths_document(es.drop_last()) + es.last().rel_path@ + seq!['\n']
    }
}

/// The document `render` produces.
pub open spec fn document(root: Seq<char>, es: Seq<Entry>, opts: Options) -> Seq<char> {
    if opts.paths {
        paths_document(es)
    } else if opts.format == Format::Md {
        md_document(root, es, opts)
    } else {
        xml_document(root, es, opts)
    }
}


pub open spec fn lines_view(ls: Seq<String>) -> Seq<Seq<char>> {
    ls.map_values(|l: String| l@)
}

/// The summary lines for the counts of `st`: the text and skipped files, the text size,
/// and with `opts.tokens` the approximate token count.
pub fn summary_lines(st: &Stats, opts: &Options) -> (r: Vec<String>)
    ensures
        lines_view(r@) == stats_summary(*st, opts.tokens),
{
    let mut files: Vec<char> = Vec::new();
    push_str(&mut files, "- Files: ");
    push_decimal(&mut files, st.text_files as u64);
    push_str(&mut files, " text, ");
    push_decimal(&mut files, st.skipped_files as u64);
    push_str(&mut files, " skipped");
    let mut size: Vec<char> = Vec::new();
    push_str(&mut size, "- Text size: ");
    push_decimal(&mut size, st.text_bytes as u64);
    push_str(&mut size, " bytes");
    let mut lines: Vec<String> = Vec::new();
    lines.push(string_from_chars(files));
    lines.push(string_from_chars(size));
    if opts.tokens {
        let mut approx: Vec<char> = Vec::new();
        push_str(&mut approx, "- Approx tokens: ~");
        push_decimal(&mut approx, approx_tokens(st.chars) as u64);
        lines.push(string_from_chars(approx));
    }
    assert(lines_view(lines@) =~= stats_summary(*st, opts.tokens));
    lines
}

/// Append each line followed by a line break.
fn push_lines(out: &mut Vec<char>, lines: &Vec<String>)
    ensures
        final(out)@ == old(out)@ + lines_block(lines_view(lines@)),
{
    let ghost lv = lines_view(lines@);
    let mut k: usize = 0;
    while k < lines.len()
        invariant
            k <= lines@.len(),
            lv == lines_view(lines@),
            out@ == old(out)@ + lines_block(lv.take(k as int)),
        decreases lines@.len() - k,
    {
        push_str(out, lines[k].as_str());
        out.push('\n');
        k = k + 1;
        let ghost t = lv.take(k as int);
        assert(t.drop_last() =~= lv.take(k - 1));
        assert(out@ =~= old(out)@ + lines_block(t));
    }
    assert(lv.take(k as int) =~= lv);
}

/// Append a line break unless `s` ends in one.
fn push_newline_unless_ends(out: &mut Vec<char>, s: &Vec<char>)
    ensures
        final(out)@ == old(out)@ + newline_unless_ends(s@),
{
    if !(s.len() > 0 && s[s.len() - 1] == '\n') {
        out.push('\n');
        assert(out@ =~= old(out)@ + seq!['\n']);
    } else {
        assert(out@ =~= old(out)@ + Seq::<char>::empty());
    }
}

/// Append the section of one text file.
fn push_file_section(out: &mut Vec<char>, path: &String, content: &String, xml: bool)
    ensures
        final(out)@ == old(out)@ + if xml {
            xml_file_section(path@, content@)
        } else {
            md_file_section(path@, content@)
        },
{
    let p = chars_of(path.as_str());
    let c = chars_of(content.as_str());
    if xml {
        push_str(out, "  <file path=\"");
        push_xml_escaped(out, &p);
        push_str(out, "\">\n");
        push_xml_escaped(out, &c);
        push_newline_unless_ends(out, &c);
        push_str(out, "  </file>\n");
        assert(out@ =~= old(out)@ + xml_file_section(path@, content@));
    } else {
        let f = fence_for(content.as_str());
        let fc = chars_of(f.as_str());
        push_str(out, "### `");
        push_chars(out, &p);
        push_str(out, "`\n\n");
        push_chars(out, &fc);
        push_str(out, lang_for_path(path.as_str()));
        out.push('\n');
        push_chars(out, &c);
        push_newline_unless_ends(out, &c);
        push_chars(out, &fc);
        push_str(out, "\n\n");
        assert(out@ =~= old(out)@ + md_file_section(path@, content@));
    }
}

/// Append the sections of the text files, stopping once the token budget is reached.
fn push_file_sections(out: &mut Vec<char>, entries: &[Entry], xml: bool, budget: Option<usize>)
    requires
        total_chars(entries@) <= usize::MAX,
    ensures
        final(out)@ == old(out)@ + file_sections(entries@, xml, budget, 0),
{
    let ghost es = entries@;
    let mut used: usize = 0;
    let mut k: usize = 0;
    assert(es.skip(0) =~= es);
    assert(es.take(0) =~= Seq::<Entry>::empty());
    while k < entries.len()
        invariant
            k <= es.len(),
            es == entries@,
            total_chars(es) <= usize::MAX,
            used == total_chars(es.take(k as int)),
            old(out)@ + file_sections(es, xml, budget, 0) == out@ + file_sections(
                es.skip(k as int),
                xml,
                budget,
                used as nat,
            ),
        decreases es.len() - k,
    {
        let ghost rest = es.skip(k as int);
        assert(rest[0] == es[k as int]);
        assert(rest.drop_first() =~= es.skip(k + 1));
        let ghost t = es.take(k + 1);
        assert(t.drop_last() =~= es.take(k as int));
        assert(t.last() == es[k as int]);
        proof {
            crate::entry::lemma_totals_prefix(es, k + 1);
        }
        match &entries[k].kind {
            EntryKind::Text(text) => {
                let reached = match budget {
                    Some(b) => approx_tokens(used) >= b,
                    None => false,
                };
                if reached {
                    assert(file_sections(rest, xml, budget, used as nat) =~= Seq::<char>::empty());
                    assert(out@ =~= out@ + Seq::<char>::empty());
                    return;
                }
                let ghost before = out@;
                push_file_section(out, &entries[k].rel_path, text, xml);
                used = used + text.as_str().unicode_len();
                assert(out@ + file_sections(es.skip(k + 1), xml, budget, used as nat) =~= before
                    + file_sections(rest, xml, budget, (used - text@.len()) as nat));
            },
            _ => {},
        }
        k = k + 1;
    }
    assert(file_sections(es.skip(k as int), xml, budget, used as nat) =~= Seq::<char>::empty());
    assert(out@ =~= out@ + Seq::<char>::empty());
}

/// Whether the text totals of the entries fit the counters.
pub open spec fn totals_fit(es: Seq<Entry>) -> bool {
    total_text_bytes(es) <= usize::MAX && total_chars(es) <= usize::MAX
}

/// Whether the byte and character totals of the text files fit the summary counters, so
/// that the document can be rendered.
pub fn text_totals_fit(entries: &[Entry]) -> (r: bool)
    ensures
        r == totals_fit(entries@),
{
    let mut bytes: usize = 0;
    let mut chars: usize = 0;
    let mut i: usize = 0;
    while i < entries.len()
        invariant
            i <= entries@.len(),
            bytes == total_text_bytes(entries@.take(i as int)),
            chars == total_chars(entries@.take(i as int)),
        decreases entries@.len() - i,
    {
        let ghost t = entries@.take(i + 1);
        assert(t.drop_last() =~= entries@.take(i as int));
        assert(t.last() == entries@[i as int]);
        proof {
            crate::entry::lemma_totals_prefix(entries@, i + 1);
        }
        match &entries[i].kind {
            EntryKind::Text(text) => {
                let n = text.as_str().as_bytes().len();
                match bytes.checked_add(n) {
                    Some(b) => {
                        bytes = b;
                    },
                    None => {
                        return false;
                    },
                }
                match chars.checked_add(text.as_str().unicode_len()) {
                    Some(c) => {
                        chars = c;
                    },
                    None => {
                        return false;
                    },
                }
            },
            _ => {},
        }
        i = i + 1;
    }
    assert(entries@.take(i as int) =~= entries@);
    true
}

/// The Markdown document: a header naming the root, the summary of `st`, the tree when
/// `opts.tree`, and with `opts.contents` the fenced body of each text file, in order, until
/// the token budget is reached. The character total of the text files must fit a `usize`.
pub fn render_md(root_name: &str, entries: &[Entry], opts: &Options, st: &Stats) -> (r: String)
    requires
        total_chars(entries@) <= usize::MAX,
    ensures
        r@ == md_page(root_name@, entries@, *opts, stats_summary(*st, opts.tokens)),
{
    let mut out: Vec<char> = Vec::new();
    push_str(&mut out, "# Repository: ");
    push_str(&mut out, root_name);
    push_str(&mut out, "\n\n");
    push_str(&mut out, "## Summary\n\n");
    let lines = summary_lines(st, opts);
    push_lines(&mut out, &lines);
    push_str(&mut out, "\n");
    let ghost head = out@;
    if opts.tree {
        push_str(&mut out, "## Structure\n\n```\n");
        let tree = render_tree(entries);
        push_str(&mut out, tree.as_str());
        push_str(&mut out, "```\n\n");
    }
    let ghost with_tree = out@;
    if opts.contents {
        push_str(&mut out, "## Files\n\n");
        push_file_sections(&mut out, entries, false, opts.max_tokens);
    }
    assert(out@ =~= md_page(root_name@, entries@, *opts, stats_summary(*st, opts.tokens)));
    string_from_chars(out)
}

/// The XML document: the root element with the escaped root name, the summary of `st`
/// without its dashes, the escaped tree when `opts.tree`, and with `opts.contents` one
/// element per text file, in order, until the token budget is reached. The character total
/// of the text files must fit a `usize`.
pub fn render_xml(root_name: &str, entries: &[Entry], opts: &Options, st: &Stats) -> (r: String)
    requires
        total_chars(entries@) <= usize::MAX,
    ensures
        r@ == xml_page(root_name@, entries@, *opts, stats_summary(*st, opts.tokens)),
{
    let mut out: Vec<char> = Vec::new();
    push_str(&mut out, "<repotome path=\"");
    let root = chars_of(root_name);
    push_xml_escaped(&mut out, &root);
    push_str(&mut out, "\">\n");
    push_str(&mut out, "  <summary>\n");
    let lines = summary_lines(st, opts);
    let ghost lv = lines_view(lines@);
    let ghost base = out@;
    let mut k: usize = 0;
    while k < lines.len()
        invariant
            k <= lines@.len(),
            lv == lines_view(lines@),
            out@ == base + xml_summary_block(lv.take(k as int)),
        decreases lines@.len() - k,
    {
        push_str(&mut out, "    ");
        let line = chars_of(lines[k].as_str());
        let stripped = strip_dash_prefixes(&line);
        push_xml_escaped(&mut out, &stripped);
        out.push('\n');
        k = k + 1;
        let ghost t = lv.take(k as int);
        assert(t.drop_last() =~= lv.take(k - 1));
        assert(t.last() == lines@[k - 1]@);
        assert(out@ =~= base + xml_summary_block(t));
    }
    assert(lv.take(k as int) =~= lv);
    push_str(&mut out, "  </summary>\n");
    if opts.tree {
        push_str(&mut out, "  <structure>\n");
        let tree = render_tree(entries);
        let tc = chars_of(tree.as_str());
        push_xml_escaped(&mut out, &tc);
        push_str(&mut out, "  </structure>\n");
    }
    if opts.contents {
        push_file_sections(&mut out, entries, true, opts.max_tokens);
    }
    push_str(&mut out, "</repotome>\n");
    assert(out@ =~= xml_page(root_name@, entries@, *opts, stats_summary(*st, opts.tokens)));
    string_from_chars(out)
}

/// `s` without any number of leading "- " (as `trim_start_matches("- ")`).
fn strip_dash_prefixes(s: &Vec<char>) -> (r: Vec<char>)
    ensures
        r@ == strip_dashes(s@),
{
    let mut i: usize = 0;
    assert(s@.skip(0) =~= s@);
    while s.len() - i >= 2 && s[i] == '-' && s[i + 1] == ' '
        invariant
            i <= s@.len(),
            strip_dashes(s@) == strip_dashes(s@.skip(i as int)),
        decreases s@.len() - i,
    {
        let ghost t = s@.skip(i as int);
        assert(t[0] == s@[i as int] && t[1] == s@[i + 1]);
        assert(t.skip(2) =~= s@.skip(i + 2));
        i = i + 2;
    }
    let ghost t = s@.skip(i as int);
    assert(t.len() >= 2 ==> t[0] == s@[i as int] && t[1] == s@[i + 1]);
    let mut out: Vec<char> = Vec::new();
    let mut k: usize = i;
    while k < s.len()
        invariant
            i <= k <= s@.len(),
            out@ == s@.subrange(i as int, k as int),
        decreases s@.len() - k,
    {
        out.push(s[k]);
        k = k + 1;
        assert(out@ =~= s@.subrange(i as int, k as int));
    }
    assert(out@ =~= t);
    out
}

/// The paths, one per line.
fn render_paths(entries: &[Entry]) -> (r: Vec<char>)
    ensures
        r@ == paths_document(entries@),
{
    let mut out: Vec<char> = Vec::new();
    let mut k: usize = 0;
    while k < entries.len()
        invariant
            k <= entries@.len(),
            out@ == paths_document(entries@.take(k as int)),
        decreases entries@.len() - k,
    {
        push_str(&mut out, entries[k].rel_path.as_str());
        out.push('\n');
        k = k + 1;
        let ghost t = entries@.take(k as int);
        assert(t.drop_last() =~= entries@.take(k - 1));
        assert(t.last() == entries@[k - 1]);
        assert(out@ =~= paths_document(t));
    }
    assert(entries@.take(k as int) =~= entries@);
    out
}

/// The one-line report of a run: the text files, the skipped files, the text size, and
/// with `tokens` the approximate token count.
pub open spec fn run_report(st: Stats, tokens: bool) -> Seq<char> {
    "repotome: "@ + decimal(st.text_files as nat) + " text file(s), "@ + decimal(st.skipped_files as nat)
        + " skipped, "@ + decimal(st.text_bytes as nat) + " bytes"@ + if tokens {
        ", ~"@ + decimal(((st.chars + 3) / 4) as nat) + " tokens"@
    } else {
        Seq::empty()
    }
}

/// The line that reports a run, such as
/// "repotome: 3 text file(s), 1 skipped, 120 bytes, ~30 tokens".
pub fn run_summary(st: &Stats, tokens: bool) -> (r: String)
    ensures
        r@ == run_report(*st, tokens),
{
    let mut out: Vec<char> = Vec::new();
    push_str(&mut out, "repotome: ");
    push_decimal(&mut out, st.text_files as u64);
    push_str(&mut out, " text file(s), ");
    push_decimal(&mut out, st.skipped_files as u64);
    push_str(&mut out, " skipped, ");
    push_decimal(&mut out, st.text_bytes as u64);
    push_str(&mut out, " bytes");
    if tokens {
        push_str(&mut out, ", ~");
        push_decimal(&mut out, approx_tokens(st.chars) as u64);
        push_str(&mut out, " tokens");
    }
    assert(out@ =~= run_report(*st, tokens));
    string_from_chars(out)
}

/// Whether the document goes to standard output: only when no output file is given and
/// it is not copied to the clipboard instead.
pub fn prints_to_stdout(output_file_given: bool, copy: bool) -> (r: bool)
    ensures
        r == (!output_file_given && !copy),
{
    !output_file_given && !copy
}

/// Render the collected entries into the final document string.
pub fn render(root_name: &str, entries: &[Entry], opts: &Options) -> (r: String)
    requires
        !opts.paths ==> totals_fit(entries@),
    ensures
        r@ == document(root_name@, entries@, *opts),
{
    if opts.paths {
        let out = render_paths(entries);
        return string_from_chars(out);
    }
    let st = stats(entries);
    assert(stats_summary(st, opts.tokens) == summary_for(entries@, opts.tokens));
    match opts.format {
        Format::Md => render_md(root_name, entries, opts, &st),
        Format::Xml => render_xml(root_name, entries, opts, &st),
    }
}


// ---- laws of the document ----

/// Outside paths mode, the document is the Markdown or the XML document by the chosen
/// format, each with the summary of the entries' own counts.
pub proof fn law_render_follows_format(root: Seq<char>, es: Seq<Entry>, opts: Options)
    requires
        !opts.paths,
    ensures
        opts.format == Format::Md ==> document(root, es, opts) == md_page(root, es, opts, summary_for(es, opts.tokens)),
        opts.format == Format::Xml ==> document(root, es, opts) == xml_page(root, es, opts, summary_for(es, opts.tokens)),
{
}

/// The section of a text file, in the chosen format.
pub open spec fn file_section(xml: bool, path: Seq<char>, content: Seq<char>) -> Seq<char> {
    if xml {
        xml_file_section(path, content)
    } else {
        md_file_section(path, content)
    }
}

/// The text entries among `es`, in order.
pub open spec fn text_entries(es: Seq<Entry>) -> Seq<Entry>
    decreases es.len(),
{
    if es.len() == 0 {
        Seq::empty()
    } else if es[0].kind is Text {
        seq![es[0]] + text_entries(es.drop_first())
    } else {
        text_entries(es.drop_first())
    }
}

/// Only text files get a section: dropping every binary, oversized or unreadable entry
/// leaves the file sections unchanged, whatever the format and the token budget.
pub proof fn law_file_sections_only_text(es: Seq<Entry>, xml: bool, budget: Option<usize>, used: nat)
    ensures
        file_sections(es, xml, budget, used) == file_sections(text_entries(es), xml, budget, used),
    decreases es.len(),
{
    if es.len() > 0 {
        let rest = es.drop_first();
        match es[0].kind {
            EntryKind::Text(t) => {
                law_file_sections_only_text(rest, xml, budget, used + t@.len());
                let f = text_entries(es);
                assert(f == seq![es[0]] + text_entries(rest));
                assert(f[0] == es[0]);
                assert(f.drop_first() =~= text_entries(rest));
            },
            _ => {
                law_file_sections_only_text(rest, xml, budget, used);
            },
        }
    }
}

proof fn lemma_file_sections_unbudgeted(es: Seq<Entry>, xml: bool, u: nat, v: nat)
    ensures
        file_sections(es, xml, None, u) == file_sections(es, xml, None, v),
    decreases es.len(),
{
    if es.len() > 0 {
        match es[0].kind {
            EntryKind::Text(t) => {
                lemma_file_sections_unbudgeted(es.drop_first(), xml, u + t@.len(), v + t@.len());
            },
            _ => {
                lemma_file_sections_unbudgeted(es.drop_first(), xml, u, v);
            },
        }
    }
}

/// Without a token budget, the sections of a list are those of its first part followed by
/// those of the rest: each entry contributes on its own, in entry order.
pub proof fn law_file_sections_concat(a: Seq<Entry>, b: Seq<Entry>, xml: bool, u: nat, v: nat)
    ensures
        file_sections(a + b, xml, None, u) == file_sections(a, xml, None, u) + file_sections(b, xml, None, v),
    decreases a.len(),
{
    if a.len() == 0 {
        assert(a + b =~= b);
        lemma_file_sections_unbudgeted(b, xml, u, v);
        assert(Seq::<char>::empty() + file_sections(b, xml, None, v) =~= file_sections(b, xml, None, v));
    } else {
        assert((a + b)[0] == a[0]);
        assert((a + b).drop_first() =~= a.drop_first() + b);
        match a[0].kind {
            EntryKind::Text(t) => {
                law_file_sections_concat(a.drop_first(), b, xml, u + t@.len(), v);
                let sec = file_section(xml, a[0].rel_path@, t@);
                assert(sec + (file_sections(a.drop_first(), xml, None, u + t@.len()) + file_sections(b, xml, None, v))
                    =~= (sec + file_sections(a.drop_first(), xml, None, u + t@.len())) + file_sections(b, xml, None, v));
            },
            _ => {
                law_file_sections_concat(a.drop_first(), b, xml, u, v);
            },
        }
    }
}

/// The sections of a single entry: the heading and body of a text file, nothing for any
/// other entry.
pub proof fn law_file_section_of_one_entry(e: Entry, xml: bool, used: nat)
    ensures
        e.kind matches EntryKind::Text(t) ==> file_sections(seq![e], xml, None, used) == file_section(
            xml,
            e.rel_path@,
            t@,
        ),
        !(e.kind is Text) ==> file_sections(seq![e], xml, None, used) == Seq::<char>::empty(),
{
    let es = seq![e];
    assert(es[0] == e);
    assert(es.drop_first() =~= Seq::<Entry>::empty());
    assert(file_sections(es.drop_first(), xml, None, used) == Seq::<char>::empty());
    assert(file_sections(es.drop_first(), xml, None, used + e.kind->Text_0@.len()) == Seq::<char>::empty());
    if let EntryKind::Text(t) = e.kind {
        assert(file_sections(es, xml, None, used) =~= file_section(xml, e.rel_path@, t@));
    }
}

proof fn lemma_file_sections_hold(es: Seq<Entry>, xml: bool, used: nat, i: int)
    requires
        0 <= i < es.len(),
        es[i].kind is Text,
    ensures
        occurs_in(file_section(xml, es[i].rel_path@, es[i].kind->Text_0@), file_sections(es, xml, None, used)),
    decreases es.len(),
{
    let sec = file_section(xml, es[i].rel_path@, es[i].kind->Text_0@);
    let rest = es.drop_first();
    if i == 0 {
        let t = es[0].kind->Text_0;
        lemma_occurs_in_self(sec);
        lemma_occurs_in_middle(sec, Seq::empty(), sec, file_sections(rest, xml, None, used + t@.len()));
        assert(Seq::<char>::empty() + sec + file_sections(rest, xml, None, used + t@.len()) =~= file_sections(
            es,
            xml,
            None,
            used,
        ));
    } else {
        assert(rest[i - 1] == es[i]);
        match es[0].kind {
            EntryKind::Text(t) => {
                lemma_file_sections_hold(rest, xml, used + t@.len(), i - 1);
                let head = file_section(xml, es[0].rel_path@, t@);
                lemma_occurs_in_middle(sec, head, file_sections(rest, xml, None, used + t@.len()), Seq::empty());
                assert(head + file_sections(rest, xml, None, used + t@.len()) + Seq::<char>::empty()
                    =~= file_sections(es, xml, None, used));
            },
            _ => {
                lemma_file_sections_hold(rest, xml, used, i - 1);
            },
        }
    }
}

/// With file bodies on and no token budget, the document holds the section of every text
/// file: its heading and its whole contents (fenced in Markdown, escaped in XML).
pub proof fn law_document_holds_every_text_file(root: Seq<char>, es: Seq<Entry>, opts: Options, i: int)
    requires
        !opts.paths,
        opts.contents,
        opts.max_tokens is None,
        0 <= i < es.len(),
        es[i].kind is Text,
    ensures
        occurs_in(
            file_section(opts.format == Format::Xml, es[i].rel_path@, es[i].kind->Text_0@),
            document(root, es, opts),
        ),
{
    let xml = opts.format == Format::Xml;
    let sec = file_section(xml, es[i].rel_path@, es[i].kind->Text_0@);
    lemma_file_sections_hold(es, xml, 0, i);
    let fs = file_sections(es, xml, None, 0);
    if xml {
        let doc = xml_document(root, es, opts);
        let before = "<repotome path=\""@ + xml_escaped(root) + "\">\n"@ + "  <summary>\n"@ + xml_summary_block(
            summary_for(es, opts.tokens),
        ) + "  </summary>\n"@ + (if opts.tree {
            "  <structure>\n"@ + xml_escaped(tree_text(es)) + "  </structure>\n"@
        } else {
            Seq::empty()
        });
        lemma_occurs_in_middle(sec, before, fs, "</repotome>\n"@);
        assert(doc =~= before + fs + "</repotome>\n"@);
    } else {
        let doc = md_document(root, es, opts);
        let before = "# Repository: "@ + root + "\n\n"@ + "## Summary\n\n"@ + lines_block(summary_for(es, opts.tokens))
            + "\n"@ + (if opts.tree {
            "## Structure\n\n```\n"@ + tree_text(es) + "```\n\n"@
        } else {
            Seq::empty()
        }) + "## Files\n\n"@;
        lemma_occurs_in_middle(sec, before, fs, Seq::empty());
        assert(doc =~= before + fs + Seq::<char>::empty());
    }
}

} // verus!
