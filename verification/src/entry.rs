//! The data the walker hands over and the renderer reads: options, entries, summary counts.

use vstd::prelude::*;

use vstd::utf8::{encode_scalar, encode_utf8};

use crate::text::{decimal, push_decimal, push_str};

verus! {

/// Output format for the packed document.
#[derive(Debug, Clone, Copy, PartialEq, Eq, Structural)]
pub enum Format {
    /// Markdown with fenced code blocks (default).
    Md,
    /// A simple repomix-style XML wrapper.
    Xml,
}

/// Options controlling traversal and rendering.
#[derive(Debug, Clone)]
pub struct Options {
    /// Include only files whose repo-relative path matches one of these globs.
    pub includes: Vec<String>,
    /// Additionally exclude files matching one of these globs.
    pub exclude: Vec<String>,
    /// Skip files larger than this many bytes (contents omitted).
    pub max_size: u64,
    /// Respect .gitignore / .ignore and skip the .git directory.
    pub respect_gitignore: bool,
    /// Include hidden files (dotfiles).
    pub hidden: bool,
    /// Render the directory-tree section.
    pub tree: bool,
    /// Render the file bodies; when false only the summary and tree are produced.
    pub contents: bool,
    /// Produce only the collected paths, one per line.
    pub paths: bool,
    /// Output format.
    pub format: Format,
    /// Include an approximate token count in the summary.
    pub tokens: bool,
    /// Stop emitting file bodies once this approximate token budget is reached.
    pub max_tokens: Option<usize>,
}

/// The default size limit: one mebibyte.
pub const DEFAULT_MAX_SIZE: u64 = 1048576;

impl Default for Options {
    fn default() -> (o: Self)
        ensures
            o.includes@.len() == 0,
            o.exclude@.len() == 0,
            o.max_size == DEFAULT_MAX_SIZE,
            o.respect_gitignore,
            !o.hidden,
            o.tree,
            o.contents,
            !o.paths,
            o.format == Format::Md,
            !o.tokens,
            o.max_tokens is None,
    {
        Options {
            includes: Vec::new(),
            exclude: Vec::new(),
            max_size: DEFAULT_MAX_SIZE,
            respect_gitignore: true,
            hidden: false,
            tree: true,
            contents: true,
            paths: false,
            format: Format::Md,
            tokens: false,
            max_tokens: None,
        }
    }
}

/// What happened to a single file.
#[derive(Debug, Clone, PartialEq, Eq)]
pub enum EntryKind {
    /// A UTF-8 text file with its contents.
    Text(String),
    /// A binary / non-UTF-8 file (contents omitted).
    Binary,
    /// A file larger than `max_size` (contents omitted); carries its size.
    TooLarge(u64),
    /// A file that could not be read (contents omitted).
    Unreadable,
}

/// One collected file, identified by its repo-relative path (forward slashes).
#[derive(Debug, Clone, PartialEq, Eq)]
pub struct Entry {
    pub rel_path: String,
    pub kind: EntryKind,
}

/// The note shown after a file whose contents are omitted.
pub open spec fn label_of(kind: EntryKind) -> Option<Seq<char>> {
    match kind {
        EntryKind::Text(_) => None,
        EntryKind::Binary => Some("(binary, omitted)"@),
        EntryKind::TooLarge(n) => Some("(skipped: "@ + decimal(n as nat) + " bytes > max)"@),
        EntryKind::Unreadable => Some("(unreadable, omitted)"@),
    }
}

/// The note shown after a file whose contents are omitted, as characters.
pub fn entry_label(kind: &EntryKind) -> (r: Option<Vec<char>>)
    ensures
        r matches Some(v) ==> label_of(*kind) == Some(v@),
        r is None ==> label_of(*kind) is None,
{
    match kind {
        EntryKind::Text(_) => None,
        EntryKind::Binary => {
            let mut v: Vec<char> = Vec::new();
            push_str(&mut v, "(binary, omitted)");
            Some(v)
        },
        EntryKind::TooLarge(n) => {
            let mut v: Vec<char> = Vec::new();
            push_str(&mut v, "(skipped: ");
            push_decimal(&mut v, *n);
            push_str(&mut v, " bytes > max)");
            Some(v)
        },
        EntryKind::Unreadable => {
            let mut v: Vec<char> = Vec::new();
            push_str(&mut v, "(unreadable, omitted)");
            Some(v)
        },
    }
}


/// Counts used in the summary line.
#[derive(Debug, Clone, Copy, PartialEq, Eq, Default)]
pub struct Stats {
    pub text_files: usize,
    pub skipped_files: usize,
    pub text_bytes: usize,
    pub chars: usize,
}

/// How many entries are text files.
pub open spec fn count_text(es: Seq<Entry>) -> nat
    decreases es.len(),
{
    if es.len() == 0 {
        0
    } else {
        count_text(es.drop_last()) + if es.last().kind is Text {
            1nat
        } else {
            0nat
        }
    }
}

/// The UTF-8 size of the text files, in bytes.
pub open spec fn total_text_bytes(es: Seq<Entry>) -> nat
    decreases es.len(),
{
    if es.len() == 0 {
        0
    } else {
        total_text_bytes(es.drop_last()) + match es.last().kind {
            EntryKind::Text(t) => encode_utf8(t@).len(),
            _ => 0,
        }
    }
}

/// The number of characters in the text files.
pub open spec fn total_chars(es: Seq<Entry>) -> nat
    decreases es.len(),
{
    if es.len() == 0 {
        0
    } else {
        total_chars(es.drop_last()) + match es.last().kind {
            EntryKind::Text(t) => t@.len(),
            _ => 0,
        }
    }
}

pub proof fn lemma_count_text_bound(es: Seq<Entry>)
    ensures
        count_text(es) <= es.len(),
    decreases es.len(),
{
    if es.len() > 0 {
        lemma_count_text_bound(es.drop_last());
    }
}

/// Compute summary statistics over the entries: text files, the other (skipped) files,
/// and the bytes and characters of the text files.
pub fn stats(entries: &[Entry]) -> (s: Stats)
    requires
        total_text_bytes(entries@) <= usize::MAX,
        total_chars(entries@) <= usize::MAX,
    ensures
        s.text_files == count_text(entries@),
        s.skipped_files == entries@.len() - count_text(entries@),
        s.text_bytes == total_text_bytes(entries@),
        s.chars == total_chars(entries@),
{
    let mut s = Stats { text_files: 0, skipped_files: 0, text_bytes: 0, chars: 0 };
    let mut i: usize = 0;
    while i < entries.len()
        invariant
            i <= entries@.len(),
            total_text_bytes(entries@) <= usize::MAX,
            total_chars(entries@) <= usize::MAX,
            s.text_files == count_text(entries@.take(i as int)),
            s.skipped_files == i - count_text(entries@.take(i as int)),
            s.text_bytes == total_text_bytes(entries@.take(i as int)),
            s.chars == total_chars(entries@.take(i as int)),
        decreases entries@.len() - i,
    {
        let ghost t = entries@.take(i + 1);
        assert(t.drop_last() =~= entries@.take(i as int));
        assert(t.last() == entries@[i as int]);
        proof {
            lemma_count_text_bound(entries@.take(i as int));
            lemma_totals_prefix(entries@, i + 1);
        }
        match &entries[i].kind {
            EntryKind::Text(text) => {
                s.text_files = s.text_files + 1;
                s.text_bytes = s.text_bytes + text.as_str().len();
                s.chars = s.chars + text.as_str().unicode_len();
            },
            _ => {
                s.skipped_files = s.skipped_files + 1;
            },
        }
        i = i + 1;
    }
    assert(entries@.take(i as int) =~= entries@);
    s
}

/// Counting a list split in two gives the sums of the two counts.
pub proof fn law_stats_additive(a: Seq<Entry>, b: Seq<Entry>)
    ensures
        count_text(a + b) == count_text(a) + count_text(b),
        total_text_bytes(a + b) == total_text_bytes(a) + total_text_bytes(b),
        total_chars(a + b) == total_chars(a) + total_chars(b),
    decreases b.len(),
{
    if b.len() == 0 {
        assert(a + b =~= a);
    } else {
        law_stats_additive(a, b.drop_last());
        assert((a + b).drop_last() =~= a + b.drop_last());
        assert((a + b).last() == b.last());
    }
}

proof fn lemma_encoding_at_least_chars(s: Seq<char>)
    ensures
        encode_utf8(s).len() >= s.len(),
    decreases s.len(),
{
    if s.len() > 0 {
        lemma_encoding_at_least_chars(s.drop_first());
        assert(encode_scalar(s[0] as u32).len() >= 1);
    }
}

/// Every character takes at least one byte: the text files have no more characters than
/// bytes.
pub proof fn law_chars_within_bytes(es: Seq<Entry>)
    ensures
        total_chars(es) <= total_text_bytes(es),
    decreases es.len(),
{
    if es.len() > 0 {
        law_chars_within_bytes(es.drop_last());
        match es.last().kind {
            EntryKind::Text(t) => lemma_encoding_at_least_chars(t@),
            _ => {},
        }
    }
}

pub proof fn lemma_totals_prefix(es: Seq<Entry>, i: int)
    requires
        0 <= i <= es.len(),
    ensures
        total_text_bytes(es.take(i)) <= total_text_bytes(es),
        total_chars(es.take(i)) <= total_chars(es),
    decreases es.len() - i,
{
    if i < es.len() {
        lemma_totals_prefix(es.drop_last(), i);
        assert(es.drop_last().take(i) =~= es.take(i));
    } else {
        assert(es.take(i) =~= es);
    }
}

} // verus!
