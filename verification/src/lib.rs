//! repotome: pack a repository (or any directory) into a single text document for feeding
//! to an LLM. This crate holds the logic: which files are kept and what each one becomes,
//! the order of the result, the directory tree, and the Markdown or XML document.

pub mod clipboard;
pub mod collect;
pub mod entry;
pub mod filter;
pub mod lang;
pub mod markup;
pub mod render;
pub mod size;
pub mod text;
pub mod tree;

pub use clipboard::{
    clipboard_helpers, clipboard_start, clipboard_step, ClipboardHelper, ClipboardStep, HelperOutcome,
    Platform,
};
pub use collect::{classify, file_entry, oversized, slash_path, sort_entries};
pub use entry::{stats, Entry, EntryKind, Format, Options, Stats};
pub use filter::{FilterError, PathFilter};
pub use lang::lang_for_path;
pub use markup::{fence_for, xml_escape};
pub use render::{
    prints_to_stdout, render, render_md, render_xml, run_summary, summary_lines, text_totals_fit,
};
pub use size::{approx_tokens, parse_size, SizeError};
pub use tree::render_tree;
