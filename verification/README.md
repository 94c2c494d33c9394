# repotome

Pack a repository (or any directory) into a single text document for feeding to an
LLM: a summary, an indented directory tree, and the contents of every text file, as
Markdown (fenced code blocks) or a repomix-style XML wrapper.

## Layout

- `src/` — the library, written in Verus with its contracts and proofs:
  - `size.rs`: human size strings (`1MiB`, `500k`) and the token estimate;
  - `collect.rs`: what the directory walk decides — text or binary, too large, the order
    of the entries;
  - `filter.rs`: the include/exclude globs, matched by the `globset` crate;
  - `tree.rs`: the directory-tree section;
  - `lang.rs`: the language of a file from its extension;
  - `markup.rs`: Markdown fences and XML escaping;
  - `render.rs`: the whole document and the one-line run report;
  - `clipboard.rs`: which clipboard helpers to try on each platform, and what to do after
    each attempt;
  - `entry.rs`, `text.rs`: the shared data types and character-level helpers.
- `app/main.rs` — the command line: arguments (`clap`), the walk itself (`ignore`),
  reading files, writing the output, and starting the clipboard helpers that the library
  picks.
- `tests/` — the library's tests.
