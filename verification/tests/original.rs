use repotome::{approx_tokens, fence_for, lang_for_path, parse_size, render, Entry, EntryKind, Options};

#[test]
fn parse_size_units() {
    assert_eq!(parse_size("1048576").unwrap(), 1_048_576);
    assert_eq!(parse_size("1MiB").unwrap(), 1_048_576);
    assert_eq!(parse_size("500k").unwrap(), 500_000);
    assert_eq!(parse_size("2MB").unwrap(), 2_000_000);
    assert!(parse_size("abc").is_err());
    assert!(parse_size("1XB").is_err());
}

#[test]
fn approx_tokens_rounds_up() {
    assert_eq!(approx_tokens(0), 0);
    assert_eq!(approx_tokens(1), 1);
    assert_eq!(approx_tokens(4), 1);
    assert_eq!(approx_tokens(5), 2);
}

#[test]
fn lang_detection() {
    assert_eq!(lang_for_path("src/main.rs"), "rust");
    assert_eq!(lang_for_path("a/b.py"), "python");
    assert_eq!(lang_for_path("x.unknownext"), "");
}

#[test]
fn fence_grows_past_inner_backticks() {
    assert_eq!(fence_for("no ticks"), "```");
    assert_eq!(fence_for("a ``` b"), "````");
    assert_eq!(fence_for("a ```` b"), "`````");
}

#[test]
fn render_md_includes_contents_and_omits_binary() {
    let entries = vec![
        Entry {
            rel_path: "a.rs".to_string(),
            kind: EntryKind::Text("fn main() {}\n".to_string()),
        },
        Entry {
            rel_path: "img.png".to_string(),
            kind: EntryKind::Binary,
        },
    ];
    let out = render("demo", &entries, &Options::default());
    assert!(out.contains("# Repository: demo"));
    assert!(out.contains("### `a.rs`"));
    assert!(out.contains("fn main() {}"));
    assert!(out.contains("img.png  (binary, omitted)"));
    // Binary file has no content block.
    assert!(!out.contains("### `img.png`"));
}
