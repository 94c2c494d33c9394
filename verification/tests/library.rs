use repotome::collect::{classify, file_entry, is_binary, oversized, slash_path, sort_entries};
use repotome::entry::{stats, Entry, EntryKind, Format, Options};
use repotome::filter::{FilterError, PathFilter};
use repotome::lang::lang_for_path;
use repotome::markup::{fence_for, xml_escape};
use repotome::clipboard::{
    clipboard_helpers, clipboard_start, clipboard_step, ClipboardStep, HelperOutcome, Platform,
};
use repotome::entry::Stats;
use repotome::render::{
    prints_to_stdout, render, render_md, render_xml, run_summary, summary_lines,
};
use repotome::size::{approx_tokens, parse_size, SizeError};
use repotome::tree::render_tree;

fn text(path: &str, body: &str) -> Entry {
    Entry {
        rel_path: path.to_string(),
        kind: EntryKind::Text(body.to_string()),
    }
}

fn other(path: &str, kind: EntryKind) -> Entry {
    Entry {
        rel_path: path.to_string(),
        kind,
    }
}

const F64_OVERFLOW: &str = "179769313486231580793728971405303415079934132710037826936173778980444968292764750946649017977587207096330286416692887910946555547851940402630657488671505820681908902000708383676273854845817711531764475730270069855571366959622842914819860834936475292719074168444365510704342711559699508093042880177904174497792";
const F64_OVERFLOW_MINUS_ONE: &str = "179769313486231580793728971405303415079934132710037826936173778980444968292764750946649017977587207096330286416692887910946555547851940402630657488671505820681908902000708383676273854845817711531764475730270069855571366959622842914819860834936475292719074168444365510704342711559699508093042880177904174497791";

#[test]
fn parse_size_fractions_and_units() {
    assert_eq!(parse_size("1.5k").unwrap(), 1500);
    assert_eq!(parse_size("0.5KiB").unwrap(), 512);
    assert_eq!(parse_size(" 2 mb ").unwrap(), 2_000_000);
    assert_eq!(parse_size("1GiB").unwrap(), 1_073_741_824);
    assert_eq!(parse_size("3g").unwrap(), 3_000_000_000);
    assert_eq!(parse_size("7b").unwrap(), 7);
    assert_eq!(parse_size("+3").unwrap(), 3);
    assert_eq!(parse_size(".5k").unwrap(), 500);
    assert_eq!(parse_size("5.").unwrap(), 5);
    assert_eq!(parse_size("0.001k").unwrap(), 1);
    assert_eq!(parse_size("0.0009k").unwrap(), 0);
    assert_eq!(parse_size("1.0009765625KiB").unwrap(), 1025);
    assert_eq!(parse_size("-0").unwrap(), 0);
    assert_eq!(parse_size("-0.0M").unwrap(), 0);
}

#[test]
fn parse_size_saturates_at_the_top() {
    assert_eq!(parse_size("18446744073709551615").unwrap(), u64::MAX);
    assert_eq!(parse_size("18446744073709551616").unwrap(), u64::MAX);
    assert_eq!(parse_size("20000000000GiB").unwrap(), u64::MAX);
    assert_eq!(parse_size(F64_OVERFLOW_MINUS_ONE).unwrap(), u64::MAX);
}

#[test]
fn parse_size_errors() {
    assert_eq!(parse_size("abc"), Err(SizeError::InvalidSize("abc".to_string())));
    assert_eq!(parse_size(""), Err(SizeError::InvalidSize("".to_string())));
    assert_eq!(parse_size("."), Err(SizeError::InvalidSize(".".to_string())));
    assert_eq!(parse_size("1.2.3"), Err(SizeError::InvalidSize("1.2.3".to_string())));
    assert_eq!(parse_size("1 000"), Err(SizeError::InvalidSize("1 000".to_string())));
    assert_eq!(parse_size("-1"), Err(SizeError::InvalidSizeValue("-1".to_string())));
    assert_eq!(parse_size("-0.5k"), Err(SizeError::InvalidSizeValue("-0.5k".to_string())));
    assert_eq!(parse_size(F64_OVERFLOW), Err(SizeError::InvalidSizeValue(F64_OVERFLOW.to_string())));
    assert_eq!(parse_size("1XB"), Err(SizeError::UnknownUnit("xb".to_string())));
    assert_eq!(parse_size("1e3"), Err(SizeError::UnknownUnit("e3".to_string())));
    assert_eq!(parse_size("5 K B"), Err(SizeError::UnknownUnit("k b".to_string())));
}

#[test]
fn approx_tokens_ceiling() {
    assert_eq!(approx_tokens(3), 1);
    assert_eq!(approx_tokens(8), 2);
    assert_eq!(approx_tokens(9), 3);
    assert_eq!(approx_tokens(usize::MAX), usize::MAX / 4 + 1);
}

#[test]
fn lang_by_extension_ignores_case() {
    assert_eq!(lang_for_path("Foo.RS"), "rust");
    assert_eq!(lang_for_path("web/app.TSX"), "tsx");
    assert_eq!(lang_for_path("notes.Markdown"), "markdown");
    assert_eq!(lang_for_path("x.yml"), "yaml");
    assert_eq!(lang_for_path("lib.h"), "c");
}

#[test]
fn lang_follows_path_file_name_rules() {
    assert_eq!(lang_for_path(".bashrc"), "");
    assert_eq!(lang_for_path("dir/.sh"), "");
    assert_eq!(lang_for_path("a/b."), "");
    assert_eq!(lang_for_path("archive.tar.go"), "go");
    assert_eq!(lang_for_path("src/lib.rs/"), "rust");
    assert_eq!(lang_for_path("src/lib.rs/."), "rust");
    assert_eq!(lang_for_path("a.rs/.."), "");
    assert_eq!(lang_for_path("..rs"), "rust");
    assert_eq!(lang_for_path(""), "");
    assert_eq!(lang_for_path("Makefile"), "");
}

#[test]
fn fence_is_longer_than_every_run() {
    assert_eq!(fence_for(""), "```");
    assert_eq!(fence_for("``"), "```");
    assert_eq!(fence_for("`` x ``````` y `"), "````````");
}

#[test]
fn xml_escape_entities() {
    assert_eq!(xml_escape("a<b>&c"), "a&lt;b&gt;&amp;c");
    assert_eq!(xml_escape("&amp;"), "&amp;amp;");
    assert_eq!(xml_escape("\"quoted\""), "\"quoted\"");
}

#[test]
fn binary_detection_and_classification() {
    assert!(is_binary(&[1, 0, 2]));
    assert!(!is_binary(b"plain"));
    assert_eq!(classify(vec![0u8, 1, 2, 3]), EntryKind::Binary);
    assert_eq!(classify(vec![0xff, 0xfe]), EntryKind::Binary);
    assert_eq!(classify("héllo\n".as_bytes().to_vec()), EntryKind::Text("héllo\n".to_string()));
    // A NUL byte anywhere makes a file binary, even far from its start.
    let mut late_nul = vec![b'a'; 10_000];
    late_nul.push(0);
    assert_eq!(classify(late_nul), EntryKind::Binary);
}

#[test]
fn entries_for_files() {
    let opts = Options { max_size: 1024, ..Options::default() };
    assert!(oversized(2048, &opts));
    assert!(!oversized(1024, &opts));
    assert_eq!(file_entry("x".to_string(), None).kind, EntryKind::Unreadable);
    assert_eq!(
        file_entry("y.txt".to_string(), Some(b"hi".to_vec())),
        text("y.txt", "hi")
    );
    assert_eq!(slash_path("a\\b\\c.rs"), "a/b/c.rs");
}

#[test]
fn default_options() {
    let o = Options::default();
    assert!(o.includes.is_empty() && o.exclude.is_empty());
    assert_eq!(o.max_size, 1024 * 1024);
    assert!(o.respect_gitignore && !o.hidden && o.tree && o.contents && !o.paths && !o.tokens);
    assert_eq!(o.format, Format::Md);
    assert_eq!(o.max_tokens, None);
}

#[test]
fn sorting_by_path_is_deterministic() {
    let mut es = vec![
        text("src/main.rs", ""),
        text("README.md", ""),
        other("b.bin", EntryKind::Binary),
        text("a.rs", ""),
        text("src/lib.rs", ""),
    ];
    sort_entries(&mut es);
    let paths: Vec<&str> = es.iter().map(|e| e.rel_path.as_str()).collect();
    assert_eq!(paths, vec!["README.md", "a.rs", "b.bin", "src/lib.rs", "src/main.rs"]);
}

#[test]
fn filter_includes_and_excludes() {
    let opts = Options {
        includes: vec!["*.rs".to_string()],
        exclude: vec!["target/**".to_string()],
        ..Options::default()
    };
    let f = PathFilter::new(&opts).unwrap();
    assert!(f.admits("a.rs"));
    assert!(f.admits("src/deep/x.rs"));
    assert!(!f.admits("b.py"));
    assert!(!f.admits("target/debug/x.rs"));
    assert!(!f.admits(""));
    let all = PathFilter::new(&Options::default()).unwrap();
    assert!(all.admits("anything/at/all.bin"));
}

#[test]
fn filter_refuses_bad_globs() {
    let opts = Options {
        includes: vec!["ok/*".to_string(), "a[".to_string(), "{x".to_string()],
        ..Options::default()
    };
    match PathFilter::new(&opts) {
        Err(FilterError::InvalidGlob { pattern, .. }) => assert_eq!(pattern, "a["),
        _ => panic!("expected an invalid glob"),
    }
    let opts = Options {
        exclude: vec!["{x".to_string()],
        ..Options::default()
    };
    match PathFilter::new(&opts) {
        Err(FilterError::InvalidGlob { pattern, .. }) => assert_eq!(pattern, "{x"),
        _ => panic!("expected an invalid glob"),
    }
}

#[test]
fn stats_counts() {
    let es = vec![
        text("a", "héllo"),
        other("b", EntryKind::Binary),
        other("c", EntryKind::TooLarge(5)),
        other("d", EntryKind::Unreadable),
        text("e", "xy"),
    ];
    let st = stats(&es);
    assert_eq!(st.text_files, 2);
    assert_eq!(st.skipped_files, 3);
    assert_eq!(st.text_bytes, 8);
    assert_eq!(st.chars, 7);
}

#[test]
fn tree_puts_directories_first() {
    let es = vec![
        text("src/main.rs", "fn main() {}\n"),
        text("README.md", "# hi\n"),
        other("logo.png", EntryKind::Binary),
    ];
    assert_eq!(
        render_tree(&es),
        "src/\n  main.rs\nREADME.md\nlogo.png  (binary, omitted)\n"
    );
}

#[test]
fn tree_groups_nested_directories() {
    let es = vec![
        text("x/z", ""),
        text("x/y/g", ""),
        other("x/y/f", EntryKind::TooLarge(2048)),
        text("a", ""),
        text("a/b", ""),
        other("u", EntryKind::Unreadable),
    ];
    assert_eq!(
        render_tree(&es),
        "a/\n  b\nx/\n  y/\n    f  (skipped: 2048 bytes > max)\n    g\n  z\na\nu  (unreadable, omitted)\n"
    );
}

#[test]
fn tree_keeps_the_last_note_for_a_path() {
    let es = vec![other("f", EntryKind::Binary), text("f", "now text")];
    assert_eq!(render_tree(&es), "f\n");
}

#[test]
fn render_md_whole_document() {
    let es = vec![
        text("src/main.rs", "fn main() { println!(\"hello\"); }"),
        other("logo.png", EntryKind::Binary),
    ];
    let opts = Options { tokens: true, ..Options::default() };
    let doc = render("my-project", &es, &opts);
    let want = "# Repository: my-project\n\n## Summary\n\n- Files: 1 text, 1 skipped\n- Text size: 32 bytes\n- Approx tokens: ~8\n\n## Structure\n\n```\nsrc/\n  main.rs\nlogo.png  (binary, omitted)\n```\n\n## Files\n\n### `src/main.rs`\n\n```rust\nfn main() { println!(\"hello\"); }\n```\n\n";
    assert_eq!(doc, want);
}

#[test]
fn render_md_fence_outruns_content() {
    let es = vec![text("doc.md", "```\ncode\n```\n")];
    let opts = Options { tree: false, ..Options::default() };
    let doc = render("r", &es, &opts);
    assert!(doc.contains("### `doc.md`\n\n````markdown\n```\ncode\n```\n````\n\n"));
}

#[test]
fn render_xml_document() {
    let es = vec![text("a<b>.txt", "x & y"), other("big.txt", EntryKind::TooLarge(2048))];
    let opts = Options { format: Format::Xml, ..Options::default() };
    let doc = render("r&d", &es, &opts);
    let want = "<repotome path=\"r&amp;d\">\n  <summary>\n    Files: 1 text, 1 skipped\n    Text size: 5 bytes\n  </summary>\n  <structure>\na&lt;b&gt;.txt\nbig.txt  (skipped: 2048 bytes &gt; max)\n  </structure>\n  <file path=\"a&lt;b&gt;.txt\">\nx &amp; y\n  </file>\n</repotome>\n";
    assert_eq!(doc, want);
}

#[test]
fn render_paths_only() {
    let es = vec![text("a.rs", "x"), other("b.bin", EntryKind::Binary)];
    let opts = Options { paths: true, ..Options::default() };
    assert_eq!(render("r", &es, &opts), "a.rs\nb.bin\n");
}

#[test]
fn render_without_contents() {
    let es = vec![text("a.rs", "fn a() {}\n")];
    let opts = Options { contents: false, ..Options::default() };
    let doc = render("r", &es, &opts);
    assert!(doc.ends_with("```\na.rs\n```\n\n"));
    assert!(!doc.contains("## Files"));
}

#[test]
fn render_stops_at_token_budget() {
    let es = vec![text("a", "12345678"), text("b", "1234"), text("c", "z")];
    let opts = Options { tree: false, max_tokens: Some(2), ..Options::default() };
    let doc = render("r", &es, &opts);
    assert!(doc.contains("### `a`"));
    assert!(!doc.contains("### `b`"));
    assert!(!doc.contains("### `c`"));
    let opts = Options { tree: false, max_tokens: Some(3), ..Options::default() };
    let doc = render("r", &es, &opts);
    assert!(doc.contains("### `b`"));
    assert!(!doc.contains("### `c`"));
}

#[test]
fn tree_does_not_depend_on_entry_order() {
    let a = vec![
        text("src/b.rs", ""),
        other("z.bin", EntryKind::Binary),
        text("src/a/x.rs", ""),
        text("README.md", ""),
    ];
    let mut b = a.clone();
    b.reverse();
    assert_eq!(render_tree(&a), render_tree(&b));
    let mut c = a.clone();
    sort_entries(&mut c);
    assert_eq!(render_tree(&a), render_tree(&c));
}

#[test]
fn xml_escape_leaves_no_angle_brackets() {
    let escaped = xml_escape("<a href=\"x\">&lt;</a>");
    assert!(!escaped.contains('<') && !escaped.contains('>'));
    assert_eq!(escaped, "&lt;a href=\"x\"&gt;&amp;lt;&lt;/a&gt;");
}

#[test]
fn stable_sort_keeps_order_of_equal_paths() {
    let mut es = vec![
        text("b", "first"),
        text("a", ""),
        other("b", EntryKind::Binary),
        text("b", "third"),
    ];
    sort_entries(&mut es);
    assert_eq!(es[0], text("a", ""));
    assert_eq!(es[1], text("b", "first"));
    assert_eq!(es[2], other("b", EntryKind::Binary));
    assert_eq!(es[3], text("b", "third"));
}

#[test]
fn totals_fit_for_ordinary_entries() {
    let es = vec![text("a", "héllo"), other("b", EntryKind::Binary)];
    assert!(repotome::text_totals_fit(&es));
    assert!(repotome::text_totals_fit(&[]));
}

#[test]
fn stats_add_up_over_concatenation() {
    let a = vec![text("a", "héllo"), other("b", EntryKind::TooLarge(3))];
    let b = vec![text("c", "xyz"), other("d", EntryKind::Unreadable)];
    let mut ab = a.clone();
    ab.extend(b.clone());
    let (sa, sb, sab) = (stats(&a), stats(&b), stats(&ab));
    assert_eq!(sab.text_files, sa.text_files + sb.text_files);
    assert_eq!(sab.skipped_files, sa.skipped_files + sb.skipped_files);
    assert_eq!(sab.text_bytes, sa.text_bytes + sb.text_bytes);
    assert_eq!(sab.chars, sa.chars + sb.chars);
    assert!(sab.chars <= sab.text_bytes);
}

fn bins(p: Platform) -> Vec<(String, Vec<String>)> {
    clipboard_helpers(p).into_iter().map(|h| (h.bin, h.args)).collect()
}

#[test]
fn clipboard_helpers_per_platform() {
    assert_eq!(bins(Platform::MacOs), vec![("pbcopy".to_string(), vec![])]);
    assert_eq!(bins(Platform::Windows), vec![("clip".to_string(), vec![])]);
    assert_eq!(
        bins(Platform::Other),
        vec![
            ("wl-copy".to_string(), vec![]),
            (
                "xclip".to_string(),
                vec!["-selection".to_string(), "clipboard".to_string()]
            ),
        ]
    );
}

#[test]
fn clipboard_steps_stop_at_first_success() {
    let hs = clipboard_helpers(Platform::Other);
    assert_eq!(clipboard_start(&hs), ClipboardStep::Run(0));
    let ok = HelperOutcome::Exited { success: true, status: "exit status: 0".to_string() };
    assert_eq!(clipboard_step(&hs, 0, ok.clone()), ClipboardStep::Done);
    assert_eq!(clipboard_step(&hs, 1, ok), ClipboardStep::Done);
    let missing = HelperOutcome::NotStarted("No such file or directory (os error 2)".to_string());
    assert_eq!(clipboard_step(&hs, 0, missing), ClipboardStep::Run(1));
}

#[test]
fn clipboard_failure_reports_the_last_attempt() {
    let hs = clipboard_helpers(Platform::Other);
    let bad = HelperOutcome::Exited { success: false, status: "exit status: 1".to_string() };
    assert_eq!(
        clipboard_step(&hs, 1, bad),
        ClipboardStep::Failed("xclip exited with exit status: 1".to_string())
    );
    let missing = HelperOutcome::NotStarted("No such file or directory (os error 2)".to_string());
    assert_eq!(
        clipboard_step(&hs, 1, missing),
        ClipboardStep::Failed(
            "could not run xclip: No such file or directory (os error 2)".to_string()
        )
    );
    let mac = clipboard_helpers(Platform::MacOs);
    let bad = HelperOutcome::Exited { success: false, status: "exit status: 2".to_string() };
    assert_eq!(
        clipboard_step(&mac, 0, bad),
        ClipboardStep::Failed("pbcopy exited with exit status: 2".to_string())
    );
}

#[test]
fn clipboard_without_helpers_fails_at_once() {
    assert_eq!(
        clipboard_start(&[]),
        ClipboardStep::Failed("no clipboard helper found".to_string())
    );
}

#[test]
fn run_summary_line() {
    let st = Stats { text_files: 3, skipped_files: 1, text_bytes: 120, chars: 117 };
    assert_eq!(run_summary(&st, false), "repotome: 3 text file(s), 1 skipped, 120 bytes");
    assert_eq!(
        run_summary(&st, true),
        "repotome: 3 text file(s), 1 skipped, 120 bytes, ~30 tokens"
    );
    let none = Stats { text_files: 0, skipped_files: 0, text_bytes: 0, chars: 0 };
    assert_eq!(
        run_summary(&none, true),
        "repotome: 0 text file(s), 0 skipped, 0 bytes, ~0 tokens"
    );
}

#[test]
fn summary_lines_follow_the_counts() {
    let st = Stats { text_files: 2, skipped_files: 5, text_bytes: 10, chars: 9 };
    let plain = Options::default();
    assert_eq!(
        summary_lines(&st, &plain),
        vec!["- Files: 2 text, 5 skipped".to_string(), "- Text size: 10 bytes".to_string()]
    );
    let with_tokens = Options { tokens: true, ..Options::default() };
    assert_eq!(summary_lines(&st, &with_tokens)[2], "- Approx tokens: ~3");
}

#[test]
fn render_md_and_xml_use_the_given_counts() {
    let es = vec![text("a.txt", "hi")];
    let st = Stats { text_files: 7, skipped_files: 0, text_bytes: 99, chars: 2 };
    let opts = Options { tree: false, ..Options::default() };
    assert_eq!(
        render_md("r", &es, &opts, &st),
        "# Repository: r\n\n## Summary\n\n- Files: 7 text, 0 skipped\n- Text size: 99 bytes\n\n## Files\n\n### `a.txt`\n\n```\nhi\n```\n\n"
    );
    assert_eq!(
        render_xml("r", &es, &opts, &st),
        "<repotome path=\"r\">\n  <summary>\n    Files: 7 text, 0 skipped\n    Text size: 99 bytes\n  </summary>\n  <file path=\"a.txt\">\nhi\n  </file>\n</repotome>\n"
    );
}

#[test]
fn render_matches_render_md_and_render_xml_with_own_stats() {
    let es = vec![text("src/lib.rs", "pub fn f() {}\n"), other("x.bin", EntryKind::Binary)];
    let st = stats(&es);
    let md = Options::default();
    assert_eq!(render("p", &es, &md), render_md("p", &es, &md, &st));
    let xml = Options { format: Format::Xml, ..Options::default() };
    assert_eq!(render("p", &es, &xml), render_xml("p", &es, &xml, &st));
}

#[test]
fn xml_escape_ampersands_begin_entities() {
    let out = xml_escape("a&b<c>&amp;");
    assert_eq!(out, "a&amp;b&lt;c&gt;&amp;amp;");
    for (k, c) in out.char_indices() {
        if c == '&' {
            let rest = &out[k..];
            assert!(rest.starts_with("&amp;") || rest.starts_with("&lt;") || rest.starts_with("&gt;"));
        }
    }
}

#[test]
fn stdout_only_without_output_file_or_copy() {
    assert!(prints_to_stdout(false, false));
    assert!(!prints_to_stdout(true, false));
    assert!(!prints_to_stdout(false, true));
    assert!(!prints_to_stdout(true, true));
}
