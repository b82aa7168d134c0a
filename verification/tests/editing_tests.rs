use typst_studio::cache::PackageCache;
use typst_studio::editing::{
    autosave_action, compile_entry, compile_error_message, compile_source, cursor_position, decorate_error,
    export_entry, insert_snippet, line_count, plain_rendering, split_error, status_line, AutosaveAction,
};
use typst_studio::registry::PkgSpec;

fn pkg(ns: &str, name: &str, version: &str) -> PkgSpec {
    PkgSpec { namespace: ns.to_string(), name: name.to_string(), version: version.to_string() }
}

fn pairs(v: &[(&str, &str)]) -> Vec<(String, String)> {
    v.iter().map(|(a, b)| (a.to_string(), b.to_string())).collect()
}

#[test]
fn error_without_missing_packages_is_unchanged() {
    assert_eq!(decorate_error("boom", &[]), "boom");
}

#[test]
fn error_names_missing_packages() {
    let e = decorate_error("failed", &[pkg("preview", "cetz", "0.2.2"), pkg("preview", "tablex", "0.0.8")]);
    assert_eq!(e, "failed\n\n[MISSING_PACKAGES:@preview/cetz:0.2.2,@preview/tablex:0.0.8]");
}

#[test]
fn decorated_error_splits_back() {
    let e = decorate_error("failed", &[pkg("preview", "cetz", "0.2.2"), pkg("local", "x", "1.0.0")]);
    let (shown, names) = split_error(&e);
    assert_eq!(shown, "failed");
    assert_eq!(names, vec!["@preview/cetz:0.2.2".to_string(), "@local/x:1.0.0".to_string()]);
}

#[test]
fn plain_error_splits_into_itself() {
    let (shown, names) = split_error("just an error");
    assert_eq!(shown, "just an error");
    assert!(names.is_empty());
}

#[test]
fn compile_error_message_scans_every_source() {
    let cache = PackageCache::new();
    let files = pairs(&[("chap.typ", "#import \"@preview/tablex:0.0.8\": *"), ("notes.txt", "\"@preview/x:1.0.0\"")]);
    let m = compile_error_message("err", "#import \"@preview/cetz:0.2.2\": *", &files, &cache);
    assert_eq!(m, "err\n\n[MISSING_PACKAGES:@preview/cetz:0.2.2,@preview/tablex:0.0.8]");
}

#[test]
fn compile_error_message_without_missing_packages() {
    let mut cache = PackageCache::new();
    cache.store_package(&pkg("preview", "cetz", "0.2.2"), vec![]);
    let m = compile_error_message("err", "#import \"@preview/cetz:0.2.2\": *", &[], &cache);
    assert_eq!(m, "err");
}

#[test]
fn snippet_at_cursor_selects_placeholder() {
    let (src, a, b) = insert_snippet("ab", 1, 1, "*text*", Some("text"));
    assert_eq!(src, "a*text*b");
    assert_eq!((a, b), (Some(2), Some(6)));
}

#[test]
fn snippet_at_cursor_without_placeholder_moves_cursor() {
    let (src, a, b) = insert_snippet("ab", 2, 2, "= ", None);
    assert_eq!(src, "ab= ");
    assert_eq!((a, b), (Some(4), None));
}

#[test]
fn snippet_with_missing_placeholder_keeps_selection() {
    let (src, a, b) = insert_snippet("", 0, 0, "$ $", Some("formula"));
    assert_eq!(src, "$ $");
    assert_eq!((a, b), (None, None));
}

#[test]
fn snippet_wraps_selection() {
    let (src, a, b) = insert_snippet("say hi now", 4, 6, "*text*", Some("text"));
    assert_eq!(src, "say *hi* now");
    assert_eq!((a, b), (Some(4), Some(8)));
}

#[test]
fn snippet_replaces_each_placeholder_word_in_turn() {
    let (src, _, _) = insert_snippet("XY", 0, 1, "[Item|code|label]", None);
    assert_eq!(src, "[X|X|X]Y");
}

#[test]
fn snippet_offsets_count_bytes() {
    let (src, a, b) = insert_snippet("é!", 2, 3, "_text_", None);
    assert_eq!(src, "é_!_");
    assert_eq!((a, b), (Some(2), Some(5)));
}

#[test]
fn cursor_on_first_line() {
    assert_eq!(cursor_position("hello", 3), (1, 4));
}

#[test]
fn cursor_after_newlines() {
    assert_eq!(cursor_position("ab\ncd\nef", 7), (3, 2));
    assert_eq!(cursor_position("ab\n", 3), (2, 1));
}

#[test]
fn cursor_past_the_end_is_at_the_end() {
    assert_eq!(cursor_position("ab\nc", 100), (2, 2));
}

#[test]
fn cursor_column_counts_bytes() {
    assert_eq!(cursor_position("é", 2), (1, 3));
}

#[test]
fn line_counts_of_the_gutter() {
    assert_eq!(line_count(""), 1);
    assert_eq!(line_count("a"), 1);
    assert_eq!(line_count("a\nb"), 2);
    assert_eq!(line_count("a\n"), 2);
    assert_eq!(line_count("\n"), 2);
    assert_eq!(line_count("a\r\nb\r\n"), 3);
}

#[test]
fn small_source_is_highlighted() {
    assert_eq!(plain_rendering("#let x = 1 < 2"), None);
}

#[test]
fn large_source_is_escaped() {
    let mut src = String::from("a<b>&c");
    while src.len() <= 50000 {
        src.push(' ');
    }
    let html = plain_rendering(&src).unwrap();
    assert!(html.starts_with("<pre class=\"typst-highlighted\"><code>a&lt;b&gt;&amp;c "));
    assert!(html.ends_with(" </code></pre>"));
}

#[test]
fn compile_entry_defaults_to_main() {
    assert_eq!(compile_entry(Some("lec.typ")), "lec.typ");
    assert_eq!(compile_entry(None), "main.typ");
}

#[test]
fn compile_source_prefers_the_entry_file() {
    let fc = pairs(&[("main.typ", "= Saved")]);
    assert_eq!(compile_source(&fc, "main.typ", "= Editor"), "= Saved");
    assert_eq!(compile_source(&fc, "other.typ", "= Editor"), "= Editor");
}

#[test]
fn autosave_decisions() {
    let fc = pairs(&[("main.typ", "old")]);
    assert!(matches!(autosave_action(false, true, true, Some("main.typ"), &fc, "new"), AutosaveAction::Nothing));
    assert!(matches!(autosave_action(true, true, true, None, &fc, "new"), AutosaveAction::Nothing));
    assert!(matches!(autosave_action(true, true, true, Some("main.typ"), &fc, "old"), AutosaveAction::Nothing));
    assert!(matches!(autosave_action(true, true, true, Some("main.typ"), &fc, "new"), AutosaveAction::RecordAndSave));
    assert!(matches!(autosave_action(true, false, true, Some("main.typ"), &fc, "new"), AutosaveAction::Record));
    assert!(matches!(autosave_action(true, false, true, Some("new.typ"), &fc, "x"), AutosaveAction::Record));
    assert!(matches!(autosave_action(true, true, false, Some("main.typ"), &fc, "new"), AutosaveAction::Record));
}

#[test]
fn export_starts_from_the_active_file() {
    assert_eq!(export_entry(Some("ch1.typ"), Some("main.typ")), "ch1.typ");
    assert_eq!(export_entry(None, Some("book.typ")), "book.typ");
    assert_eq!(export_entry(None, None), "main.typ");
}

#[test]
fn status_line_counts_lines_and_bytes() {
    assert_eq!(status_line(""), "0 lines, 0 chars");
    assert_eq!(status_line("a\nb"), "2 lines, 3 chars");
    assert_eq!(status_line("a\n"), "1 lines, 2 chars");
    assert_eq!(status_line("\u{e9}"), "1 lines, 2 chars");
}
