use manifest_fmt::pipeline::{format_manifest, should_write, check_failed, FormatMode, FmtError};

fn chars(s: &str) -> Vec<char> {
    s.chars().collect()
}

fn string_of(v: &[char]) -> String {
    v.iter().collect()
}

fn run(s: &str) -> (usize, String) {
    let out = match format_manifest(&chars(s)) {
        Ok(o) => o,
        Err(_) => panic!("pipeline failed"),
    };
    (out.changes, string_of(&out.text))
}

#[test]
fn sections_reordered_package_first() {
    let input = "[dependencies]\nserde = \"1\"\n\n[package]\nname = \"demo\"\n";
    let (changes, text) = run(input);
    assert_eq!(changes, 1);
    let p = text.find("[package]").unwrap();
    let d = text.find("[dependencies]").unwrap();
    assert!(p < d);
}

#[test]
fn nested_dependency_collapses_to_inline() {
    let input = "[dependencies.foo]\nversion = \"1.0\"\n";
    let (changes, text) = run(input);
    assert_eq!(changes, 1);
    assert!(text.contains("foo = { version = \"1.0\" }"));
    assert!(!text.contains("[dependencies.foo]"));
}

#[test]
fn dependency_keys_sorted_alphabetically() {
    let input = "[dependencies]\nzebra = \"1\"\nalpha = \"2\"\nmango = \"3\"\n";
    let (changes, text) = run(input);
    assert_eq!(changes, 1);
    let a = text.find("alpha").unwrap();
    let m = text.find("mango").unwrap();
    let z = text.find("zebra").unwrap();
    assert!(a < m && m < z);
}

#[test]
fn package_keys_reordered_name_first() {
    let input = "[package]\nversion = \"0.1.0\"\nname = \"demo\"\n";
    let (changes, text) = run(input);
    assert_eq!(changes, 1);
    let n = text.find("name").unwrap();
    let v = text.find("version").unwrap();
    assert!(n < v);
}

#[test]
fn canonical_manifest_unchanged() {
    let input = "[package]\nname = \"demo\"\nversion = \"0.1.0\"\n\n[dependencies]\nalpha = \"1\"\nzebra = \"2\"\n";
    let (changes, text) = run(input);
    assert_eq!(changes, 0);
    assert_eq!(text, input);
}

#[test]
fn check_mode_signals_failure_without_writing() {
    let input = "[dependencies]\nzebra = \"1\"\nalpha = \"2\"\n\n[package]\nname = \"demo\"\n";
    let (changes, _text) = run(input);
    assert!(changes > 0);
    let mode = FormatMode::Check;
    assert!(!should_write(&mode, changes));
    assert!(check_failed(&mode, changes));
    assert!(!check_failed(&FormatMode::DryRun, changes));
    assert!(should_write(&FormatMode::Apply, changes));
    assert!(!should_write(&FormatMode::Apply, 0));
    assert!(!check_failed(&FormatMode::Check, 0));
}

#[test]
fn pipeline_is_idempotent() {
    let input = "[dependencies]\nzebra = \"1\"\nalpha = \"2\"\n\n[dependencies.foo]\nversion = \"1.0\"\n\n[package]\nversion = \"0.1.0\"\nname = \"demo\"\n";
    let (changes1, text1) = run(input);
    assert!(changes1 >= 1);
    let (changes2, text2) = run(&text1);
    assert_eq!(changes2, 0);
    assert_eq!(text2, text1);
}

#[test]
fn nested_table_with_table_child_not_collapsed() {
    let input = "[package]\nname = \"demo\"\n\n[dependencies.foo]\nversion = \"1\"\n\n[dependencies.foo.bar]\nx = \"1\"\n";
    let out = match format_manifest(&chars(input)) {
        Ok(o) => o,
        Err(_) => panic!("pipeline failed"),
    };
    let text = string_of(&out.text);
    assert!(!text.contains("foo = {"));
    assert!(text.contains("version"));
    assert!(text.contains("x = \"1\""));
}

#[test]
fn dotted_key_table_not_collapsed() {
    let input = "[package]\nname = \"demo\"\n\n[dependencies]\nfoo.version = \"1\"\n";
    let (changes, text) = run(input);
    assert_eq!(changes, 0);
    assert_eq!(text, input);
}

#[test]
fn comments_survive_section_reordering() {
    let input = "# leading section\n[dependencies]\n# keep me\nserde = \"1\"\n\n[package]\nname = \"demo\" # trailing\n";
    let (changes, text) = run(input);
    assert!(changes >= 1);
    assert!(text.contains("# keep me"));
    assert!(text.contains("# trailing"));
    let p = text.find("[package]").unwrap();
    let d = text.find("[dependencies]").unwrap();
    assert!(p < d);
}

#[test]
fn malformed_manifest_reports_parse_error() {
    let input = "[package\nname = \"demo\"\n";
    match format_manifest(&chars(input)) {
        Err(FmtError::Parse(_)) => {},
        _ => panic!("expected a parse error"),
    }
}

#[test]
fn key_set_preserved_by_sorting() {
    let input = "[dependencies]\ndelta = \"4\"\nbravo = \"2\"\ncharlie = \"3\"\nalpha = \"1\"\n";
    let (changes, text) = run(input);
    assert!(changes >= 1);
    for key in ["alpha", "bravo", "charlie", "delta"] {
        assert_eq!(text.matches(key).count(), 1);
    }
}

#[test]
fn target_dependencies_collapsed_and_sorted() {
    let input = "[package]\nname = \"demo\"\n\n[target.\"cfg(unix)\".dependencies]\nzeta = \"1\"\nalpha = \"2\"\n";
    let (changes, text) = run(input);
    assert!(changes >= 1);
    let a = text.find("alpha").unwrap();
    let z = text.find("zeta").unwrap();
    assert!(a < z);
}

#[test]
fn array_of_tables_kept_through_reorder() {
    let input = "[dependencies]\nserde = \"1\"\n\n[[bin]]\nname = \"one\"\n\n[[bin]]\nname = \"two\"\n\n[package]\nname = \"demo\"\n";
    let (changes, text) = run(input);
    assert!(changes >= 1);
    assert_eq!(text.matches("[[bin]]").count(), 2);
    assert!(text.contains("one"));
    assert!(text.contains("two"));
    let p = text.find("[package]").unwrap();
    let b = text.find("[[bin]]").unwrap();
    assert!(p < b);
}

#[test]
fn empty_manifest_unchanged() {
    let (changes, text) = run("");
    assert_eq!(changes, 0);
    assert_eq!(text, "");
}

#[test]
fn crlf_input_reordered_with_content_kept() {
    let input = "[dependencies]\r\nserde = \"1\"\r\n\r\n[package]\r\nname = \"demo\"\r\n";
    let (changes, text) = run(input);
    assert!(changes >= 1);
    let p = text.find("[package]").unwrap();
    let d = text.find("[dependencies]").unwrap();
    assert!(p < d);
    assert!(text.contains("serde = \"1\""));
    assert!(text.contains("name = \"demo\""));
}

#[test]
fn package_unknown_keys_keep_relative_order() {
    let input = "[package]\npublish = false\nedition = \"2021\"\ncustom = \"x\"\nname = \"demo\"\n";
    let (changes, text) = run(input);
    assert_eq!(changes, 1);
    let n = text.find("name").unwrap();
    let e = text.find("edition").unwrap();
    let p = text.find("publish").unwrap();
    let c = text.find("custom").unwrap();
    assert!(n < e && e < p && p < c);
}

#[test]
fn canonical_crlf_manifest_round_trips() {
    let input = "[package]\r\nname = \"demo\"\r\nversion = \"0.1.0\"\r\n";
    let (changes, text) = run(input);
    assert_eq!(changes, 0);
    assert_eq!(text, input);
}

#[test]
fn target_section_survives_reordering() {
    let input = "[target.\"cfg(unix)\".dependencies]\nlibc = { version = \"0.2\" }\n\n[package]\nname = \"demo\"\n";
    let (changes, text) = run(input);
    assert!(changes >= 1);
    let p = text.find("[package]").unwrap();
    let t = text.find("[target.\"cfg(unix)\".dependencies]").unwrap();
    assert!(p < t);
    assert!(text.contains("libc"));
}

#[test]
fn split_nested_sections_survive_reordering() {
    let input = "[features.extra]\nlist = { x = \"1\" }\n\n[package]\nname = \"demo\"\n\n[features.more]\nother = { y = \"2\" }\n";
    let (changes, text) = run(input);
    assert!(changes >= 1);
    assert!(text.contains("extra"));
    assert!(text.contains("more"));
    let p = text.find("[package]").unwrap();
    let f = text.find("[features").unwrap();
    assert!(p < f);
}

#[test]
fn entry_comments_move_with_sorted_keys() {
    let input = "[dependencies]\n# zebra note\nzebra = \"1\"\nalpha = \"2\"\n";
    let (changes, text) = run(input);
    assert_eq!(changes, 1);
    let note = text.find("# zebra note").unwrap();
    let z = text.find("zebra = ").unwrap();
    let a = text.find("alpha").unwrap();
    assert!(a < note && note < z);
}

#[test]
fn target_collapse_and_sort_counted_exactly() {
    let input = "[target.\"cfg(unix)\".dependencies]\nzeta = \"1\"\n\n[target.\"cfg(unix)\".dependencies.alpha]\nversion = \"2\"\n";
    let (changes, text) = run(input);
    assert_eq!(changes, 2);
    assert!(text.contains("alpha = { version = \"2\" }"));
    let a = text.find("alpha").unwrap();
    let z = text.find("zeta").unwrap();
    assert!(a < z);
}

#[test]
fn canonical_manifest_with_target_unchanged() {
    let input = "[package]\nname = \"demo\"\n\n[dependencies]\nalpha = \"1\"\n\n[target.\"cfg(unix)\".dependencies]\nlibc = { version = \"0.2\" }\n";
    let (changes, text) = run(input);
    assert_eq!(changes, 0);
    assert_eq!(text, input);
}
