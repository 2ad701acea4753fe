use manifest_fmt::order::{sort_keys, compute_expected, keys_equal};
use manifest_fmt::text::{eq_chars, le_chars, contains_key};
use manifest_fmt::sections::{split_lines, scan_text_sections, reassemble_text, reorder_text,
    classify_line, LineClass};

fn chars(s: &str) -> Vec<char> {
    s.chars().collect()
}

fn string_of(v: &[char]) -> String {
    v.iter().collect()
}

#[test]
fn sort_keys_orders_bytewise() {
    let keys = vec![chars("zebra"), chars("alpha"), chars("Beta"), chars("alp")];
    let sorted = sort_keys(keys);
    let as_strings: Vec<String> = sorted.iter().map(|k| string_of(k)).collect();
    assert_eq!(as_strings, vec!["Beta", "alp", "alpha", "zebra"]);
}

#[test]
fn sort_keys_empty_and_single() {
    assert_eq!(sort_keys(Vec::new()).len(), 0);
    let one = sort_keys(vec![chars("x")]);
    assert_eq!(one.len(), 1);
    assert_eq!(string_of(&one[0]), "x");
}

#[test]
fn compute_expected_canonical_prefix_then_rest() {
    let canon = vec![chars("name"), chars("version"), chars("edition")];
    let cur = vec![chars("publish"), chars("edition"), chars("custom"), chars("name")];
    let expected = compute_expected(&canon, &cur);
    let as_strings: Vec<String> = expected.iter().map(|k| string_of(k)).collect();
    assert_eq!(as_strings, vec!["name", "edition", "publish", "custom"]);
}

#[test]
fn compute_expected_is_idempotent() {
    let canon = vec![chars("package"), chars("dependencies")];
    let cur = vec![chars("features"), chars("dependencies"), chars("package")];
    let once = compute_expected(&canon, &cur);
    let twice = compute_expected(&canon, &once);
    assert!(keys_equal(&once, &twice));
}

#[test]
fn char_vector_comparisons() {
    assert!(eq_chars(&chars("abc"), &chars("abc")));
    assert!(!eq_chars(&chars("abc"), &chars("abd")));
    assert!(le_chars(&chars("abc"), &chars("abd")));
    assert!(le_chars(&chars("ab"), &chars("abc")));
    assert!(!le_chars(&chars("b"), &chars("ab")));
    let hay = vec![chars("one"), chars("two")];
    assert!(contains_key(&hay, &chars("two")));
    assert!(!contains_key(&hay, &chars("three")));
}

#[test]
fn split_lines_drops_terminators() {
    let lines = split_lines(&chars("a\nbb\n\nccc"));
    let as_strings: Vec<String> = lines.iter().map(|l| string_of(l)).collect();
    assert_eq!(as_strings, vec!["a", "bb", "", "ccc"]);
    assert_eq!(split_lines(&chars("")).len(), 0);
}

#[test]
fn classify_line_reads_headers() {
    match classify_line(&chars("  [package]")) {
        LineClass::Std { name } => assert_eq!(string_of(&name), "package"),
        _ => panic!("expected a standard header"),
    }
    match classify_line(&chars("[[bin]]")) {
        LineClass::Aot { name } => assert_eq!(string_of(&name), "bin"),
        _ => panic!("expected an array-of-tables header"),
    }
    assert!(matches!(classify_line(&chars("key = \"v\"")), LineClass::Plain));
    assert!(matches!(classify_line(&chars("[unclosed")), LineClass::Plain));
}

#[test]
fn scan_captures_blocks_with_their_lines() {
    let text = chars("[a]\nx = 1\n\n[b]\n# note\ny = 2\n");
    let lines = split_lines(&text);
    let blocks = scan_text_sections(&lines);
    assert_eq!(blocks.len(), 2);
    assert_eq!(string_of(&blocks[0].0), "a");
    assert_eq!(string_of(&blocks[0].1), "[a]\nx = 1\n\n");
    assert_eq!(string_of(&blocks[1].0), "b");
    assert_eq!(string_of(&blocks[1].1), "[b]\n# note\ny = 2\n");
}

#[test]
fn reassemble_follows_expected_order() {
    let text = chars("[b]\ny = 2\n\n[a]\nx = 1\n");
    let lines = split_lines(&text);
    let blocks = scan_text_sections(&lines);
    let expected = vec![chars("a"), chars("b")];
    let out = reassemble_text(&blocks, &expected);
    assert_eq!(string_of(&out), "[a]\nx = 1\n\n[b]\ny = 2\n\n");
}

#[test]
fn reorder_text_moves_whole_blocks() {
    let text = chars("[dependencies]\nserde = \"1\"\n\n[package]\nname = \"demo\"\n");
    let expected = vec![chars("package"), chars("dependencies")];
    let out = reorder_text(&text, &expected);
    let s = string_of(&out);
    let p = s.find("[package]").unwrap();
    let d = s.find("[dependencies]").unwrap();
    assert!(p < d);
    assert!(s.contains("serde = \"1\""));
    assert!(s.contains("name = \"demo\""));
}

#[test]
fn contiguous_array_of_tables_stay_one_block() {
    let text = chars("[[bin]]\nname = \"one\"\n[[bin]]\nname = \"two\"\n");
    let lines = split_lines(&text);
    let blocks = scan_text_sections(&lines);
    assert_eq!(blocks.len(), 1);
    assert_eq!(string_of(&blocks[0].0), "bin");
    assert!(string_of(&blocks[0].1).contains("one"));
    assert!(string_of(&blocks[0].1).contains("two"));
}

#[test]
fn dotted_headers_file_under_root_key() {
    match classify_line(&chars("[target.\"cfg(unix)\".dependencies]")) {
        LineClass::Std { name } => assert_eq!(string_of(&name), "target"),
        _ => panic!("expected a standard header"),
    }
    match classify_line(&chars("[ a . b ]")) {
        LineClass::Std { name } => assert_eq!(string_of(&name), "a"),
        _ => panic!("expected a standard header"),
    }
    match classify_line(&chars("[[bench.extra]]")) {
        LineClass::Aot { name } => assert_eq!(string_of(&name), "bench"),
        _ => panic!("expected an array-of-tables header"),
    }
}

#[test]
fn dotted_headers_of_one_root_stay_one_block() {
    let text = chars(
        "[target.\"cfg(unix)\".dependencies]\nlibc = \"0.2\"\n[target.\"cfg(windows)\".dependencies]\nwinapi = \"0.3\"\n",
    );
    let lines = split_lines(&text);
    let blocks = scan_text_sections(&lines);
    assert_eq!(blocks.len(), 1);
    assert_eq!(string_of(&blocks[0].0), "target");
    let body = string_of(&blocks[0].1);
    assert!(body.contains("libc"));
    assert!(body.contains("winapi"));
}

#[test]
fn separated_blocks_of_one_root_are_merged() {
    let text = chars("[a.x]\nv = 1\n[b]\nw = 2\n[a.y]\nu = 3\n");
    let lines = split_lines(&text);
    let blocks = scan_text_sections(&lines);
    assert_eq!(blocks.len(), 2);
    assert_eq!(string_of(&blocks[0].0), "a");
    assert_eq!(string_of(&blocks[1].0), "b");
    let a_body = string_of(&blocks[0].1);
    assert!(a_body.contains("v = 1"));
    assert!(a_body.contains("u = 3"));
}
