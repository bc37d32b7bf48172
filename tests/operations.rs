use text_splitter::diff::{compare_texts, DiffResult, DiffType};
use text_splitter::processor::TextProcessor;
use text_splitter::settings::SaveAppSettings;

fn columns(text: &str, delimiter: &str, trimparts: bool, useregex: bool) -> Vec<String> {
    TextProcessor::process_text_block_to_column_strings(text, delimiter, trimparts, useregex)
        .ok()
        .expect("columns")
        .result_text
}

fn kinds(d: &[DiffResult]) -> Vec<(String, DiffType, usize)> {
    d.iter().map(|r| (r.text.clone(), r.diff_type, r.line_number)).collect()
}

fn rank(t: DiffType) -> u8 {
    match t {
        DiffType::Unchanged => 0,
        DiffType::Moved => 1,
        DiffType::Removed => 2,
        DiffType::Added => 3,
    }
}

#[test]
fn split_columns_two_by_two() {
    assert_eq!(columns("a,b\nc,d", ",", false, false), vec!["a\nc", "b\nd"]);
}

#[test]
fn split_columns_pads_short_lines() {
    assert_eq!(columns("a,b,c\nd", ",", false, false), vec!["a\nd", "b\n", "c\n"]);
}

#[test]
fn split_columns_pads_new_columns_above() {
    let cols = columns("a\nb,c", ",", false, false);
    assert_eq!(cols, vec!["a\nb", "\nc"]);
    for c in &cols {
        assert_eq!(c.split('\n').count(), 2);
    }
}

#[test]
fn split_columns_empty_text() {
    assert!(columns("", ",", false, false).is_empty());
}

#[test]
fn split_columns_no_delimiter_in_line() {
    assert_eq!(columns("abc", ";", false, false), vec!["abc"]);
}

#[test]
fn split_columns_trims_parts() {
    assert_eq!(columns(" a , b ", ",", true, false), vec!["a", "b"]);
}

#[test]
fn split_columns_by_regex() {
    assert_eq!(columns("a1b22c", "\\d+", false, true), vec!["a", "b", "c"]);
}

#[test]
fn split_columns_invalid_regex() {
    let r = TextProcessor::process_text_block_to_column_strings("a(b", "(", false, true);
    assert!(r.is_err());
    assert_eq!(columns("a(b", "(", false, false), vec!["a", "b"]);
}

#[test]
fn split_columns_reports_no_removed_lines() {
    let r = TextProcessor::process_text_block_to_column_strings("a\nb", ",", false, false).ok().unwrap();
    assert_eq!(r.removed_lines, 0);
}

#[test]
fn connect_uneven() {
    assert_eq!(TextProcessor::connect_texts("x\ny", "1\n2\n3", "-").unwrap(), "x-1\ny-2\n-3");
}

#[test]
fn connect_equal_length() {
    let out = TextProcessor::connect_texts("a\nb\nc", "1\n2\n3", "|").unwrap();
    assert_eq!(out, "a|1\nb|2\nc|3");
    assert_eq!(out.lines().count(), 3);
    assert!(out.lines().all(|l| l.matches('|').count() == 1));
}

#[test]
fn connect_crlf_lines() {
    assert_eq!(TextProcessor::connect_texts("a\r\nb", "1", "-").unwrap(), "a-1\nb-");
}

#[test]
fn connect_empty_texts() {
    assert_eq!(TextProcessor::connect_texts("", "", "-").unwrap(), "");
}

#[test]
fn remove_duplicates() {
    let r = TextProcessor::remove_lines_internal("a\na\nb", "", "duplicates", true, false, false)
        .ok()
        .unwrap();
    assert_eq!(r.result_text, "a\nb");
    assert_eq!(r.removed_lines, 1);
}

#[test]
fn remove_duplicates_twice_is_once() {
    let once = TextProcessor::remove_lines_internal("b\na\nb\n c\nc", "", "duplicates", true, false, true)
        .ok()
        .unwrap();
    assert_eq!(once.result_text, "b\na\nc");
    let twice = TextProcessor::remove_lines_internal(&once.result_text, "", "duplicates", true, false, true)
        .ok()
        .unwrap();
    assert_eq!(twice.result_text, once.result_text);
    assert_eq!(twice.removed_lines, 0);
}

#[test]
fn remove_duplicates_ignoring_case() {
    let r = TextProcessor::remove_lines_internal("A\na\nB", "", "duplicates", false, false, false)
        .ok()
        .unwrap();
    assert_eq!(r.result_text, "A\nB");
    assert_eq!(r.removed_lines, 1);
}

#[test]
fn remove_duplicates_trimmed() {
    let r = TextProcessor::remove_lines_internal(" a\na \nb", "", "duplicates", true, false, true)
        .ok()
        .unwrap();
    assert_eq!(r.result_text, "a\nb");
    assert_eq!(r.removed_lines, 1);
}

#[test]
fn remove_duplicates_ignores_invalid_pattern() {
    assert!(TextProcessor::remove_lines_internal("a", "(", "duplicates", true, true, false).is_ok());
}

#[test]
fn keep_containing_literal() {
    let r = TextProcessor::remove_lines_internal("apple\nbanana\ncherry", "an", "containing", true, false, false)
        .ok()
        .unwrap();
    assert_eq!(r.result_text, "banana");
    assert_eq!(r.removed_lines, 2);
}

#[test]
fn keep_not_containing_literal() {
    let r = TextProcessor::remove_lines_internal("apple\nbanana\ncherry", "an", "not-containing", true, false, false)
        .ok()
        .unwrap();
    assert_eq!(r.result_text, "apple\ncherry");
    assert_eq!(r.removed_lines, 1);
}

#[test]
fn keep_containing_ignoring_case() {
    let r = TextProcessor::remove_lines_internal("Apple\nbanana", "APP", "containing", false, false, false)
        .ok()
        .unwrap();
    assert_eq!(r.result_text, "Apple");
    assert_eq!(r.removed_lines, 1);
}

#[test]
fn keep_containing_regex() {
    let r = TextProcessor::remove_lines_internal("a1\nb\nc22", "\\d", "containing", true, true, false)
        .ok()
        .unwrap();
    assert_eq!(r.result_text, "a1\nc22");
    assert_eq!(r.removed_lines, 1);
}

#[test]
fn keep_containing_regex_ignoring_case() {
    let r = TextProcessor::remove_lines_internal("ABC\nxyz", "b", "containing", false, true, false)
        .ok()
        .unwrap();
    assert_eq!(r.result_text, "ABC");
}

#[test]
fn remove_lines_invalid_regex() {
    assert!(TextProcessor::remove_lines_internal("a", "(", "containing", true, true, false).is_err());
}

#[test]
fn filter_extract_word() {
    let r = TextProcessor::filter_text_internal("cat dog", "d\\w+", "extract", true, false).ok().unwrap();
    assert_eq!(r.result_text, "dog");
    assert_eq!(r.removed_lines, 0);
}

#[test]
fn filter_extract_split_matches() {
    let r = TextProcessor::filter_text_internal("a1b2", "\\d", "extract", true, true).ok().unwrap();
    assert_eq!(r.result_text, "1\n2");
    let r = TextProcessor::filter_text_internal("a1b2", "\\d", "extract", true, false).ok().unwrap();
    assert_eq!(r.result_text, "12");
}

#[test]
fn filter_remove_matches_and_blank_lines() {
    let r = TextProcessor::filter_text_internal("a1b2\n  \nc3\n4", "\\d", "remove", true, false).ok().unwrap();
    assert_eq!(r.result_text, "ab\nc");
}

#[test]
fn filter_ignoring_case() {
    let r = TextProcessor::filter_text_internal("Dog", "dog", "extract", false, false).ok().unwrap();
    assert_eq!(r.result_text, "Dog");
    let r = TextProcessor::filter_text_internal("Dog", "dog", "extract", true, false).ok().unwrap();
    assert_eq!(r.result_text, "");
}

#[test]
fn filter_invalid_regex() {
    assert!(TextProcessor::filter_text_internal("a", "(", "extract", true, false).is_err());
}

#[test]
fn diff_moved_lines() {
    let d = compare_texts("a\nb\nc", "a\nc\nb", false).unwrap();
    assert_eq!(
        kinds(&d),
        vec![
            ("a".to_string(), DiffType::Unchanged, 1),
            ("c".to_string(), DiffType::Moved, 2),
            ("b".to_string(), DiffType::Moved, 3),
        ]
    );
}

#[test]
fn diff_added_and_removed() {
    let d = compare_texts("a\nb", "a\nc", false).unwrap();
    assert_eq!(
        kinds(&d),
        vec![
            ("a".to_string(), DiffType::Unchanged, 1),
            ("b".to_string(), DiffType::Removed, 2),
            ("c".to_string(), DiffType::Added, 2),
        ]
    );
}

#[test]
fn diff_repeated_keys_pair_in_order() {
    let d = compare_texts("x\nx\nx\ny", "y\nx\nz", false).unwrap();
    assert_eq!(
        kinds(&d),
        vec![
            ("x".to_string(), DiffType::Unchanged, 2),
            ("y".to_string(), DiffType::Moved, 1),
            ("x".to_string(), DiffType::Removed, 1),
            ("x".to_string(), DiffType::Removed, 3),
            ("z".to_string(), DiffType::Added, 3),
        ]
    );
}

#[test]
fn diff_coverage_count() {
    let d = compare_texts("p\nq\nr\ns", "q\np\nr\nt\nu", false).unwrap();
    let unchanged = d.iter().filter(|r| r.diff_type == DiffType::Unchanged).count();
    let moved = d.iter().filter(|r| r.diff_type == DiffType::Moved).count();
    assert_eq!(d.len(), 4 + 5 - (unchanged + moved));
}

#[test]
fn diff_is_ordered() {
    let d = compare_texts("k\nb\na\nq\nz", "a\nb\nc\nk\nw\nq", false).unwrap();
    for w in d.windows(2) {
        let (x, y) = (&w[0], &w[1]);
        assert!(rank(x.diff_type) < rank(y.diff_type)
            || (x.diff_type == y.diff_type && x.line_number < y.line_number));
    }
}

#[test]
fn diff_ignoring_whitespace() {
    let d = compare_texts("a  b", " a b ", true).unwrap();
    assert_eq!(kinds(&d), vec![("a  b".to_string(), DiffType::Unchanged, 1)]);
    let d = compare_texts("a  b", " a b ", false).unwrap();
    assert_eq!(
        kinds(&d),
        vec![("a  b".to_string(), DiffType::Removed, 1), (" a b ".to_string(), DiffType::Added, 1)]
    );
}

#[test]
fn diff_empty_texts() {
    assert!(compare_texts("", "", false).unwrap().is_empty());
}

#[test]
fn settings_defaults() {
    let s = SaveAppSettings::default();
    assert_eq!(s.is_dark_mode, Some(true));
    assert_eq!(s.language.as_deref(), Some("en"));
    assert_eq!(s.font_size.as_deref(), Some("text-sm"));
    assert_eq!(s.saved_patterns, Some(vec![]));
    assert_eq!(s.window_position, Some((100, 100)));
    assert_eq!(s.window_size, Some((1200, 800)));
}

#[test]
fn split_columns_empty_delimiter() {
    assert_eq!(columns("ab", "", false, false), vec!["", "a", "b", ""]);
}

#[test]
fn split_columns_leftmost_non_overlapping() {
    assert_eq!(columns("aaa", "aa", false, false), vec!["", "a"]);
    assert_eq!(columns("x::y::", "::", false, false), vec!["x", "y", ""]);
}

fn chars(s: &str) -> Vec<char> {
    s.chars().collect()
}

fn rows(v: &[&str]) -> Vec<Vec<char>> {
    v.iter().map(|s| chars(s)).collect()
}

fn texts(v: &[Vec<char>]) -> Vec<String> {
    v.iter().map(|c| c.iter().collect()).collect()
}

#[test]
fn assemble_columns_pads_missing_parts() {
    let table = vec![rows(&["a", "b"]), rows(&["c"]), rows(&["d", "e", "f"])];
    let cols = text_splitter::columns::assemble_columns(&table);
    assert_eq!(cols, vec!["a\nc\nd", "b\n\ne", "\n\nf"]);
}

#[test]
fn keep_first_occurrences_by_key() {
    let kept = text_splitter::remover::keep_first_occurrences(&rows(&["A", "a", "B", "b"]), &rows(&["a", "a", "b", "b"]));
    assert_eq!(texts(&kept), vec!["A", "B"]);
}

#[test]
fn keep_lines_by_match_result() {
    let lines = rows(&["x", "y", "z"]);
    let hits = vec![true, false, true];
    assert_eq!(texts(&text_splitter::remover::keep_lines_by_match(&lines, &hits, true)), vec!["x", "z"]);
    assert_eq!(texts(&text_splitter::remover::keep_lines_by_match(&lines, &hits, false)), vec!["y"]);
}

#[test]
fn join_non_empty_drops_empty_lines() {
    let joined = text_splitter::filter::join_non_empty(&rows(&["a", "", "b", ""]));
    assert_eq!(joined.iter().collect::<String>(), "a\nb");
    assert!(text_splitter::filter::join_non_empty(&rows(&["", ""])).is_empty());
}
