use kanata_lsp::diagnostics::{extract_line_info, parse_decimal_u32, report_message, report_range, translate_report};
use kanata_lsp::types::SourceRange;

fn range(sl: usize, sc: usize, el: usize, ec: usize) -> SourceRange {
    SourceRange { start_line: sl, start_col: sc, end_line: el, end_col: ec }
}

fn chars(s: &str) -> Vec<char> {
    s.chars().collect()
}

#[test]
fn locator_gives_zero_based_line() {
    let report = "Error: bad thing\n   [config.kbd:78:1]\n";
    assert_eq!(extract_line_info(report), (77, 0, 77));
    assert_eq!(report_range(report, "short"), range(77, 0, 77, 1));
    let mut text = String::new();
    for _ in 0..77 {
        text.push_str("x\n");
    }
    text.push_str("(deflayer)");
    assert_eq!(report_range(report, &text), range(77, 0, 77, 10));
}

#[test]
fn gutter_markers_give_line_span() {
    let report = "  \u{256D}\u{2500}[config.kbd:79:1]\n79 \u{2502} \u{256D}\u{2500}\u{25B6} (deflayer\n85 \u{2502} \u{251C}\u{2500}\u{25B6} )\n  help: Layer has wrong number of items";
    assert_eq!(extract_line_info(report), (78, 0, 84));
    let mut text = String::new();
    for _ in 0..84 {
        text.push_str("ab\n");
    }
    text.push_str("xyz");
    assert_eq!(report_range(report, &text), range(78, 0, 84, 3));
    assert_eq!(report_message(report), "Layer has wrong number of items");
}

#[test]
fn span_past_document_end_ends_at_column_zero() {
    let report = "10 \u{2502} \u{256D}\u{2500}\u{25B6} x\n12 \u{2502} \u{2570}\u{2500}\u{2500} y";
    assert_eq!(extract_line_info(report), (9, 0, 11));
    assert_eq!(report_range(report, "a"), range(9, 0, 11, 0));
}

#[test]
fn inverted_span_collapses_to_one_character() {
    let report = "12 \u{2502} \u{256D}\u{2500}\u{25B6} x\n10 \u{2502} \u{2570}\u{2500}\u{2500} y";
    assert_eq!(extract_line_info(report), (11, 0, 9));
    assert_eq!(report_range(report, "a"), range(11, 0, 11, 1));
}

#[test]
fn no_position_defaults_to_start() {
    assert_eq!(extract_line_info("something failed"), (0, 0, 0));
    assert_eq!(report_range("something failed", "abc"), range(0, 0, 0, 3));
    assert_eq!(report_range("something failed", ""), range(0, 0, 0, 1));
}

#[test]
fn message_between_help_markers() {
    assert_eq!(report_message("x\n help:  one help: two\nhelp: three"), "one");
    assert_eq!(report_message("no hint"), "Parse error");
}

#[test]
fn translate_combines_range_and_message() {
    let d = translate_report("[a.kbd:2:3]\nhelp: fix it", "l0\nline1");
    assert_eq!(d.range, range(1, 2, 1, 5));
    assert_eq!(d.message, "fix it");
}

#[test]
fn decimal_reading_matches_std() {
    for s in ["0", "+5", "4294967295", "4294967296", "", "+", "1a", "-1", " 1", "007"] {
        assert_eq!(parse_decimal_u32(&chars(s)), s.parse::<u32>().ok(), "{s}");
    }
}
