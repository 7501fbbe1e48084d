use kanata_lsp::format::{align_layers, format_document, pad_item, render_block};

#[test]
fn deflayer_items_padded_to_template_widths() {
    let text = "(defsrc a bb c)\n(deflayer base x y z)\n(deflayer other x y)";
    let out = format_document(text);
    assert_eq!(
        out,
        "(defsrc a bb c)\n(deflayer base\n  x\n  y \n  z\n)\n(deflayer other x y)"
    );
}

#[test]
fn formatting_aligned_document_is_identity() {
    let text = "(defsrc a bb c)\n(deflayer base x y z)\n(deflayer other x y)";
    let once = format_document(text);
    assert_eq!(format_document(&once), once);
}

#[test]
fn no_template_leaves_document_unchanged() {
    let text = "(deflayer base x y z)\r\n\n";
    assert_eq!(format_document(text), text);
}

#[test]
fn nested_lists_stay_one_item() {
    let text = "  (defsrc a b)\n  (deflayer l (tap-hold 200 200 a b) c)";
    let out = format_document(text);
    assert_eq!(out, "  (defsrc a b)\n  (deflayer l\n    (tap-hold 200 200 a b)\n    c\n  )");
}

#[test]
fn widths_count_user_perceived_characters() {
    let text = "(defsrc e\u{301} bb)\n(deflayer l x y)";
    let out = format_document(text);
    assert_eq!(out, "(defsrc e\u{301} bb)\n(deflayer l\n  x\n  y \n)");
}

#[test]
fn multi_line_block_is_collected() {
    let text = "(defsrc\n  a b\n  c\n)\n(deflayer l\n  1 2\n  3)";
    let out = format_document(text);
    assert_eq!(out, "(defsrc\n  a b\n  c\n)\n(deflayer l\n  1\n  2\n  3\n)");
}

#[test]
fn pad_item_pads_to_target() {
    assert_eq!(pad_item("ab", 2, 5), "ab   ");
    assert_eq!(pad_item("abc", 3, 2), "abc");
    assert_eq!(pad_item("", 0, 1), " ");
}

#[test]
fn unicode_whitespace_separates_items() {
    let text = "(defsrc a\u{A0}bb)\n(deflayer l x y)";
    let out = format_document(text);
    assert_eq!(out, "(defsrc a\u{A0}bb)\n(deflayer l\n  x\n  y \n)");
}

#[test]
fn mismatched_layer_keeps_its_lines() {
    let text = "(defsrc a b)\n  (deflayer l\n     x   y\n z)\n(deflayer m p q)";
    let out = format_document(text);
    assert_eq!(out, "(defsrc a b)\n  (deflayer l\n     x   y\n z)\n(deflayer m\n  p\n  q\n)");
}

#[test]
fn formatting_twice_equals_formatting_once() {
    let text = "(defsrc\n  a bb ccc\n)\n  (deflayer l (multi\n  x y)\n    w)\n(deflayer m 1 2 3)\n(deflayer n (q\n";
    let once = format_document(text);
    assert_eq!(once, "(defsrc\n  a bb ccc\n)\n  (deflayer l\n    (multi\n    x y)\n    w  \n  )\n(deflayer m\n  1\n  2 \n  3  \n)\n(deflayer n (q\n");
    assert_eq!(format_document(&once), once);
}

#[test]
fn layer_name_stops_at_parenthesis() {
    let text = "(defsrc a)\n(deflayer empty)\n(deflayer l x)";
    assert_eq!(format_document(text), "(defsrc a)\n(deflayer empty)\n(deflayer l\n  x\n)");
}

#[test]
fn render_block_uses_given_widths() {
    let items = vec!["x".to_string(), "(a b)".to_string()];
    let lines = render_block(2, "base", &items, &vec![1, 5], &vec![3, 2]);
    assert_eq!(lines, vec!["  (deflayer base", "    x  ", "    (a b)", "  )"]);
}

#[test]
fn align_layers_uses_given_widths() {
    let text = "(deflayer l a b)\n(deflayer m a)";
    assert_eq!(align_layers(text, &vec![2, 3]), "(deflayer l\n  a \n  b  \n)\n(deflayer m a)");
}
