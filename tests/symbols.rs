use kanata_lsp::resolve::get_word_at_position;
use kanata_lsp::symbols::extract_symbols;
use kanata_lsp::types::SourceRange;

fn range(sl: usize, sc: usize, el: usize, ec: usize) -> SourceRange {
    SourceRange { start_line: sl, start_col: sc, end_line: el, end_col: ec }
}

#[test]
fn same_line_alias_is_recorded_at_its_name() {
    let syms = extract_symbols("(defalias foo a)\n  (deflayer base @foo)");
    assert_eq!(syms.aliases.len(), 1);
    assert_eq!(syms.aliases[0].name, "foo");
    assert_eq!(syms.aliases[0].range, range(0, 10, 0, 13));
    assert_eq!(syms.layers.len(), 1);
    assert_eq!(syms.layers[0].name, "base");
    assert_eq!(syms.layers[0].range, range(1, 12, 1, 16));
}

#[test]
fn multi_line_alias_is_recorded_on_the_name_line() {
    let syms = extract_symbols("(defalias\n  ; comment\n\n  foo a\n)");
    assert_eq!(syms.aliases.len(), 1);
    assert_eq!(syms.aliases[0].name, "foo");
    assert_eq!(syms.aliases[0].range, range(3, 2, 3, 5));
}

#[test]
fn multi_line_layer_is_recorded_on_the_name_line() {
    let syms = extract_symbols("(deflayer\n;; note\n   nav\n  a b)");
    assert_eq!(syms.layers.len(), 1);
    assert_eq!(syms.layers[0].name, "nav");
    assert_eq!(syms.layers[0].range, range(2, 3, 2, 6));
}

#[test]
fn declaration_closed_before_a_name_records_nothing() {
    let syms = extract_symbols("(defalias\n\n)\nfoo");
    assert_eq!(syms.aliases.len(), 0);
}

#[test]
fn later_declaration_wins_in_lookup() {
    let syms = extract_symbols("(defalias x a)\n(defalias x b)");
    assert_eq!(syms.aliases.len(), 2);
    assert_eq!(syms.definition("@x"), Some(range(1, 10, 1, 11)));
}

#[test]
fn definition_of_unknown_or_empty_word_is_none() {
    let syms = extract_symbols("(defalias x a)\n(deflayer base a)");
    assert_eq!(syms.definition("@y"), None);
    assert_eq!(syms.definition(""), None);
    assert_eq!(syms.definition("x"), None);
    assert_eq!(syms.definition("base"), Some(range(1, 10, 1, 14)));
}

#[test]
fn word_at_position_takes_the_sigil() {
    let text = "(deflayer base @foo-bar)";
    for col in 15..23 {
        assert_eq!(get_word_at_position(text, 0, col), "@foo-bar");
    }
    assert_eq!(get_word_at_position(text, 0, 14), "");
    assert_eq!(get_word_at_position(text, 0, 23), "");
    assert_eq!(get_word_at_position(text, 0, 99), "");
    assert_eq!(get_word_at_position(text, 3, 0), "");
    assert_eq!(get_word_at_position(text, 0, 11), "base");
}

#[test]
fn word_at_position_on_second_line() {
    assert_eq!(get_word_at_position("a\n  nav_1 x", 1, 4), "nav_1");
}

#[test]
fn multi_line_name_is_what_lookup_returns() {
    let syms = extract_symbols("(deflayer\n  ; c\n  nav a)\n(defalias\n\n  x y)");
    assert_eq!(syms.definition("nav"), Some(range(2, 2, 2, 5)));
    assert_eq!(syms.definition("@x"), Some(range(5, 2, 5, 3)));
}
