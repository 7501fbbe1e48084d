use kanata_lsp::references::find_references;
use kanata_lsp::types::SourceRange;
use kanata_lsp::workspace::{Validation, Workspace};

fn range(sl: usize, sc: usize, el: usize, ec: usize) -> SourceRange {
    SourceRange { start_line: sl, start_col: sc, end_line: el, end_col: ec }
}

#[test]
fn definition_of_alias_reference_is_its_declaration() {
    let mut ws = Workspace::new();
    ws.update_document("file:///a.kbd", "(defalias foo a)\n(deflayer base @foo)");
    for col in 15..19 {
        let loc = ws.definition("file:///a.kbd", 1, col).unwrap();
        assert_eq!(loc.uri, "file:///a.kbd");
        assert_eq!(loc.range, range(0, 10, 0, 13));
    }
    assert!(ws.definition("file:///a.kbd", 1, 14).is_none());
    assert!(ws.definition("file:///b.kbd", 1, 16).is_none());
}

#[test]
fn definition_of_layer_name() {
    let mut ws = Workspace::new();
    ws.update_document("u", "(deflayer nav a)\n(layer-switch nav)");
    let loc = ws.definition("u", 1, 15).unwrap();
    assert_eq!(loc.range, range(0, 10, 0, 13));
}

#[test]
fn layer_references_respect_word_boundaries() {
    let mut ws = Workspace::new();
    ws.update_document("u", "(deflayer nav a)\n(deflayer navigate b)\n(layer-switch nav)");
    let refs = ws.references("u", 0, 11).unwrap();
    assert_eq!(refs.len(), 2);
    assert_eq!(refs[0].range, range(0, 10, 0, 13));
    assert_eq!(refs[1].range, range(2, 14, 2, 17));
}

#[test]
fn alias_references_match_adjacent_occurrences() {
    let mut ws = Workspace::new();
    ws.update_document("u", "(x @a@a @ab)");
    let refs = find_references(&ws.documents, "@a");
    assert_eq!(refs.len(), 3);
    assert_eq!(refs[0].range, range(0, 3, 0, 5));
    assert_eq!(refs[1].range, range(0, 5, 0, 7));
    assert_eq!(refs[2].range, range(0, 8, 0, 10));
}

#[test]
fn references_with_no_word_or_no_hit_are_none() {
    let mut ws = Workspace::new();
    ws.update_document("u", "(deflayer nav a)");
    assert!(ws.references("u", 0, 0).is_none());
    assert!(ws.references("other", 0, 11).is_none());
}

#[test]
fn rename_alias_across_two_documents() {
    let mut ws = Workspace::new();
    ws.update_document("one", "(defalias a x)\n(deflayer base @a @a)");
    ws.update_document("two", "(deflayer other @a)");
    let edit = ws.rename("one", 1, 15, "b").unwrap();
    assert_eq!(edit.changes.len(), 2);
    assert_eq!(edit.changes[0].uri, "one");
    assert_eq!(edit.changes[1].uri, "two");
    let total: usize = edit.changes.iter().map(|c| c.edits.len()).sum();
    assert_eq!(total, 3);
    for c in &edit.changes {
        for e in &c.edits {
            assert_eq!(e.new_text, "@b");
        }
    }
    assert_eq!(edit.changes[0].edits[0].range, range(1, 15, 1, 17));
    assert_eq!(edit.changes[0].edits[1].range, range(1, 18, 1, 20));
    assert_eq!(edit.changes[1].edits[0].range, range(0, 16, 0, 18));
}

#[test]
fn rename_layer_uses_bare_name() {
    let mut ws = Workspace::new();
    ws.update_document("u", "(deflayer nav a)\n(layer-switch nav)");
    let edit = ws.rename("u", 1, 14, "move").unwrap();
    assert_eq!(edit.changes.len(), 1);
    assert_eq!(edit.changes[0].edits.len(), 2);
    assert_eq!(edit.changes[0].edits[0].new_text, "move");
}

#[test]
fn validation_success_clears_both_caches() {
    let mut ws = Workspace::new();
    ws.update_document("u", "(defsrc a)");
    let failed = ws.record_validation("u", &Validation::Failed("help: bad".to_string())).unwrap();
    assert_eq!(failed.len(), 1);
    assert_eq!(ws.pulled_diagnostics("u").len(), 1);
    let published = ws.record_validation("u", &Validation::Passed).unwrap();
    assert!(published.is_empty());
    assert!(ws.pulled_diagnostics("u").is_empty());
    assert!(ws.documents[0].pushed.is_empty());
    assert!(ws.documents[0].pulled.is_empty());
}

#[test]
fn validation_of_untracked_document_is_none() {
    let mut ws = Workspace::new();
    assert!(ws.record_validation("u", &Validation::Passed).is_none());
    assert!(ws.pulled_diagnostics("u").is_empty());
}

#[test]
fn write_failure_becomes_a_diagnostic_at_the_start() {
    let mut ws = Workspace::new();
    ws.update_document("u", "x");
    let d = ws.record_validation("u", &Validation::WriteFailed("disk full".to_string())).unwrap();
    assert_eq!(d.len(), 1);
    assert_eq!(d[0].range, range(0, 0, 0, 0));
    assert_eq!(d[0].message, "Failed to write temp file: disk full");
}

#[test]
fn update_replaces_text_and_keeps_one_entry() {
    let mut ws = Workspace::new();
    ws.update_document("u", "(defalias a x)");
    ws.update_document("u", "(defalias b x)");
    assert_eq!(ws.documents.len(), 1);
    assert_eq!(ws.documents[0].text, "(defalias b x)");
    assert_eq!(ws.documents[0].symbols.aliases[0].name, "b");
}

#[test]
fn formatting_returns_whole_document_edit() {
    let mut ws = Workspace::new();
    ws.update_document("u", "(defsrc a bb)\n(deflayer l x y)");
    let e = ws.formatting("u").unwrap();
    assert_eq!(e.range, range(0, 0, 1, 16));
    assert_eq!(e.new_text, "(defsrc a bb)\n(deflayer l\n  x\n  y \n)");
    ws.update_document("u", "(defsrc a bb)\n(deflayer l\n  x\n  y \n)");
    assert!(ws.formatting("u").is_none());
}

#[test]
fn unicode_letters_bound_layer_names() {
    let mut ws = Workspace::new();
    ws.update_document("u", "(deflayer nav a)\n(x nav\u{E9} nav)");
    let refs = ws.references("u", 0, 10).unwrap();
    assert_eq!(refs.len(), 2);
    assert_eq!(refs[0].range, range(0, 10, 0, 13));
    assert_eq!(refs[1].range, range(1, 8, 1, 11));
}
