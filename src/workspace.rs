//! The documents the server tracks, with their symbols and diagnostics, and
//! the queries answered from them.

use vstd::prelude::*;
use crate::diagnostics::{diagnostic_range, help_message, translate_report};
use crate::format::{format_document, formatted};
use crate::references::{doc_texts, find_references, loc_views, refs};
use crate::rename::{plan_edits, plans, replacement, WorkspaceEdit};
use crate::resolve::{definition_of, get_word_at_position, word_at};
use crate::symbols::{alias_decls, extract_symbols, layer_decls, symbol_views, DocumentSymbols};
use crate::text::{from_chars, lines_of, split_lines, to_chars, views};
use crate::types::{Diagnostic, Location, SourceRange, TextEdit};

verus! {

/// A tracked document: its full current text, the declarations found in it,
/// and the diagnostics last computed for it, as kept for retrieval on request
/// (`pulled`) and as last published (`pushed`).
pub struct Document {
    pub uri: String,
    pub text: String,
    pub symbols: DocumentSymbols,
    pub pulled: Vec<Diagnostic>,
    pub pushed: Vec<Diagnostic>,
}

/// What the validator made of a document.
pub enum Validation {
    /// The document is a valid configuration.
    Passed,
    /// The validator rejected it with this report.
    Failed(String),
    /// The document could not be handed to the validator; the error, as text.
    WriteFailed(String),
}

pub type DiagView = (SourceRange, Seq<char>);

pub open spec fn diag_view(d: Diagnostic) -> DiagView {
    (d.range, d.message@)
}

pub open spec fn diag_views(v: Seq<Diagnostic>) -> Seq<DiagView> {
    Seq::new(v.len(), |i: int| diag_view(v[i]))
}

pub open spec fn write_failure_prefix() -> Seq<char> {
    "Failed to write temp file: "@
}

/// The diagnostics of a document with text `text` after validation: none on
/// success; on a report, one diagnostic with the range and message it
/// translates to; where the document could not be handed over, one at the
/// very start saying so.
pub open spec fn diagnostics_for(outcome: Validation, text: Seq<char>) -> Seq<DiagView> {
    match outcome {
        Validation::Passed => Seq::empty(),
        Validation::Failed(report) => seq![(diagnostic_range(report@, text), help_message(report@))],
        Validation::WriteFailed(err) => seq![
            (SourceRange { start_line: 0, start_col: 0, end_line: 0, end_col: 0 }, write_failure_prefix() + err@),
        ],
    }
}

/// Whether the document's symbols are those of its text.
pub open spec fn indexed(d: Document) -> bool {
    &&& symbol_views(d.symbols.aliases@) == alias_decls(d.text@)
    &&& symbol_views(d.symbols.layers@) == layer_decls(d.text@)
}

/// The whole range of a text: from its start to the end of its last line.
pub open spec fn whole_range(text: Seq<char>) -> SourceRange {
    let lines = lines_of(text);
    SourceRange {
        start_line: 0,
        start_col: 0,
        end_line: (lines.len() - 1) as usize,
        end_col: lines.last().len() as usize,
    }
}

/// The documents the server has seen, each once.
pub struct Workspace {
    pub documents: Vec<Document>,
}

fn clone_diagnostics(v: &Vec<Diagnostic>) -> (r: Vec<Diagnostic>)
    ensures
        diag_views(r@) == diag_views(v@),
{
    let mut out: Vec<Diagnostic> = Vec::new();
    let mut i: usize = 0;
    while i < v.len()
        invariant
            i <= v@.len(),
            diag_views(out@) == diag_views(v@).take(i as int),
        decreases v@.len() - i,
    {
        let d = Diagnostic { range: v[i].range, message: v[i].message.clone() };
        let ghost before = diag_views(out@);
        out.push(d);
        assert(diag_views(out@) =~= before.push(diag_view(v@[i as int])));
        assert(diag_views(out@) =~= diag_views(v@).take(i + 1));
        i = i + 1;
    }
    assert(diag_views(v@).take(v@.len() as int) =~= diag_views(v@));
    out
}

fn diagnostics_of(outcome: &Validation, text: &str) -> (r: Vec<Diagnostic>)
    ensures
        diag_views(r@) == diagnostics_for(*outcome, text@),
{
    let mut out: Vec<Diagnostic> = Vec::new();
    match outcome {
        Validation::Passed => {},
        Validation::Failed(report) => {
            out.push(translate_report(report.as_str(), text));
        },
        Validation::WriteFailed(err) => {
            let mut m = to_chars("Failed to write temp file: ");
            let e = to_chars(err.as_str());
            let mut i: usize = 0;
            let ghost base = m@;
            while i < e.len()
                invariant
                    i <= e@.len(),
                    m@ == base + e@.take(i as int),
                decreases e@.len() - i,
            {
                m.push(e[i]);
                i = i + 1;
                assert(m@ =~= base + e@.take(i as int));
            }
            assert(e@.take(e@.len() as int) =~= e@);
            let message = from_chars(m.as_slice());
            out.push(Diagnostic { range: SourceRange { start_line: 0, start_col: 0, end_line: 0, end_col: 0 }, message });
        },
    }
    assert(diag_views(out@) =~= diagnostics_for(*outcome, text@));
    out
}

impl Workspace {
    /// Each document is tracked once, with the symbols of its current text.
    pub open spec fn wf(&self) -> bool {
        &&& forall|i: int, j: int|
            0 <= i < j < self.documents@.len() ==> (#[trigger] self.documents@[i]).uri@
                != (#[trigger] self.documents@[j]).uri@
        &&& forall|i: int| 0 <= i < self.documents@.len() ==> indexed(#[trigger] self.documents@[i])
    }

    /// Whether a document with identifier `uri` is tracked.
    pub open spec fn tracks(&self, uri: Seq<char>) -> bool {
        exists|i: int| 0 <= i < self.documents@.len() && (#[trigger] self.documents@[i]).uri@ == uri
    }

    pub fn new() -> (r: Workspace)
        ensures
            r.wf(),
            r.documents@.len() == 0,
    {
        Workspace { documents: Vec::new() }
    }

    /// The index of the document with identifier `uri`.
    pub fn find(&self, uri: &str) -> (r: Option<usize>)
        ensures
            match r {
                Some(i) => i < self.documents@.len() && self.documents@[i as int].uri@ == uri@,
                None => !self.tracks(uri@),
            },
    {
        let key = from_chars(to_chars(uri).as_slice());
        let mut i: usize = 0;
        while i < self.documents.len()
            invariant
                i <= self.documents@.len(),
                key@ == uri@,
                forall|j: int| 0 <= j < i ==> (#[trigger] self.documents@[j]).uri@ != uri@,
            decreases self.documents@.len() - i,
        {
            if self.documents[i].uri == key {
                return Some(i);
            }
            i = i + 1;
        }
        None
    }

    /// Records the full new text of the document `uri` and rebuilds its
    /// symbols; a document seen for the first time is added, with no
    /// diagnostics yet. Every other document is left as it was.
    pub fn update_document(&mut self, uri: &str, text: &str)
        requires
            old(self).wf(),
        ensures
            final(self).wf(),
            final(self).tracks(uri@),
            final(self).documents@.len() == old(self).documents@.len() + (if old(self).tracks(uri@) { 0int } else { 1int }),
            forall|i: int|
                0 <= i < old(self).documents@.len() && old(self).documents@[i].uri@ != uri@
                    ==> #[trigger] final(self).documents@[i] == old(self).documents@[i],
            forall|i: int|
                0 <= i < final(self).documents@.len() && (#[trigger] final(self).documents@[i]).uri@ == uri@
                    ==> final(self).documents@[i].text@ == text@ && (i < old(self).documents@.len()
                    ==> diag_views(final(self).documents@[i].pulled@) == diag_views(old(self).documents@[i].pulled@)
                    && diag_views(final(self).documents@[i].pushed@) == diag_views(old(self).documents@[i].pushed@))
                    && (i >= old(self).documents@.len() ==> final(self).documents@[i].pulled@.len() == 0
                    && final(self).documents@[i].pushed@.len() == 0),
    {
        let symbols = extract_symbols(text);
        let t = from_chars(to_chars(text).as_slice());
        match self.find(uri) {
            Some(i) => {
                self.documents[i].text = t;
                self.documents[i].symbols = symbols;
                assert(self.documents@[i as int].uri@ == uri@);
            },
            None => {
                let u = from_chars(to_chars(uri).as_slice());
                let doc = Document { uri: u, text: t, symbols, pulled: Vec::new(), pushed: Vec::new() };
                self.documents.push(doc);
                assert(self.documents@[old(self).documents@.len() as int].uri@ == uri@);
            },
        }
    }

    /// Stores the diagnostics that `outcome` gives for the document `uri` in
    /// both its caches and returns them for publication; nothing where the
    /// document is not tracked.
    pub fn record_validation(&mut self, uri: &str, outcome: &Validation) -> (r: Option<Vec<Diagnostic>>)
        requires
            old(self).wf(),
        ensures
            final(self).wf(),
            final(self).documents@.len() == old(self).documents@.len(),
            r is None <==> !old(self).tracks(uri@),
            forall|i: int|
                0 <= i < old(self).documents@.len() ==> #[trigger] final(self).documents@[i].uri
                    == old(self).documents@[i].uri,
            final(self).tracks(uri@) == old(self).tracks(uri@),
            final(self).find_spec(uri@) == old(self).find_spec(uri@),
            r is Some ==> diag_views(r->0@) == diagnostics_for(
                *outcome,
                old(self).documents@[old(self).find_spec(uri@)->0].text@,
            ),
            forall|i: int|
                0 <= i < old(self).documents@.len() && old(self).documents@[i].uri@ != uri@
                    ==> #[trigger] final(self).documents@[i] == old(self).documents@[i],
            forall|i: int|
                0 <= i < final(self).documents@.len() && (#[trigger] final(self).documents@[i]).uri@ == uri@
                    ==> {
                    let d = final(self).documents@[i];
                    let set = diagnostics_for(*outcome, old(self).documents@[i].text@);
                    &&& d.text == old(self).documents@[i].text
                    &&& d.symbols == old(self).documents@[i].symbols
                    &&& diag_views(d.pulled@) == set
                    &&& diag_views(d.pushed@) == set
                    &&& r is Some && diag_views(r->0@) == set
                    &&& (*outcome is Passed ==> d.pulled@.len() == 0 && d.pushed@.len() == 0 && r->0@.len() == 0)
                },
    {
        match self.find(uri) {
            None => None,
            Some(i) => {
                let diags = diagnostics_of(outcome, self.documents[i].text.as_str());
                let pulled = clone_diagnostics(&diags);
                let pushed = clone_diagnostics(&diags);
                self.documents[i].pulled = pulled;
                self.documents[i].pushed = pushed;
                proof {
                    assert forall|j: int|
                        0 <= j < self.documents@.len() && (#[trigger] self.documents@[j]).uri@ == uri@
                            implies j == i by {
                        if j != i {
                            if j < i {
                                assert(old(self).documents@[j].uri@ != old(self).documents@[i as int].uri@);
                            } else {
                                assert(old(self).documents@[i as int].uri@ != old(self).documents@[j].uri@);
                            }
                        }
                    }
                    assert(self.documents@[i as int].text == old(self).documents@[i as int].text);
                    old(self).lemma_find_spec(uri@, i as int);
                    self.lemma_find_spec(uri@, i as int);
                    let d = self.documents@[i as int];
                    let set = diagnostics_for(*outcome, old(self).documents@[i as int].text@);
                    assert(diag_views(d.pulled@) == set);
                    assert(diag_views(d.pushed@) == set);
                    assert(diag_views(diags@) == set);
                    assert(diag_views(d.pulled@).len() == d.pulled@.len());
                    assert(diag_views(d.pushed@).len() == d.pushed@.len());
                    assert(diag_views(diags@).len() == diags@.len());
                }
                Some(diags)
            },
        }
    }

    /// The diagnostics kept for retrieval on request for document `uri`;
    /// none for a document not tracked.
    pub fn pulled_diagnostics(&self, uri: &str) -> (r: Vec<Diagnostic>)
        requires
            self.wf(),
        ensures
            match self.find_spec(uri@) {
                Some(i) => diag_views(r@) == diag_views(self.documents@[i].pulled@),
                None => r@.len() == 0,
            },
    {
        match self.find(uri) {
            Some(i) => {
                proof {
                    self.lemma_find_spec(uri@, i as int);
                }
                clone_diagnostics(&self.documents[i].pulled)
            },
            None => Vec::new(),
        }
    }

    /// The index of the document with identifier `uri`, if it is tracked.
    pub open spec fn find_spec(&self, uri: Seq<char>) -> Option<int> {
        if self.tracks(uri) {
            Some(choose|i: int| 0 <= i < self.documents@.len() && (#[trigger] self.documents@[i]).uri@ == uri)
        } else {
            None
        }
    }

    proof fn lemma_find_spec(&self, uri: Seq<char>, i: int)
        requires
            self.wf(),
            0 <= i < self.documents@.len(),
            self.documents@[i].uri@ == uri,
        ensures
            self.find_spec(uri) == Some(i),
    {
        assert(self.tracks(uri));
        let j = choose|j: int| 0 <= j < self.documents@.len() && (#[trigger] self.documents@[j]).uri@ == uri;
        if j < i {
            assert(self.documents@[j].uri@ != self.documents@[i].uri@);
        } else if j > i {
            assert(self.documents@[i].uri@ != self.documents@[j].uri@);
        }
    }

    /// Where the identifier under (`line`, `character`) of document `uri` is
    /// declared in that same document.
    pub fn definition(&self, uri: &str, line: usize, character: usize) -> (r: Option<Location>)
        requires
            self.wf(),
        ensures
            match self.find_spec(uri@) {
                None => r is None,
                Some(i) => {
                    let d = self.documents@[i];
                    match definition_of(d.symbols, word_at(d.text@, line as int, character as int)) {
                        None => r is None,
                        Some(range) => r is Some && r->0.uri@ == d.uri@ && r->0.range == range,
                    }
                },
            },
    {
        match self.find(uri) {
            None => None,
            Some(i) => {
                proof {
                    self.lemma_find_spec(uri@, i as int);
                }
                let d = &self.documents[i];
                let word = get_word_at_position(d.text.as_str(), line, character);
                match d.symbols.definition(word.as_str()) {
                    None => None,
                    Some(range) => Some(Location { uri: d.uri.clone(), range }),
                }
            },
        }
    }

    /// Every occurrence, in every tracked document, of the identifier under
    /// (`line`, `character`) of document `uri`; nothing where there is no
    /// identifier there or it occurs nowhere.
    pub fn references(&self, uri: &str, line: usize, character: usize) -> (r: Option<Vec<Location>>)
        requires
            self.wf(),
        ensures
            match self.find_spec(uri@) {
                None => r is None,
                Some(i) => {
                    let word = word_at(self.documents@[i].text@, line as int, character as int);
                    let found = refs(doc_texts(self.documents@), word, self.documents@.len() as int);
                    if word.len() == 0 || found.len() == 0 {
                        r is None
                    } else {
                        r is Some && loc_views(r->0@) == found
                    }
                },
            },
    {
        match self.find(uri) {
            None => None,
            Some(i) => {
                proof {
                    self.lemma_find_spec(uri@, i as int);
                }
                let word = get_word_at_position(self.documents[i].text.as_str(), line, character);
                if to_chars(word.as_str()).len() == 0 {
                    return None;
                }
                let found = find_references(&self.documents, word.as_str());
                if found.len() == 0 {
                    None
                } else {
                    Some(found)
                }
            },
        }
    }

    /// The edits that rename every occurrence of the identifier under
    /// (`line`, `character`) of document `uri` to `new_name`, keeping the
    /// alias sigil; nothing where there is no identifier there or it occurs
    /// nowhere.
    pub fn rename(&self, uri: &str, line: usize, character: usize, new_name: &str) -> (r: Option<WorkspaceEdit>)
        requires
            self.wf(),
        ensures
            match self.find_spec(uri@) {
                None => r is None,
                Some(i) => {
                    let word = word_at(self.documents@[i].text@, line as int, character as int);
                    let found = refs(doc_texts(self.documents@), word, self.documents@.len() as int);
                    if word.len() == 0 || found.len() == 0 {
                        r is None
                    } else {
                        r is Some && plans(r->0, found, replacement(word, new_name@))
                    }
                },
            },
    {
        match self.find(uri) {
            None => None,
            Some(i) => {
                proof {
                    self.lemma_find_spec(uri@, i as int);
                }
                let word = get_word_at_position(self.documents[i].text.as_str(), line, character);
                let w = to_chars(word.as_str());
                if w.len() == 0 {
                    return None;
                }
                let found = find_references(&self.documents, word.as_str());
                if found.len() == 0 {
                    return None;
                }
                let n = to_chars(new_name);
                let mut t: Vec<char> = Vec::new();
                if w[0] == '@' {
                    t.push('@');
                }
                let mut k: usize = 0;
                let ghost base = t@;
                while k < n.len()
                    invariant
                        k <= n@.len(),
                        t@ == base + n@.take(k as int),
                    decreases n@.len() - k,
                {
                    t.push(n[k]);
                    k = k + 1;
                    assert(t@ =~= base + n@.take(k as int));
                }
                assert(n@.take(n@.len() as int) =~= n@);
                assert(t@ =~= replacement(word@, new_name@));
                let text = from_chars(t.as_slice());
                Some(plan_edits(&found, &text))
            },
        }
    }

    /// One edit that replaces the whole of document `uri` by its formatted
    /// text; nothing where formatting changes nothing or the document is
    /// not tracked.
    pub fn formatting(&self, uri: &str) -> (r: Option<TextEdit>)
        requires
            self.wf(),
        ensures
            match self.find_spec(uri@) {
                None => r is None,
                Some(i) => {
                    let text = self.documents@[i].text@;
                    if formatted(text) == text {
                        r is None
                    } else {
                        r is Some && r->0.range == whole_range(text) && r->0.new_text@ == formatted(text)
                    }
                },
            },
    {
        match self.find(uri) {
            None => None,
            Some(i) => {
                proof {
                    self.lemma_find_spec(uri@, i as int);
                }
                let text = self.documents[i].text.as_str();
                let out = format_document(text);
                let a = to_chars(out.as_str());
                let b = to_chars(text);
                if a.len() == b.len() {
                    let mut k: usize = 0;
                    while k < a.len() && a[k] == b[k]
                        invariant
                            k <= a@.len(),
                            a@.len() == b@.len(),
                            forall|j: int| 0 <= j < k ==> a@[j] == b@[j],
                        decreases a@.len() - k,
                    {
                        k = k + 1;
                    }
                    if k == a.len() {
                        assert(a@ =~= b@);
                        return None;
                    }
                }
                let lines = split_lines(b.as_slice());
                proof {
                    crate::text::lemma_lines_of_nonempty(b@);
                    assert(views(lines@)[lines@.len() - 1] == lines@[lines@.len() - 1]@);
                }
                let last = lines.len() - 1;
                let range = SourceRange { start_line: 0, start_col: 0, end_line: last, end_col: lines[last].len() };
                Some(TextEdit { range, new_text: out })
            },
        }
    }
}

} // verus!
