//! Turning a set of references into per-document text substitutions.

use vstd::prelude::*;
use crate::references::{loc_view, loc_views, LocView};
use crate::types::{Location, SourceRange, TextEdit};

verus! {

/// The edits for one document.
#[derive(Clone, Debug)]
pub struct DocumentEdits {
    pub uri: String,
    pub edits: Vec<TextEdit>,
}

/// Edits grouped by document, the documents in the order they first occur.
#[derive(Clone, Debug)]
pub struct WorkspaceEdit {
    pub changes: Vec<DocumentEdits>,
}

pub open spec fn edit_view(e: TextEdit) -> (SourceRange, Seq<char>) {
    (e.range, e.new_text@)
}

pub open spec fn edit_views(v: Seq<TextEdit>) -> Seq<(SourceRange, Seq<char>)> {
    Seq::new(v.len(), |i: int| edit_view(v[i]))
}

/// The text that replaces an occurrence of `word` when it is renamed to
/// `new_name`: an alias keeps its sigil.
pub open spec fn replacement(word: Seq<char>, new_name: Seq<char>) -> Seq<char> {
    if word.len() > 0 && word[0] == '@' {
        seq!['@'] + new_name
    } else {
        new_name
    }
}

/// The documents of the first `n` locations, each once, in order of first
/// occurrence.
pub open spec fn uris_of(locs: Seq<LocView>, n: int) -> Seq<Seq<char>>
    decreases n,
{
    if n <= 0 {
        Seq::empty()
    } else {
        let prev = uris_of(locs, n - 1);
        if prev.contains(locs[n - 1].0) {
            prev
        } else {
            prev.push(locs[n - 1].0)
        }
    }
}

/// The substitutions of `text` for those of the first `n` locations that lie
/// in document `uri`, in order.
pub open spec fn edits_in(locs: Seq<LocView>, uri: Seq<char>, text: Seq<char>, n: int) -> Seq<(SourceRange, Seq<char>)>
    decreases n,
{
    if n <= 0 {
        Seq::empty()
    } else {
        let prev = edits_in(locs, uri, text, n - 1);
        if locs[n - 1].0 == uri {
            prev.push((locs[n - 1].1, text))
        } else {
            prev
        }
    }
}

/// Whether `w` replaces each of `locs` by `text`, grouped by document.
pub open spec fn plans(w: WorkspaceEdit, locs: Seq<LocView>, text: Seq<char>) -> bool {
    let uris = uris_of(locs, locs.len() as int);
    &&& w.changes@.len() == uris.len()
    &&& forall|k: int|
        0 <= k < uris.len() ==> (#[trigger] w.changes@[k]).uri@ == uris[k]
            && edit_views(w.changes@[k].edits@) == edits_in(locs, uris[k], text, locs.len() as int)
}

fn contains_uri(v: &Vec<String>, u: &String) -> (r: bool)
    ensures
        r == Seq::new(v@.len(), |i: int| v@[i]@).contains(u@),
{
    let ghost s = Seq::new(v@.len(), |i: int| v@[i]@);
    let mut i: usize = 0;
    while i < v.len()
        invariant
            i <= v@.len(),
            s == Seq::new(v@.len(), |i: int| v@[i]@),
            forall|j: int| 0 <= j < i ==> s[j] != u@,
        decreases v@.len() - i,
    {
        if v[i] == *u {
            assert(s[i as int] == u@);
            return true;
        }
        i = i + 1;
    }
    false
}

/// One substitution of `text` for each location, grouped by document.
pub fn plan_edits(locs: &Vec<Location>, text: &String) -> (r: WorkspaceEdit)
    ensures
        plans(r, loc_views(locs@), text@),
{
    let ghost ls = loc_views(locs@);
    let mut uris: Vec<String> = Vec::new();
    let mut i: usize = 0;
    while i < locs.len()
        invariant
            i <= locs@.len(),
            ls == loc_views(locs@),
            Seq::new(uris@.len(), |j: int| uris@[j]@) == uris_of(ls, i as int),
        decreases locs@.len() - i,
    {
        let ghost before = Seq::new(uris@.len(), |j: int| uris@[j]@);
        assert(ls[i as int] == loc_view(locs@[i as int]));
        if !contains_uri(&uris, &locs[i].uri) {
            uris.push(locs[i].uri.clone());
            assert(Seq::new(uris@.len(), |j: int| uris@[j]@) =~= before.push(locs@[i as int].uri@));
        }
        i = i + 1;
    }
    let ghost us = uris_of(ls, ls.len() as int);
    let mut changes: Vec<DocumentEdits> = Vec::new();
    let mut k: usize = 0;
    while k < uris.len()
        invariant
            k <= uris@.len(),
            ls == loc_views(locs@),
            us == uris_of(ls, ls.len() as int),
            Seq::new(uris@.len(), |j: int| uris@[j]@) == us,
            changes@.len() == k,
            forall|m: int|
                0 <= m < k ==> (#[trigger] changes@[m]).uri@ == us[m] && edit_views(changes@[m].edits@)
                    == edits_in(ls, us[m], text@, ls.len() as int),
        decreases uris@.len() - k,
    {
        let u = &uris[k];
        assert(us[k as int] == u@);
        let mut edits: Vec<TextEdit> = Vec::new();
        let mut j: usize = 0;
        while j < locs.len()
            invariant
                j <= locs@.len(),
                ls == loc_views(locs@),
                edit_views(edits@) == edits_in(ls, u@, text@, j as int),
            decreases locs@.len() - j,
        {
            assert(ls[j as int] == loc_view(locs@[j as int]));
            if locs[j].uri == *u {
                let ghost before = edit_views(edits@);
                let e = TextEdit { range: locs[j].range, new_text: text.clone() };
                edits.push(e);
                assert(edit_views(edits@) =~= before.push((locs@[j as int].range, text@)));
            }
            j = j + 1;
        }
        changes.push(DocumentEdits { uri: u.clone(), edits });
        k = k + 1;
    }
    WorkspaceEdit { changes }
}

} // verus!
