//! Occurrences of an identifier across every tracked document.

use vstd::prelude::*;
use crate::text::{alphanumeric, is_alphanumeric, lines_of, matches_at, occurs_at, split_lines, to_chars, views};
use crate::types::{Location, SourceRange};
use crate::workspace::Document;

verus! {

/// A location as plain values: the document's identifier and the range.
pub type LocView = (Seq<char>, SourceRange);

pub open spec fn loc_view(l: Location) -> LocView {
    (l.uri@, l.range)
}

pub open spec fn loc_views(v: Seq<Location>) -> Seq<LocView> {
    Seq::new(v.len(), |i: int| loc_view(v[i]))
}

/// Whether `word` occurs in `line` at `p` as a reference. An alias reference
/// (`word` opens with `@`) is any occurrence of the text; a layer name must
/// not have an alphanumeric character on either side.
pub open spec fn is_hit(line: Seq<char>, word: Seq<char>, p: int) -> bool {
    &&& occurs_at(line, word, p)
    &&& (word.len() > 0 && word[0] == '@') || (
        (p == 0 || !alphanumeric(line[p - 1]))
        && (p + word.len() == line.len() || !alphanumeric(line[p + word.len()])))
}

/// The references to `word` that start before column `n` of line `l`, left to
/// right.
pub open spec fn line_refs(uri: Seq<char>, l: int, line: Seq<char>, word: Seq<char>, n: int) -> Seq<LocView>
    decreases n,
{
    if n <= 0 {
        Seq::empty()
    } else {
        let prev = line_refs(uri, l, line, word, n - 1);
        if is_hit(line, word, n - 1) {
            prev.push((uri, SourceRange::on_line(l, n - 1, word.len() as int)))
        } else {
            prev
        }
    }
}

/// The references to `word` on the first `n` lines, line by line.
pub open spec fn doc_refs(uri: Seq<char>, lines: Seq<Seq<char>>, word: Seq<char>, n: int) -> Seq<LocView>
    decreases n,
{
    if n <= 0 {
        Seq::empty()
    } else {
        doc_refs(uri, lines, word, n - 1) + line_refs(uri, n - 1, lines[n - 1], word, lines[n - 1].len() as int)
    }
}

/// The documents as plain values: identifier and text.
pub open spec fn doc_texts(docs: Seq<Document>) -> Seq<(Seq<char>, Seq<char>)> {
    Seq::new(docs.len(), |i: int| (docs[i].uri@, docs[i].text@))
}

/// The references to `word` in the first `n` documents, document by document.
pub open spec fn refs(docs: Seq<(Seq<char>, Seq<char>)>, word: Seq<char>, n: int) -> Seq<LocView>
    decreases n,
{
    if n <= 0 {
        Seq::empty()
    } else {
        let lines = lines_of(docs[n - 1].1);
        refs(docs, word, n - 1) + doc_refs(docs[n - 1].0, lines, word, lines.len() as int)
    }
}

fn hit_at(line: &[char], word: &[char], p: usize) -> (r: bool)
    requires
        p < line@.len(),
    ensures
        r == is_hit(line@, word@, p as int),
{
    if !matches_at(line, word, p) {
        return false;
    }
    if word.len() > 0 && word[0] == '@' {
        return true;
    }
    let before_ok = p == 0 || !is_alphanumeric(line[p - 1]);
    let after = p + word.len();
    let after_ok = after == line.len() || !is_alphanumeric(line[after]);
    before_ok && after_ok
}

fn push_line_refs(out: &mut Vec<Location>, uri: &String, l: usize, line: &[char], word: &[char])
    ensures
        loc_views(final(out)@) == loc_views(old(out)@) + line_refs(uri@, l as int, line@, word@, line@.len() as int),
{
    let ghost base = loc_views(out@);
    let mut p: usize = 0;
    assert(base + line_refs(uri@, l as int, line@, word@, 0) =~= base);
    while p < line.len()
        invariant
            p <= line@.len(),
            loc_views(out@) == base + line_refs(uri@, l as int, line@, word@, p as int),
        decreases line@.len() - p,
    {
        if hit_at(line, word, p) {
            let ghost before = loc_views(out@);
            let loc = Location {
                uri: uri.clone(),
                range: SourceRange { start_line: l, start_col: p, end_line: l, end_col: p + word.len() },
            };
            let ghost v = loc_view(loc);
            out.push(loc);
            assert(loc_views(out@) =~= before.push(v));
        }
        p = p + 1;
    }
}

/// Every reference to `word` in `docs`, document by document, then line by
/// line, then left to right.
pub fn find_references(docs: &Vec<Document>, word: &str) -> (r: Vec<Location>)
    ensures
        loc_views(r@) == refs(doc_texts(docs@), word@, docs@.len() as int),
{
    let w = to_chars(word);
    let mut out: Vec<Location> = Vec::new();
    let mut d: usize = 0;
    while d < docs.len()
        invariant
            d <= docs@.len(),
            w@ == word@,
            loc_views(out@) == refs(doc_texts(docs@), word@, d as int),
        decreases docs@.len() - d,
    {
        let doc = &docs[d];
        let chars = to_chars(doc.text.as_str());
        let lines = split_lines(chars.as_slice());
        let ghost base = loc_views(out@);
        let ghost ls = views(lines@);
        let mut l: usize = 0;
        assert(base + doc_refs(doc.uri@, ls, word@, 0) =~= base);
        while l < lines.len()
            invariant
                l <= lines@.len(),
                w@ == word@,
                ls == views(lines@),
                loc_views(out@) == base + doc_refs(doc.uri@, ls, word@, l as int),
            decreases lines@.len() - l,
        {
            assert(ls[l as int] == lines@[l as int]@);
            push_line_refs(&mut out, &doc.uri, l, lines[l].as_slice(), w.as_slice());
            assert(loc_views(out@) =~= base + doc_refs(doc.uri@, ls, word@, l + 1));
            l = l + 1;
        }
        assert(doc_texts(docs@)[d as int] == (doc.uri@, doc.text@));
        d = d + 1;
    }
    out
}

} // verus!
