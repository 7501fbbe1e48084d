//! The identifier under a cursor, and the declaration it names.

use vstd::prelude::*;
use crate::symbols::{
    alias_decls, alias_keyword, decl_map, decl_name, declared_on, decls, is_delim, symbol_view, symbol_views,
    token_len, Decl, DocumentSymbols, Symbol,
};
use crate::text::{
    alphanumeric, from_chars, is_alphanumeric, is_ascii_alnum, leading_ws, lines_of, occurs_at,
    slice_chars, split_lines, to_chars, trim_start, views,
};
use crate::types::SourceRange;

verus! {

/// A character of an identifier: alphanumeric, `_` or `-`.
pub open spec fn ident_char(c: char) -> bool {
    alphanumeric(c) || c == '_' || c == '-'
}

/// A character of an identifier, or the alias sigil `@`.
pub open spec fn word_char(c: char) -> bool {
    ident_char(c) || c == '@'
}

/// The first index of the run of word characters (sigil included) that ends
/// just before `p`.
pub open spec fn word_start(line: Seq<char>, p: int) -> int
    decreases p,
{
    if 0 < p <= line.len() && word_char(line[p - 1]) {
        word_start(line, p - 1)
    } else {
        p
    }
}

/// The index just past the run of identifier characters (sigil excluded)
/// that starts at `p`.
pub open spec fn word_end(line: Seq<char>, p: int) -> int
    decreases line.len() - p,
{
    if 0 <= p < line.len() && ident_char(line[p]) {
        word_end(line, p + 1)
    } else {
        p
    }
}

/// The identifier under column `col` of line `line` of `text`: empty when the
/// position lies outside the text or on a character that is neither an
/// identifier character nor the sigil. From the cursor it reaches left over
/// identifier characters and sigils, and right over identifier characters.
pub open spec fn word_at(text: Seq<char>, line: int, col: int) -> Seq<char> {
    let lines = lines_of(text);
    if line < 0 || line >= lines.len() || col < 0 || col >= lines[line].len() || !word_char(
        lines[line][col],
    ) {
        Seq::empty()
    } else {
        lines[line].subrange(word_start(lines[line], col), word_end(lines[line], col + 1))
    }
}

fn is_ident_char(c: char) -> (r: bool)
    ensures
        r == ident_char(c),
{
    is_alphanumeric(c) || c == '_' || c == '-'
}

/// The identifier under column `col` of line `l` of the split text.
fn word_in_lines(lines: &Vec<Vec<char>>, l: usize, col: usize) -> (r: Vec<char>)
    ensures
        r@ == (if l >= lines@.len() || col >= lines@[l as int]@.len() || !word_char(lines@[l as int]@[col as int]) {
            Seq::empty()
        } else {
            lines@[l as int]@.subrange(
                word_start(lines@[l as int]@, col as int),
                word_end(lines@[l as int]@, col + 1),
            )
        }),
{
    if l >= lines.len() {
        return Vec::new();
    }
    let line = &lines[l];
    if col >= line.len() {
        return Vec::new();
    }
    let c = line[col];
    if !(is_ident_char(c) || c == '@') {
        return Vec::new();
    }
    let mut start: usize = col;
    while start > 0 && (is_ident_char(line[start - 1]) || line[start - 1] == '@')
        invariant
            start <= col < line@.len(),
            word_start(line@, col as int) == word_start(line@, start as int),
        decreases start,
    {
        start = start - 1;
    }
    let mut end: usize = col + 1;
    while end < line.len() && is_ident_char(line[end])
        invariant
            col < end <= line@.len(),
            word_end(line@, col + 1) == word_end(line@, end as int),
        decreases line@.len() - end,
    {
        end = end + 1;
    }
    slice_chars(line.as_slice(), start, end)
}

/// The identifier under column `character` of line `line` of `text`.
pub fn get_word_at_position(text: &str, line: usize, character: usize) -> (r: String)
    ensures
        r@ == word_at(text@, line as int, character as int),
{
    let chars = to_chars(text);
    let lines = split_lines(chars.as_slice());
    proof {
        let ls = views(lines@);
        if (line as int) < lines@.len() {
            assert(ls[line as int] == lines@[line as int]@);
        }
    }
    let w = word_in_lines(&lines, line, character);
    from_chars(w.as_slice())
}

/// The range a name maps to, if it is declared.
pub open spec fn lookup(m: Map<Seq<char>, SourceRange>, name: Seq<char>) -> Option<SourceRange> {
    if m.contains_key(name) {
        Some(m[name])
    } else {
        None
    }
}

/// Where the identifier `word` is declared in a document with these
/// symbols: an alias (sigil stripped) if it opens with `@`, else a layer.
pub open spec fn definition_of(syms: DocumentSymbols, word: Seq<char>) -> Option<SourceRange> {
    if word.len() == 0 {
        None
    } else if word[0] == '@' {
        lookup(syms.alias_map(), word.drop_first())
    } else {
        lookup(syms.layer_map(), word)
    }
}

proof fn lemma_decl_map_tail(ds: Seq<Decl>, i: int, key: Seq<char>)
    requires
        0 <= i <= ds.len(),
        forall|j: int| i <= j < ds.len() ==> (#[trigger] ds[j]).0 != key,
    ensures
        lookup(decl_map(ds), key) == lookup(decl_map(ds.take(i)), key),
    decreases ds.len() - i,
{
    if i < ds.len() {
        lemma_decl_map_tail(ds.drop_last(), i, key);
        assert(ds.drop_last().take(i) =~= ds.take(i));
        assert(ds.last() == ds[ds.len() - 1]);
    } else {
        assert(ds.take(i) =~= ds);
    }
}

/// The range of the last of `syms` named `name`.
fn find_last(syms: &Vec<Symbol>, name: &String) -> (r: Option<SourceRange>)
    ensures
        r == lookup(decl_map(symbol_views(syms@)), name@),
{
    let ghost ds = symbol_views(syms@);
    let mut i: usize = syms.len();
    while i > 0
        invariant
            i <= syms@.len(),
            ds == symbol_views(syms@),
            forall|j: int| i <= j < ds.len() ==> (#[trigger] ds[j]).0 != name@,
        decreases i,
    {
        let s = &syms[i - 1];
        assert(ds[i - 1] == symbol_view(syms@[i - 1]));
        if s.name == *name {
            proof {
                lemma_decl_map_tail(ds, i as int, name@);
                let pre = ds.take(i as int);
                assert(pre.drop_last() =~= ds.take(i - 1));
                assert(pre.last() == ds[i - 1]);
            }
            return Some(s.range);
        }
        i = i - 1;
    }
    proof {
        lemma_decl_map_tail(ds, 0, name@);
        assert(ds.take(0) =~= Seq::<Decl>::empty());
    }
    None
}

impl DocumentSymbols {
    /// Where the identifier `word` is declared in this document.
    pub fn definition(&self, word: &str) -> (r: Option<SourceRange>)
        ensures
            r == definition_of(*self, word@),
    {
        let w = to_chars(word);
        if w.len() == 0 {
            return None;
        }
        if w[0] == '@' {
            let rest = slice_chars(w.as_slice(), 1, w.len());
            assert(rest@ =~= word@.drop_first());
            let key = from_chars(rest.as_slice());
            find_last(&self.aliases, &key)
        } else {
            let key = from_chars(w.as_slice());
            find_last(&self.layers, &key)
        }
    }
}

/// An ASCII identifier character: a letter, a digit, `_` or `-`.
pub open spec fn ascii_ident(c: char) -> bool {
    is_ascii_alnum(c) || c == '_' || c == '-'
}

proof fn lemma_word_start_run(line: Seq<char>, c: int, p: int)
    requires
        0 <= c <= p <= line.len(),
        forall|k: int| c <= k < p ==> word_char(#[trigger] line[k]),
        c == 0 || !word_char(line[c - 1]),
    ensures
        word_start(line, p) == c,
    decreases p - c,
{
    if p > c {
        lemma_word_start_run(line, c, p - 1);
    }
}

proof fn lemma_word_end_run(line: Seq<char>, q: int, e: int)
    requires
        0 <= q <= e <= line.len(),
        forall|k: int| q <= k < e ==> ident_char(#[trigger] line[k]),
        e == line.len() || !ident_char(line[e]),
    ensures
        word_end(line, q) == e,
    decreases e - q,
{
    if q < e {
        lemma_word_end_run(line, q + 1, e);
    }
}

proof fn lemma_token_len_exact(s: Seq<char>, n: int)
    requires
        0 <= n <= s.len(),
        forall|k: int| 0 <= k < n ==> !is_delim(#[trigger] s[k]),
        n == s.len() || is_delim(s[n]),
    ensures
        token_len(s) == n,
    decreases n,
{
    if n > 0 {
        let t = s.drop_first();
        assert forall|k: int| 0 <= k < n - 1 implies !is_delim(#[trigger] t[k]) by {
            assert(t[k] == s[k + 1]);
        }
        if n < s.len() {
            assert(t[n - 1] == s[n]);
        }
        lemma_token_len_exact(t, n - 1);
    }
}

proof fn lemma_decls_origin(lines: Seq<Seq<char>>, kw: Seq<char>, n: int)
    ensures
        forall|m: int|
            0 <= m < decls(lines, kw, n).len() ==> exists|k: int|
                0 <= k < n && declared_on(lines, k, kw) == Some(#[trigger] decls(lines, kw, n)[m]),
    decreases n,
{
    if n > 0 {
        lemma_decls_origin(lines, kw, n - 1);
        let prev = decls(lines, kw, n - 1);
        let cur = decls(lines, kw, n);
        assert forall|m: int| 0 <= m < cur.len() implies exists|k: int|
            0 <= k < n && declared_on(lines, k, kw) == Some(#[trigger] cur[m]) by {
            if m < prev.len() {
                assert(cur[m] == prev[m]);
                let k = choose|k: int| 0 <= k < n - 1 && declared_on(lines, k, kw) == Some(prev[m]);
                assert(declared_on(lines, k, kw) == Some(cur[m]));
            } else {
                assert(declared_on(lines, n - 1, kw) == Some(cur[m]));
            }
        }
    }
}

proof fn lemma_decl_map_uniform(ds: Seq<Decl>, d: Decl)
    requires
        ds.contains(d),
        forall|m: int| 0 <= m < ds.len() && (#[trigger] ds[m]).0 == d.0 ==> ds[m] == d,
    ensures
        lookup(decl_map(ds), d.0) == Some(d.1),
    decreases ds.len(),
{
    let last = ds.last();
    assert(last == ds[ds.len() - 1]);
    if last.0 != d.0 {
        let k = choose|k: int| 0 <= k < ds.len() && ds[k] == d;
        let pre = ds.drop_last();
        assert(pre[k] == d);
        assert forall|m: int| 0 <= m < pre.len() && (#[trigger] pre[m]).0 == d.0 implies pre[m] == d by {
            assert(pre[m] == ds[m]);
        }
        lemma_decl_map_uniform(pre, d);
    }
}

/// In a document that declares alias `name` once, on the line of its opening
/// form, the definition found from any position of a reference `@name`, its
/// sigil included, is the range of that declaration's name.
pub proof fn law_alias_definition(
    text: Seq<char>,
    syms: DocumentSymbols,
    name: Seq<char>,
    i: int,
    r: int,
    c: int,
    p: int,
)
    requires
        symbol_views(syms.aliases@) == alias_decls(text),
        name.len() > 0,
        forall|k: int| 0 <= k < name.len() ==> ascii_ident(#[trigger] name[k]),
        0 <= i < lines_of(text).len(),
        occurs_at(trim_start(lines_of(text)[i]), alias_keyword(), 0),
        ({
            let after = trim_start(lines_of(text)[i]).skip(9);
            let rest = after.skip(leading_ws(after) as int);
            occurs_at(rest, name, 0) && (rest.len() == name.len() || is_delim(rest[name.len() as int]))
        }),
        forall|k: int|
            0 <= k < lines_of(text).len() && k != i && #[trigger] declared_on(lines_of(text), k, alias_keyword()) is Some
                ==> decl_name(declared_on(lines_of(text), k, alias_keyword())->0) != name,
        0 <= r < lines_of(text).len(),
        occurs_at(lines_of(text)[r], seq!['@'] + name, c),
        c == 0 || !word_char(lines_of(text)[r][c - 1]),
        c + 1 + name.len() == lines_of(text)[r].len() || !ident_char(lines_of(text)[r][c + 1 + name.len()]),
        c <= p <= c + name.len(),
    ensures
        definition_of(syms, word_at(text, r, p)) == Some(
            SourceRange::on_line(
                i,
                (leading_ws(lines_of(text)[i]) + 9 + leading_ws(trim_start(lines_of(text)[i]).skip(9))) as int,
                name.len() as int,
            ),
        ),
{
    let lines = lines_of(text);
    let kw = alias_keyword();
    // The identifier under the cursor is the whole reference.
    let line = lines[r];
    let refn = seq!['@'] + name;
    assert(line.subrange(c, c + refn.len()) == refn);
    assert forall|k: int| c <= k < c + 1 + name.len() implies word_char(#[trigger] line[k]) by {
        assert(line[k] == line.subrange(c, c + refn.len())[k - c]);
        if k > c {
            assert(refn[k - c] == name[k - c - 1]);
        }
    }
    assert forall|k: int| c + 1 <= k < c + 1 + name.len() implies ident_char(#[trigger] line[k]) by {
        assert(line[k] == line.subrange(c, c + refn.len())[k - c]);
        assert(refn[k - c] == name[k - c - 1]);
    }
    lemma_word_start_run(line, c, p);
    lemma_word_end_run(line, p + 1, c + 1 + name.len());
    let word = word_at(text, r, p);
    assert(word == line.subrange(c, c + 1 + name.len()));
    assert(word.drop_first() =~= name);
    // The declaration on line `i` is the only one of `name`.
    let t = trim_start(lines[i]);
    let after = t.skip(9);
    let rest = after.skip(leading_ws(after) as int);
    assert(kw.len() == 9);
    assert forall|k: int| 0 <= k < name.len() implies !is_delim(#[trigger] rest[k]) by {
        assert(rest[k] == rest.subrange(0, name.len() as int)[k]);
    }
    lemma_token_len_exact(rest, name.len() as int);
    assert(rest.take(name.len() as int) =~= name);
    assert(rest[0] == name[0]);
    let range = SourceRange::on_line(i, (leading_ws(lines[i]) + 9 + leading_ws(after)) as int, name.len() as int);
    let d = (name, range);
    assert(declared_on(lines, i, kw) == Some(d));
    let ds = decls(lines, kw, lines.len() as int);
    crate::symbols::lemma_decls_contains(lines, kw, lines.len() as int, i);
    lemma_decls_origin(lines, kw, lines.len() as int);
    assert forall|m: int| 0 <= m < ds.len() && (#[trigger] ds[m]).0 == d.0 implies ds[m] == d by {
        let k = choose|k: int| 0 <= k < lines.len() && declared_on(lines, k, kw) == Some(ds[m]);
        if k != i {
            assert(decl_name(declared_on(lines, k, kw)->0) != name);
        }
    }
    lemma_decl_map_uniform(ds, d);
}

} // verus!
