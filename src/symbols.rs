//! Recovery of the alias and layer declarations of a document, by scanning
//! its lines.

use vstd::prelude::*;
use crate::text::{
    count_leading_ws, trim_start, from_chars, is_whitespace, leading_ws, lines_of,
    matches_at, occurs_at, slice_chars, split_lines, to_chars, views, white_space,
};
use crate::types::SourceRange;

verus! {

/// A declared name and the range of its declaration.
#[derive(Clone, Debug)]
pub struct Symbol {
    pub name: String,
    pub range: SourceRange,
}

/// The alias and layer declarations of one document, in the order they
/// appear. Where a name is declared twice, the later declaration counts.
#[derive(Clone, Debug)]
pub struct DocumentSymbols {
    pub aliases: Vec<Symbol>,
    pub layers: Vec<Symbol>,
}

/// A declared name with the range of its declaration.
pub type Decl = (Seq<char>, SourceRange);

pub open spec fn decl_name(d: Decl) -> Seq<char> {
    d.0
}

pub open spec fn decl_range(d: Decl) -> SourceRange {
    d.1
}

pub open spec fn symbol_view(s: Symbol) -> Decl {
    (s.name@, s.range)
}

pub open spec fn symbol_views(v: Seq<Symbol>) -> Seq<Decl> {
    Seq::new(v.len(), |i: int| symbol_view(v[i]))
}

/// A character that ends a name: whitespace or a parenthesis.
pub open spec fn is_delim(c: char) -> bool {
    white_space(c) || c == '(' || c == ')'
}

/// The length of the name that opens `s`: the characters before the first
/// delimiter.
pub open spec fn token_len(s: Seq<char>) -> nat
    decreases s.len(),
{
    if s.len() > 0 && !is_delim(s[0]) {
        1 + token_len(s.drop_first())
    } else {
        0
    }
}

pub open spec fn alias_keyword() -> Seq<char> {
    seq!['(', 'd', 'e', 'f', 'a', 'l', 'i', 'a', 's']
}

pub open spec fn layer_keyword() -> Seq<char> {
    seq!['(', 'd', 'e', 'f', 'l', 'a', 'y', 'e', 'r']
}

/// The name found at line `j` or below, for a declaration whose opening line
/// holds no name: blank lines and comment lines are passed over, a line that
/// opens with a closing parenthesis ends the search with nothing, and so does
/// the end of the document.
pub open spec fn name_below(lines: Seq<Seq<char>>, j: int) -> Option<Decl>
    decreases lines.len() - j,
{
    if j < 0 || j >= lines.len() {
        None
    } else {
        let line = lines[j];
        let ind = leading_ws(line);
        let t = line.skip(ind as int);
        if t.len() == 0 || t[0] == ';' {
            name_below(lines, j + 1)
        } else if t[0] == ')' {
            None
        } else if token_len(t) == 0 {
            name_below(lines, j + 1)
        } else {
            Some((t.take(token_len(t) as int), SourceRange::on_line(j, ind as int, token_len(t) as int)))
        }
    }
}

/// The declaration that line `i` opens with keyword `kw`, if it opens one and
/// a name can be found for it.
pub open spec fn declared_on(lines: Seq<Seq<char>>, i: int, kw: Seq<char>) -> Option<Decl> {
    let line = lines[i];
    let ind = leading_ws(line);
    let t = line.skip(ind as int);
    if !occurs_at(t, kw, 0) {
        None
    } else {
        let after = t.skip(kw.len() as int);
        let gap = leading_ws(after);
        let rest = after.skip(gap as int);
        if rest.len() > 0 && rest[0] != '(' && rest[0] != ')' {
            let col = ind + kw.len() + gap;
            Some((rest.take(token_len(rest) as int), SourceRange::on_line(i, col as int, token_len(rest) as int)))
        } else {
            name_below(lines, i + 1)
        }
    }
}

/// The declarations with keyword `kw` opened on the first `n` lines, in order.
pub open spec fn decls(lines: Seq<Seq<char>>, kw: Seq<char>, n: int) -> Seq<Decl>
    decreases n,
{
    if n <= 0 {
        Seq::empty()
    } else {
        let prev = decls(lines, kw, n - 1);
        match declared_on(lines, n - 1, kw) {
            Some(d) => prev.push(d),
            None => prev,
        }
    }
}

/// Names to ranges, a later declaration of a name replacing an earlier one.
pub open spec fn decl_map(ds: Seq<Decl>) -> Map<Seq<char>, SourceRange>
    decreases ds.len(),
{
    if ds.len() == 0 {
        Map::empty()
    } else {
        decl_map(ds.drop_last()).insert(ds.last().0, ds.last().1)
    }
}

pub open spec fn alias_decls(text: Seq<char>) -> Seq<Decl> {
    decls(lines_of(text), alias_keyword(), lines_of(text).len() as int)
}

pub open spec fn layer_decls(text: Seq<char>) -> Seq<Decl> {
    decls(lines_of(text), layer_keyword(), lines_of(text).len() as int)
}

impl DocumentSymbols {
    pub open spec fn alias_map(&self) -> Map<Seq<char>, SourceRange> {
        decl_map(symbol_views(self.aliases@))
    }

    pub open spec fn layer_map(&self) -> Map<Seq<char>, SourceRange> {
        decl_map(symbol_views(self.layers@))
    }
}

/// The end of the name that starts at `from`.
fn token_end(s: &[char], from: usize) -> (r: usize)
    requires
        from <= s@.len(),
    ensures
        r == from + token_len(s@.skip(from as int)),
        r <= s@.len(),
{
    let mut i: usize = from;
    while i < s.len() && !(is_whitespace(s[i]) || s[i] == '(' || s[i] == ')')
        invariant
            from <= i <= s@.len(),
            token_len(s@.skip(from as int)) == (i - from) + token_len(s@.skip(i as int)),
        decreases s@.len() - i,
    {
        assert(s@.skip(i as int).drop_first() =~= s@.skip(i + 1));
        i = i + 1;
    }
    i
}

fn alias_keyword_chars() -> (r: Vec<char>)
    ensures
        r@ == alias_keyword(),
{
    let r = vec!['(', 'd', 'e', 'f', 'a', 'l', 'i', 'a', 's'];
    assert(r@ =~= alias_keyword());
    r
}

fn layer_keyword_chars() -> (r: Vec<char>)
    ensures
        r@ == layer_keyword(),
{
    let r = vec!['(', 'd', 'e', 'f', 'l', 'a', 'y', 'e', 'r'];
    assert(r@ =~= layer_keyword());
    r
}

fn find_name_below(lines: &Vec<Vec<char>>, from: usize) -> (r: Option<Symbol>)
    requires
        from <= lines@.len(),
    ensures
        match name_below(views(lines@), from as int) {
            Some(d) => r.is_some() && symbol_view(r->0) == d,
            None => r.is_none(),
        },
{
    let ghost ls = views(lines@);
    let mut j: usize = from;
    while j < lines.len()
        invariant
            from <= j <= lines@.len(),
            ls == views(lines@),
            name_below(ls, from as int) == name_below(ls, j as int),
        decreases lines@.len() - j,
    {
        let line = &lines[j];
        let ind = count_leading_ws(line.as_slice(), 0);
        proof {
            assert(line@.skip(0) =~= line@);
            assert(ls[j as int] == line@);
        }
        if ind == line.len() || line[ind] == ';' {
            j = j + 1;
        } else if line[ind] == ')' {
            return None;
        } else {
            let end = token_end(line.as_slice(), ind);
            if end == ind {
                j = j + 1;
            } else {
                let name = slice_chars(line.as_slice(), ind, end);
                proof {
                    let t = line@.skip(ind as int);
                    assert(name@ =~= t.take(token_len(t) as int));
                }
                return Some(Symbol { name: from_chars(name.as_slice()), range: SourceRange { start_line: j, start_col: ind, end_line: j, end_col: end } });
            }
        }
    }
    None
}

fn find_declaration(lines: &Vec<Vec<char>>, i: usize, kw: &Vec<char>) -> (r: Option<Symbol>)
    requires
        i < lines@.len(),
    ensures
        match declared_on(views(lines@), i as int, kw@) {
            Some(d) => r.is_some() && symbol_view(r->0) == d,
            None => r.is_none(),
        },
{
    let ghost ls = views(lines@);
    let nlines = lines.len();
    let line = &lines[i];
    assert(ls[i as int] == line@);
    let ind = count_leading_ws(line.as_slice(), 0);
    assert(line@.skip(0) =~= line@);
    let ghost t = line@.skip(ind as int);
    if !matches_at(line.as_slice(), kw.as_slice(), ind) {
        proof {
            if occurs_at(t, kw@, 0) {
                assert(line@.subrange(ind as int, ind + kw@.len()) =~= t.subrange(0, kw@.len() as int));
            }
        }
        return None;
    }
    assert(line@.subrange(ind as int, ind + kw@.len()) =~= t.subrange(0, kw@.len() as int));
    let n = line.len();
    assert(n == line@.len());
    let p = ind + kw.len();
    let gap = count_leading_ws(line.as_slice(), p);
    assert(line@.skip(p as int) =~= t.skip(kw@.len() as int));
    let q = p + gap;
    assert(line@.skip(q as int) =~= t.skip(kw@.len() as int).skip(gap as int));
    if q < line.len() && line[q] != '(' && line[q] != ')' {
        let end = token_end(line.as_slice(), q);
        let name = slice_chars(line.as_slice(), q, end);
        proof {
            let rest = line@.skip(q as int);
            assert(name@ =~= rest.take(token_len(rest) as int));
        }
        Some(Symbol { name: from_chars(name.as_slice()), range: SourceRange { start_line: i, start_col: q, end_line: i, end_col: end } })
    } else {
        find_name_below(lines, i + 1)
    }
}

/// Collects the declarations with keyword `kw` of every line.
fn collect_decls(lines: &Vec<Vec<char>>, kw: &Vec<char>) -> (r: Vec<Symbol>)
    ensures
        symbol_views(r@) == decls(views(lines@), kw@, lines@.len() as int),
{
    let mut out: Vec<Symbol> = Vec::new();
    let mut i: usize = 0;
    while i < lines.len()
        invariant
            i <= lines@.len(),
            symbol_views(out@) == decls(views(lines@), kw@, i as int),
        decreases lines@.len() - i,
    {
        let ghost before = symbol_views(out@);
        match find_declaration(lines, i, kw) {
            Some(sym) => {
                let ghost v = symbol_view(sym);
                out.push(sym);
                assert(symbol_views(out@) =~= before.push(v));
            },
            None => {},
        }
        i = i + 1;
    }
    out
}

/// Scans `text` for its alias and layer declarations.
pub fn extract_symbols(text: &str) -> (r: DocumentSymbols)
    ensures
        symbol_views(r.aliases@) == alias_decls(text@),
        symbol_views(r.layers@) == layer_decls(text@),
{
    let chars = to_chars(text);
    let lines = split_lines(chars.as_slice());
    let akw = alias_keyword_chars();
    let lkw = layer_keyword_chars();
    let aliases = collect_decls(&lines, &akw);
    let layers = collect_decls(&lines, &lkw);
    DocumentSymbols { aliases, layers }
}

proof fn lemma_all_ws(s: Seq<char>)
    requires
        forall|k: int| 0 <= k < s.len() ==> white_space(#[trigger] s[k]),
    ensures
        leading_ws(s) == s.len(),
    decreases s.len(),
{
    if s.len() > 0 {
        assert forall|k: int| 0 <= k < s.drop_first().len() implies white_space(
            #[trigger] s.drop_first()[k],
        ) by {
            assert(s.drop_first()[k] == s[k + 1]);
        }
        lemma_all_ws(s.drop_first());
    }
}

proof fn lemma_skip_blank(lines: Seq<Seq<char>>, m: int, j: int)
    requires
        0 <= m <= j < lines.len(),
        forall|k: int| m <= k < j ==> (#[trigger] trim_start(lines[k])).len() == 0 || trim_start(lines[k])[0] == ';',
    ensures
        name_below(lines, m) == name_below(lines, j),
    decreases j - m,
{
    if m < j {
        assert(trim_start(lines[m]).len() == 0 || trim_start(lines[m])[0] == ';');
        lemma_skip_blank(lines, m + 1, j);
    }
}

pub proof fn lemma_decls_contains(lines: Seq<Seq<char>>, kw: Seq<char>, n: int, i: int)
    requires
        0 <= i < n,
        declared_on(lines, i, kw) is Some,
    ensures
        decls(lines, kw, n).contains(declared_on(lines, i, kw)->0),
    decreases n,
{
    let d = declared_on(lines, i, kw)->0;
    if i == n - 1 {
        assert(decls(lines, kw, n).last() == d);
    } else {
        lemma_decls_contains(lines, kw, n - 1, i);
        let prev = decls(lines, kw, n - 1);
        let k = choose|k: int| 0 <= k < prev.len() && prev[k] == d;
        match declared_on(lines, n - 1, kw) {
            Some(e) => {
                assert(decls(lines, kw, n)[k] == d);
            },
            None => {},
        }
    }
}

/// A declaration whose opening line holds nothing but its keyword takes its
/// name from the first later line that is neither blank nor a comment, and
/// the name is recorded at that line and column, not at the opening form's.
pub proof fn law_name_on_following_line(text: Seq<char>, kw: Seq<char>, i: int, j: int)
    requires
        kw == alias_keyword() || kw == layer_keyword(),
        0 <= i < j < lines_of(text).len(),
        occurs_at(trim_start(lines_of(text)[i]), kw, 0),
        forall|k: int|
            kw.len() <= k < trim_start(lines_of(text)[i]).len() ==> white_space(
                #[trigger] trim_start(lines_of(text)[i])[k],
            ),
        forall|m: int|
            i < m < j ==> (#[trigger] trim_start(lines_of(text)[m])).len() == 0 || trim_start(
                lines_of(text)[m],
            )[0] == ';',
        trim_start(lines_of(text)[j]).len() > 0,
        !is_delim(trim_start(lines_of(text)[j])[0]),
        trim_start(lines_of(text)[j])[0] != ';',
        forall|k: int|
            i < k < lines_of(text).len() && #[trigger] declared_on(lines_of(text), k, kw) is Some ==> ({
                let t = trim_start(lines_of(text)[j]);
                decl_name(declared_on(lines_of(text), k, kw)->0) != t.take(token_len(t) as int)
            }),
    ensures
        ({
            let lines = lines_of(text);
            let t = trim_start(lines[j]);
            let n = token_len(t);
            &&& n > 0
            &&& decls(lines, kw, lines.len() as int).contains(
                (t.take(n as int), SourceRange::on_line(j, leading_ws(lines[j]) as int, n as int)),
            )
            &&& crate::resolve::lookup(decl_map(decls(lines, kw, lines.len() as int)), t.take(n as int))
                == Some(SourceRange::on_line(j, leading_ws(lines[j]) as int, n as int))
        }),
{
    let lines = lines_of(text);
    let t = trim_start(lines[i]);
    let after = t.skip(kw.len() as int);
    assert forall|k: int| 0 <= k < after.len() implies white_space(#[trigger] after[k]) by {
        assert(after[k] == t[k + kw.len()]);
    }
    lemma_all_ws(after);
    assert(after.skip(leading_ws(after) as int).len() == 0);
    assert(declared_on(lines, i, kw) == name_below(lines, i + 1));
    lemma_skip_blank(lines, i + 1, j);
    let tj = trim_start(lines[j]);
    assert(token_len(tj) > 0);
    lemma_decls_contains(lines, kw, lines.len() as int, i);
    lemma_last_decl_wins(lines, kw, lines.len() as int, i);
}

/// When no line after `i` declares the same name, the name maps to the
/// declaration of line `i`.
proof fn lemma_last_decl_wins(lines: Seq<Seq<char>>, kw: Seq<char>, n: int, i: int)
    requires
        0 <= i < n <= lines.len(),
        declared_on(lines, i, kw) is Some,
        forall|k: int|
            i < k < lines.len() && #[trigger] declared_on(lines, k, kw) is Some
                ==> decl_name(declared_on(lines, k, kw)->0) != decl_name(declared_on(lines, i, kw)->0),
    ensures
        crate::resolve::lookup(decl_map(decls(lines, kw, n)), decl_name(declared_on(lines, i, kw)->0))
            == Some(decl_range(declared_on(lines, i, kw)->0)),
    decreases n,
{
    let d = declared_on(lines, i, kw)->0;
    let ds = decls(lines, kw, n);
    if n - 1 == i {
        assert(ds == decls(lines, kw, n - 1).push(d));
        assert(ds.drop_last() =~= decls(lines, kw, n - 1));
    } else {
        lemma_last_decl_wins(lines, kw, n - 1, i);
        match declared_on(lines, n - 1, kw) {
            Some(e) => {
                assert(ds.drop_last() =~= decls(lines, kw, n - 1));
                assert(ds.last() == e);
            },
            None => {},
        }
    }
}

} // verus!
