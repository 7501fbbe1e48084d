//! Column alignment of layer blocks against the source-layout block.

use vstd::prelude::*;
use unicode_segmentation::UnicodeSegmentation;
use crate::text::{
    count_leading_ws, from_chars, is_whitespace, leading_ws,
    lines_of, matches_at, occurs_at, slice_chars, split_lines, to_chars, trim, trimmed,
    views, white_space,
};

verus! {

/// The number of user-perceived characters (extended grapheme clusters) of `s`.
pub uninterp spec fn grapheme_count(s: Seq<char>) -> nat;

/// Relies on `UnicodeSegmentation::graphemes(s, true)` of unicode-segmentation:
/// the count of the extended grapheme clusters it yields.
#[verifier::external_body]
fn grapheme_width(s: &str) -> (r: usize)
    ensures
        r as nat == grapheme_count(s@),
{
    s.graphemes(true).count()
}

/// The state of the item scanner: nesting depth, the item being read, the
/// items read, and whether the block is still open.
pub type Scan = (int, Seq<char>, Seq<Seq<char>>, bool);

/// One character through the item scanner. An opening parenthesis nests
/// (the depth saturates at the largest `usize`), a closing one un-nests and
/// closes the block when it leaves depth zero; whitespace at depth one ends an
/// item; every other character, parentheses of nested lists included, belongs
/// to the current item.
pub open spec fn step(st: Scan, c: char) -> Scan {
    if c == '(' {
        (if st.0 < usize::MAX { st.0 + 1 } else { st.0 }, st.1.push(c), st.2, true)
    } else if c == ')' {
        if st.0 - 1 == 0 {
            (0, Seq::empty(), if st.1.len() > 0 { st.2.push(st.1) } else { st.2 }, false)
        } else {
            (st.0 - 1, st.1.push(c), st.2, true)
        }
    } else if white_space(c) && st.0 == 1 {
        if st.1.len() > 0 {
            (1, Seq::empty(), st.2.push(st.1), true)
        } else {
            st
        }
    } else {
        (st.0, st.1.push(c), st.2, true)
    }
}

/// The scanner after the first `n` characters of `s`, from depth `d0`; it
/// stops at the parenthesis that closes the block.
pub open spec fn scan(s: Seq<char>, d0: int, n: int) -> Scan
    decreases n,
{
    if n <= 0 {
        (d0, Seq::empty(), Seq::empty(), true)
    } else {
        let st = scan(s, d0, n - 1);
        if !st.3 {
            st
        } else {
            step(st, s[n - 1])
        }
    }
}

/// The depth after a line, the items it holds (an item still open at the
/// end of the line ends there), and whether the block is still open.
pub open spec fn line_items(s: Seq<char>, d0: int) -> (int, Seq<Seq<char>>, bool) {
    let st = scan(s, d0, s.len() as int);
    (st.0, if st.3 && st.1.len() > 0 { st.2.push(st.1) } else { st.2 }, st.3)
}

/// The items of a block from line `j` on, the block being open at depth `d`
/// with `items` read so far, and the index of the first line after it.
pub open spec fn block_rest(lines: Seq<Seq<char>>, j: int, d: int, items: Seq<Seq<char>>) -> (Seq<Seq<char>>, int)
    decreases lines.len() - j,
{
    if j < 0 || j >= lines.len() {
        (items, j)
    } else {
        let r = line_items(trim(lines[j]), d);
        if r.2 {
            block_rest(lines, j + 1, r.0, items + r.1)
        } else {
            (items + r.1, j + 1)
        }
    }
}

/// The items of a block whose first line, after its keyword, holds `rest`,
/// and the index of the first line after the block.
pub open spec fn block_items(lines: Seq<Seq<char>>, start: int, rest: Seq<char>) -> (Seq<Seq<char>>, int) {
    let r = line_items(rest, 1);
    if r.2 {
        block_rest(lines, start + 1, r.0, r.1)
    } else {
        (r.1, start + 1)
    }
}

pub open spec fn source_keyword() -> Seq<char> {
    seq!['(', 'd', 'e', 'f', 's', 'r', 'c']
}

pub open spec fn layer_keyword() -> Seq<char> {
    seq!['(', 'd', 'e', 'f', 'l', 'a', 'y', 'e', 'r']
}

/// Whether line `i` opens a block with keyword `kw`.
pub open spec fn opens(lines: Seq<Seq<char>>, i: int, kw: Seq<char>) -> bool {
    occurs_at(trim(lines[i]), kw, 0)
}

/// What follows the keyword `kw` on a line, trimmed.
pub open spec fn after_keyword(line: Seq<char>, kw: Seq<char>) -> Seq<char> {
    trim(trim(line).skip(kw.len() as int))
}

/// The index of the first line from `i` on that opens the source-layout block.
pub open spec fn template_line(lines: Seq<Seq<char>>, i: int) -> Option<int>
    decreases lines.len() - i,
{
    if i < 0 || i >= lines.len() {
        None
    } else if opens(lines, i, source_keyword()) {
        Some(i)
    } else {
        template_line(lines, i + 1)
    }
}

/// The column widths of the first source-layout block: the number of
/// user-perceived characters of each of its items; none where the document
/// has no such block or it holds no item.
pub open spec fn template_widths(lines: Seq<Seq<char>>) -> Option<Seq<nat>> {
    match template_line(lines, 0) {
        None => None,
        Some(i) => {
            let items = block_items(lines, i, after_keyword(lines[i], source_keyword())).0;
            if items.len() == 0 {
                None
            } else {
                Some(Seq::new(items.len(), |k: int| grapheme_count(items[k])))
            }
        },
    }
}

/// A character of a layer name: neither whitespace nor a parenthesis.
pub open spec fn name_char(c: char) -> bool {
    !white_space(c) && c != '(' && c != ')'
}

/// The length of the layer name that opens `s`: the characters before the
/// first whitespace or parenthesis.
pub open spec fn name_len(s: Seq<char>) -> nat
    decreases s.len(),
{
    if s.len() > 0 && name_char(s[0]) {
        1 + name_len(s.drop_first())
    } else {
        0
    }
}

pub open spec fn spaces(n: int) -> Seq<char> {
    Seq::new(n as nat, |i: int| ' ')
}

/// An item right-padded with spaces from its width `width` to the column
/// width `target`; an item as wide or wider is left as it is.
pub open spec fn padded(item: Seq<char>, width: int, target: int) -> Seq<char> {
    item + (if width < target { spaces(target - width) } else { Seq::empty() })
}

/// A layer block laid out one item per line: the header with the block's
/// indentation `ind` and its name, then each item indented two more and
/// padded from its width `item_widths[k]` to its column's width
/// `widths[k]`, then the closing parenthesis under the header.
pub open spec fn aligned_block(
    ind: int,
    name: Seq<char>,
    items: Seq<Seq<char>>,
    item_widths: Seq<nat>,
    widths: Seq<nat>,
) -> Seq<Seq<char>> {
    let header = spaces(ind) + layer_keyword() + seq![' '] + name;
    let body = Seq::new(
        items.len(),
        |k: int| spaces(ind + 2) + padded(items[k], item_widths[k] as int, widths[k] as int),
    );
    seq![header] + body + seq![spaces(ind) + seq![')']]
}

/// The layer block that opens at line `start`, and the index of the first
/// line after it. With as many items as `widths`, it is rewritten one item
/// per line, each padded to its column's width, under the block's own
/// indentation; otherwise its lines are kept as they are.
pub open spec fn layer_block(lines: Seq<Seq<char>>, start: int, widths: Seq<nat>) -> (Seq<Seq<char>>, int) {
    let ind = leading_ws(lines[start]) as int;
    let after = after_keyword(lines[start], layer_keyword());
    let name = after.take(name_len(after) as int);
    let rest = trim(after.skip(name.len() as int));
    let (items, end) = block_items(lines, start, rest);
    if items.len() != widths.len() {
        (lines.subrange(start, end), end)
    } else {
        (aligned_block(ind, name, items, Seq::new(items.len(), |k: int| grapheme_count(items[k])), widths), end)
    }
}

/// The lines of the document from line `i` on, each layer block rewritten.
pub open spec fn layout_from(lines: Seq<Seq<char>>, i: int, widths: Seq<nat>) -> Seq<Seq<char>>
    decreases lines.len() - i,
{
    if i < 0 || i >= lines.len() {
        Seq::empty()
    } else if opens(lines, i, layer_keyword()) {
        let b = layer_block(lines, i, widths);
        if i < b.1 <= lines.len() {
            b.0 + layout_from(lines, b.1, widths)
        } else {
            Seq::empty()
        }
    } else {
        seq![lines[i]] + layout_from(lines, i + 1, widths)
    }
}

/// Lines joined by line feeds.
pub open spec fn join(ls: Seq<Seq<char>>) -> Seq<char>
    decreases ls.len(),
{
    if ls.len() == 0 {
        Seq::empty()
    } else if ls.len() == 1 {
        ls[0]
    } else {
        join(ls.drop_last()) + seq!['\n'] + ls.last()
    }
}

/// The formatted document: unchanged without a source-layout block, else
/// every layer block aligned to it.
pub open spec fn formatted(text: Seq<char>) -> Seq<char> {
    let lines = lines_of(text);
    match template_widths(lines) {
        None => text,
        Some(w) => join(layout_from(lines, 0, w)),
    }
}

fn push_spaces(v: &mut Vec<char>, n: usize)
    ensures
        final(v)@ == old(v)@ + spaces(n as int),
{
    let ghost base = v@;
    let mut i: usize = 0;
    while i < n
        invariant
            i <= n,
            v@ == base + spaces(i as int),
        decreases n - i,
    {
        v.push(' ');
        i = i + 1;
        assert(v@ =~= base + spaces(i as int));
    }
}

fn push_all(v: &mut Vec<char>, s: &[char])
    ensures
        final(v)@ == old(v)@ + s@,
{
    let ghost base = v@;
    let mut i: usize = 0;
    while i < s.len()
        invariant
            i <= s@.len(),
            v@ == base + s@.take(i as int),
        decreases s@.len() - i,
    {
        v.push(s[i]);
        i = i + 1;
        assert(v@ =~= base + s@.take(i as int));
    }
    assert(s@.take(s@.len() as int) =~= s@);
}

/// Runs the item scanner over `s` from depth `d0`, appending the items read to
/// `items`; returns the depth after the line and whether the block is still
/// open.
fn scan_line(s: &[char], d0: usize, items: &mut Vec<Vec<char>>) -> (r: (usize, bool))
    requires
        d0 >= 1,
    ensures
        r.0 as int == line_items(s@, d0 as int).0,
        r.1 == line_items(s@, d0 as int).2,
        views(final(items)@) == views(old(items)@) + line_items(s@, d0 as int).1,
        r.1 ==> r.0 >= 1,
{
    let ghost base = views(items@);
    let mut depth: usize = d0;
    let mut cur: Vec<char> = Vec::new();
    let mut open = true;
    let mut k: usize = 0;
    assert(base + Seq::<Seq<char>>::empty() =~= base);
    while k < s.len()
        invariant
            k <= s@.len(),
            depth as int == scan(s@, d0 as int, k as int).0,
            cur@ == scan(s@, d0 as int, k as int).1,
            views(items@) == base + scan(s@, d0 as int, k as int).2,
            open == scan(s@, d0 as int, k as int).3,
            open ==> depth >= 1,
        decreases s@.len() - k,
    {
        let c = s[k];
        if open {
            let ghost before = views(items@);
            let ghost st = scan(s@, d0 as int, k as int);
            if c == '(' {
                if depth < usize::MAX {
                    depth = depth + 1;
                }
                cur.push(c);
            } else if c == ')' {
                if depth - 1 == 0 {
                    depth = 0;
                    if cur.len() > 0 {
                        let ghost cv = cur@;
                        items.push(cur);
                        cur = Vec::new();
                        assert(views(items@) =~= before.push(cv));
                        assert(views(items@) =~= base + st.2.push(st.1));
                    }
                    open = false;
                    cur = Vec::new();
                } else {
                    depth = depth - 1;
                    cur.push(c);
                }
            } else if is_whitespace(c) && depth == 1 {
                if cur.len() > 0 {
                    let ghost cv = cur@;
                    items.push(cur);
                    cur = Vec::new();
                    assert(views(items@) =~= before.push(cv));
                    assert(views(items@) =~= base + st.2.push(st.1));
                }
            } else {
                cur.push(c);
            }
        }
        k = k + 1;
    }
    if open && cur.len() > 0 {
        let ghost before = views(items@);
        let ghost cv = cur@;
        items.push(cur);
        assert(views(items@) =~= before.push(cv));
    }
    (depth, open)
}

/// Reads the items of a block from line `j` on, the block being open at
/// depth `d`; returns the index of the first line after the block.
fn read_block_rest(lines: &Vec<Vec<char>>, j: usize, d: usize, items: &mut Vec<Vec<char>>) -> (end: usize)
    requires
        j <= lines@.len(),
        d >= 1,
    ensures
        block_rest(views(lines@), j as int, d as int, views(old(items)@)) == (
        views(final(items)@),
        end as int,
        ),
        j < end <= lines@.len() || (j == end && j == lines@.len()),
{
    let ghost ls = views(lines@);
    let mut i: usize = j;
    let mut depth: usize = d;
    while i < lines.len()
        invariant
            j <= i <= lines@.len(),
            ls == views(lines@),
            depth >= 1,
            block_rest(ls, j as int, d as int, views(old(items)@)) == block_rest(
                ls,
                i as int,
                depth as int,
                views(items@),
            ),
        decreases lines@.len() - i,
    {
        assert(ls[i as int] == lines@[i as int]@);
        let t = trimmed(lines[i].as_slice());
        let r = scan_line(t.as_slice(), depth, items);
        if !r.1 {
            return i + 1;
        }
        depth = r.0;
        i = i + 1;
    }
    i
}

/// Reads the items of the block that opens at line `start`, whose first line
/// holds `rest` after its keyword.
fn read_block(lines: &Vec<Vec<char>>, start: usize, rest: &[char]) -> (r: (Vec<Vec<char>>, usize))
    requires
        start < lines@.len(),
    ensures
        block_items(views(lines@), start as int, rest@) == (views(r.0@), r.1 as int),
        start < r.1 <= lines@.len(),
{
    let nlines = lines.len();
    let mut items: Vec<Vec<char>> = Vec::new();
    assert(views(items@) =~= Seq::<Seq<char>>::empty());
    let r = scan_line(rest, 1, &mut items);
    assert(views(items@) =~= line_items(rest@, 1).1);
    if r.1 {
        let end = read_block_rest(lines, start + 1, r.0, &mut items);
        (items, end)
    } else {
        (items, start + 1)
    }
}

/// What follows the keyword `kw` on a line that opens with it, trimmed.
fn text_after_keyword(line: &[char], kw: &Vec<char>) -> (r: Vec<char>)
    requires
        occurs_at(trim(line@), kw@, 0),
    ensures
        r@ == after_keyword(line@, kw@),
{
    let t = trimmed(line);
    let a = slice_chars(t.as_slice(), kw.len(), t.len());
    assert(a@ =~= t@.skip(kw@.len() as int));
    trimmed(a.as_slice())
}

fn source_keyword_chars() -> (r: Vec<char>)
    ensures
        r@ == source_keyword(),
{
    let r = vec!['(', 'd', 'e', 'f', 's', 'r', 'c'];
    assert(r@ =~= source_keyword());
    r
}

fn layer_keyword_chars() -> (r: Vec<char>)
    ensures
        r@ == layer_keyword(),
{
    let r = vec!['(', 'd', 'e', 'f', 'l', 'a', 'y', 'e', 'r'];
    assert(r@ =~= layer_keyword());
    r
}

/// Whether line `i` opens a block with keyword `kw`.
fn line_opens(lines: &Vec<Vec<char>>, i: usize, kw: &Vec<char>) -> (r: bool)
    requires
        i < lines@.len(),
    ensures
        r == opens(views(lines@), i as int, kw@),
{
    assert(views(lines@)[i as int] == lines@[i as int]@);
    let t = trimmed(lines[i].as_slice());
    matches_at(t.as_slice(), kw.as_slice(), 0)
}

pub open spec fn widths_view(w: Seq<usize>) -> Seq<nat> {
    Seq::new(w.len(), |i: int| w[i] as nat)
}

/// The column widths of the first source-layout block of the document.
fn parse_defsrc_layout(lines: &Vec<Vec<char>>) -> (r: Option<Vec<usize>>)
    ensures
        match template_widths(views(lines@)) {
            None => r.is_none(),
            Some(w) => r.is_some() && widths_view(r->0@) == w,
        },
{
    let ghost ls = views(lines@);
    let kw = source_keyword_chars();
    let mut i: usize = 0;
    while i < lines.len()
        invariant
            i <= lines@.len(),
            ls == views(lines@),
            kw@ == source_keyword(),
            template_line(ls, 0) == template_line(ls, i as int),
        decreases lines@.len() - i,
    {
        if line_opens(lines, i, &kw) {
            assert(ls[i as int] == lines@[i as int]@);
            let rest = text_after_keyword(lines[i].as_slice(), &kw);
            let (items, _end) = read_block(lines, i, rest.as_slice());
            if items.len() == 0 {
                return None;
            }
            let mut w: Vec<usize> = Vec::new();
            let mut k: usize = 0;
            while k < items.len()
                invariant
                    k <= items@.len(),
                    w@.len() == k,
                    forall|m: int| 0 <= m < k ==> w@[m] as nat == grapheme_count(items@[m]@),
                decreases items@.len() - k,
            {
                let item = from_chars(items[k].as_slice());
                let g = grapheme_width(item.as_str());
                w.push(g);
                k = k + 1;
            }
            proof {
                let its = views(items@);
                assert(widths_view(w@) =~= Seq::new(its.len(), |k: int| grapheme_count(its[k])));
            }
            return Some(w);
        }
        i = i + 1;
    }
    None
}

fn push_padded(v: &mut Vec<char>, item: &[char], width: usize, target: usize)
    ensures
        final(v)@ == old(v)@ + padded(item@, width as int, target as int),
{
    let ghost base = v@;
    push_all(v, item);
    if width < target {
        push_spaces(v, target - width);
        assert(v@ =~= base + padded(item@, width as int, target as int));
    } else {
        assert(v@ =~= base + padded(item@, width as int, target as int));
    }
}

/// `item` right-padded with spaces from its width `width` (its count of
/// user-perceived characters) to the column width `target`.
pub fn pad_item(item: &str, width: usize, target: usize) -> (r: String)
    ensures
        r@ == padded(item@, width as int, target as int),
{
    let chars = to_chars(item);
    let mut v: Vec<char> = Vec::new();
    push_padded(&mut v, chars.as_slice(), width, target);
    assert(v@ =~= padded(item@, width as int, target as int));
    from_chars(v.as_slice())
}

fn copy_chars(v: &Vec<char>) -> (r: Vec<char>)
    ensures
        r@ == v@,
{
    let r = slice_chars(v.as_slice(), 0, v.len());
    assert(r@ =~= v@);
    r
}

/// Appends to `out` the lines of a block aligned by `aligned_block`.
fn push_aligned_block(
    out: &mut Vec<Vec<char>>,
    ind: usize,
    name: &[char],
    items: &Vec<Vec<char>>,
    item_widths: &Vec<usize>,
    widths: &Vec<usize>,
)
    requires
        items@.len() == item_widths@.len(),
        items@.len() == widths@.len(),
    ensures
        views(final(out)@) == views(old(out)@) + aligned_block(
            ind as int,
            name@,
            views(items@),
            widths_view(item_widths@),
            widths_view(widths@),
        ),
{
    let ghost base = views(out@);
    let ghost its = views(items@);
    let ghost iv = widths_view(item_widths@);
    let ghost wv = widths_view(widths@);
    let kw = layer_keyword_chars();
    let mut header: Vec<char> = Vec::new();
    push_spaces(&mut header, ind);
    push_all(&mut header, kw.as_slice());
    header.push(' ');
    push_all(&mut header, name);
    let ghost hv = header@;
    assert(hv =~= spaces(ind as int) + layer_keyword() + seq![' '] + name@);
    out.push(header);
    assert(views(out@) =~= base + seq![hv]);
    let ghost body = Seq::new(
        its.len(),
        |k: int| spaces(ind + 2) + padded(its[k], iv[k] as int, wv[k] as int),
    );
    let mut k: usize = 0;
    while k < items.len()
        invariant
            k <= items@.len(),
            items@.len() == widths@.len(),
            items@.len() == item_widths@.len(),
            its == views(items@),
            wv == widths_view(widths@),
            iv == widths_view(item_widths@),
            body == Seq::new(
                its.len(),
                |k: int| spaces(ind + 2) + padded(its[k], iv[k] as int, wv[k] as int),
            ),
            views(out@) == base + seq![hv] + body.take(k as int),
        decreases items@.len() - k,
    {
        let ghost before = views(out@);
        let mut l: Vec<char> = Vec::new();
        push_spaces(&mut l, ind);
        push_spaces(&mut l, 2);
        push_padded(&mut l, items[k].as_slice(), item_widths[k], widths[k]);
        assert(its[k as int] == items@[k as int]@);
        assert(body.len() == items@.len());
        assert(wv[k as int] == widths@[k as int] as nat);
        assert(iv[k as int] == item_widths@[k as int] as nat);
        assert(spaces(ind as int) + spaces(2) =~= spaces(ind + 2));
        assert(l@ =~= body[k as int]);
        out.push(l);
        assert(views(out@) =~= before.push(body[k as int]));
        assert(body.take(k + 1) =~= body.take(k as int).push(body[k as int]));
        k = k + 1;
    }
    let mut closing: Vec<char> = Vec::new();
    push_spaces(&mut closing, ind);
    closing.push(')');
    let ghost cv = closing@;
    let ghost before = views(out@);
    out.push(closing);
    assert(views(out@) =~= before.push(cv));
    assert(body.take(items@.len() as int) =~= body);
    assert(cv =~= spaces(ind as int) + seq![')']);
    assert(views(out@) =~= base + aligned_block(ind as int, name@, its, iv, wv));
}

/// The lines of a layer block laid out one item per line under indentation
/// `indent`, each item padded from its width `item_widths[k]` (its count of
/// user-perceived characters) to its column's width `widths[k]`.
pub fn render_block(
    indent: usize,
    name: &str,
    items: &Vec<String>,
    item_widths: &Vec<usize>,
    widths: &Vec<usize>,
) -> (r: Vec<String>)
    requires
        items@.len() == item_widths@.len(),
        items@.len() == widths@.len(),
    ensures
        Seq::new(r@.len(), |i: int| r@[i]@) == aligned_block(
            indent as int,
            name@,
            Seq::new(items@.len(), |i: int| items@[i]@),
            widths_view(item_widths@),
            widths_view(widths@),
        ),
{
    let mut cs: Vec<Vec<char>> = Vec::new();
    let mut i: usize = 0;
    while i < items.len()
        invariant
            i <= items@.len(),
            views(cs@) == Seq::new(items@.len(), |j: int| items@[j]@).take(i as int),
        decreases items@.len() - i,
    {
        let c = to_chars(items[i].as_str());
        let ghost before = views(cs@);
        let ghost cv = c@;
        cs.push(c);
        assert(views(cs@) =~= before.push(cv));
        assert(views(cs@) =~= Seq::new(items@.len(), |j: int| items@[j]@).take(i + 1));
        i = i + 1;
    }
    assert(views(cs@) =~= Seq::new(items@.len(), |j: int| items@[j]@));
    let n = to_chars(name);
    let mut lines: Vec<Vec<char>> = Vec::new();
    push_aligned_block(&mut lines, indent, n.as_slice(), &cs, item_widths, widths);
    assert(views(lines@) =~= aligned_block(
        indent as int,
        name@,
        Seq::new(items@.len(), |i: int| items@[i]@),
        widths_view(item_widths@),
        widths_view(widths@),
    ));
    let mut r: Vec<String> = Vec::new();
    let mut k: usize = 0;
    while k < lines.len()
        invariant
            k <= lines@.len(),
            Seq::new(r@.len(), |i: int| r@[i]@) == views(lines@).take(k as int),
        decreases lines@.len() - k,
    {
        let s = from_chars(lines[k].as_slice());
        let ghost before = Seq::new(r@.len(), |i: int| r@[i]@);
        let ghost sv = s@;
        r.push(s);
        assert(Seq::new(r@.len(), |i: int| r@[i]@) =~= before.push(sv));
        assert(sv == views(lines@)[k as int]);
        assert(Seq::new(r@.len(), |i: int| r@[i]@) =~= views(lines@).take(k + 1));
        k = k + 1;
    }
    assert(views(lines@).take(lines@.len() as int) =~= views(lines@));
    r
}

/// Appends to `out` the layer block that opens at line `start`, aligned to
/// `widths` where its item count matches; returns the index of the first line
/// after the block.
fn format_deflayer(lines: &Vec<Vec<char>>, start: usize, widths: &Vec<usize>, out: &mut Vec<Vec<char>>) -> (end: usize)
    requires
        start < lines@.len(),
        opens(views(lines@), start as int, layer_keyword()),
    ensures
        views(final(out)@) == views(old(out)@) + layer_block(views(lines@), start as int, widths_view(widths@)).0,
        end as int == layer_block(views(lines@), start as int, widths_view(widths@)).1,
        start < end <= lines@.len(),
{
    let ghost ls = views(lines@);
    let ghost wv = widths_view(widths@);
    let ghost base = views(out@);
    let line = &lines[start];
    assert(ls[start as int] == line@);
    let ind = count_leading_ws(line.as_slice(), 0);
    assert(line@.skip(0) =~= line@);
    let kw = layer_keyword_chars();
    let after = text_after_keyword(line.as_slice(), &kw);
    let mut nlen: usize = 0;
    assert(after@.skip(0) =~= after@);
    while nlen < after.len() && !is_whitespace(after[nlen]) && after[nlen] != '(' && after[nlen] != ')'
        invariant
            nlen <= after@.len(),
            name_len(after@) == nlen + name_len(after@.skip(nlen as int)),
        decreases after@.len() - nlen,
    {
        assert(after@.skip(nlen as int).drop_first() =~= after@.skip(nlen + 1));
        nlen = nlen + 1;
    }
    let name = slice_chars(after.as_slice(), 0, nlen);
    assert(name@ =~= after@.take(nlen as int));
    let tail = slice_chars(after.as_slice(), nlen, after.len());
    assert(tail@ =~= after@.skip(nlen as int));
    let rest = trimmed(tail.as_slice());
    let (items, end) = read_block(lines, start, rest.as_slice());
    let ghost its = views(items@);
    if items.len() != widths.len() {
        let mut i: usize = start;
        while i < end
            invariant
                start <= i <= end <= lines@.len(),
                ls == views(lines@),
                views(out@) == base + ls.subrange(start as int, i as int),
            decreases end - i,
        {
            let ghost before = views(out@);
            let c = copy_chars(&lines[i]);
            out.push(c);
            assert(views(out@) =~= before.push(lines@[i as int]@));
            assert(ls.subrange(start as int, i + 1) =~= ls.subrange(start as int, i as int).push(ls[i as int]));
            i = i + 1;
        }
        return end;
    }
    let mut iw: Vec<usize> = Vec::new();
    let mut k: usize = 0;
    while k < items.len()
        invariant
            k <= items@.len(),
            iw@.len() == k,
            forall|m: int| 0 <= m < k ==> iw@[m] as nat == grapheme_count(items@[m]@),
        decreases items@.len() - k,
    {
        let item = from_chars(items[k].as_slice());
        iw.push(grapheme_width(item.as_str()));
        k = k + 1;
    }
    push_aligned_block(out, ind, name.as_slice(), &items, &iw, widths);
    assert(widths_view(iw@) =~= Seq::new(its.len(), |k: int| grapheme_count(its[k])));
    end
}

/// The document's lines with every layer block aligned to `widths`.
fn apply_defsrc_layout_to_deflayers(lines: &Vec<Vec<char>>, widths: &Vec<usize>) -> (r: Vec<Vec<char>>)
    ensures
        views(r@) == layout_from(views(lines@), 0, widths_view(widths@)),
{
    let ghost ls = views(lines@);
    let ghost wv = widths_view(widths@);
    let kw = layer_keyword_chars();
    let mut out: Vec<Vec<char>> = Vec::new();
    let mut i: usize = 0;
    assert(views(out@) + layout_from(ls, 0, wv) =~= layout_from(ls, 0, wv));
    while i < lines.len()
        invariant
            i <= lines@.len(),
            ls == views(lines@),
            wv == widths_view(widths@),
            kw@ == layer_keyword(),
            views(out@) + layout_from(ls, i as int, wv) == layout_from(ls, 0, wv),
        decreases lines@.len() - i,
    {
        let ghost before = views(out@);
        if line_opens(lines, i, &kw) {
            let end = format_deflayer(lines, i, widths, &mut out);
            assert(views(out@) + layout_from(ls, end as int, wv) =~= before + layout_from(ls, i as int, wv));
            i = end;
        } else {
            let c = copy_chars(&lines[i]);
            out.push(c);
            assert(views(out@) =~= before.push(ls[i as int]));
            assert(views(out@) + layout_from(ls, i + 1, wv) =~= before + layout_from(ls, i as int, wv));
            i = i + 1;
        }
    }
    assert(views(out@) =~= views(out@) + layout_from(ls, i as int, wv));
    out
}

/// Joins lines with line feeds.
fn join_lines(ls: &Vec<Vec<char>>) -> (r: Vec<char>)
    ensures
        r@ == join(views(ls@)),
{
    let mut out: Vec<char> = Vec::new();
    let mut i: usize = 0;
    while i < ls.len()
        invariant
            i <= ls@.len(),
            out@ == join(views(ls@).take(i as int)),
        decreases ls@.len() - i,
    {
        let ghost pre = views(ls@).take(i + 1);
        assert(pre.drop_last() =~= views(ls@).take(i as int));
        if i > 0 {
            out.push('\n');
        }
        push_all(&mut out, ls[i].as_slice());
        assert(pre.last() == ls@[i as int]@);
        assert(out@ =~= join(pre));
        i = i + 1;
    }
    assert(views(ls@).take(ls@.len() as int) =~= views(ls@));
    out
}

/// Aligns every layer block of `text` to the column widths `widths`: a
/// block with as many items as there are widths gets one item per line,
/// padded to its column's width; the other lines are kept.
pub fn align_layers(text: &str, widths: &Vec<usize>) -> (r: String)
    ensures
        r@ == join(layout_from(lines_of(text@), 0, widths_view(widths@))),
{
    let chars = to_chars(text);
    let lines = split_lines(chars.as_slice());
    let out = apply_defsrc_layout_to_deflayers(&lines, widths);
    let joined = join_lines(&out);
    from_chars(joined.as_slice())
}

/// Aligns every layer block of `text` to the first source-layout block: each
/// block with as many items as the layout gets one item per line, padded to
/// its column's width; other blocks, and a document without a layout, are
/// left as they are.
pub fn format_document(text: &str) -> (r: String)
    ensures
        r@ == formatted(text@),
{
    let chars = to_chars(text);
    let lines = split_lines(chars.as_slice());
    match parse_defsrc_layout(&lines) {
        None => from_chars(chars.as_slice()),
        Some(w) => align_layers(text, &w),
    }
}

/// Whether every layer block from line `i` on already has the form that
/// aligning it to `widths` gives.
pub open spec fn aligned_from(lines: Seq<Seq<char>>, i: int, widths: Seq<nat>) -> bool
    decreases lines.len() - i,
{
    if i < 0 || i >= lines.len() {
        true
    } else if opens(lines, i, layer_keyword()) {
        let b = layer_block(lines, i, widths);
        &&& i < b.1 <= lines.len()
        &&& b.0 == lines.subrange(i, b.1)
        &&& aligned_from(lines, b.1, widths)
    } else {
        aligned_from(lines, i + 1, widths)
    }
}

/// Whether the document is already formatted: it has no source-layout block,
/// or each of its layer blocks is already aligned to it.
pub open spec fn is_aligned(text: Seq<char>) -> bool {
    match template_widths(lines_of(text)) {
        None => true,
        Some(w) => aligned_from(lines_of(text), 0, w),
    }
}

proof fn lemma_layout_fixed(lines: Seq<Seq<char>>, i: int, widths: Seq<nat>)
    requires
        0 <= i <= lines.len(),
        aligned_from(lines, i, widths),
    ensures
        layout_from(lines, i, widths) == lines.skip(i),
    decreases lines.len() - i,
{
    if i < lines.len() {
        if opens(lines, i, layer_keyword()) {
            let b = layer_block(lines, i, widths);
            lemma_layout_fixed(lines, b.1, widths);
            assert(lines.subrange(i, b.1) + lines.skip(b.1) =~= lines.skip(i));
        } else {
            lemma_layout_fixed(lines, i + 1, widths);
            assert(seq![lines[i]] + lines.skip(i + 1) =~= lines.skip(i));
        }
    } else {
        assert(lines.skip(i) =~= Seq::<Seq<char>>::empty());
    }
}

/// Joining the lines of a text with line feeds gives the text back.
pub proof fn lemma_join_lines(s: Seq<char>)
    ensures
        join(lines_of(s)) == s,
    decreases s.len(),
{
    if s.len() == 0 {
        assert(lines_of(s) =~= seq![Seq::<char>::empty()]);
    } else {
        let pre = s.drop_last();
        lemma_join_lines(pre);
        crate::text::lemma_lines_of_nonempty(pre);
        let prev = lines_of(pre);
        let ls = lines_of(s);
        if s.last() == '\n' {
            assert(ls.drop_last() =~= prev);
            assert(join(ls) == join(prev) + seq!['\n'] + Seq::<char>::empty());
            assert(pre.push('\n') =~= s);
            assert(join(ls) =~= s);
        } else {
            if prev.len() == 1 {
                assert(join(ls) == prev[0].push(s.last()));
                assert(pre.push(s.last()) =~= s);
            } else {
                assert(ls.drop_last() =~= prev.drop_last());
                assert(join(ls) == join(prev.drop_last()) + seq!['\n'] + prev.last().push(s.last()));
                assert(join(prev) == join(prev.drop_last()) + seq!['\n'] + prev.last());
                assert(join(ls) =~= pre.push(s.last()));
                assert(pre.push(s.last()) =~= s);
            }
        }
    }
}

/// Formatting a document that is already formatted gives it back unchanged.
pub proof fn law_aligned_document_is_fixed(text: Seq<char>)
    requires
        is_aligned(text),
    ensures
        formatted(text) == text,
{
    let lines = lines_of(text);
    match template_widths(lines) {
        None => {},
        Some(w) => {
            lemma_layout_fixed(lines, 0, w);
            assert(lines.skip(0) =~= lines);
            lemma_join_lines(text);
        },
    }
}

} // verus!
