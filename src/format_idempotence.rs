//! Formatting is idempotent: the formatted document is already aligned.

use vstd::prelude::*;
use crate::format::{
    after_keyword, block_items, block_rest, layer_block, layer_keyword, layout_from, line_items, opens,
    scan, spaces, step, template_line, template_widths, name_len, name_char, padded, grapheme_count,
    aligned_from, formatted, join, law_aligned_document_is_fixed, source_keyword,
};
use crate::text::{leading_ws, lines_of, trailing_ws, trim, trim_start, white_space};

verus! {

/// A line with no line feed in it.
pub open spec fn no_nl(s: Seq<char>) -> bool {
    forall|k: int| 0 <= k < s.len() ==> s[k] != '\n'
}

/// An item as the scanner yields it: not empty, with no whitespace at either
/// end and no line feed.
pub open spec fn good_item(x: Seq<char>) -> bool {
    &&& x.len() > 0
    &&& !white_space(x[0])
    &&& !white_space(x.last())
    &&& no_nl(x)
}

/// Whether `x`, scanned alone from depth `d`, is read as exactly one item
/// with the block still open.
pub open spec fn reads_whole(x: Seq<char>, d: int) -> bool {
    d >= 1 && line_items(x, d).1 == seq![x] && line_items(x, d).2
}

/// The depth after reading the items `xs` one per line from depth `d`, if
/// each is read whole.
pub open spec fn chain(xs: Seq<Seq<char>>, d: int) -> Option<int>
    decreases xs.len(),
{
    if xs.len() == 0 {
        Some(d)
    } else {
        match chain(xs.drop_last(), d) {
            Some(m) => if reads_whole(xs.last(), m) {
                Some(line_items(xs.last(), m).0)
            } else {
                None
            },
            None => None,
        }
    }
}

proof fn lemma_scan_prefix(a: Seq<char>, b: Seq<char>, d: int, n: int)
    requires
        0 <= n <= a.len(),
        n <= b.len(),
        a.take(n) == b.take(n),
    ensures
        scan(a, d, n) == scan(b, d, n),
    decreases n,
{
    if n > 0 {
        assert(a.take(n - 1) =~= a.take(n).take(n - 1));
        assert(b.take(n - 1) =~= b.take(n).take(n - 1));
        lemma_scan_prefix(a, b, d, n - 1);
        assert(a[n - 1] == a.take(n)[n - 1]);
        assert(b[n - 1] == b.take(n)[n - 1]);
    }
}

proof fn lemma_chain_concat(a: Seq<Seq<char>>, b: Seq<Seq<char>>, d: int)
    ensures
        chain(a + b, d) == (match chain(a, d) {
            Some(m) => chain(b, m),
            None => None,
        }),
    decreases b.len(),
{
    if b.len() == 0 {
        assert(a + b =~= a);
    } else {
        lemma_chain_concat(a, b.drop_last(), d);
        assert((a + b).drop_last() =~= a + b.drop_last());
        assert((a + b).last() == b.last());
    }
}

proof fn lemma_leading_spaces(a: int, x: Seq<char>)
    requires
        a >= 0,
    ensures
        leading_ws(spaces(a) + x) == a + leading_ws(x),
    decreases a,
{
    if a > 0 {
        assert((spaces(a) + x)[0] == ' ');
        assert((spaces(a) + x).drop_first() =~= spaces(a - 1) + x);
        lemma_leading_spaces(a - 1, x);
    } else {
        assert(spaces(a) + x =~= x);
    }
}

proof fn lemma_trailing_spaces(x: Seq<char>, b: int)
    requires
        b >= 0,
    ensures
        trailing_ws(x + spaces(b)) == b + trailing_ws(x),
    decreases b,
{
    if b > 0 {
        assert((x + spaces(b)).last() == ' ');
        assert((x + spaces(b)).drop_last() =~= x + spaces(b - 1));
        lemma_trailing_spaces(x, b - 1);
    } else {
        assert(x + spaces(b) =~= x);
    }
}

/// Trimming a good item padded with spaces on both sides gives the item.
proof fn lemma_trim_padded(a: int, x: Seq<char>, b: int)
    requires
        a >= 0,
        b >= 0,
        x.len() > 0,
        !white_space(x[0]),
        !white_space(x.last()),
    ensures
        trim(spaces(a) + x + spaces(b)) == x,
{
    let s = spaces(a) + (x + spaces(b));
    assert(spaces(a) + x + spaces(b) =~= s);
    lemma_leading_spaces(a, x + spaces(b));
    assert(leading_ws(x + spaces(b)) == 0);
    let t = s.skip(a);
    assert(t =~= x + spaces(b));
    lemma_trailing_spaces(x, b);
    assert(trailing_ws(x) == 0);
    assert(t.take(t.len() - b) =~= x);
}

/// What the item scanner keeps true on a line that opens with a character
/// other than whitespace: the items read so far are good and chain from the
/// starting depth, and the item being read, scanned alone from where the
/// chain ends, gives the same state.
pub open spec fn scan_ok(s: Seq<char>, d0: int, n: int) -> bool {
    let st = scan(s, d0, n);
    &&& chain(st.2, d0) is Some
    &&& forall|k: int| 0 <= k < st.2.len() ==> good_item(#[trigger] st.2[k])
    &&& st.3 ==> {
        let e = chain(st.2, d0)->0;
        &&& st.0 >= 1
        &&& e >= 1
        &&& st.1.len() == 0 ==> st.0 == e && (n > 0 ==> st.0 == 1)
        &&& st.1.len() > 0 ==> {
            &&& scan(st.1, e, st.1.len() as int) == (st.0, st.1, Seq::<Seq<char>>::empty(), true)
            &&& !white_space(st.1[0])
            &&& st.1.last() == s[n - 1]
            &&& no_nl(st.1)
            &&& (st.0 == 1 ==> !white_space(st.1.last()))
        }
    }
    &&& !st.3 ==> chain(st.2, d0) == Some(1int)
}

proof fn lemma_chain_push_whole(xs: Seq<Seq<char>>, d0: int, x: Seq<char>, d: int)
    requires
        chain(xs, d0) is Some,
        chain(xs, d0)->0 >= 1,
        x.len() > 0,
        scan(x, chain(xs, d0)->0, x.len() as int) == (d, x, Seq::<Seq<char>>::empty(), true),
    ensures
        chain(xs.push(x), d0) == Some(d),
{
    let e = chain(xs, d0)->0;
    assert(xs.push(x).drop_last() =~= xs);
    assert(xs.push(x).last() == x);
    assert(line_items(x, e).1 =~= seq![x]);
}

proof fn lemma_scan_ok(s: Seq<char>, d0: int, n: int)
    requires
        d0 >= 1,
        0 <= n <= s.len(),
        s.len() > 0 ==> !white_space(s[0]),
        no_nl(s),
    ensures
        scan_ok(s, d0, n),
    decreases n,
{
    if n == 0 {
        return;
    }
    lemma_scan_ok(s, d0, n - 1);
    let st = scan(s, d0, n - 1);
    if !st.3 {
        return;
    }
    let c = s[n - 1];
    let e = chain(st.2, d0)->0;
    let d = st.0;
    let cur = st.1;
    let m = cur.len() as int;
    let cur2 = cur.push(c);
    assert(cur2.take(m) =~= cur.take(m));
    lemma_scan_prefix(cur2, cur, e, m);
    assert(scan(cur, e, m) == (d, cur, Seq::<Seq<char>>::empty(), true)) by {
        if m == 0 {
            assert(cur =~= Seq::<char>::empty());
        }
    }
    assert(cur2[m] == c);
    assert(c != '\n');
    let st2 = scan(s, d0, n);
    assert(st2 == step(st, c));
    if c == '(' {
        assert(cur2.last() == c);
        if m > 0 {
            assert(cur2[0] == cur[0]);
        }
        assert(no_nl(cur2)) by {
            assert forall|k: int| 0 <= k < cur2.len() implies cur2[k] != '\n' by {
                if k < m {
                    assert(cur2[k] == cur[k]);
                }
            }
        }
    } else if c == ')' {
        if d - 1 == 0 {
            if m > 0 {
                lemma_chain_push_whole(st.2, d0, cur, d);
            }
        } else {
            assert(cur2.last() == c);
            if m > 0 {
                assert(cur2[0] == cur[0]);
            }
            assert(no_nl(cur2)) by {
                assert forall|k: int| 0 <= k < cur2.len() implies cur2[k] != '\n' by {
                    if k < m {
                        assert(cur2[k] == cur[k]);
                    }
                }
            }
        }
    } else if white_space(c) && d == 1 {
        if m > 0 {
            lemma_chain_push_whole(st.2, d0, cur, d);
            assert(st2.2 == st.2.push(cur));
            assert forall|k: int| 0 <= k < st2.2.len() implies good_item(#[trigger] st2.2[k]) by {
                if k < st.2.len() {
                    assert(st2.2[k] == st.2[k]);
                }
            }
        }
    } else {
        assert(cur2.last() == c);
        if m > 0 {
            assert(cur2[0] == cur[0]);
        } else {
            assert(!white_space(c));
        }
        assert(no_nl(cur2)) by {
            assert forall|k: int| 0 <= k < cur2.len() implies cur2[k] != '\n' by {
                if k < m {
                    assert(cur2[k] == cur[k]);
                }
            }
        }
    }
}

proof fn lemma_line_chain(s: Seq<char>, d0: int)
    requires
        d0 >= 1,
        s.len() > 0 ==> !white_space(s[0]) && !white_space(s.last()),
        no_nl(s),
    ensures
        chain(line_items(s, d0).1, d0) == Some(if line_items(s, d0).2 { line_items(s, d0).0 } else { 1int }),
        forall|k: int| 0 <= k < line_items(s, d0).1.len() ==> good_item(#[trigger] line_items(s, d0).1[k]),
        line_items(s, d0).2 ==> line_items(s, d0).0 >= 1,
{
    lemma_scan_ok(s, d0, s.len() as int);
    let st = scan(s, d0, s.len() as int);
    if st.3 && st.1.len() > 0 {
        lemma_chain_push_whole(st.2, d0, st.1, st.0);
        let its = st.2.push(st.1);
        assert forall|k: int| 0 <= k < its.len() implies good_item(#[trigger] its[k]) by {
            if k < st.2.len() {
                assert(its[k] == st.2[k]);
            }
        }
    }
}

proof fn lemma_trim_ends(x: Seq<char>)
    ensures
        trim(x).len() > 0 ==> !white_space(trim(x)[0]) && !white_space(trim(x).last()),
        no_nl(x) ==> no_nl(trim(x)),
{
    crate::text::lemma_leading_ws(x);
    let t = trim_start(x);
    lemma_trailing_ws_ends(t);
    let r = trim(x);
    if r.len() > 0 {
        assert(r[0] == t[0]);
        assert(t[0] == x[leading_ws(x) as int]);
        assert(r.last() == t[t.len() - trailing_ws(t) - 1]);
    }
    if no_nl(x) {
        assert forall|k: int| 0 <= k < r.len() implies r[k] != '\n' by {
            assert(r[k] == x[k + leading_ws(x)]);
        }
    }
}

proof fn lemma_trailing_ws_ends(s: Seq<char>)
    ensures
        trailing_ws(s) <= s.len(),
        trailing_ws(s) < s.len() ==> !white_space(s[s.len() - trailing_ws(s) - 1]),
    decreases s.len(),
{
    if s.len() > 0 && white_space(s.last()) {
        lemma_trailing_ws_ends(s.drop_last());
        if trailing_ws(s) < s.len() {
            assert(s[s.len() - trailing_ws(s) - 1] == s.drop_last()[s.drop_last().len() - trailing_ws(s.drop_last()) - 1]);
        }
    }
}

pub open spec fn lines_ok(lines: Seq<Seq<char>>) -> bool {
    forall|k: int| 0 <= k < lines.len() ==> no_nl(#[trigger] lines[k])
}

proof fn lemma_block_rest_chain(lines: Seq<Seq<char>>, j: int, d: int, items: Seq<Seq<char>>)
    requires
        0 <= j <= lines.len(),
        d >= 1,
        chain(items, 1) == Some(d),
        forall|k: int| 0 <= k < items.len() ==> good_item(#[trigger] items[k]),
        lines_ok(lines),
    ensures
        ({
            let r = block_rest(lines, j, d, items);
            &&& chain(r.0, 1) is Some
            &&& chain(r.0, 1)->0 >= 1
            &&& (chain(r.0, 1)->0 != 1 ==> r.1 == lines.len())
            &&& forall|k: int| 0 <= k < r.0.len() ==> good_item(#[trigger] r.0[k])
            &&& (j < lines.len() ==> j < r.1 <= lines.len())
            &&& (j == lines.len() ==> r.1 == j)
        }),
    decreases lines.len() - j,
{
    if j < lines.len() {
        let t = trim(lines[j]);
        lemma_trim_ends(lines[j]);
        lemma_line_chain(t, d);
        let lr = line_items(t, d);
        lemma_chain_concat(items, lr.1, 1);
        let all = items + lr.1;
        assert forall|k: int| 0 <= k < all.len() implies good_item(#[trigger] all[k]) by {
            if k < items.len() {
                assert(all[k] == items[k]);
            } else {
                assert(all[k] == lr.1[k - items.len()]);
            }
        }
        if lr.2 {
            lemma_block_rest_chain(lines, j + 1, lr.0, all);
        }
    }
}

proof fn lemma_block_items_chain(lines: Seq<Seq<char>>, start: int, rest: Seq<char>)
    requires
        0 <= start < lines.len(),
        lines_ok(lines),
        rest.len() > 0 ==> !white_space(rest[0]) && !white_space(rest.last()),
        no_nl(rest),
    ensures
        ({
            let r = block_items(lines, start, rest);
            &&& chain(r.0, 1) is Some
            &&& chain(r.0, 1)->0 >= 1
            &&& (chain(r.0, 1)->0 != 1 ==> r.1 == lines.len())
            &&& forall|k: int| 0 <= k < r.0.len() ==> good_item(#[trigger] r.0[k])
            &&& start < r.1 <= lines.len()
        }),
{
    lemma_line_chain(rest, 1);
    let lr = line_items(rest, 1);
    assert(Seq::<Seq<char>>::empty() + lr.1 =~= lr.1);
    if lr.2 {
        lemma_block_rest_chain(lines, start + 1, lr.0, lr.1);
    }
}

proof fn lemma_name_len_plain(x: Seq<char>)
    requires
        forall|k: int| 0 <= k < x.len() ==> name_char(#[trigger] x[k]),
    ensures
        name_len(x) == x.len(),
    decreases x.len(),
{
    if x.len() > 0 {
        assert forall|k: int| 0 <= k < x.drop_first().len() implies name_char(#[trigger] x.drop_first()[k]) by {
            assert(x.drop_first()[k] == x[k + 1]);
        }
        lemma_name_len_plain(x.drop_first());
    }
}

/// The header line of an aligned block reads back as the same indentation
/// and name, with nothing after the name.
proof fn lemma_header(ind: int, name: Seq<char>)
    requires
        ind >= 0,
        forall|k: int| 0 <= k < name.len() ==> name_char(#[trigger] name[k]),
    ensures
        ({
            let h = spaces(ind) + layer_keyword() + seq![' '] + name;
            let after = after_keyword(h, layer_keyword());
            &&& crate::text::occurs_at(trim(h), layer_keyword(), 0)
            &&& leading_ws(h) == ind
            &&& after == name
            &&& after.take(name_len(after) as int) == name
            &&& trim(after.skip(name.len() as int)) == Seq::<char>::empty()
        }),
{
    let kw = layer_keyword();
    let h = spaces(ind) + kw + seq![' '] + name;
    let x = kw + seq![' '] + name;
    assert(h =~= spaces(ind) + x);
    assert(x[0] == '(');
    lemma_leading_spaces(ind, x);
    assert(leading_ws(x) == 0);
    if name.len() > 0 {
        assert(x.last() == name.last());
        assert(h =~= spaces(ind) + x + spaces(0));
        lemma_trim_padded(ind, x, 0);
        assert(trim(h).take(9) =~= kw);
        let u = trim(h).skip(9);
        assert(u =~= spaces(1) + name + spaces(0));
        lemma_trim_padded(1, name, 0);
    } else {
        assert(h =~= spaces(ind) + kw + spaces(1));
        assert(kw.last() == 'r');
        lemma_trim_padded(ind, kw, 1);
        assert(trim(h).take(9) =~= kw);
        assert(trim(h).skip(9) =~= Seq::<char>::empty());
        assert(trim(Seq::<char>::empty()) =~= Seq::<char>::empty());
        assert(name =~= Seq::<char>::empty());
    }
    lemma_name_len_plain(name);
    assert(name.take(name.len() as int) =~= name);
    assert(name.skip(name.len() as int) =~= Seq::<char>::empty());
    assert(trim(Seq::<char>::empty()) =~= Seq::<char>::empty());
}

proof fn lemma_chain_prefix(xs: Seq<Seq<char>>, d: int, m: int)
    requires
        0 <= m <= xs.len(),
        chain(xs, d) is Some,
    ensures
        chain(xs.take(m), d) is Some,
{
    lemma_chain_concat(xs.take(m), xs.skip(m), d);
    assert(xs.take(m) + xs.skip(m) =~= xs);
}

/// The body lines of an aligned block read back item by item.
proof fn lemma_body_reads(
    lines: Seq<Seq<char>>,
    j: int,
    ind: int,
    its: Seq<Seq<char>>,
    w: Seq<nat>,
    m: int,
)
    requires
        0 <= j,
        ind >= 0,
        0 <= m <= its.len(),
        its.len() == w.len(),
        j + 1 + its.len() <= lines.len(),
        chain(its, 1) is Some,
        forall|k: int| 0 <= k < its.len() ==> good_item(#[trigger] its[k]),
        forall|k: int|
            0 <= k < its.len() ==> #[trigger] lines[j + 1 + k] == spaces(ind + 2) + padded(
                its[k],
                grapheme_count(its[k]) as int,
                w[k] as int,
            ),
    ensures
        block_rest(lines, j + 1, 1, Seq::empty()) == block_rest(
            lines,
            j + 1 + m,
            chain(its.take(m), 1)->0,
            its.take(m),
        ),
    decreases m,
{
    if m == 0 {
        assert(its.take(0) =~= Seq::<Seq<char>>::empty());
    } else {
        lemma_body_reads(lines, j, ind, its, w, m - 1);
        lemma_chain_prefix(its, 1, m);
        let pre = its.take(m);
        assert(pre.drop_last() =~= its.take(m - 1));
        assert(pre.last() == its[m - 1]);
        let x = its[m - 1];
        let g = grapheme_count(x) as int;
        let pad = if g < w[m - 1] as int { w[m - 1] as int - g } else { 0 };
        assert(lines[j + 1 + (m - 1)] =~= spaces(ind + 2) + x + spaces(pad));
        lemma_trim_padded(ind + 2, x, pad);
        assert(its.take(m - 1) + seq![x] =~= pre);
    }
}

proof fn lemma_close_line(ind: int, d: int)
    requires
        ind >= 0,
        d >= 1,
    ensures
        trim(spaces(ind) + seq![')']) == seq![')'],
        d == 1 ==> line_items(seq![')'], d) == (0int, Seq::<Seq<char>>::empty(), false),
        d != 1 ==> line_items(seq![')'], d) == (d - 1, seq![seq![')']], true),
{
    assert(spaces(ind) + seq![')'] =~= spaces(ind) + seq![')'] + spaces(0));
    lemma_trim_padded(ind, seq![')'], 0);
    let c = seq![')'];
    assert(scan(c, d, 0) == (d, Seq::<char>::empty(), Seq::<Seq<char>>::empty(), true));
    if d != 1 {
        assert(Seq::<char>::empty().push(')') =~= c);
        assert(Seq::<Seq<char>>::empty().push(c) =~= seq![c]);
    }
}

/// A block in the form aligning gives it reads back as itself.
proof fn lemma_rendered_block(
    lines: Seq<Seq<char>>,
    j: int,
    ind: int,
    name: Seq<char>,
    its: Seq<Seq<char>>,
    w: Seq<nat>,
)
    requires
        0 <= j,
        ind >= 0,
        its.len() == w.len(),
        chain(its, 1) is Some,
        chain(its, 1)->0 >= 1,
        forall|k: int| 0 <= k < its.len() ==> good_item(#[trigger] its[k]),
        forall|k: int| 0 <= k < name.len() ==> name_char(#[trigger] name[k]),
        j + its.len() + 2 <= lines.len(),
        lines[j] == spaces(ind) + layer_keyword() + seq![' '] + name,
        forall|k: int|
            0 <= k < its.len() ==> #[trigger] lines[j + 1 + k] == spaces(ind + 2) + padded(
                its[k],
                grapheme_count(its[k]) as int,
                w[k] as int,
            ),
        lines[j + its.len() + 1] == spaces(ind) + seq![')'],
        chain(its, 1)->0 != 1 ==> lines.len() == j + its.len() + 2,
    ensures
        opens(lines, j, layer_keyword()),
        layer_block(lines, j, w) == (lines.subrange(j, j + its.len() + 2), j + its.len() + 2),
{
    let n = its.len() as int;
    let kw = layer_keyword();
    lemma_header(ind, name);
    let after = after_keyword(lines[j], kw);
    assert(scan(Seq::<char>::empty(), 1, 0) == (1int, Seq::<char>::empty(), Seq::<Seq<char>>::empty(), true));
    assert(line_items(Seq::<char>::empty(), 1) == (1int, Seq::<Seq<char>>::empty(), true));
    assert(block_items(lines, j, Seq::<char>::empty()) == block_rest(lines, j + 1, 1, Seq::empty()));
    lemma_body_reads(lines, j, ind, its, w, n);
    assert(its.take(n) =~= its);
    let dn = chain(its, 1)->0;
    lemma_close_line(ind, dn);
    assert(lines[j + 1 + n] == spaces(ind) + seq![')']);
    if dn == 1 {
        assert(its + Seq::<Seq<char>>::empty() =~= its);
        assert(block_items(lines, j, Seq::<char>::empty()) == (its, j + n + 2));
        let b = layer_block(lines, j, w);
        let body = Seq::new(
            its.len(),
            |k: int| spaces(ind + 2) + padded(its[k], grapheme_count(its[k]) as int, w[k] as int),
        );
        assert(b.0 =~= seq![lines[j]] + body + seq![spaces(ind) + seq![')']]);
        assert(b.0 =~= lines.subrange(j, j + n + 2)) by {
            assert forall|k: int| 0 <= k < n + 2 implies b.0[k] == lines.subrange(j, j + n + 2)[k] by {
                if 1 <= k <= n {
                    assert(b.0[k] == body[k - 1]);
                    assert(lines[j + 1 + (k - 1)] == body[k - 1]);
                }
            }
        }
    } else {
        assert(block_rest(lines, j + n + 2, dn - 1, its + seq![seq![')']]) == (its + seq![seq![')']], j + n + 2));
        assert((its + seq![seq![')']]).len() == n + 1);
    }
}

proof fn lemma_block_rest_bounds(lines: Seq<Seq<char>>, j: int, d: int, items: Seq<Seq<char>>)
    requires
        0 <= j <= lines.len(),
    ensures
        j < lines.len() ==> j < block_rest(lines, j, d, items).1 <= lines.len(),
        j == lines.len() ==> block_rest(lines, j, d, items).1 == j,
    decreases lines.len() - j,
{
    if j < lines.len() {
        let lr = line_items(trim(lines[j]), d);
        if lr.2 {
            lemma_block_rest_bounds(lines, j + 1, lr.0, items + lr.1);
        }
    }
}

/// Reading a block depends only on the lines it spans.
proof fn lemma_block_rest_frame(
    a: Seq<Seq<char>>,
    j: int,
    b: Seq<Seq<char>>,
    k: int,
    d: int,
    items: Seq<Seq<char>>,
)
    requires
        0 <= j <= a.len(),
        0 <= k,
        k + (block_rest(a, j, d, items).1 - j) <= b.len(),
        forall|t: int|
            0 <= t < block_rest(a, j, d, items).1 - j ==> #[trigger] b[k + t] == a[j + t],
        block_rest(a, j, d, items).1 < a.len() || b.len() - k == a.len() - j,
    ensures
        block_rest(b, k, d, items) == (block_rest(a, j, d, items).0, k + block_rest(a, j, d, items).1 - j),
    decreases a.len() - j,
{
    lemma_block_rest_bounds(a, j, d, items);
    if j < a.len() {
        assert(b[k + 0] == a[j + 0]);
        let lr = line_items(trim(a[j]), d);
        if lr.2 {
            let r = block_rest(a, j + 1, d, items);
            assert forall|t: int| 0 <= t < block_rest(a, j + 1, lr.0, items + lr.1).1 - (j + 1) implies #[trigger] b[k + 1 + t] == a[j + 1 + t] by {
                assert(b[k + (t + 1)] == a[j + (t + 1)]);
            }
            lemma_block_rest_frame(a, j + 1, b, k + 1, lr.0, items + lr.1);
        }
    }
}

proof fn lemma_name_len_chars(x: Seq<char>)
    ensures
        name_len(x) <= x.len(),
        forall|k: int| 0 <= k < name_len(x) ==> name_char(#[trigger] x[k]),
    decreases x.len(),
{
    if x.len() > 0 && name_char(x[0]) {
        lemma_name_len_chars(x.drop_first());
        assert forall|k: int| 0 <= k < name_len(x) implies name_char(#[trigger] x[k]) by {
            if k > 0 {
                assert(x[k] == x.drop_first()[k - 1]);
            }
        }
    }
}

/// What the header of a layer block opening at line `i` yields, as plain
/// facts: the text after the name is trimmed, the name has no whitespace,
/// and neither has a line feed.
proof fn lemma_header_parts(line: Seq<char>)
    requires
        no_nl(line),
        crate::text::occurs_at(trim(line), layer_keyword(), 0),
    ensures
        ({
            let after = after_keyword(line, layer_keyword());
            let name = after.take(name_len(after) as int);
            let rest = trim(after.skip(name.len() as int));
            &&& forall|k: int| 0 <= k < name.len() ==> name_char(#[trigger] name[k])
            &&& no_nl(name)
            &&& no_nl(rest)
            &&& (rest.len() > 0 ==> !white_space(rest[0]) && !white_space(rest.last()))
        }),
{
    let t = trim(line);
    lemma_trim_ends(line);
    let u = t.skip(9);
    assert(no_nl(u)) by {
        assert forall|k: int| 0 <= k < u.len() implies u[k] != '\n' by {
            assert(u[k] == t[k + 9]);
        }
    }
    lemma_trim_ends(u);
    let after = trim(u);
    lemma_name_len_chars(after);
    let name = after.take(name_len(after) as int);
    assert forall|k: int| 0 <= k < name.len() implies name_char(#[trigger] name[k]) by {
        assert(name[k] == after[k]);
    }
    assert(no_nl(name)) by {
        assert forall|k: int| 0 <= k < name.len() implies name[k] != '\n' by {
            assert(name[k] == after[k]);
        }
    }
    let v = after.skip(name.len() as int);
    assert(no_nl(v)) by {
        assert forall|k: int| 0 <= k < v.len() implies v[k] != '\n' by {
            assert(v[k] == after[k + name.len()]);
        }
    }
    lemma_trim_ends(v);
}

/// Every line that formatting yields is again without line feeds.
proof fn lemma_layout_lines_ok(lines: Seq<Seq<char>>, i: int, w: Seq<nat>)
    requires
        0 <= i <= lines.len(),
        lines_ok(lines),
    ensures
        lines_ok(layout_from(lines, i, w)),
    decreases lines.len() - i,
{
    if i < lines.len() {
        if opens(lines, i, layer_keyword()) {
            let b = layer_block(lines, i, w);
            let line = lines[i];
            lemma_header_parts(line);
            let after = after_keyword(line, layer_keyword());
            let name = after.take(name_len(after) as int);
            let rest = trim(after.skip(name.len() as int));
            lemma_block_items_chain(lines, i, rest);
            let (its, e) = block_items(lines, i, rest);
            if i < b.1 <= lines.len() {
                lemma_layout_lines_ok(lines, b.1, w);
                let out = layout_from(lines, i, w);
                assert(out == b.0 + layout_from(lines, b.1, w));
                assert forall|k: int| 0 <= k < b.0.len() implies no_nl(#[trigger] b.0[k]) by {
                    if its.len() != w.len() {
                        assert(b.0[k] == lines[i + k]);
                    } else {
                        let ind = leading_ws(line) as int;
                        if k == 0 {
                            let h = spaces(ind) + layer_keyword() + seq![' '] + name;
                            assert forall|m: int| 0 <= m < h.len() implies h[m] != '\n' by {
                                if m >= ind + 10 {
                                    assert(h[m] == name[m - ind - 10]);
                                }
                            }
                        } else if k <= its.len() {
                            let x = its[k - 1];
                            let g = grapheme_count(x) as int;
                            let l = spaces(ind + 2) + padded(x, g, w[k - 1] as int);
                            assert(b.0[k] == l);
                            assert(good_item(x));
                            assert forall|m: int| 0 <= m < l.len() implies l[m] != '\n' by {
                                if ind + 2 <= m < ind + 2 + x.len() {
                                    assert(l[m] == x[m - ind - 2]);
                                }
                            }
                        }
                    }
                }
                assert forall|k: int| 0 <= k < out.len() implies no_nl(#[trigger] out[k]) by {
                    if k >= b.0.len() {
                        assert(out[k] == layout_from(lines, b.1, w)[k - b.0.len()]);
                    }
                }
            }
        } else {
            lemma_layout_lines_ok(lines, i + 1, w);
            let out = layout_from(lines, i, w);
            assert forall|k: int| 0 <= k < out.len() implies no_nl(#[trigger] out[k]) by {
                if k > 0 {
                    assert(out[k] == layout_from(lines, i + 1, w)[k - 1]);
                }
            }
        }
    }
}

/// The lines that formatting yields from line `i` on, wherever they stand in
/// `out`, are aligned.
proof fn lemma_walk(lines: Seq<Seq<char>>, w: Seq<nat>, i: int, out: Seq<Seq<char>>, j: int)
    requires
        0 <= i <= lines.len(),
        0 <= j <= out.len(),
        out.skip(j) == layout_from(lines, i, w),
        lines_ok(lines),
    ensures
        aligned_from(out, j, w),
    decreases lines.len() - i,
{
    let tail = layout_from(lines, i, w);
    assert(tail.len() == out.len() - j);
    if i == lines.len() {
        return;
    }
    if !opens(lines, i, layer_keyword()) {
        assert(tail.len() >= 1);
        assert(out[j] == tail[0]) by {
            assert(out.skip(j)[0] == out[j]);
        }
        assert(tail[0] == lines[i]);
        assert(out.skip(j + 1) =~= layout_from(lines, i + 1, w)) by {
            assert(out.skip(j + 1) =~= out.skip(j).skip(1));
        }
        lemma_walk(lines, w, i + 1, out, j + 1);
        return;
    }
    let line = lines[i];
    lemma_header_parts(line);
    let ind = leading_ws(line) as int;
    let after = after_keyword(line, layer_keyword());
    let name = after.take(name_len(after) as int);
    let rest = trim(after.skip(name.len() as int));
    lemma_block_items_chain(lines, i, rest);
    let (its, e) = block_items(lines, i, rest);
    let b = layer_block(lines, i, w);
    assert(b.1 == e);
    let n = b.0.len() as int;
    assert(tail == b.0 + layout_from(lines, e, w));
    assert(n >= 1) by {
        if its.len() != w.len() {
            assert(b.0 == lines.subrange(i, e));
        }
    }
    assert forall|t: int| 0 <= t < n implies #[trigger] out[j + t] == b.0[t] by {
        assert(out.skip(j)[t] == out[j + t]);
    }
    assert(out.skip(j + n) =~= layout_from(lines, e, w)) by {
        assert(out.skip(j + n) =~= out.skip(j).skip(n));
    }
    if e == lines.len() {
        assert(layout_from(lines, e, w).len() == 0);
    }
    if its.len() != w.len() {
        assert(b.0 == lines.subrange(i, e));
        assert(out[j + 0] == b.0[0]);
        assert(out[j] == line);
        // The block reads the same from `out`.
        let lr = line_items(rest, 1);
        if lr.2 {
            lemma_block_rest_bounds(lines, i + 1, lr.0, lr.1);
            assert forall|t: int| 0 <= t < block_rest(lines, i + 1, lr.0, lr.1).1 - (i + 1) implies #[trigger] out[j + 1 + t] == lines[i + 1 + t] by {
                assert(out[j + (1 + t)] == b.0[1 + t]);
            }
            lemma_block_rest_frame(lines, i + 1, out, j + 1, lr.0, lr.1);
        }
        assert(block_items(out, j, rest) == (its, j + n));
        assert(layer_block(out, j, w) == (out.subrange(j, j + n), j + n)) by {
            assert(out.subrange(j, j + n) =~= b.0);
        }
        lemma_walk(lines, w, e, out, j + n);
    } else {
        let nn = its.len() as int;
        assert(n == nn + 2);
        assert(out[j + 0] == b.0[0]);
        assert(out[j] == spaces(ind) + layer_keyword() + seq![' '] + name);
        assert forall|k: int| 0 <= k < nn implies #[trigger] out[j + 1 + k] == spaces(ind + 2) + padded(
            its[k],
            grapheme_count(its[k]) as int,
            w[k] as int,
        ) by {
            assert(out[j + (1 + k)] == b.0[1 + k]);
        }
        assert(out[j + (nn + 1)] == b.0[nn + 1]);
        lemma_rendered_block(out, j, ind, name, its, w);
        assert(out.subrange(j, j + n) =~= b.0);
        lemma_walk(lines, w, e, out, j + n);
    }
}

proof fn lemma_prefix_kept(lines: Seq<Seq<char>>, w: Seq<nat>, i: int, te: int)
    requires
        0 <= i <= te <= lines.len(),
        forall|k: int| i <= k < te ==> !opens(lines, k, layer_keyword()),
    ensures
        layout_from(lines, i, w) == lines.subrange(i, te) + layout_from(lines, te, w),
    decreases te - i,
{
    if i < te {
        lemma_prefix_kept(lines, w, i + 1, te);
        assert(seq![lines[i]] + (lines.subrange(i + 1, te) + layout_from(lines, te, w)) =~= lines.subrange(i, te)
            + layout_from(lines, te, w));
    } else {
        assert(lines.subrange(i, te) + layout_from(lines, te, w) =~= layout_from(lines, te, w));
    }
}

proof fn lemma_template_line_same(a: Seq<Seq<char>>, b: Seq<Seq<char>>, k: int, ti: int)
    requires
        0 <= k <= ti,
        ti < a.len(),
        ti < b.len(),
        template_line(a, k) == Some(ti),
        forall|m: int| 0 <= m <= ti ==> #[trigger] b[m] == a[m],
    ensures
        template_line(b, k) == Some(ti),
    decreases ti - k,
{
    if k < ti {
        assert(b[k] == a[k]);
        if opens(a, k, source_keyword()) {
            assert(template_line(a, k) == Some(k));
        }
        lemma_template_line_same(a, b, k + 1, ti);
    } else {
        assert(b[k] == a[k]);
        lemma_template_line_bounds(a, ti + 1);
        assert(opens(a, ti, source_keyword()));
    }
}

proof fn lemma_lines_ok_of(s: Seq<char>)
    ensures
        lines_ok(lines_of(s)),
    decreases s.len(),
{
    if s.len() > 0 {
        lemma_lines_ok_of(s.drop_last());
        crate::text::lemma_lines_of_nonempty(s.drop_last());
        let prev = lines_of(s.drop_last());
        let ls = lines_of(s);
        assert forall|k: int| 0 <= k < ls.len() implies no_nl(#[trigger] ls[k]) by {
            if s.last() != '\n' && k == prev.len() - 1 {
                let l = prev.last().push(s.last());
                assert(ls[k] == l);
                assert forall|m: int| 0 <= m < l.len() implies l[m] != '\n' by {
                    if m < l.len() - 1 {
                        assert(l[m] == prev[k][m]);
                    }
                }
            } else if k < prev.len() {
                assert(ls[k] == prev[k]);
            }
        }
    }
}

proof fn lemma_lines_of_append(a: Seq<char>, b: Seq<char>)
    requires
        no_nl(b),
    ensures
        lines_of(a + seq!['\n'] + b) == lines_of(a).push(b),
    decreases b.len(),
{
    if b.len() == 0 {
        let s = a + seq!['\n'] + b;
        assert(s.drop_last() =~= a);
        assert(s.last() == '\n');
        assert(b =~= Seq::<char>::empty());
        assert(lines_of(s) == lines_of(s.drop_last()).push(Seq::empty()));
    } else {
        let b2 = b.drop_last();
        assert(no_nl(b2)) by {
            assert forall|k: int| 0 <= k < b2.len() implies b2[k] != '\n' by {
                assert(b2[k] == b[k]);
            }
        }
        lemma_lines_of_append(a, b2);
        let s = a + seq!['\n'] + b;
        assert(s.drop_last() =~= a + seq!['\n'] + b2);
        assert(s.last() == b.last());
        assert(b.last() != '\n');
        assert(lines_of(s) =~= lines_of(a).push(b2).update(lines_of(a).len() as int, b2.push(b.last())));
        assert(b2.push(b.last()) =~= b);
        assert(lines_of(a).push(b2).update(lines_of(a).len() as int, b) =~= lines_of(a).push(b));
    }
}

proof fn lemma_lines_of_plain(x: Seq<char>)
    requires
        no_nl(x),
    ensures
        lines_of(x) == seq![x],
    decreases x.len(),
{
    if x.len() == 0 {
        assert(x =~= Seq::<char>::empty());
    } else {
        let x2 = x.drop_last();
        assert(no_nl(x2)) by {
            assert forall|k: int| 0 <= k < x2.len() implies x2[k] != '\n' by {
                assert(x2[k] == x[k]);
            }
        }
        lemma_lines_of_plain(x2);
        assert(x2.push(x.last()) =~= x);
        assert(seq![x2].update(0, x2.push(x.last())) =~= seq![x]);
    }
}

/// Splitting lines joined by line feeds gives the lines back.
proof fn lemma_lines_of_join(ls: Seq<Seq<char>>)
    requires
        ls.len() >= 1,
        lines_ok(ls),
    ensures
        lines_of(join(ls)) == ls,
    decreases ls.len(),
{
    if ls.len() == 1 {
        assert(no_nl(ls[0]));
        lemma_lines_of_plain(ls[0]);
        assert(seq![ls[0]] =~= ls);
    } else {
        let pre = ls.drop_last();
        assert(lines_ok(pre)) by {
            assert forall|k: int| 0 <= k < pre.len() implies no_nl(#[trigger] pre[k]) by {
                assert(pre[k] == ls[k]);
            }
        }
        lemma_lines_of_join(pre);
        assert(no_nl(ls[ls.len() - 1]));
        lemma_lines_of_append(join(pre), ls.last());
        assert(pre.push(ls.last()) =~= ls);
    }
}

/// Formatting a formatted document changes nothing, provided no layer block
/// opens before the source-layout block has ended (a layer block there
/// could change the layout it is aligned to).
pub proof fn law_formatting_is_idempotent(text: Seq<char>)
    requires
        match template_line(lines_of(text), 0) {
            None => true,
            Some(ti) => forall|k: int|
                0 <= k < block_items(
                    lines_of(text),
                    ti,
                    after_keyword(lines_of(text)[ti], source_keyword()),
                ).1 ==> !opens(lines_of(text), k, layer_keyword()),
        },
    ensures
        formatted(formatted(text)) == formatted(text),
{
    let lines = lines_of(text);
    match template_widths(lines) {
        None => {},
        Some(w) => {
            let ti = template_line(lines, 0)->0;
            lemma_template_line_bounds(lines, 0);
            let src = after_keyword(lines[ti], source_keyword());
            let te = block_items(lines, ti, src).1;
            let lr = line_items(src, 1);
            if lr.2 {
                lemma_block_rest_bounds(lines, ti + 1, lr.0, lr.1);
            }
            assert(ti < te <= lines.len());
            lemma_prefix_kept(lines, w, 0, te);
            let out = layout_from(lines, 0, w);
            lemma_lines_ok_of(text);
            lemma_layout_lines_ok(lines, 0, w);
            assert(out.len() >= 1) by {
                assert(lines.subrange(0, te).len() >= 1);
            }
            lemma_lines_of_join(out);
            // The layout block is untouched, so the widths are the same.
            assert forall|m: int| 0 <= m < te implies #[trigger] out[m] == lines[m] by {
                assert(out[m] == lines.subrange(0, te)[m]);
            }
            lemma_template_line_same(lines, out, 0, ti);
            if te == lines.len() {
                assert(layout_from(lines, te, w).len() == 0);
                assert(out =~= lines);
            } else {
                if lr.2 {
                    assert forall|t: int| 0 <= t < block_rest(lines, ti + 1, lr.0, lr.1).1 - (ti + 1) implies #[trigger] out[ti + 1 + t] == lines[ti + 1 + t] by {
                        assert(out[ti + 1 + t] == lines[ti + 1 + t]);
                    }
                    lemma_block_rest_frame(lines, ti + 1, out, ti + 1, lr.0, lr.1);
                }
            }
            assert(template_widths(out) == Some(w));
            assert(out.skip(0) =~= out);
            lemma_walk(lines, w, 0, out, 0);
            law_aligned_document_is_fixed(join(out));
        },
    }
}

proof fn lemma_template_line_bounds(lines: Seq<Seq<char>>, i: int)
    requires
        0 <= i,
    ensures
        match template_line(lines, i) {
            Some(t) => i <= t < lines.len() && crate::text::occurs_at(trim(lines[t]), source_keyword(), 0),
            None => true,
        },
    decreases lines.len() - i,
{
    if i < lines.len() && !opens(lines, i, source_keyword()) {
        lemma_template_line_bounds(lines, i + 1);
    }
}

} // verus!
