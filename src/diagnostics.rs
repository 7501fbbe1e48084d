//! Turning the validator's free-text error report into a range and a short
//! message.

use vstd::prelude::*;
use crate::text::{
    from_chars, lines_of, matches_at, occurs_at, slice_chars, split_lines, to_chars, trim, trimmed,
    views,
};
use crate::types::{Diagnostic, SourceRange};

verus! {

/// The first index from `from` on where `pat` occurs in `s`.
pub open spec fn find_spec(s: Seq<char>, pat: Seq<char>, from: int) -> Option<int>
    decreases s.len() + 1 - from,
{
    if from < 0 || from + pat.len() > s.len() {
        None
    } else if occurs_at(s, pat, from) {
        Some(from)
    } else {
        find_spec(s, pat, from + 1)
    }
}

pub proof fn lemma_find_bounds(s: Seq<char>, pat: Seq<char>, from: int)
    ensures
        match find_spec(s, pat, from) {
            Some(i) => from <= i && i + pat.len() <= s.len() && occurs_at(s, pat, i),
            None => true,
        },
    decreases s.len() + 1 - from,
{
    if from < 0 || from + pat.len() > s.len() {
    } else if occurs_at(s, pat, from) {
    } else {
        lemma_find_bounds(s, pat, from + 1);
    }
}

pub open spec fn contains(s: Seq<char>, pat: Seq<char>) -> bool {
    find_spec(s, pat, 0) is Some
}

/// The first index from `from` on where `pat` occurs in `s`.
pub fn find_from(s: &[char], pat: &[char], from: usize) -> (r: Option<usize>)
    ensures
        match find_spec(s@, pat@, from as int) {
            Some(i) => r == Some(i as usize) && from <= i && i + pat@.len() <= s@.len(),
            None => r is None,
        },
        r is Some ==> r->0 + pat.len() <= s.len(),
{
    proof {
        lemma_find_bounds(s@, pat@, from as int);
    }
    if pat.len() == 0 {
        if from <= s.len() {
            assert(s@.subrange(from as int, from as int) =~= pat@);
            return Some(from);
        }
        return None;
    }
    let mut i: usize = from;
    while i <= s.len() && pat.len() <= s.len() - i
        invariant
            from <= i,
            pat@.len() > 0,
            find_spec(s@, pat@, from as int) == find_spec(s@, pat@, i as int),
        decreases s@.len() + 1 - i,
    {
        if matches_at(s, pat, i) {
            return Some(i);
        }
        i = i + 1;
    }
    None
}

pub open spec fn digit_value(c: char) -> nat {
    (c as u32 - '0' as u32) as nat
}

pub open spec fn is_digit(c: char) -> bool {
    '0' <= c && c <= '9'
}

/// The value of a string of decimal digits.
pub open spec fn decimal(s: Seq<char>) -> nat
    decreases s.len(),
{
    if s.len() == 0 {
        0
    } else {
        decimal(s.drop_last()) * 10 + digit_value(s.last())
    }
}

pub open spec fn all_digits(s: Seq<char>) -> bool {
    forall|i: int| 0 <= i < s.len() ==> is_digit(#[trigger] s[i])
}

pub open spec fn unsigned_digits(s: Seq<char>) -> Seq<char> {
    if s.len() > 0 && s[0] == '+' {
        s.drop_first()
    } else {
        s
    }
}

/// A `u32` written in decimal, with an optional leading `+`, as Rust's
/// `str::parse::<u32>` reads it.
pub open spec fn parse_u32(s: Seq<char>) -> Option<u32> {
    let d = unsigned_digits(s);
    if d.len() == 0 || !all_digits(d) {
        None
    } else if decimal(d) > u32::MAX {
        None
    } else {
        Some(decimal(d) as u32)
    }
}

/// Reads a `u32` written in decimal, with an optional leading `+`.
pub fn parse_decimal_u32(s: &[char]) -> (r: Option<u32>)
    ensures
        r == parse_u32(s@),
{
    let start: usize = if s.len() > 0 && s[0] == '+' { 1 } else { 0 };
    let ghost d = unsigned_digits(s@);
    assert(d =~= s@.skip(start as int));
    if start == s.len() {
        return None;
    }
    let mut acc: u64 = 0;
    let mut over = false;
    let mut i: usize = start;
    while i < s.len()
        invariant
            start <= i <= s@.len(),
            d == s@.skip(start as int),
            d == unsigned_digits(s@),
            forall|j: int| 0 <= j < i - start ==> is_digit(#[trigger] d[j]),
            !over ==> acc as nat == decimal(d.take(i - start)) && acc <= u32::MAX,
            over ==> decimal(d.take(i - start)) > u32::MAX,
        decreases s@.len() - i,
    {
        let c = s[i];
        assert(d[i - start] == c);
        if !('0' <= c && c <= '9') {
            assert(!is_digit(d[i - start]));
            assert(d.len() > 0);
            return None;
        }
        let ghost pre = d.take(i - start + 1);
        assert(pre.drop_last() =~= d.take(i - start));
        assert(pre.last() == c);
        let v = (c as u32 - '0' as u32) as u64;
        if !over {
            acc = acc * 10 + v;
            if acc > 4294967295u64 {
                over = true;
            }
        } else {
            assert(decimal(pre) >= decimal(d.take(i - start))) by (nonlinear_arith)
                requires
                    decimal(pre) == decimal(d.take(i - start)) * 10 + digit_value(c),
            ;
        }
        i = i + 1;
    }
    assert(d.take(s@.len() - start) =~= d);
    if over {
        None
    } else {
        Some(acc as u32)
    }
}

pub open spec fn start_marker() -> Seq<char> {
    seq!['\u{256D}', '\u{2500}', '\u{25B6}']
}

pub open spec fn mid_marker() -> Seq<char> {
    seq!['\u{251C}', '\u{2500}', '\u{25B6}']
}

pub open spec fn end_marker() -> Seq<char> {
    seq!['\u{2570}', '\u{2500}', '\u{2500}']
}

pub open spec fn gutter_bar() -> Seq<char> {
    seq!['\u{2502}']
}

/// The number in a rendered line's gutter: what stands before the first
/// gutter bar, trimmed, read as a `u32`.
pub open spec fn gutter_number(line: Seq<char>) -> Option<u32> {
    let head = match find_spec(line, gutter_bar(), 0) {
        Some(i) => line.take(i),
        None => line,
    };
    parse_u32(trim(head))
}

pub open spec fn dec(n: u32) -> u32 {
    if n == 0 {
        0
    } else {
        (n - 1) as u32
    }
}

/// The zero-based start and end lines that the range markers of the first
/// `n` report lines give: the start from the first line with a start marker
/// and a readable gutter number, the end from the last such line with an
/// end marker.
pub open spec fn markers(lines: Seq<Seq<char>>, n: int) -> (Option<u32>, Option<u32>)
    decreases n,
{
    if n <= 0 {
        (None, None)
    } else {
        let prev = markers(lines, n - 1);
        let line = lines[n - 1];
        let g = gutter_number(line);
        let s = if prev.0 is None && contains(line, start_marker()) && g is Some {
            Some(dec(g->0))
        } else {
            prev.0
        };
        let e = if (contains(line, mid_marker()) || contains(line, end_marker())) && g is Some {
            Some(dec(g->0))
        } else {
            prev.1
        };
        (s, e)
    }
}

pub open spec fn kbd_marker() -> Seq<char> {
    seq!['.', 'k', 'b', 'd', ':']
}

/// The start line, start column and end line of a `[file.kbd:line:col]`
/// locator: the text from the first `.kbd:` to the next `]`, its first two
/// colon-separated fields read as one-based numbers.
pub open spec fn locator(report: Seq<char>) -> Option<(u32, u32, u32)> {
    match find_spec(report, kbd_marker(), 0) {
        None => None,
        Some(p) => {
            let after = report.skip(p + 5);
            match find_spec(after, seq![']'], 0) {
                None => None,
                Some(q) => {
                    let coords = after.take(q);
                    match find_spec(coords, seq![':'], 0) {
                        None => None,
                        Some(c) => {
                            let second = coords.skip(c + 1);
                            let second = match find_spec(second, seq![':'], 0) {
                                Some(c2) => second.take(c2),
                                None => second,
                            };
                            match (parse_u32(coords.take(c)), parse_u32(second)) {
                                (Some(l), Some(k)) => Some((dec(l), dec(k), dec(l))),
                                _ => None,
                            }
                        },
                    }
                },
            }
        },
    }
}

/// Start line, start column and end line (all zero-based) of the error a
/// report describes: from its range markers where it has both, else from its
/// locator, else the first line.
pub open spec fn line_info(report: Seq<char>) -> (u32, u32, u32) {
    let m = markers(lines_of(report), lines_of(report).len() as int);
    if m.0 is Some && m.1 is Some {
        (m.0->0, 0, m.1->0)
    } else {
        match locator(report) {
            Some(t) => t,
            None => (0, 0, 0),
        }
    }
}

/// The range a diagnostic for `report` covers in the document `text`. A
/// range on one line runs to the end of that line, one on several lines to
/// the end of its last line; an empty or inverted range becomes the one
/// character at its start.
pub open spec fn diagnostic_range(report: Seq<char>, text: Seq<char>) -> SourceRange {
    let info = line_info(report);
    let sl = info.0 as int;
    let sc = info.1 as int;
    let el = info.2 as int;
    let lines = lines_of(text);
    let ec: int = if sl == el {
        let ll: int = if sl < lines.len() { lines[sl].len() as int } else { sc + 1 };
        if ll > sc + 1 { ll } else { sc + 1 }
    } else if el < lines.len() {
        lines[el].len() as int
    } else {
        0
    };
    if sl > el || (sl == el && sc >= ec) {
        SourceRange::on_line(sl, sc, 1)
    } else {
        SourceRange { start_line: sl as usize, start_col: sc as usize, end_line: el as usize, end_col: ec as usize }
    }
}

pub open spec fn help_marker() -> Seq<char> {
    seq!['h', 'e', 'l', 'p', ':']
}

pub open spec fn fallback_message() -> Seq<char> {
    seq!['P', 'a', 'r', 's', 'e', ' ', 'e', 'r', 'r', 'o', 'r']
}

/// The index of the first line from `i` on that holds `help:`.
pub open spec fn help_line(lines: Seq<Seq<char>>, i: int) -> Option<int>
    decreases lines.len() - i,
{
    if i < 0 || i >= lines.len() {
        None
    } else if contains(lines[i], help_marker()) {
        Some(i)
    } else {
        help_line(lines, i + 1)
    }
}

/// The message of a report: on its first line that holds `help:`, the text
/// after the first `help:` and before any next one, trimmed; a generic
/// message where no line holds `help:`.
pub open spec fn help_message(report: Seq<char>) -> Seq<char> {
    let lines = lines_of(report);
    match help_line(lines, 0) {
        None => fallback_message(),
        Some(i) => {
            let line = lines[i];
            let after = line.skip(find_spec(line, help_marker(), 0)->0 + 5);
            let seg = match find_spec(after, help_marker(), 0) {
                Some(q) => after.take(q),
                None => after,
            };
            trim(seg)
        },
    }
}

fn chars3(a: char, b: char, c: char) -> (r: Vec<char>)
    ensures
        r@ == seq![a, b, c],
{
    let r = vec![a, b, c];
    assert(r@ =~= seq![a, b, c]);
    r
}

fn gutter(line: &[char], bar: &Vec<char>) -> (r: Option<u32>)
    requires
        bar@ == gutter_bar(),
    ensures
        r == gutter_number(line@),
{
    let head = match find_from(line, bar.as_slice(), 0) {
        Some(i) => slice_chars(line, 0, i),
        None => slice_chars(line, 0, line.len()),
    };
    assert(line@.subrange(0, line@.len() as int) =~= line@);
    proof {
        lemma_find_bounds(line@, gutter_bar(), 0);
        match find_spec(line@, gutter_bar(), 0) {
            Some(i) => {
                assert(line@.subrange(0, i) =~= line@.take(i));
            },
            None => {},
        }
    }
    let t = trimmed(head.as_slice());
    parse_decimal_u32(t.as_slice())
}

fn dec_exec(n: u32) -> (r: u32)
    ensures
        r == dec(n),
{
    if n == 0 {
        0
    } else {
        n - 1
    }
}

fn read_locator(report: &[char]) -> (r: Option<(u32, u32, u32)>)
    ensures
        r == locator(report@),
{
    let kbd = vec!['.', 'k', 'b', 'd', ':'];
    assert(kbd@ =~= kbd_marker());
    let p = match find_from(report, kbd.as_slice(), 0) {
        None => return None,
        Some(p) => p,
    };
    let after = slice_chars(report, p + 5, report.len());
    assert(after@ =~= report@.skip(p + 5));
    let close = vec![']'];
    assert(close@ =~= seq![']']);
    let q = match find_from(after.as_slice(), close.as_slice(), 0) {
        None => return None,
        Some(q) => q,
    };
    let coords = slice_chars(after.as_slice(), 0, q);
    assert(coords@ =~= after@.take(q as int));
    let colon = vec![':'];
    assert(colon@ =~= seq![':']);
    let c = match find_from(coords.as_slice(), colon.as_slice(), 0) {
        None => return None,
        Some(c) => c,
    };
    let first = slice_chars(coords.as_slice(), 0, c);
    assert(first@ =~= coords@.take(c as int));
    let rest = slice_chars(coords.as_slice(), c + 1, coords.len());
    assert(rest@ =~= coords@.skip(c + 1));
    let second = match find_from(rest.as_slice(), colon.as_slice(), 0) {
        Some(c2) => {
            let s2 = slice_chars(rest.as_slice(), 0, c2);
            assert(s2@ =~= rest@.take(c2 as int));
            s2
        },
        None => rest,
    };
    match (parse_decimal_u32(first.as_slice()), parse_decimal_u32(second.as_slice())) {
        (Some(l), Some(k)) => Some((dec_exec(l), dec_exec(k), dec_exec(l))),
        _ => None,
    }
}

/// The zero-based start line, start column and end line of the error that
/// `report` describes.
pub fn extract_line_info(report: &str) -> (r: (u32, u32, u32))
    ensures
        r == line_info(report@),
{
    let chars = to_chars(report);
    let lines = split_lines(chars.as_slice());
    let ghost ls = views(lines@);
    let sm = chars3('\u{256D}', '\u{2500}', '\u{25B6}');
    let mm = chars3('\u{251C}', '\u{2500}', '\u{25B6}');
    let em = chars3('\u{2570}', '\u{2500}', '\u{2500}');
    let bar = vec!['\u{2502}'];
    assert(bar@ =~= gutter_bar());
    let mut start: Option<u32> = None;
    let mut end: Option<u32> = None;
    let mut i: usize = 0;
    while i < lines.len()
        invariant
            i <= lines@.len(),
            ls == views(lines@),
            sm@ == start_marker(),
            mm@ == mid_marker(),
            em@ == end_marker(),
            bar@ == gutter_bar(),
            (start, end) == markers(ls, i as int),
        decreases lines@.len() - i,
    {
        let line = lines[i].as_slice();
        assert(ls[i as int] == line@);
        let g = gutter(line, &bar);
        if start.is_none() && find_from(line, sm.as_slice(), 0).is_some() && g.is_some() {
            start = Some(dec_exec(g.unwrap()));
        }
        if (find_from(line, mm.as_slice(), 0).is_some() || find_from(line, em.as_slice(), 0).is_some())
            && g.is_some() {
            end = Some(dec_exec(g.unwrap()));
        }
        i = i + 1;
    }
    if start.is_some() && end.is_some() {
        return (start.unwrap(), 0, end.unwrap());
    }
    match read_locator(chars.as_slice()) {
        Some(t) => t,
        None => (0, 0, 0),
    }
}

/// The range a diagnostic for `report` covers in the document `text`.
pub fn report_range(report: &str, text: &str) -> (r: SourceRange)
    ensures
        r == diagnostic_range(report@, text@),
{
    let (sl32, sc32, el32) = extract_line_info(report);
    let sl = sl32 as usize;
    let sc = sc32 as usize;
    let el = el32 as usize;
    assert(sc32 < u32::MAX);
    let chars = to_chars(text);
    let lines = split_lines(chars.as_slice());
    let ghost ls = views(lines@);
    let ec: usize = if sl == el {
        let ll: usize = if sl < lines.len() {
            assert(ls[sl as int] == lines@[sl as int]@);
            lines[sl].len()
        } else {
            sc + 1
        };
        if ll > sc + 1 {
            ll
        } else {
            sc + 1
        }
    } else if el < lines.len() {
        assert(ls[el as int] == lines@[el as int]@);
        lines[el].len()
    } else {
        0
    };
    if sl > el || (sl == el && sc >= ec) {
        SourceRange { start_line: sl, start_col: sc, end_line: sl, end_col: sc + 1 }
    } else {
        SourceRange { start_line: sl, start_col: sc, end_line: el, end_col: ec }
    }
}

/// The short message of `report`.
pub fn report_message(report: &str) -> (r: String)
    ensures
        r@ == help_message(report@),
{
    let chars = to_chars(report);
    let lines = split_lines(chars.as_slice());
    let ghost ls = views(lines@);
    let help = vec!['h', 'e', 'l', 'p', ':'];
    assert(help@ =~= help_marker());
    let mut i: usize = 0;
    while i < lines.len()
        invariant
            i <= lines@.len(),
            ls == views(lines@),
            help@ == help_marker(),
            ls == lines_of(report@),
            help_line(ls, 0) == help_line(ls, i as int),
        decreases lines@.len() - i,
    {
        let line = lines[i].as_slice();
        assert(ls[i as int] == line@);
        match find_from(line, help.as_slice(), 0) {
            Some(p) => {
                let after = slice_chars(line, p + 5, line.len());
                assert(after@ =~= line@.skip(p + 5));
                let seg = match find_from(after.as_slice(), help.as_slice(), 0) {
                    Some(q) => {
                        let s = slice_chars(after.as_slice(), 0, q);
                        assert(s@ =~= after@.take(q as int));
                        s
                    },
                    None => after,
                };
                let t = trimmed(seg.as_slice());
                return from_chars(t.as_slice());
            },
            None => {},
        }
        i = i + 1;
    }
    let f = vec!['P', 'a', 'r', 's', 'e', ' ', 'e', 'r', 'r', 'o', 'r'];
    assert(f@ =~= fallback_message());
    from_chars(f.as_slice())
}

/// The diagnostic for a validator report on the document `text`.
pub fn translate_report(report: &str, text: &str) -> (r: Diagnostic)
    ensures
        r.range == diagnostic_range(report@, text@),
        r.message@ == help_message(report@),
{
    Diagnostic { range: report_range(report, text), message: report_message(report) }
}

} // verus!
