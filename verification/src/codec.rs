//! The persistence codec: a whiteboard document is a compact textual record
//! of the strokes and the palette,
//!
//! ```text
//! {"lines":[{"points":[{"x":1,"y":2},...],"color":[r,g,b,a],"width":w},...],
//!  "palette":[[r,g,b,a],...]}
//! ```
//!
//! written without any whitespace. `serialize` produces exactly this byte
//! sequence; `deserialize` is a strict recursive-descent parse of the same
//! grammar that rejects any other input with one generic error and enforces
//! the canvas ranges, so that a parsed document is always well-formed.

use vstd::prelude::*;

use crate::colors::Color;
use crate::geom::{valid_coord, valid_point, Point, COORD_LIMIT, WIDTH_LIMIT};
use crate::state::{lines_view, Line, LineV, StateV, WhiteboardState};

verus! {

/// The largest value the digit reader accumulates before giving up; every
/// value the document format allows lies below it.
pub const NUM_CAP: u32 = 1_000_000_000;

pub open spec fn is_digit(b: u8) -> bool {
    48 <= b <= 57
}

pub open spec fn digit_val(b: u8) -> nat {
    if b >= 48 {
        (b - 48) as nat
    } else {
        0
    }
}

pub open spec fn digit_of(d: nat) -> u8
    recommends
        d < 10,
{
    (48 + d) as u8
}

/// The decimal digits of `n`, most significant first, no leading zeros.
pub open spec fn ser_uint(n: nat) -> Seq<u8>
    decreases n,
{
    if n < 10 {
        seq![digit_of(n)]
    } else {
        ser_uint(n / 10).push(digit_of(n % 10))
    }
}

/// A signed decimal: a minus sign before the digits of the magnitude.
pub open spec fn ser_int(i: int) -> Seq<u8> {
    if i < 0 {
        seq![45u8] + ser_uint((-i) as nat)
    } else {
        ser_uint(i as nat)
    }
}

/// `{"x":`
pub open spec fn tok_obj_x() -> Seq<u8> {
    seq![123u8, 34u8, 120u8, 34u8, 58u8]
}

/// `,"y":`
pub open spec fn tok_obj_y() -> Seq<u8> {
    seq![44u8, 34u8, 121u8, 34u8, 58u8]
}

/// `{"points":`
pub open spec fn tok_points() -> Seq<u8> {
    seq![123u8, 34u8, 112u8, 111u8, 105u8, 110u8, 116u8, 115u8, 34u8, 58u8]
}

/// `,"color":`
pub open spec fn tok_color() -> Seq<u8> {
    seq![44u8, 34u8, 99u8, 111u8, 108u8, 111u8, 114u8, 34u8, 58u8]
}

/// `,"width":`
pub open spec fn tok_width() -> Seq<u8> {
    seq![44u8, 34u8, 119u8, 105u8, 100u8, 116u8, 104u8, 34u8, 58u8]
}

/// `{"lines":`
pub open spec fn tok_lines() -> Seq<u8> {
    seq![123u8, 34u8, 108u8, 105u8, 110u8, 101u8, 115u8, 34u8, 58u8]
}

/// `,"palette":`
pub open spec fn tok_palette() -> Seq<u8> {
    seq![44u8, 34u8, 112u8, 97u8, 108u8, 101u8, 116u8, 116u8, 101u8, 34u8, 58u8]
}

/// `[r,g,b,a]`
pub open spec fn ser_color(c: Color) -> Seq<u8> {
    seq![91u8] + ser_uint(c.r as nat) + seq![44u8] + ser_uint(c.g as nat) + seq![44u8] + ser_uint(
        c.b as nat,
    ) + seq![44u8] + ser_uint(c.a as nat) + seq![93u8]
}

/// `{"x":X,"y":Y}`
pub open spec fn ser_point(p: Point) -> Seq<u8> {
    tok_obj_x() + ser_int(p.x as int) + tok_obj_y() + ser_int(p.y as int) + seq![125u8]
}

/// The comma-separated points of one stroke, without the brackets.
pub open spec fn ser_points_items(ps: Seq<Point>) -> Seq<u8>
    decreases ps.len(),
{
    if ps.len() == 0 {
        Seq::empty()
    } else if ps.len() == 1 {
        ser_point(ps[0])
    } else {
        ser_points_items(ps.drop_last()) + seq![44u8] + ser_point(ps.last())
    }
}

/// `{"points":[...],"color":[...],"width":W}`
pub open spec fn ser_line(l: LineV) -> Seq<u8> {
    tok_points() + seq![91u8] + ser_points_items(l.points) + seq![93u8] + tok_color() + ser_color(
        l.color,
    ) + tok_width() + ser_uint(l.width as nat) + seq![125u8]
}

/// The comma-separated strokes, without the brackets.
pub open spec fn ser_lines_items(ls: Seq<LineV>) -> Seq<u8>
    decreases ls.len(),
{
    if ls.len() == 0 {
        Seq::empty()
    } else if ls.len() == 1 {
        ser_line(ls[0])
    } else {
        ser_lines_items(ls.drop_last()) + seq![44u8] + ser_line(ls.last())
    }
}

/// The comma-separated palette colors, without the brackets.
pub open spec fn ser_palette_items(cs: Seq<Color>) -> Seq<u8>
    decreases cs.len(),
{
    if cs.len() == 0 {
        Seq::empty()
    } else if cs.len() == 1 {
        ser_color(cs[0])
    } else {
        ser_palette_items(cs.drop_last()) + seq![44u8] + ser_color(cs.last())
    }
}

/// The whole document.
pub open spec fn ser_state(v: StateV) -> Seq<u8> {
    tok_lines() + seq![91u8] + ser_lines_items(v.lines) + seq![93u8] + tok_palette() + seq![91u8]
        + ser_palette_items(v.palette) + seq![93u8] + seq![125u8]
}

/// Appends the decimal digits of `n`.
fn push_uint(out: &mut Vec<u8>, n: u32)
    ensures
        final(out)@ == old(out)@ + ser_uint(n as nat),
    decreases n,
{
    let ghost pre = out@;
    if n >= 10 {
        push_uint(out, n / 10);
        out.push(48 + (n % 10) as u8);
        proof {
            assert(out@ =~= pre + ser_uint(n as nat / 10).push(digit_of(n as nat % 10)));
        }
    } else {
        out.push(48 + n as u8);
        proof {
            assert(out@ =~= pre + seq![digit_of(n as nat)]);
        }
    }
}

/// Appends a signed decimal.
fn push_int(out: &mut Vec<u8>, v: i32)
    requires
        valid_coord(v as int),
    ensures
        final(out)@ == old(out)@ + ser_int(v as int),
{
    let ghost pre = out@;
    if v < 0 {
        out.push(45);
        push_uint(out, (-v) as u32);
        proof {
            assert(out@ =~= pre + (seq![45u8] + ser_uint((-(v as int)) as nat)));
        }
    } else {
        push_uint(out, v as u32);
    }
}

/// Appends `[r,g,b,a]`.
fn push_color(out: &mut Vec<u8>, c: Color)
    ensures
        final(out)@ == old(out)@ + ser_color(c),
{
    let ghost pre = out@;
    out.push(91u8);
    push_uint(out, c.r as u32);
    out.push(44u8);
    push_uint(out, c.g as u32);
    out.push(44u8);
    push_uint(out, c.b as u32);
    out.push(44u8);
    push_uint(out, c.a as u32);
    out.push(93u8);
    proof {
        assert(out@ =~= pre + ser_color(c));
    }
}

/// Appends `{"x":X,"y":Y}`.
fn push_point(out: &mut Vec<u8>, p: Point)
    requires
        valid_point(p),
    ensures
        final(out)@ == old(out)@ + ser_point(p),
{
    let ghost pre = out@;
    out.push(123u8);
    out.push(34u8);
    out.push(120u8);
    out.push(34u8);
    out.push(58u8);
    push_int(out, p.x);
    out.push(44u8);
    out.push(34u8);
    out.push(121u8);
    out.push(34u8);
    out.push(58u8);
    push_int(out, p.y);
    out.push(125u8);
    proof {
        assert(out@ =~= pre + ser_point(p));
    }
}

/// Appends one stroke record.
#[verifier::rlimit(50)]
fn push_line(out: &mut Vec<u8>, l: &Line)
    requires
        l@.wf(),
    ensures
        final(out)@ == old(out)@ + ser_line(l@),
{
    let ghost pre = out@;
    out.push(123u8);
    out.push(34u8);
    out.push(112u8);
    out.push(111u8);
    out.push(105u8);
    out.push(110u8);
    out.push(116u8);
    out.push(115u8);
    out.push(34u8);
    out.push(58u8);
    out.push(91u8);
    proof {
        assert(out@ =~= pre + tok_points() + seq![91u8]);
    }
    let ghost base = out@;
    let mut i: usize = 0;
    while i < l.points.len()
        invariant
            l@.wf(),
            i <= l.points@.len(),
            out@ == base + ser_points_items(l.points@.take(i as int)),
        decreases l.points@.len() - i,
    {
        if i > 0 {
            out.push(44u8);
        }
        proof {
            assert(l@.points[i as int] == l.points@[i as int]);
            assert(valid_point(l@.points[i as int]));
        }
        push_point(out, l.points[i]);
        proof {
            let t = l.points@.take(i + 1 as int);
            assert(t.drop_last() =~= l.points@.take(i as int));
            assert(t.last() == l.points@[i as int]);
            assert(out@ =~= base + ser_points_items(t));
        }
        i = i + 1;
    }
    proof {
        assert(l.points@.take(l.points@.len() as int) =~= l.points@);
    }
    out.push(93u8);
    out.push(44u8);
    out.push(34u8);
    out.push(99u8);
    out.push(111u8);
    out.push(108u8);
    out.push(111u8);
    out.push(114u8);
    out.push(34u8);
    out.push(58u8);
    push_color(out, l.color);
    out.push(44u8);
    out.push(34u8);
    out.push(119u8);
    out.push(105u8);
    out.push(100u8);
    out.push(116u8);
    out.push(104u8);
    out.push(34u8);
    out.push(58u8);
    push_uint(out, l.width);
    out.push(125u8);
    proof {
        assert(out@ =~= pre + ser_line(l@));
    }
}

/// Serializes a snapshot into the canonical document bytes; the result is
/// always accepted back by `deserialize` and parses to the same snapshot.
#[verifier::rlimit(50)]
pub fn serialize(st: &WhiteboardState) -> (out: Vec<u8>)
    requires
        st.wf(),
    ensures
        out@ == ser_state(st@),
        parse_doc(out@) == Some(st@),
{
    let mut out: Vec<u8> = Vec::new();
    out.push(123u8);
    out.push(34u8);
    out.push(108u8);
    out.push(105u8);
    out.push(110u8);
    out.push(101u8);
    out.push(115u8);
    out.push(34u8);
    out.push(58u8);
    out.push(91u8);
    proof {
        assert(out@ =~= tok_lines() + seq![91u8]);
    }
    let ghost base = out@;
    let mut i: usize = 0;
    while i < st.lines.len()
        invariant
            st.wf(),
            i <= st.lines@.len(),
            out@ == base + ser_lines_items(lines_view(st.lines@).take(i as int)),
        decreases st.lines@.len() - i,
    {
        if i > 0 {
            out.push(44u8);
        }
        proof {
            assert(lines_view(st.lines@)[i as int] == st.lines@[i as int]@);
            assert(lines_view(st.lines@)[i as int].wf());
        }
        push_line(&mut out, &st.lines[i]);
        proof {
            let t = lines_view(st.lines@).take(i + 1 as int);
            assert(t.drop_last() =~= lines_view(st.lines@).take(i as int));
            assert(t.last() == lines_view(st.lines@)[i as int]);
            assert(out@ =~= base + ser_lines_items(t));
        }
        i = i + 1;
    }
    proof {
        assert(lines_view(st.lines@).take(st.lines@.len() as int) =~= lines_view(st.lines@));
    }
    out.push(93u8);
    out.push(44u8);
    out.push(34u8);
    out.push(112u8);
    out.push(97u8);
    out.push(108u8);
    out.push(101u8);
    out.push(116u8);
    out.push(116u8);
    out.push(101u8);
    out.push(34u8);
    out.push(58u8);
    out.push(91u8);
    proof {
        assert(out@ =~= tok_lines() + seq![91u8] + ser_lines_items(lines_view(st.lines@)) + seq![
            93u8,
        ] + tok_palette() + seq![91u8]);
    }
    let ghost base2 = out@;
    let mut j: usize = 0;
    while j < st.palette.len()
        invariant
            j <= st.palette@.len(),
            out@ == base2 + ser_palette_items(st.palette@.take(j as int)),
        decreases st.palette@.len() - j,
    {
        if j > 0 {
            out.push(44u8);
        }
        push_color(&mut out, st.palette[j]);
        proof {
            let t = st.palette@.take(j + 1 as int);
            assert(t.drop_last() =~= st.palette@.take(j as int));
            assert(t.last() == st.palette@[j as int]);
            assert(out@ =~= base2 + ser_palette_items(t));
        }
        j = j + 1;
    }
    proof {
        assert(st.palette@.take(st.palette@.len() as int) =~= st.palette@);
    }
    out.push(93u8);
    out.push(125u8);
    proof {
        assert(out@ =~= ser_state(st@));
        lemma_serialize_parses_back(st@);
    }
    out
}

/// Reads a digit run left to right, accumulating the value; gives up beyond
/// `NUM_CAP`.
pub open spec fn parse_digits(s: Seq<u8>, i: int, acc: nat) -> Option<(nat, int)>
    decreases s.len() - i,
{
    if 0 <= i < s.len() && is_digit(s[i]) {
        if acc * 10 + digit_val(s[i]) > NUM_CAP as nat {
            None
        } else {
            parse_digits(s, i + 1, acc * 10 + digit_val(s[i]))
        }
    } else {
        Some((acc, i))
    }
}

/// Reads an unsigned decimal: one `0`, or a nonzero digit followed by more
/// digits. A leading zero before further digits is rejected by the caller's
/// following delimiter check.
pub open spec fn parse_uint(s: Seq<u8>, i: int) -> Option<(nat, int)> {
    if 0 <= i < s.len() && is_digit(s[i]) {
        if s[i] == 48 {
            Some((0, i + 1))
        } else {
            parse_digits(s, i, 0)
        }
    } else {
        None
    }
}

/// Reads a signed decimal; `-0` is rejected.
pub open spec fn parse_int(s: Seq<u8>, i: int) -> Option<(int, int)> {
    if 0 <= i < s.len() && s[i] == 45 {
        match parse_uint(s, i + 1) {
            Some((u, j)) => if u > 0 {
                Some((-(u as int), j))
            } else {
                None
            },
            None => None,
        }
    } else {
        match parse_uint(s, i) {
            Some((u, j)) => Some((u as int, j)),
            None => None,
        }
    }
}

/// Requires the single byte `b` at position `i`.
pub open spec fn expect1(s: Seq<u8>, i: int, b: u8) -> Option<int> {
    if 0 <= i < s.len() && s[i] == b {
        Some(i + 1)
    } else {
        None
    }
}

/// Requires the exact byte pattern `pat` at position `i`.
pub open spec fn expect(s: Seq<u8>, i: int, pat: Seq<u8>) -> Option<int> {
    if 0 <= i && i + pat.len() <= s.len() && s.subrange(i, i + pat.len() as int) == pat {
        Some(i + pat.len() as int)
    } else {
        None
    }
}

/// Reads an unsigned decimal no larger than `hi`.
pub open spec fn parse_bounded(s: Seq<u8>, i: int, lo: nat, hi: nat) -> Option<(nat, int)> {
    match parse_uint(s, i) {
        Some((u, j)) => if lo <= u <= hi {
            Some((u, j))
        } else {
            None
        },
        None => None,
    }
}

/// Reads `[r,g,b,a]`.
pub open spec fn parse_color(s: Seq<u8>, i: int) -> Option<(Color, int)> {
    match expect1(s, i, 91) {
        None => None,
        Some(j0) => match parse_bounded(s, j0, 0, 255) {
            None => None,
            Some((r, j1)) => match expect1(s, j1, 44) {
                None => None,
                Some(j2) => match parse_bounded(s, j2, 0, 255) {
                    None => None,
                    Some((g, j3)) => match expect1(s, j3, 44) {
                        None => None,
                        Some(j4) => match parse_bounded(s, j4, 0, 255) {
                            None => None,
                            Some((b, j5)) => match expect1(s, j5, 44) {
                                None => None,
                                Some(j6) => match parse_bounded(s, j6, 0, 255) {
                                    None => None,
                                    Some((a, j7)) => match expect1(s, j7, 93) {
                                        None => None,
                                        Some(j8) => Some(
                                            (
                                                Color {
                                                    r: r as u8,
                                                    g: g as u8,
                                                    b: b as u8,
                                                    a: a as u8,
                                                },
                                                j8,
                                            ),
                                        ),
                                    },
                                },
                            },
                        },
                    },
                },
            },
        },
    }
}

/// Reads a signed decimal within the canvas coordinate range.
pub open spec fn parse_coord(s: Seq<u8>, i: int) -> Option<(int, int)> {
    match parse_int(s, i) {
        Some((v, j)) => if valid_coord(v) {
            Some((v, j))
        } else {
            None
        },
        None => None,
    }
}

/// Reads `{"x":X,"y":Y}` with both coordinates in range.
pub open spec fn parse_point(s: Seq<u8>, i: int) -> Option<(Point, int)> {
    match expect(s, i, tok_obj_x()) {
        None => None,
        Some(j0) => match parse_coord(s, j0) {
            None => None,
            Some((x, j1)) => match expect(s, j1, tok_obj_y()) {
                None => None,
                Some(j2) => match parse_coord(s, j2) {
                    None => None,
                    Some((y, j3)) => match expect1(s, j3, 125) {
                        None => None,
                        Some(j4) => Some((Point { x: x as i32, y: y as i32 }, j4)),
                    },
                },
            },
        },
    }
}

/// A successful digit run never moves backward.
proof fn lemma_parse_digits_progress(s: Seq<u8>, i: int, acc: nat)
    ensures
        parse_digits(s, i, acc) matches Some((v, j)) ==> i <= j <= s.len() || j == i,
        parse_digits(s, i, acc) matches Some((v, j)) ==> j >= i,
        parse_digits(s, i, acc) matches Some((v, j)) ==> (0 <= i <= s.len() ==> j <= s.len()),
    decreases s.len() - i,
{
    if 0 <= i < s.len() && is_digit(s[i]) && acc * 10 + digit_val(s[i]) <= NUM_CAP as nat {
        lemma_parse_digits_progress(s, i + 1, acc * 10 + digit_val(s[i]));
    }
}

/// A successful number read consumes at least one byte and stays in bounds.
proof fn lemma_parse_uint_progress(s: Seq<u8>, i: int)
    ensures
        parse_uint(s, i) matches Some((v, j)) ==> 0 <= i < j <= s.len(),
{
    if 0 <= i < s.len() && is_digit(s[i]) && s[i] != 48 {
        lemma_parse_digits_progress(s, i + 1, digit_val(s[i]));
    }
}

proof fn lemma_parse_int_progress(s: Seq<u8>, i: int)
    ensures
        parse_int(s, i) matches Some((v, j)) ==> 0 <= i < j <= s.len(),
{
    lemma_parse_uint_progress(s, i);
    lemma_parse_uint_progress(s, i + 1);
}

proof fn lemma_parse_color_progress(s: Seq<u8>, i: int)
    ensures
        parse_color(s, i) matches Some((c, j)) ==> 0 <= i < j <= s.len(),
{
    if let Some(j0) = expect1(s, i, 91) {
        lemma_parse_uint_progress(s, j0);
        if let Some((r, j1)) = parse_bounded(s, j0, 0, 255) {
            if let Some(j2) = expect1(s, j1, 44) {
                lemma_parse_uint_progress(s, j2);
                if let Some((g, j3)) = parse_bounded(s, j2, 0, 255) {
                    if let Some(j4) = expect1(s, j3, 44) {
                        lemma_parse_uint_progress(s, j4);
                        if let Some((b, j5)) = parse_bounded(s, j4, 0, 255) {
                            if let Some(j6) = expect1(s, j5, 44) {
                                lemma_parse_uint_progress(s, j6);
                            }
                        }
                    }
                }
            }
        }
    }
}

proof fn lemma_parse_point_progress(s: Seq<u8>, i: int)
    ensures
        parse_point(s, i) matches Some((p, j)) ==> 0 <= i < j <= s.len(),
{
    if let Some(j0) = expect(s, i, tok_obj_x()) {
        lemma_parse_int_progress(s, j0);
        if let Some((x, j1)) = parse_coord(s, j0) {
            if let Some(j2) = expect(s, j1, tok_obj_y()) {
                lemma_parse_int_progress(s, j2);
            }
        }
    }
}

#[via_fn]
proof fn parse_points_rest_dec(s: Seq<u8>, i: int) {
    lemma_parse_point_progress(s, i);
}

/// Reads the rest of a non-empty point list: points separated by commas,
/// closed by `]`.
pub open spec fn parse_points_rest(s: Seq<u8>, i: int) -> Option<(Seq<Point>, int)>
    decreases s.len() - i,
        via parse_points_rest_dec
{
    match parse_point(s, i) {
        None => None,
        Some((p, j)) => if j < s.len() && s[j] == 44 {
            match parse_points_rest(s, j + 1) {
                None => None,
                Some((ps, k)) => Some((seq![p] + ps, k)),
            }
        } else if j < s.len() && s[j] == 93 {
            Some((seq![p], j + 1))
        } else {
            None
        },
    }
}

/// Reads `[...]` of points.
pub open spec fn parse_points(s: Seq<u8>, i: int) -> Option<(Seq<Point>, int)> {
    match expect1(s, i, 91) {
        None => None,
        Some(j) => if j < s.len() && s[j] == 93 {
            Some((Seq::empty(), j + 1))
        } else {
            parse_points_rest(s, j)
        },
    }
}

proof fn lemma_parse_points_rest_progress(s: Seq<u8>, i: int)
    ensures
        parse_points_rest(s, i) matches Some((ps, j)) ==> 0 <= i < j <= s.len(),
    decreases s.len() - i,
{
    lemma_parse_point_progress(s, i);
    if let Some((p, j)) = parse_point(s, i) {
        if j < s.len() && s[j] == 44 {
            lemma_parse_points_rest_progress(s, j + 1);
        }
    }
}

/// Reads one stroke record with its width in range.
pub open spec fn parse_line(s: Seq<u8>, i: int) -> Option<(LineV, int)> {
    match expect(s, i, tok_points()) {
        None => None,
        Some(j0) => match parse_points(s, j0) {
            None => None,
            Some((ps, j1)) => match expect(s, j1, tok_color()) {
                None => None,
                Some(j2) => match parse_color(s, j2) {
                    None => None,
                    Some((c, j3)) => match expect(s, j3, tok_width()) {
                        None => None,
                        Some(j4) => match parse_bounded(s, j4, 1, WIDTH_LIMIT as nat) {
                            None => None,
                            Some((w, j5)) => match expect1(s, j5, 125) {
                                None => None,
                                Some(j6) => Some(
                                    (LineV { points: ps, color: c, width: w as u32 }, j6),
                                ),
                            },
                        },
                    },
                },
            },
        },
    }
}

proof fn lemma_parse_line_progress(s: Seq<u8>, i: int)
    ensures
        parse_line(s, i) matches Some((l, j)) ==> 0 <= i < j <= s.len(),
{
    if let Some(j0) = expect(s, i, tok_points()) {
        if let Some(j0b) = expect1(s, j0, 91) {
            lemma_parse_points_rest_progress(s, j0b);
        }
        if let Some((ps, j1)) = parse_points(s, j0) {
            if let Some(j2) = expect(s, j1, tok_color()) {
                lemma_parse_color_progress(s, j2);
                if let Some((c, j3)) = parse_color(s, j2) {
                    if let Some(j4) = expect(s, j3, tok_width()) {
                        lemma_parse_uint_progress(s, j4);
                    }
                }
            }
        }
    }
}

#[via_fn]
proof fn parse_lines_rest_dec(s: Seq<u8>, i: int) {
    lemma_parse_line_progress(s, i);
}

/// Reads the rest of a non-empty stroke list.
pub open spec fn parse_lines_rest(s: Seq<u8>, i: int) -> Option<(Seq<LineV>, int)>
    decreases s.len() - i,
        via parse_lines_rest_dec
{
    match parse_line(s, i) {
        None => None,
        Some((l, j)) => if j < s.len() && s[j] == 44 {
            match parse_lines_rest(s, j + 1) {
                None => None,
                Some((ls, k)) => Some((seq![l] + ls, k)),
            }
        } else if j < s.len() && s[j] == 93 {
            Some((seq![l], j + 1))
        } else {
            None
        },
    }
}

/// Reads `[...]` of strokes.
pub open spec fn parse_lines(s: Seq<u8>, i: int) -> Option<(Seq<LineV>, int)> {
    match expect1(s, i, 91) {
        None => None,
        Some(j) => if j < s.len() && s[j] == 93 {
            Some((Seq::empty(), j + 1))
        } else {
            parse_lines_rest(s, j)
        },
    }
}

#[via_fn]
proof fn parse_palette_rest_dec(s: Seq<u8>, i: int) {
    lemma_parse_color_progress(s, i);
}

/// Reads the rest of a non-empty color list.
pub open spec fn parse_palette_rest(s: Seq<u8>, i: int) -> Option<(Seq<Color>, int)>
    decreases s.len() - i,
        via parse_palette_rest_dec
{
    match parse_color(s, i) {
        None => None,
        Some((c, j)) => if j < s.len() && s[j] == 44 {
            match parse_palette_rest(s, j + 1) {
                None => None,
                Some((cs, k)) => Some((seq![c] + cs, k)),
            }
        } else if j < s.len() && s[j] == 93 {
            Some((seq![c], j + 1))
        } else {
            None
        },
    }
}

/// Reads `[...]` of palette colors.
pub open spec fn parse_palette(s: Seq<u8>, i: int) -> Option<(Seq<Color>, int)> {
    match expect1(s, i, 91) {
        None => None,
        Some(j) => if j < s.len() && s[j] == 93 {
            Some((Seq::empty(), j + 1))
        } else {
            parse_palette_rest(s, j)
        },
    }
}

/// Reads the whole document body.
pub open spec fn parse_state(s: Seq<u8>, i: int) -> Option<(StateV, int)> {
    match expect(s, i, tok_lines()) {
        None => None,
        Some(j0) => match parse_lines(s, j0) {
            None => None,
            Some((ls, j1)) => match expect(s, j1, tok_palette()) {
                None => None,
                Some(j2) => match parse_palette(s, j2) {
                    None => None,
                    Some((cs, j3)) => match expect1(s, j3, 125) {
                        None => None,
                        Some(j4) => Some((StateV { lines: ls, palette: cs }, j4)),
                    },
                },
            },
        },
    }
}

/// What `deserialize` accepts: the whole input is one document body, with a
/// non-empty palette.
pub open spec fn parse_doc(s: Seq<u8>) -> Option<StateV> {
    match parse_state(s, 0) {
        Some((v, j)) => if j == s.len() && v.palette.len() >= 1 {
            Some(v)
        } else {
            None
        },
        None => None,
    }
}

/// The one error of the codec: the input is not a whiteboard document.
#[derive(Clone, Copy, PartialEq, Eq, Structural, Debug)]
pub struct ParseError;

fn p_expect1(s: &Vec<u8>, i: usize, b: u8) -> (r: Option<usize>)
    ensures
        match r {
            Some(j) => expect1(s@, i as int, b) == Some(j as int) && i < j <= s@.len(),
            None => expect1(s@, i as int, b) is None,
        },
{
    if i < s.len() && s[i] == b {
        Some(i + 1)
    } else {
        None
    }
}

fn p_expect(s: &Vec<u8>, i: usize, pat: &Vec<u8>) -> (r: Option<usize>)
    ensures
        match r {
            Some(j) => expect(s@, i as int, pat@) == Some(j as int) && i <= j <= s@.len(),
            None => expect(s@, i as int, pat@) is None,
        },
{
    if i > s.len() || pat.len() > s.len() - i {
        return None;
    }
    let mut k: usize = 0;
    while k < pat.len()
        invariant
            s@.len() <= usize::MAX,
            i + pat@.len() <= s@.len(),
            k <= pat@.len(),
            forall|m: int| 0 <= m < k ==> s@[i + m] == pat@[m],
        decreases pat@.len() - k,
    {
        if s[i + k] != pat[k] {
            proof {
                if expect(s@, i as int, pat@) is Some {
                    assert(s@.subrange(i as int, i + pat@.len() as int) == pat@);
                    assert(s@.subrange(i as int, i + pat@.len() as int)[k as int]
                        == pat@[k as int]);
                    assert(false);
                }
            }
            return None;
        }
        k = k + 1;
    }
    proof {
        assert(s@.subrange(i as int, i + pat@.len() as int) =~= pat@);
    }
    Some(i + pat.len())
}

fn tok_obj_x_vec() -> (v: Vec<u8>)
    ensures
        v@ == tok_obj_x(),
{
    let mut v: Vec<u8> = Vec::new();
    v.push(123);
    v.push(34);
    v.push(120);
    v.push(34);
    v.push(58);
    proof {
        assert(v@ =~= tok_obj_x());
    }
    v
}

fn tok_obj_y_vec() -> (v: Vec<u8>)
    ensures
        v@ == tok_obj_y(),
{
    let mut v: Vec<u8> = Vec::new();
    v.push(44);
    v.push(34);
    v.push(121);
    v.push(34);
    v.push(58);
    proof {
        assert(v@ =~= tok_obj_y());
    }
    v
}

fn tok_points_vec() -> (v: Vec<u8>)
    ensures
        v@ == tok_points(),
{
    let mut v: Vec<u8> = Vec::new();
    v.push(123);
    v.push(34);
    v.push(112);
    v.push(111);
    v.push(105);
    v.push(110);
    v.push(116);
    v.push(115);
    v.push(34);
    v.push(58);
    proof {
        assert(v@ =~= tok_points());
    }
    v
}

fn tok_color_vec() -> (v: Vec<u8>)
    ensures
        v@ == tok_color(),
{
    let mut v: Vec<u8> = Vec::new();
    v.push(44);
    v.push(34);
    v.push(99);
    v.push(111);
    v.push(108);
    v.push(111);
    v.push(114);
    v.push(34);
    v.push(58);
    proof {
        assert(v@ =~= tok_color());
    }
    v
}

fn tok_width_vec() -> (v: Vec<u8>)
    ensures
        v@ == tok_width(),
{
    let mut v: Vec<u8> = Vec::new();
    v.push(44);
    v.push(34);
    v.push(119);
    v.push(105);
    v.push(100);
    v.push(116);
    v.push(104);
    v.push(34);
    v.push(58);
    proof {
        assert(v@ =~= tok_width());
    }
    v
}

fn tok_lines_vec() -> (v: Vec<u8>)
    ensures
        v@ == tok_lines(),
{
    let mut v: Vec<u8> = Vec::new();
    v.push(123);
    v.push(34);
    v.push(108);
    v.push(105);
    v.push(110);
    v.push(101);
    v.push(115);
    v.push(34);
    v.push(58);
    proof {
        assert(v@ =~= tok_lines());
    }
    v
}

fn tok_palette_vec() -> (v: Vec<u8>)
    ensures
        v@ == tok_palette(),
{
    let mut v: Vec<u8> = Vec::new();
    v.push(44);
    v.push(34);
    v.push(112);
    v.push(97);
    v.push(108);
    v.push(101);
    v.push(116);
    v.push(116);
    v.push(101);
    v.push(34);
    v.push(58);
    proof {
        assert(v@ =~= tok_palette());
    }
    v
}

fn p_uint(s: &Vec<u8>, i: usize) -> (r: Option<(u32, usize)>)
    ensures
        match r {
            Some(v) => parse_uint(s@, i as int) == Some((v.0 as nat, v.1 as int)) && i < v.1
                <= s@.len() && v.0 <= NUM_CAP,
            None => parse_uint(s@, i as int) is None,
        },
{
    if i >= s.len() || !(48 <= s[i] && s[i] <= 57) {
        return None;
    }
    if s[i] == 48 {
        return Some((0, i + 1));
    }
    let mut acc: u32 = 0;
    let mut j: usize = i;
    while j < s.len() && 48 <= s[j] && s[j] <= 57
        invariant
            i <= j <= s@.len(),
            acc <= NUM_CAP,
            parse_uint(s@, i as int) == parse_digits(s@, j as int, acc as nat),
        decreases s@.len() - j,
    {
        let d = (s[j] - 48) as u32;
        let a2: u64 = acc as u64 * 10 + d as u64;
        if a2 > NUM_CAP as u64 {
            proof {
                assert(parse_digits(s@, j as int, acc as nat) is None);
                assert(parse_uint(s@, i as int) is None);
            }
            return None;
        }
        let ghost jp = j as int;
        let ghost accp = acc as nat;
        acc = a2 as u32;
        j = j + 1;
        proof {
            assert(parse_digits(s@, jp, accp) == parse_digits(s@, j as int, acc as nat));
        }
    }
    proof {
        assert(parse_digits(s@, j as int, acc as nat) == Some((acc as nat, j as int)));
    }
    Some((acc, j))
}

fn p_int(s: &Vec<u8>, i: usize) -> (r: Option<(i32, usize)>)
    ensures
        match r {
            Some(v) => parse_int(s@, i as int) == Some((v.0 as int, v.1 as int)) && i < v.1
                <= s@.len(),
            None => parse_int(s@, i as int) is None,
        },
{
    if i < s.len() && s[i] == 45 {
        match p_uint(s, i + 1) {
            Some((u, j)) => if u > 0 {
                Some((-(u as i32), j))
            } else {
                None
            },
            None => None,
        }
    } else {
        match p_uint(s, i) {
            Some((u, j)) => Some((u as i32, j)),
            None => None,
        }
    }
}

fn p_bounded(s: &Vec<u8>, i: usize, lo: u32, hi: u32) -> (r: Option<(u32, usize)>)
    ensures
        match r {
            Some(v) => parse_bounded(s@, i as int, lo as nat, hi as nat) == Some(
                (v.0 as nat, v.1 as int),
            ) && i < v.1 <= s@.len() && lo <= v.0 <= hi,
            None => parse_bounded(s@, i as int, lo as nat, hi as nat) is None,
        },
{
    match p_uint(s, i) {
        Some((u, j)) => if lo <= u && u <= hi {
            Some((u, j))
        } else {
            None
        },
        None => None,
    }
}

fn p_color(s: &Vec<u8>, i: usize) -> (res: Option<(Color, usize)>)
    ensures
        match res {
            Some(v) => parse_color(s@, i as int) == Some((v.0, v.1 as int)) && i < v.1 <= s@.len(),
            None => parse_color(s@, i as int) is None,
        },
{
    let j0 = match p_expect1(s, i, 91) {
        Some(j) => j,
        None => {
            return None;
        },
    };
    let (r, j1) = match p_bounded(s, j0, 0, 255) {
        Some(x) => x,
        None => {
            return None;
        },
    };
    let j2 = match p_expect1(s, j1, 44) {
        Some(j) => j,
        None => {
            return None;
        },
    };
    let (g, j3) = match p_bounded(s, j2, 0, 255) {
        Some(x) => x,
        None => {
            return None;
        },
    };
    let j4 = match p_expect1(s, j3, 44) {
        Some(j) => j,
        None => {
            return None;
        },
    };
    let (b, j5) = match p_bounded(s, j4, 0, 255) {
        Some(x) => x,
        None => {
            return None;
        },
    };
    let j6 = match p_expect1(s, j5, 44) {
        Some(j) => j,
        None => {
            return None;
        },
    };
    let (a, j7) = match p_bounded(s, j6, 0, 255) {
        Some(x) => x,
        None => {
            return None;
        },
    };
    let j8 = match p_expect1(s, j7, 93) {
        Some(j) => j,
        None => {
            return None;
        },
    };
    Some((Color { r: r as u8, g: g as u8, b: b as u8, a: a as u8 }, j8))
}

fn p_point(s: &Vec<u8>, i: usize) -> (res: Option<(Point, usize)>)
    ensures
        match res {
            Some(v) => parse_point(s@, i as int) == Some((v.0, v.1 as int)) && i < v.1 <= s@.len()
                && valid_point(v.0),
            None => parse_point(s@, i as int) is None,
        },
{
    let tx = tok_obj_x_vec();
    let j0 = match p_expect(s, i, &tx) {
        Some(j) => j,
        None => {
            return None;
        },
    };
    let (x, j1) = match p_int(s, j0) {
        Some(v) => v,
        None => {
            return None;
        },
    };
    if !(-COORD_LIMIT <= x && x <= COORD_LIMIT) {
        return None;
    }
    let ty = tok_obj_y_vec();
    let j2 = match p_expect(s, j1, &ty) {
        Some(j) => j,
        None => {
            return None;
        },
    };
    let (y, j3) = match p_int(s, j2) {
        Some(v) => v,
        None => {
            return None;
        },
    };
    if !(-COORD_LIMIT <= y && y <= COORD_LIMIT) {
        return None;
    }
    let j4 = match p_expect1(s, j3, 125) {
        Some(j) => j,
        None => {
            return None;
        },
    };
    Some((Point { x, y }, j4))
}

fn p_points(s: &Vec<u8>, i: usize) -> (res: Option<(Vec<Point>, usize)>)
    ensures
        match res {
            Some(v) => parse_points(s@, i as int) == Some((v.0@, v.1 as int)) && i < v.1
                <= s@.len() && (forall|k: int|
                0 <= k < v.0@.len() ==> valid_point(#[trigger] v.0@[k])),
            None => parse_points(s@, i as int) is None,
        },
{
    let j = match p_expect1(s, i, 91) {
        Some(j) => j,
        None => {
            return None;
        },
    };
    if j < s.len() && s[j] == 93 {
        let empty: Vec<Point> = Vec::new();
        proof {
            assert(empty@ =~= Seq::<Point>::empty());
        }
        return Some((empty, j + 1));
    }
    let mut out: Vec<Point> = Vec::new();
    let mut cur: usize = j;
    loop
        invariant
            i < j <= cur <= s@.len(),
            forall|k: int| 0 <= k < out@.len() ==> valid_point(#[trigger] out@[k]),
            match parse_points_rest(s@, cur as int) {
                Some(t) => parse_points_rest(s@, j as int) == Some((out@ + t.0, t.1)),
                None => parse_points_rest(s@, j as int) is None,
            },
            parse_points(s@, i as int) == parse_points_rest(s@, j as int),
        decreases s@.len() - cur,
    {
        let (p, j2) = match p_point(s, cur) {
            Some(v) => v,
            None => {
                return None;
            },
        };
        let ghost pre_out = out@;
        out.push(p);
        if j2 < s.len() && s[j2] == 44 {
            proof {
                if let Some(t) = parse_points_rest(s@, j2 + 1) {
                    assert(parse_points_rest(s@, cur as int) == Some((seq![p] + t.0, t.1)));
                    assert(pre_out + (seq![p] + t.0) =~= out@ + t.0);
                }
            }
            cur = j2 + 1;
        } else if j2 < s.len() && s[j2] == 93 {
            proof {
                assert(parse_points_rest(s@, cur as int) == Some((seq![p], j2 + 1)));
                assert(pre_out + seq![p] =~= out@);
            }
            return Some((out, j2 + 1));
        } else {
            proof {
                assert(parse_points_rest(s@, cur as int) is None);
            }
            return None;
        }
    }
}

fn p_line(s: &Vec<u8>, i: usize) -> (res: Option<(Line, usize)>)
    ensures
        match res {
            Some(v) => parse_line(s@, i as int) == Some((v.0@, v.1 as int)) && i < v.1 <= s@.len()
                && v.0@.wf(),
            None => parse_line(s@, i as int) is None,
        },
{
    let tp = tok_points_vec();
    let j0 = match p_expect(s, i, &tp) {
        Some(j) => j,
        None => {
            return None;
        },
    };
    let (points, j1) = match p_points(s, j0) {
        Some(v) => v,
        None => {
            return None;
        },
    };
    let tc = tok_color_vec();
    let j2 = match p_expect(s, j1, &tc) {
        Some(j) => j,
        None => {
            return None;
        },
    };
    let (color, j3) = match p_color(s, j2) {
        Some(v) => v,
        None => {
            return None;
        },
    };
    let tw = tok_width_vec();
    let j4 = match p_expect(s, j3, &tw) {
        Some(j) => j,
        None => {
            return None;
        },
    };
    let (w, j5) = match p_bounded(s, j4, 1, WIDTH_LIMIT) {
        Some(v) => v,
        None => {
            return None;
        },
    };
    let j6 = match p_expect1(s, j5, 125) {
        Some(j) => j,
        None => {
            return None;
        },
    };
    Some((Line { points, color, width: w }, j6))
}

fn p_lines(s: &Vec<u8>, i: usize) -> (res: Option<(Vec<Line>, usize)>)
    ensures
        match res {
            Some(v) => parse_lines(s@, i as int) == Some((lines_view(v.0@), v.1 as int)) && i < v.1
                <= s@.len() && crate::state::wf_lines(lines_view(v.0@)),
            None => parse_lines(s@, i as int) is None,
        },
{
    let j = match p_expect1(s, i, 91) {
        Some(j) => j,
        None => {
            return None;
        },
    };
    if j < s.len() && s[j] == 93 {
        let empty: Vec<Line> = Vec::new();
        proof {
            assert(lines_view(empty@) =~= Seq::<LineV>::empty());
        }
        return Some((empty, j + 1));
    }
    let mut out: Vec<Line> = Vec::new();
    let mut cur: usize = j;
    loop
        invariant
            i < j <= cur <= s@.len(),
            crate::state::wf_lines(lines_view(out@)),
            match parse_lines_rest(s@, cur as int) {
                Some(t) => parse_lines_rest(s@, j as int) == Some((lines_view(out@) + t.0, t.1)),
                None => parse_lines_rest(s@, j as int) is None,
            },
            parse_lines(s@, i as int) == parse_lines_rest(s@, j as int),
        decreases s@.len() - cur,
    {
        let (l, j2) = match p_line(s, cur) {
            Some(v) => v,
            None => {
                return None;
            },
        };
        let ghost lv = l@;
        let ghost pre_out = out@;
        out.push(l);
        proof {
            crate::state::lemma_lines_view_push(pre_out, out@[out@.len() - 1]);
            assert(lines_view(out@) =~= lines_view(pre_out).push(lv));
        }
        if j2 < s.len() && s[j2] == 44 {
            proof {
                if let Some(t) = parse_lines_rest(s@, j2 + 1) {
                    assert(parse_lines_rest(s@, cur as int) == Some((seq![lv] + t.0, t.1)));
                    assert(lines_view(pre_out) + (seq![lv] + t.0) =~= lines_view(out@) + t.0);
                }
            }
            cur = j2 + 1;
        } else if j2 < s.len() && s[j2] == 93 {
            proof {
                assert(parse_lines_rest(s@, cur as int) == Some((seq![lv], j2 + 1)));
                assert(lines_view(pre_out) + seq![lv] =~= lines_view(out@));
            }
            return Some((out, j2 + 1));
        } else {
            proof {
                assert(parse_lines_rest(s@, cur as int) is None);
            }
            return None;
        }
    }
}

fn p_palette(s: &Vec<u8>, i: usize) -> (res: Option<(Vec<Color>, usize)>)
    ensures
        match res {
            Some(v) => parse_palette(s@, i as int) == Some((v.0@, v.1 as int)) && i < v.1
                <= s@.len(),
            None => parse_palette(s@, i as int) is None,
        },
{
    let j = match p_expect1(s, i, 91) {
        Some(j) => j,
        None => {
            return None;
        },
    };
    if j < s.len() && s[j] == 93 {
        let empty: Vec<Color> = Vec::new();
        proof {
            assert(empty@ =~= Seq::<Color>::empty());
        }
        return Some((empty, j + 1));
    }
    let mut out: Vec<Color> = Vec::new();
    let mut cur: usize = j;
    loop
        invariant
            i < j <= cur <= s@.len(),
            match parse_palette_rest(s@, cur as int) {
                Some(t) => parse_palette_rest(s@, j as int) == Some((out@ + t.0, t.1)),
                None => parse_palette_rest(s@, j as int) is None,
            },
            parse_palette(s@, i as int) == parse_palette_rest(s@, j as int),
        decreases s@.len() - cur,
    {
        let (c, j2) = match p_color(s, cur) {
            Some(v) => v,
            None => {
                return None;
            },
        };
        let ghost pre_out = out@;
        out.push(c);
        if j2 < s.len() && s[j2] == 44 {
            proof {
                if let Some(t) = parse_palette_rest(s@, j2 + 1) {
                    assert(parse_palette_rest(s@, cur as int) == Some((seq![c] + t.0, t.1)));
                    assert(pre_out + (seq![c] + t.0) =~= out@ + t.0);
                }
            }
            cur = j2 + 1;
        } else if j2 < s.len() && s[j2] == 93 {
            proof {
                assert(parse_palette_rest(s@, cur as int) == Some((seq![c], j2 + 1)));
                assert(pre_out + seq![c] =~= out@);
            }
            return Some((out, j2 + 1));
        } else {
            proof {
                assert(parse_palette_rest(s@, cur as int) is None);
            }
            return None;
        }
    }
}

/// The byte pattern `t` occurs in `s` at position `i`.
spec fn embeds(s: Seq<u8>, i: int, t: Seq<u8>) -> bool {
    0 <= i && i + t.len() <= s.len() && s.subrange(i, i + t.len() as int) == t
}

proof fn lemma_embeds_index(s: Seq<u8>, i: int, t: Seq<u8>, k: int)
    requires
        embeds(s, i, t),
        0 <= k < t.len(),
    ensures
        s[i + k] == t[k],
{
    assert(s.subrange(i, i + t.len() as int)[k] == t[k]);
}

proof fn lemma_embeds_sub(s: Seq<u8>, i: int, t: Seq<u8>, a: int, b: int)
    requires
        embeds(s, i, t),
        0 <= a <= b <= t.len(),
    ensures
        s.subrange(i + a, i + b) == t.subrange(a, b),
        t.subrange(a, b) == t.subrange(a, b) ==> embeds(s, i + a, t.subrange(a, b)),
{
    assert forall|k: int| 0 <= k < b - a implies s.subrange(i + a, i + b)[k] == t.subrange(a, b)[k]
        by {
        assert(s.subrange(i, i + t.len() as int)[a + k] == t[a + k]);
    }
    assert(s.subrange(i + a, i + b) =~= t.subrange(a, b));
}

spec fn pow10(k: nat) -> nat
    decreases k,
{
    if k == 0 {
        1
    } else {
        10 * pow10((k - 1) as nat)
    }
}

proof fn lemma_pow10_pos(k: nat)
    ensures
        pow10(k) >= 1,
    decreases k,
{
    if k > 0 {
        lemma_pow10_pos((k - 1) as nat);
    }
}

/// The value of the digit run of length `k` starting at `i`.
spec fn run_val(s: Seq<u8>, i: int, k: nat) -> nat
    decreases k,
{
    if k == 0 {
        0
    } else {
        run_val(s, i, (k - 1) as nat) * 10 + digit_val(s[i + k - 1])
    }
}

proof fn lemma_run_val_left(s: Seq<u8>, i: int, k: nat)
    requires
        k >= 1,
    ensures
        run_val(s, i, k) == digit_val(s[i]) * pow10((k - 1) as nat) + run_val(s, i + 1, (
        k - 1) as nat),
    decreases k,
{
    if k == 1 {
        assert(run_val(s, i, 1) == run_val(s, i, 0) * 10 + digit_val(s[i]));
        assert(run_val(s, i, 0) == 0);
        assert(0 * 10 == 0) by (nonlinear_arith);
        assert(pow10(0) == 1);
        assert(digit_val(s[i]) * 1 == digit_val(s[i])) by (nonlinear_arith);
        assert(run_val(s, i + 1, 0) == 0);
    } else {
        lemma_run_val_left(s, i, (k - 1) as nat);
        let d0 = digit_val(s[i]);
        let p = pow10((k - 2) as nat);
        let r = run_val(s, i + 1, (k - 2) as nat);
        assert(run_val(s, i, (k - 1) as nat) == d0 * p + r);
        assert(run_val(s, i, k) == run_val(s, i, (k - 1) as nat) * 10 + digit_val(s[i + k - 1]));
        assert((d0 * p + r) * 10 == d0 * (10 * p) + r * 10) by (nonlinear_arith);
        assert(pow10((k - 1) as nat) == 10 * p);
        assert(run_val(s, i + 1, (k - 1) as nat) == run_val(s, i + 1, (k - 2) as nat) * 10
            + digit_val(s[i + 1 + (k - 1) - 1]));
        assert(run_val(s, i + 1, (k - 1) as nat) == r * 10 + digit_val(s[i + k - 1]));
    }
}

proof fn lemma_parse_digits_run(s: Seq<u8>, i: int, acc: nat, k: nat)
    requires
        0 <= i,
        i + k <= s.len(),
        forall|m: int| i <= m < i + k ==> is_digit(#[trigger] s[m]),
        i + k == s.len() || !is_digit(s[i + k]),
        acc * pow10(k) + run_val(s, i, k) <= NUM_CAP as nat,
    ensures
        parse_digits(s, i, acc) == Some(((acc * pow10(k) + run_val(s, i, k)) as nat, i + k)),
    decreases k,
{
    if k == 0 {
        assert(pow10(0) == 1);
        assert(acc * 1 == acc) by (nonlinear_arith);
    } else {
        assert(is_digit(s[i]));
        let d0 = digit_val(s[i]);
        let a2 = acc * 10 + d0;
        let p1 = pow10((k - 1) as nat);
        lemma_run_val_left(s, i, k);
        lemma_pow10_pos((k - 1) as nat);
        assert(a2 * p1 == acc * (10 * p1) + d0 * p1) by (nonlinear_arith)
            requires
                a2 == acc * 10 + d0,
        ;
        assert(pow10(k) == 10 * p1);
        assert(a2 * p1 + run_val(s, i + 1, (k - 1) as nat) == acc * pow10(k) + run_val(s, i, k));
        assert(a2 * p1 >= a2) by (nonlinear_arith)
            requires
                p1 >= 1,
                a2 >= 0,
        ;
        assert(a2 <= NUM_CAP as nat);
        lemma_parse_digits_run(s, i + 1, a2, (k - 1) as nat);
    }
}

proof fn lemma_ser_uint_shape(n: nat)
    ensures
        ser_uint(n).len() >= 1,
        forall|k: int| 0 <= k < ser_uint(n).len() ==> is_digit(#[trigger] ser_uint(n)[k]),
        n > 0 ==> ser_uint(n)[0] != 48,
        n == 0 ==> ser_uint(n) == seq![48u8],
    decreases n,
{
    if n < 10 {
        assert(ser_uint(n) == seq![digit_of(n)]);
    } else {
        lemma_ser_uint_shape(n / 10);
        assert(ser_uint(n) == ser_uint(n / 10).push(digit_of(n % 10)));
        assert(ser_uint(n)[0] == ser_uint(n / 10)[0]);
        assert forall|k: int| 0 <= k < ser_uint(n).len() implies is_digit(
            #[trigger] ser_uint(n)[k],
        ) by {
            if k < ser_uint(n / 10).len() {
                assert(ser_uint(n)[k] == ser_uint(n / 10)[k]);
            }
        }
    }
}

proof fn lemma_run_of_ser(s: Seq<u8>, i: int, n: nat)
    requires
        embeds(s, i, ser_uint(n)),
    ensures
        run_val(s, i, ser_uint(n).len()) == n,
    decreases n,
{
    let t = ser_uint(n);
    if n < 10 {
        lemma_embeds_index(s, i, t, 0);
        assert(run_val(s, i, 1) == run_val(s, i, 0) * 10 + digit_val(s[i]));
        assert(run_val(s, i, 0) * 10 == 0) by (nonlinear_arith)
            requires
                run_val(s, i, 0) == 0,
        ;
    } else {
        let t2 = ser_uint(n / 10);
        let lp = t2.len() as int;
        assert(t == t2.push(digit_of(n % 10)));
        assert(t.subrange(0, lp) =~= t2);
        lemma_embeds_sub(s, i, t, 0, lp);
        assert(embeds(s, i, t2));
        lemma_run_of_ser(s, i, n / 10);
        lemma_embeds_index(s, i, t, lp);
        assert(s[i + lp] == digit_of(n % 10));
        assert(run_val(s, i, t.len() as nat) == run_val(s, i, t2.len() as nat) * 10 + digit_val(
            s[i + t.len() - 1],
        ));
        assert(n / 10 * 10 + n % 10 == n) by {
            vstd::arithmetic::div_mod::lemma_fundamental_div_mod(n as int, 10);
        }
    }
}

proof fn lemma_parse_uint_ser(s: Seq<u8>, i: int, n: nat)
    requires
        embeds(s, i, ser_uint(n)),
        n <= NUM_CAP as nat,
        i + ser_uint(n).len() == s.len() || !is_digit(s[i + ser_uint(n).len()]),
    ensures
        parse_uint(s, i) == Some((n, i + ser_uint(n).len())),
{
    let t = ser_uint(n);
    lemma_ser_uint_shape(n);
    lemma_embeds_index(s, i, t, 0);
    assert(is_digit(s[i]));
    if n == 0 {
        assert(s[i] == 48);
    } else {
        assert(s[i] != 48);
        assert forall|m: int| i <= m < i + t.len() implies is_digit(#[trigger] s[m]) by {
            lemma_embeds_index(s, i, t, m - i);
        }
        lemma_run_of_ser(s, i, n);
        lemma_pow10_pos(t.len() as nat);
        assert(0 * pow10(t.len() as nat) == 0) by (nonlinear_arith);
        lemma_parse_digits_run(s, i, 0, t.len() as nat);
    }
}

proof fn lemma_parse_int_ser(s: Seq<u8>, i: int, v: int)
    requires
        embeds(s, i, ser_int(v)),
        -(NUM_CAP as int) <= v <= NUM_CAP as int,
        i + ser_int(v).len() == s.len() || !is_digit(s[i + ser_int(v).len()]),
    ensures
        parse_int(s, i) == Some((v, i + ser_int(v).len())),
{
    let t = ser_int(v);
    if v < 0 {
        let a = ser_uint((-v) as nat);
        assert(t == seq![45u8] + a);
        lemma_embeds_index(s, i, t, 0);
        assert(s[i] == 45);
        assert(t.subrange(1, t.len() as int) =~= a);
        lemma_embeds_sub(s, i, t, 1, t.len() as int);
        assert(embeds(s, i + 1, a));
        lemma_parse_uint_ser(s, i + 1, (-v) as nat);
    } else {
        lemma_ser_uint_shape(v as nat);
        lemma_embeds_index(s, i, t, 0);
        assert(is_digit(s[i]));
        assert(s[i] != 45);
        lemma_parse_uint_ser(s, i, v as nat);
    }
}

#[verifier::rlimit(100)]
proof fn lemma_parse_color_ser(s: Seq<u8>, i: int, c: Color)
    requires
        embeds(s, i, ser_color(c)),
    ensures
        parse_color(s, i) == Some((c, i + ser_color(c).len())),
{
    let t = ser_color(c);
    let ra = ser_uint(c.r as nat);
    let ga = ser_uint(c.g as nat);
    let ba = ser_uint(c.b as nat);
    let aa = ser_uint(c.a as nat);
    let la = ra.len() as int;
    let lg = ga.len() as int;
    let lb = ba.len() as int;
    let lz = aa.len() as int;
    lemma_embeds_index(s, i, t, 0);
    assert(t[0] == 91);
    assert(t.subrange(1, 1 + la) =~= ra);
    lemma_embeds_sub(s, i, t, 1, 1 + la);
    lemma_embeds_index(s, i, t, 1 + la);
    assert(t[1 + la] == 44);
    lemma_parse_uint_ser(s, i + 1, c.r as nat);
    assert(t.subrange(2 + la, 2 + la + lg) =~= ga);
    lemma_embeds_sub(s, i, t, 2 + la, 2 + la + lg);
    lemma_embeds_index(s, i, t, 2 + la + lg);
    assert(t[2 + la + lg] == 44);
    lemma_parse_uint_ser(s, i + 2 + la, c.g as nat);
    assert(t.subrange(3 + la + lg, 3 + la + lg + lb) =~= ba);
    lemma_embeds_sub(s, i, t, 3 + la + lg, 3 + la + lg + lb);
    lemma_embeds_index(s, i, t, 3 + la + lg + lb);
    assert(t[3 + la + lg + lb] == 44);
    lemma_parse_uint_ser(s, i + 3 + la + lg, c.b as nat);
    assert(t.subrange(4 + la + lg + lb, 4 + la + lg + lb + lz) =~= aa);
    lemma_embeds_sub(s, i, t, 4 + la + lg + lb, 4 + la + lg + lb + lz);
    lemma_embeds_index(s, i, t, 4 + la + lg + lb + lz);
    assert(t[4 + la + lg + lb + lz] == 93);
    lemma_parse_uint_ser(s, i + 4 + la + lg + lb, c.a as nat);
    assert((Color {
        r: (c.r as nat) as u8,
        g: (c.g as nat) as u8,
        b: (c.b as nat) as u8,
        a: (c.a as nat) as u8,
    }) == c);
}

#[verifier::rlimit(100)]
proof fn lemma_parse_point_ser(s: Seq<u8>, i: int, p: Point)
    requires
        embeds(s, i, ser_point(p)),
        valid_point(p),
    ensures
        parse_point(s, i) == Some((p, i + ser_point(p).len())),
{
    let t = ser_point(p);
    let xa = ser_int(p.x as int);
    let ya = ser_int(p.y as int);
    let lx = xa.len() as int;
    let ly = ya.len() as int;
    assert(t.subrange(0, 5) =~= tok_obj_x());
    lemma_embeds_sub(s, i, t, 0, 5);
    assert(expect(s, i, tok_obj_x()) == Some(i + 5));
    assert(t.subrange(5, 5 + lx) =~= xa);
    lemma_embeds_sub(s, i, t, 5, 5 + lx);
    lemma_embeds_index(s, i, t, 5 + lx);
    assert(t[5 + lx] == 44);
    lemma_parse_int_ser(s, i + 5, p.x as int);
    assert(t.subrange(5 + lx, 10 + lx) =~= tok_obj_y());
    lemma_embeds_sub(s, i, t, 5 + lx, 10 + lx);
    assert(expect(s, i + 5 + lx, tok_obj_y()) == Some(i + 10 + lx));
    assert(t.subrange(10 + lx, 10 + lx + ly) =~= ya);
    lemma_embeds_sub(s, i, t, 10 + lx, 10 + lx + ly);
    lemma_embeds_index(s, i, t, 10 + lx + ly);
    assert(t[10 + lx + ly] == 125);
    lemma_parse_int_ser(s, i + 10 + lx, p.y as int);
    assert((Point { x: (p.x as int) as i32, y: (p.y as int) as i32 }) == p);
}

proof fn lemma_ser_points_items_front(ps: Seq<Point>)
    requires
        ps.len() >= 2,
    ensures
        ser_points_items(ps) == ser_point(ps[0]) + seq![44u8] + ser_points_items(ps.drop_first()),
    decreases ps.len(),
{
    if ps.len() == 2 {
        assert(ps.drop_last() =~= seq![ps[0]]);
        assert(ps.drop_first() =~= seq![ps[1]]);
        assert(ser_points_items(ps) == ser_points_items(ps.drop_last()) + seq![44u8] + ser_point(
            ps.last(),
        ));
        assert(seq![ps[0]][0] == ps[0]);
        assert(ser_points_items(seq![ps[0]]) == ser_point(ps[0]));
        assert(seq![ps[1]][0] == ps[1]);
        assert(ser_points_items(seq![ps[1]]) == ser_point(ps[1]));
        assert(ps.last() == ps[1]);
    } else {
        lemma_ser_points_items_front(ps.drop_last());
        assert(ps.drop_last()[0] == ps[0]);
        assert(ps.drop_last().drop_first() =~= ps.drop_first().drop_last());
        assert(ps.drop_first().last() == ps.last());
        let a = ser_point(ps[0]);
        let c = seq![44u8];
        let m = ser_points_items(ps.drop_last().drop_first());
        let q = ser_point(ps.last());
        assert(ser_points_items(ps.drop_last()) == a + c + m);
        assert(ser_points_items(ps) == (a + c + m) + c + q);
        assert(m == ser_points_items(ps.drop_first().drop_last()));
        assert(ser_points_items(ps.drop_first()) == m + c + q);
        assert((a + c + m) + c + q =~= a + c + (m + c + q));
    }
}

proof fn lemma_ser_points_items_first_byte(ps: Seq<Point>)
    requires
        ps.len() >= 1,
    ensures
        ser_points_items(ps).len() >= 1,
        ser_points_items(ps)[0] == 123,
{
    if ps.len() == 1 {
        assert(ser_points_items(ps)[0] == ser_point(ps[0])[0]);
    } else {
        lemma_ser_points_items_front(ps);
        assert(ser_points_items(ps)[0] == ser_point(ps[0])[0]);
    }
}

#[verifier::rlimit(100)]
proof fn lemma_parse_points_rest_ser(s: Seq<u8>, i: int, ps: Seq<Point>)
    requires
        ps.len() >= 1,
        forall|k: int| 0 <= k < ps.len() ==> valid_point(#[trigger] ps[k]),
        embeds(s, i, ser_points_items(ps) + seq![93u8]),
    ensures
        parse_points_rest(s, i) == Some((ps, i + ser_points_items(ps).len() + 1)),
    decreases ps.len(),
{
    let t = ser_points_items(ps) + seq![93u8];
    if ps.len() == 1 {
        let hp = ser_point(ps[0]);
        assert(ser_points_items(ps) == hp);
        assert(t.subrange(0, hp.len() as int) =~= hp);
        lemma_embeds_sub(s, i, t, 0, hp.len() as int);
        lemma_parse_point_ser(s, i, ps[0]);
        lemma_embeds_index(s, i, t, hp.len() as int);
        assert(t[hp.len() as int] == 93);
        assert(seq![ps[0]] =~= ps);
    } else {
        lemma_ser_points_items_front(ps);
        let hp = ser_point(ps[0]);
        let rest = ser_points_items(ps.drop_first()) + seq![93u8];
        assert(t =~= hp + seq![44u8] + rest);
        assert(t.subrange(0, hp.len() as int) =~= hp);
        lemma_embeds_sub(s, i, t, 0, hp.len() as int);
        lemma_parse_point_ser(s, i, ps[0]);
        lemma_embeds_index(s, i, t, hp.len() as int);
        assert(t[hp.len() as int] == 44);
        assert(t.subrange(hp.len() as int + 1, t.len() as int) =~= rest);
        lemma_embeds_sub(s, i, t, hp.len() as int + 1, t.len() as int);
        assert forall|k: int| 0 <= k < ps.drop_first().len() implies valid_point(
            #[trigger] ps.drop_first()[k],
        ) by {
            assert(ps.drop_first()[k] == ps[k + 1]);
        }
        lemma_parse_points_rest_ser(s, i + hp.len() as int + 1, ps.drop_first());
        assert(seq![ps[0]] + ps.drop_first() =~= ps);
    }
}

proof fn lemma_ser_lines_items_front(ls: Seq<LineV>)
    requires
        ls.len() >= 2,
    ensures
        ser_lines_items(ls) == ser_line(ls[0]) + seq![44u8] + ser_lines_items(ls.drop_first()),
    decreases ls.len(),
{
    if ls.len() == 2 {
        assert(ls.drop_last() =~= seq![ls[0]]);
        assert(ls.drop_first() =~= seq![ls[1]]);
        assert(ser_lines_items(ls) == ser_lines_items(ls.drop_last()) + seq![44u8] + ser_line(
            ls.last(),
        ));
        assert(seq![ls[0]][0] == ls[0]);
        assert(ser_lines_items(seq![ls[0]]) == ser_line(ls[0]));
        assert(seq![ls[1]][0] == ls[1]);
        assert(ser_lines_items(seq![ls[1]]) == ser_line(ls[1]));
        assert(ls.last() == ls[1]);
    } else {
        lemma_ser_lines_items_front(ls.drop_last());
        assert(ls.drop_last()[0] == ls[0]);
        assert(ls.drop_last().drop_first() =~= ls.drop_first().drop_last());
        assert(ls.drop_first().last() == ls.last());
        let a = ser_line(ls[0]);
        let c = seq![44u8];
        let m = ser_lines_items(ls.drop_last().drop_first());
        let q = ser_line(ls.last());
        assert(ser_lines_items(ls.drop_last()) == a + c + m);
        assert(ser_lines_items(ls) == (a + c + m) + c + q);
        assert(m == ser_lines_items(ls.drop_first().drop_last()));
        assert(ser_lines_items(ls.drop_first()) == m + c + q);
        assert((a + c + m) + c + q =~= a + c + (m + c + q));
    }
}

proof fn lemma_ser_lines_items_first_byte(ls: Seq<LineV>)
    requires
        ls.len() >= 1,
    ensures
        ser_lines_items(ls).len() >= 1,
        ser_lines_items(ls)[0] == 123,
{
    if ls.len() == 1 {
        assert(ser_lines_items(ls)[0] == ser_line(ls[0])[0]);
    } else {
        lemma_ser_lines_items_front(ls);
        assert(ser_lines_items(ls)[0] == ser_line(ls[0])[0]);
    }
}

proof fn lemma_ser_palette_items_front(cs: Seq<Color>)
    requires
        cs.len() >= 2,
    ensures
        ser_palette_items(cs) == ser_color(cs[0]) + seq![44u8] + ser_palette_items(
            cs.drop_first(),
        ),
    decreases cs.len(),
{
    if cs.len() == 2 {
        assert(cs.drop_last() =~= seq![cs[0]]);
        assert(cs.drop_first() =~= seq![cs[1]]);
        assert(ser_palette_items(cs) == ser_palette_items(cs.drop_last()) + seq![44u8]
            + ser_color(cs.last()));
        assert(seq![cs[0]][0] == cs[0]);
        assert(ser_palette_items(seq![cs[0]]) == ser_color(cs[0]));
        assert(seq![cs[1]][0] == cs[1]);
        assert(ser_palette_items(seq![cs[1]]) == ser_color(cs[1]));
        assert(cs.last() == cs[1]);
    } else {
        lemma_ser_palette_items_front(cs.drop_last());
        assert(cs.drop_last()[0] == cs[0]);
        assert(cs.drop_last().drop_first() =~= cs.drop_first().drop_last());
        assert(cs.drop_first().last() == cs.last());
        let a = ser_color(cs[0]);
        let c = seq![44u8];
        let m = ser_palette_items(cs.drop_last().drop_first());
        let q = ser_color(cs.last());
        assert(ser_palette_items(cs.drop_last()) == a + c + m);
        assert(ser_palette_items(cs) == (a + c + m) + c + q);
        assert(m == ser_palette_items(cs.drop_first().drop_last()));
        assert(ser_palette_items(cs.drop_first()) == m + c + q);
        assert((a + c + m) + c + q =~= a + c + (m + c + q));
    }
}

proof fn lemma_ser_palette_items_first_byte(cs: Seq<Color>)
    requires
        cs.len() >= 1,
    ensures
        ser_palette_items(cs).len() >= 1,
        ser_palette_items(cs)[0] == 91,
{
    if cs.len() == 1 {
        assert(ser_palette_items(cs)[0] == ser_color(cs[0])[0]);
    } else {
        lemma_ser_palette_items_front(cs);
        assert(ser_palette_items(cs)[0] == ser_color(cs[0])[0]);
    }
}

#[verifier::rlimit(100)]
proof fn lemma_parse_palette_rest_ser(s: Seq<u8>, i: int, cs: Seq<Color>)
    requires
        cs.len() >= 1,
        embeds(s, i, ser_palette_items(cs) + seq![93u8]),
    ensures
        parse_palette_rest(s, i) == Some((cs, i + ser_palette_items(cs).len() + 1)),
    decreases cs.len(),
{
    let t = ser_palette_items(cs) + seq![93u8];
    if cs.len() == 1 {
        let hp = ser_color(cs[0]);
        assert(ser_palette_items(cs) == hp);
        assert(t.subrange(0, hp.len() as int) =~= hp);
        lemma_embeds_sub(s, i, t, 0, hp.len() as int);
        lemma_parse_color_ser(s, i, cs[0]);
        lemma_embeds_index(s, i, t, hp.len() as int);
        assert(t[hp.len() as int] == 93);
        assert(seq![cs[0]] =~= cs);
    } else {
        lemma_ser_palette_items_front(cs);
        let hp = ser_color(cs[0]);
        let rest = ser_palette_items(cs.drop_first()) + seq![93u8];
        assert(t =~= hp + seq![44u8] + rest);
        assert(t.subrange(0, hp.len() as int) =~= hp);
        lemma_embeds_sub(s, i, t, 0, hp.len() as int);
        lemma_parse_color_ser(s, i, cs[0]);
        lemma_embeds_index(s, i, t, hp.len() as int);
        assert(t[hp.len() as int] == 44);
        assert(t.subrange(hp.len() as int + 1, t.len() as int) =~= rest);
        lemma_embeds_sub(s, i, t, hp.len() as int + 1, t.len() as int);
        lemma_parse_palette_rest_ser(s, i + hp.len() as int + 1, cs.drop_first());
        assert(seq![cs[0]] + cs.drop_first() =~= cs);
    }
}

#[verifier::rlimit(100)]
proof fn lemma_parse_line_ser(s: Seq<u8>, i: int, l: LineV)
    requires
        embeds(s, i, ser_line(l)),
        l.wf(),
    ensures
        parse_line(s, i) == Some((l, i + ser_line(l).len())),
{
    let t = ser_line(l);
    let items = ser_points_items(l.points);
    let li = items.len() as int;
    let ca = ser_color(l.color);
    let lc = ca.len() as int;
    let wa = ser_uint(l.width as nat);
    let lw = wa.len() as int;
    assert(t.subrange(0, 10) =~= tok_points());
    lemma_embeds_sub(s, i, t, 0, 10);
    assert(expect(s, i, tok_points()) == Some(i + 10));
    lemma_embeds_index(s, i, t, 10);
    assert(t[10] == 91);
    let j1 = i + 11 + li + 1;
    if l.points.len() == 0 {
        assert(items =~= Seq::<u8>::empty());
        lemma_embeds_index(s, i, t, 11);
        assert(t[11] == 93);
        assert(parse_points(s, i + 10) == Some((Seq::<Point>::empty(), i + 12)));
        assert(Seq::<Point>::empty() =~= l.points);
    } else {
        lemma_ser_points_items_first_byte(l.points);
        lemma_embeds_index(s, i, t, 11);
        assert(t[11] == items[0]);
        assert(s[i + 11] == 123);
        assert(t.subrange(11, 11 + li + 1) =~= items + seq![93u8]);
        lemma_embeds_sub(s, i, t, 11, 11 + li + 1);
        lemma_parse_points_rest_ser(s, i + 11, l.points);
        assert(parse_points(s, i + 10) == Some((l.points, j1)));
    }
    assert(t.subrange(11 + li + 1, 11 + li + 1 + 9) =~= tok_color());
    lemma_embeds_sub(s, i, t, 11 + li + 1, 11 + li + 1 + 9);
    assert(expect(s, j1, tok_color()) == Some(j1 + 9));
    assert(t.subrange(21 + li, 21 + li + lc) =~= ca);
    lemma_embeds_sub(s, i, t, 21 + li, 21 + li + lc);
    lemma_parse_color_ser(s, j1 + 9, l.color);
    let j3 = j1 + 9 + lc;
    assert(t.subrange(21 + li + lc, 21 + li + lc + 9) =~= tok_width());
    lemma_embeds_sub(s, i, t, 21 + li + lc, 21 + li + lc + 9);
    assert(expect(s, j3, tok_width()) == Some(j3 + 9));
    assert(t.subrange(30 + li + lc, 30 + li + lc + lw) =~= wa);
    lemma_embeds_sub(s, i, t, 30 + li + lc, 30 + li + lc + lw);
    lemma_embeds_index(s, i, t, 30 + li + lc + lw);
    assert(t[30 + li + lc + lw] == 125);
    lemma_parse_uint_ser(s, j3 + 9, l.width as nat);
    assert((LineV { points: l.points, color: l.color, width: (l.width as nat) as u32 }) == l);
}

proof fn lemma_state_layout(v: StateV)
    ensures
        ser_state(v).len() == 25 + ser_lines_items(v.lines).len() + ser_palette_items(
            v.palette,
        ).len(),
        ser_state(v).subrange(0, 9) == tok_lines(),
        ser_state(v)[9] == 91,
        ser_state(v).subrange(10, 11 + ser_lines_items(v.lines).len() as int) == ser_lines_items(
            v.lines,
        ) + seq![93u8],
        ser_state(v).subrange(
            11 + ser_lines_items(v.lines).len() as int,
            22 + ser_lines_items(v.lines).len() as int,
        ) == tok_palette(),
        ser_state(v)[22 + ser_lines_items(v.lines).len() as int] == 91,
        ser_state(v).subrange(
            23 + ser_lines_items(v.lines).len() as int,
            24 + ser_lines_items(v.lines).len() as int + ser_palette_items(v.palette).len() as int,
        ) == ser_palette_items(v.palette) + seq![93u8],
        ser_state(v)[24 + ser_lines_items(v.lines).len() as int + ser_palette_items(
            v.palette,
        ).len() as int] == 125,
{
    let s = ser_state(v);
    let items = ser_lines_items(v.lines);
    let li = items.len() as int;
    let pits = ser_palette_items(v.palette);
    let lp = pits.len() as int;
    assert(s.subrange(0, 9) =~= tok_lines());
    assert(s.subrange(10, 11 + li) =~= items + seq![93u8]);
    assert(s.subrange(11 + li, 22 + li) =~= tok_palette());
    assert(s.subrange(23 + li, 24 + li + lp) =~= pits + seq![93u8]);
}

#[verifier::rlimit(100)]
proof fn lemma_doc_parses_lines(v: StateV)
    requires
        v.wf(),
    ensures
        parse_lines(ser_state(v), 9) == Some(
            (v.lines, 11 + ser_lines_items(v.lines).len() as int),
        ),
{
    let s = ser_state(v);
    let items = ser_lines_items(v.lines);
    let li = items.len() as int;
    lemma_state_layout(v);
    if v.lines.len() == 0 {
        assert(items =~= Seq::<u8>::empty());
        assert(s[10] == (items + seq![93u8])[0]) by {
            assert(s.subrange(10, 11 + li)[0] == (items + seq![93u8])[0]);
        }
        assert(parse_lines(s, 9) == Some((Seq::<LineV>::empty(), 11int)));
        assert(Seq::<LineV>::empty() =~= v.lines);
    } else {
        lemma_ser_lines_items_first_byte(v.lines);
        assert(s[10] == (items + seq![93u8])[0]) by {
            assert(s.subrange(10, 11 + li)[0] == (items + seq![93u8])[0]);
        }
        assert(s[10] == 123);
        assert(embeds(s, 10, items + seq![93u8]));
        lemma_parse_lines_rest_ser(s, 10, v.lines);
    }
}

#[verifier::rlimit(100)]
proof fn lemma_doc_parses_palette(v: StateV)
    requires
        v.wf(),
    ensures
        parse_palette(ser_state(v), 22 + ser_lines_items(v.lines).len() as int) == Some(
            (
                v.palette,
                24 + ser_lines_items(v.lines).len() as int + ser_palette_items(
                    v.palette,
                ).len() as int,
            ),
        ),
{
    let s = ser_state(v);
    let li = ser_lines_items(v.lines).len() as int;
    let pits = ser_palette_items(v.palette);
    let lp = pits.len() as int;
    lemma_state_layout(v);
    lemma_ser_palette_items_first_byte(v.palette);
    assert(s[23 + li] == (pits + seq![93u8])[0]) by {
        assert(s.subrange(23 + li, 24 + li + lp)[0] == (pits + seq![93u8])[0]);
    }
    assert(s[23 + li] == 91);
    assert(embeds(s, 23 + li, pits + seq![93u8]));
    lemma_parse_palette_rest_ser(s, 23 + li, v.palette);
}

/// Every document that `serialize` produces from a well-formed snapshot is
/// accepted by the parser and yields exactly that snapshot: the round-trip
/// law of the codec.
#[verifier::rlimit(100)]
pub proof fn lemma_serialize_parses_back(v: StateV)
    requires
        v.wf(),
    ensures
        parse_doc(ser_state(v)) == Some(v),
{
    let s = ser_state(v);
    let li = ser_lines_items(v.lines).len() as int;
    let lp = ser_palette_items(v.palette).len() as int;
    lemma_state_layout(v);
    assert(expect(s, 0, tok_lines()) == Some(9int));
    lemma_doc_parses_lines(v);
    let j1 = 11 + li;
    assert(expect(s, j1, tok_palette()) == Some(j1 + 11));
    lemma_doc_parses_palette(v);
    let j3 = 24 + li + lp;
    assert(expect1(s, j3, 125) == Some(j3 + 1));
    assert(parse_state(s, 0) == Some(
        (StateV { lines: v.lines, palette: v.palette }, s.len() as int),
    ));
    assert((StateV { lines: v.lines, palette: v.palette }) == v);
}

#[verifier::rlimit(100)]
proof fn lemma_parse_lines_rest_ser(s: Seq<u8>, i: int, ls: Seq<LineV>)
    requires
        ls.len() >= 1,
        forall|k: int| 0 <= k < ls.len() ==> (#[trigger] ls[k]).wf(),
        embeds(s, i, ser_lines_items(ls) + seq![93u8]),
    ensures
        parse_lines_rest(s, i) == Some((ls, i + ser_lines_items(ls).len() + 1)),
    decreases ls.len(),
{
    let t = ser_lines_items(ls) + seq![93u8];
    if ls.len() == 1 {
        let hp = ser_line(ls[0]);
        assert(ser_lines_items(ls) == hp);
        assert(t.subrange(0, hp.len() as int) =~= hp);
        lemma_embeds_sub(s, i, t, 0, hp.len() as int);
        lemma_parse_line_ser(s, i, ls[0]);
        lemma_embeds_index(s, i, t, hp.len() as int);
        assert(t[hp.len() as int] == 93);
        assert(seq![ls[0]] =~= ls);
    } else {
        lemma_ser_lines_items_front(ls);
        let hp = ser_line(ls[0]);
        let rest = ser_lines_items(ls.drop_first()) + seq![93u8];
        assert(t =~= hp + seq![44u8] + rest);
        assert(t.subrange(0, hp.len() as int) =~= hp);
        lemma_embeds_sub(s, i, t, 0, hp.len() as int);
        lemma_parse_line_ser(s, i, ls[0]);
        lemma_embeds_index(s, i, t, hp.len() as int);
        assert(t[hp.len() as int] == 44);
        assert(t.subrange(hp.len() as int + 1, t.len() as int) =~= rest);
        lemma_embeds_sub(s, i, t, hp.len() as int + 1, t.len() as int);
        assert forall|k: int| 0 <= k < ls.drop_first().len() implies (#[trigger] ls.drop_first()[
            k]).wf() by {
            assert(ls.drop_first()[k] == ls[k + 1]);
        }
        lemma_parse_lines_rest_ser(s, i + hp.len() as int + 1, ls.drop_first());
        assert(seq![ls[0]] + ls.drop_first() =~= ls);
    }
}

proof fn lemma_parse_digits_sound(s: Seq<u8>, i: int, acc: nat)
    requires
        0 <= i <= s.len(),
    ensures
        parse_digits(s, i, acc) matches Some((v, j)) ==> {
            &&& i <= j <= s.len()
            &&& (forall|m: int| i <= m < j ==> is_digit(#[trigger] s[m]))
            &&& (j == s.len() || !is_digit(s[j]))
            &&& v == acc * pow10((j - i) as nat) + run_val(s, i, (j - i) as nat)
        },
    decreases s.len() - i,
{
    if 0 <= i < s.len() && is_digit(s[i]) {
        let d0 = digit_val(s[i]);
        let a2 = acc * 10 + d0;
        if a2 <= NUM_CAP as nat {
            lemma_parse_digits_sound(s, i + 1, a2);
            if let Some((v, j)) = parse_digits(s, i + 1, a2) {
                let k = (j - i) as nat;
                lemma_run_val_left(s, i, k);
                lemma_pow10_pos((k - 1) as nat);
                assert(a2 * pow10((k - 1) as nat) == acc * (10 * pow10((k - 1) as nat)) + d0
                    * pow10((k - 1) as nat)) by (nonlinear_arith)
                    requires
                        a2 == acc * 10 + d0,
                ;
                assert(pow10(k) == 10 * pow10((k - 1) as nat));
            }
        }
    } else {
        assert(pow10(0) == 1);
        assert(acc * 1 == acc) by (nonlinear_arith);
    }
}

/// A digit run whose first digit is not zero serializes back to itself.
proof fn lemma_run_is_ser(s: Seq<u8>, i: int, k: nat)
    requires
        0 <= i,
        k >= 1,
        i + k <= s.len(),
        forall|m: int| i <= m < i + k ==> is_digit(#[trigger] s[m]),
        k > 1 ==> s[i] != 48,
    ensures
        ser_uint(run_val(s, i, k)) == s.subrange(i, i + k),
    decreases k,
{
    let v = run_val(s, i, k);
    if k == 1 {
        assert(run_val(s, i, 0) * 10 == 0) by (nonlinear_arith)
            requires
                run_val(s, i, 0) == 0,
        ;
        assert(v == digit_val(s[i]));
        assert(v < 10);
        assert(digit_of(v) == s[i]);
        assert(ser_uint(v) =~= s.subrange(i, i + 1));
    } else {
        let w = run_val(s, i, (k - 1) as nat);
        let dk = digit_val(s[i + k - 1]);
        assert(v == w * 10 + dk);
        lemma_run_val_left(s, i, (k - 1) as nat);
        lemma_pow10_pos((k - 2) as nat);
        assert(digit_val(s[i]) >= 1);
        assert(digit_val(s[i]) * pow10((k - 2) as nat) >= 1) by (nonlinear_arith)
            requires
                digit_val(s[i]) >= 1,
                pow10((k - 2) as nat) >= 1,
        ;
        assert(w >= 1);
        assert(v >= 10) by (nonlinear_arith)
            requires
                v == w * 10 + dk,
                w >= 1,
                dk >= 0,
        ;
        assert(v / 10 == w && v % 10 == dk) by {
            vstd::arithmetic::div_mod::lemma_fundamental_div_mod_converse(
                v as int,
                10,
                w as int,
                dk as int,
            );
        }
        lemma_run_is_ser(s, i, (k - 1) as nat);
        assert(ser_uint(v) == ser_uint(w).push(digit_of(dk)));
        assert(digit_of(dk) == s[i + k - 1]);
        assert(ser_uint(w).push(s[i + k - 1]) =~= s.subrange(i, i + k));
    }
}

proof fn lemma_parse_uint_sound(s: Seq<u8>, i: int)
    ensures
        parse_uint(s, i) matches Some((v, j)) ==> {
            &&& 0 <= i < j <= s.len()
            &&& s.subrange(i, j) == ser_uint(v)
            &&& v <= NUM_CAP as nat
        },
{
    if 0 <= i < s.len() && is_digit(s[i]) {
        if s[i] == 48 {
            assert(ser_uint(0) =~= s.subrange(i, i + 1));
        } else {
            lemma_parse_digits_sound(s, i, 0);
            if let Some((v, j)) = parse_digits(s, i, 0) {
                let k = (j - i) as nat;
                assert(k >= 1) by {
                    if j == i {
                        assert(j == s.len() || !is_digit(s[j]));
                        assert(false);
                    }
                }
                lemma_pow10_pos(k);
                assert(0 * pow10(k) == 0) by (nonlinear_arith);
                assert(v == run_val(s, i, k));
                lemma_run_is_ser(s, i, k);
                lemma_parse_digits_bounded(s, i, 0);
            }
        }
    }
}

proof fn lemma_parse_digits_bounded(s: Seq<u8>, i: int, acc: nat)
    requires
        acc <= NUM_CAP as nat,
    ensures
        parse_digits(s, i, acc) matches Some((v, j)) ==> v <= NUM_CAP as nat,
    decreases s.len() - i,
{
    if 0 <= i < s.len() && is_digit(s[i]) {
        let a2 = acc * 10 + digit_val(s[i]);
        if a2 <= NUM_CAP as nat {
            lemma_parse_digits_bounded(s, i + 1, a2);
        }
    }
}

proof fn lemma_parse_int_sound(s: Seq<u8>, i: int)
    ensures
        parse_int(s, i) matches Some((v, j)) ==> {
            &&& 0 <= i < j <= s.len()
            &&& s.subrange(i, j) == ser_int(v)
            &&& -(NUM_CAP as int) <= v <= NUM_CAP as int
        },
{
    lemma_parse_uint_sound(s, i);
    if 0 <= i < s.len() && s[i] == 45 {
        lemma_parse_uint_sound(s, i + 1);
        if let Some((u, j)) = parse_uint(s, i + 1) {
            if u > 0 {
                assert(ser_int(-(u as int)) == seq![45u8] + ser_uint(u));
                assert(s.subrange(i, j) =~= seq![45u8] + s.subrange(i + 1, j));
            }
        }
    }
}

#[verifier::rlimit(100)]
proof fn lemma_parse_color_sound(s: Seq<u8>, i: int)
    ensures
        parse_color(s, i) matches Some((c, j)) ==> 0 <= i < j <= s.len() && s.subrange(i, j)
            == ser_color(c),
{
    if let Some(j0) = expect1(s, i, 91) {
        lemma_parse_uint_sound(s, j0);
        if let Some((r, j1)) = parse_bounded(s, j0, 0, 255) {
            if let Some(j2) = expect1(s, j1, 44) {
                lemma_parse_uint_sound(s, j2);
                if let Some((g, j3)) = parse_bounded(s, j2, 0, 255) {
                    if let Some(j4) = expect1(s, j3, 44) {
                        lemma_parse_uint_sound(s, j4);
                        if let Some((b, j5)) = parse_bounded(s, j4, 0, 255) {
                            if let Some(j6) = expect1(s, j5, 44) {
                                lemma_parse_uint_sound(s, j6);
                                if let Some((a, j7)) = parse_bounded(s, j6, 0, 255) {
                                    if let Some(j8) = expect1(s, j7, 93) {
                                        let c = Color {
                                            r: r as u8,
                                            g: g as u8,
                                            b: b as u8,
                                            a: a as u8,
                                        };
                                        assert(ser_uint(c.r as nat) == s.subrange(j0, j1));
                                        assert(ser_uint(c.g as nat) == s.subrange(j2, j3));
                                        assert(ser_uint(c.b as nat) == s.subrange(j4, j5));
                                        assert(ser_uint(c.a as nat) == s.subrange(j6, j7));
                                        assert(s.subrange(i, j8) =~= ser_color(c));
                                    }
                                }
                            }
                        }
                    }
                }
            }
        }
    }
}

#[verifier::rlimit(100)]
proof fn lemma_parse_point_sound(s: Seq<u8>, i: int)
    ensures
        parse_point(s, i) matches Some((p, j)) ==> 0 <= i < j <= s.len() && s.subrange(i, j)
            == ser_point(p) && valid_point(p),
{
    if let Some(j0) = expect(s, i, tok_obj_x()) {
        lemma_parse_int_sound(s, j0);
        if let Some((x, j1)) = parse_coord(s, j0) {
            if let Some(j2) = expect(s, j1, tok_obj_y()) {
                lemma_parse_int_sound(s, j2);
                if let Some((y, j3)) = parse_coord(s, j2) {
                    if let Some(j4) = expect1(s, j3, 125) {
                        let p = Point { x: x as i32, y: y as i32 };
                        assert(ser_int(p.x as int) == s.subrange(j0, j1));
                        assert(ser_int(p.y as int) == s.subrange(j2, j3));
                        assert(s.subrange(i, j4) =~= ser_point(p));
                    }
                }
            }
        }
    }
}

/// Splices two adjacent byte ranges into one.
proof fn lemma_splice2(s: Seq<u8>, i: int, j: int, k: int, a: Seq<u8>, b: Seq<u8>)
    requires
        0 <= i <= j <= k <= s.len(),
        s.subrange(i, j) == a,
        s.subrange(j, k) == b,
    ensures
        s.subrange(i, k) == a + b,
{
    assert(s.subrange(i, k) =~= a + b);
}

/// Splits one byte range at the boundary between two known parts.
proof fn lemma_concat_split(s: Seq<u8>, a: int, b: int, t: Seq<u8>, u: Seq<u8>)
    requires
        0 <= a <= b <= s.len(),
        a + t.len() + u.len() == b,
        s.subrange(a, b) == t + u,
    ensures
        s.subrange(a, a + t.len() as int) == t,
        s.subrange(a + t.len() as int, b) == u,
{
    assert forall|m: int| 0 <= m < t.len() implies s.subrange(a, a + t.len() as int)[m] == t[m] by {
        assert(s.subrange(a, b)[m] == (t + u)[m]);
    }
    assert(s.subrange(a, a + t.len() as int) =~= t);
    assert forall|m: int| 0 <= m < u.len() implies s.subrange(a + t.len() as int, b)[m] == u[m] by {
        assert(s.subrange(a, b)[t.len() + m] == (t + u)[t.len() + m]);
        assert(s.subrange(a, b)[t.len() + m] == s[a + t.len() + m]);
        assert((t + u)[t.len() + m] == u[m]);
        assert(s.subrange(a + t.len() as int, b)[m] == s[a + t.len() + m]);
    }
    assert(s.subrange(a + t.len() as int, b) =~= u);
}

/// Splices three adjacent byte ranges into one.
proof fn lemma_splice3(s: Seq<u8>, i: int, j: int, k: int, a: Seq<u8>, b: Seq<u8>, c: Seq<u8>)
    requires
        0 <= i <= j,
        j + b.len() <= k <= s.len(),
        s.subrange(i, j) == a,
        s.subrange(j, j + b.len() as int) == b,
        s.subrange(j + b.len() as int, k) == c,
    ensures
        s.subrange(i, k) == a + b + c,
{
    assert(s.subrange(i, k) =~= a + b + c);
}

#[verifier::rlimit(100)]
proof fn lemma_parse_points_rest_sound(s: Seq<u8>, i: int)
    ensures
        parse_points_rest(s, i) matches Some((ps, k)) ==> {
            &&& 0 <= i < k <= s.len()
            &&& ps.len() >= 1
            &&& (forall|m: int| 0 <= m < ps.len() ==> valid_point(#[trigger] ps[m]))
            &&& s.subrange(i, k) == ser_points_items(ps) + seq![93u8]
        },
    decreases s.len() - i,
{
    lemma_parse_point_progress(s, i);
    lemma_parse_point_sound(s, i);
    if let Some((p, j)) = parse_point(s, i) {
        if j < s.len() && s[j] == 44 {
            lemma_parse_points_rest_sound(s, j + 1);
            if let Some((ps2, k)) = parse_points_rest(s, j + 1) {
                let ps = seq![p] + ps2;
                assert(ps[0] == p);
                assert(ps.drop_first() =~= ps2);
                lemma_ser_points_items_front(ps);
                assert(s.subrange(j, j + 1) =~= seq![44u8]);
                lemma_splice3(
                    s,
                    i,
                    j,
                    k,
                    ser_point(p),
                    seq![44u8],
                    ser_points_items(ps2) + seq![93u8],
                );
                assert(ser_point(p) + seq![44u8] + (ser_points_items(ps2) + seq![93u8]) =~= (
                ser_point(p) + seq![44u8] + ser_points_items(ps2)) + seq![93u8]);
            }
        } else if j < s.len() && s[j] == 93 {
            assert(ser_points_items(seq![p]) == ser_point(p));
            assert(s.subrange(i, j + 1) =~= ser_points_items(seq![p]) + seq![93u8]);
        }
    }
}

/// Splices the pieces of one stroke record into `ser_line`.
proof fn lemma_line_assemble(
    s: Seq<u8>,
    i: int,
    j0: int,
    jm: int,
    j1: int,
    j2: int,
    j3: int,
    j4: int,
    j5: int,
    j6: int,
    l: LineV,
)
    requires
        0 <= i <= j0 <= j0 + 1 <= jm <= j1 <= j2 <= j3 <= j4 <= j5 <= j6 <= s.len(),
        s.subrange(i, j0) == tok_points(),
        s.subrange(j0, j0 + 1) == seq![91u8],
        s.subrange(j0 + 1, jm) == ser_points_items(l.points),
        s.subrange(jm, j1) == seq![93u8],
        s.subrange(j1, j2) == tok_color(),
        s.subrange(j2, j3) == ser_color(l.color),
        s.subrange(j3, j4) == tok_width(),
        s.subrange(j4, j5) == ser_uint(l.width as nat),
        s.subrange(j5, j6) == seq![125u8],
    ensures
        s.subrange(i, j6) == ser_line(l),
{
    lemma_splice2(s, i, j0, j0 + 1, tok_points(), seq![91u8]);
    lemma_splice2(s, i, j0 + 1, jm, tok_points() + seq![91u8], ser_points_items(l.points));
    lemma_splice2(
        s,
        i,
        jm,
        j1,
        tok_points() + seq![91u8] + ser_points_items(l.points),
        seq![93u8],
    );
    let p4 = tok_points() + seq![91u8] + ser_points_items(l.points) + seq![93u8];
    lemma_splice2(s, i, j1, j2, p4, tok_color());
    lemma_splice2(s, i, j2, j3, p4 + tok_color(), ser_color(l.color));
    lemma_splice2(s, i, j3, j4, p4 + tok_color() + ser_color(l.color), tok_width());
    lemma_splice2(
        s,
        i,
        j4,
        j5,
        p4 + tok_color() + ser_color(l.color) + tok_width(),
        ser_uint(l.width as nat),
    );
    lemma_splice2(
        s,
        i,
        j5,
        j6,
        p4 + tok_color() + ser_color(l.color) + tok_width() + ser_uint(l.width as nat),
        seq![125u8],
    );
}

#[verifier::rlimit(100)]
proof fn lemma_parse_line_sound(s: Seq<u8>, i: int)
    ensures
        parse_line(s, i) matches Some((l, j)) ==> 0 <= i < j <= s.len() && s.subrange(i, j)
            == ser_line(l) && l.wf(),
{
    if let Some(j0) = expect(s, i, tok_points()) {
        if let Some(j0b) = expect1(s, j0, 91) {
            lemma_parse_points_rest_sound(s, j0b);
        }
        if let Some((ps, j1)) = parse_points(s, j0) {
            if let Some(j2) = expect(s, j1, tok_color()) {
                lemma_parse_color_sound(s, j2);
                if let Some((c, j3)) = parse_color(s, j2) {
                    if let Some(j4) = expect(s, j3, tok_width()) {
                        lemma_parse_uint_sound(s, j4);
                        if let Some((w, j5)) = parse_bounded(s, j4, 1, WIDTH_LIMIT as nat) {
                            if let Some(j6) = expect1(s, j5, 125) {
                                let l = LineV { points: ps, color: c, width: w as u32 };
                                let items = ser_points_items(ps);
                                let jm = j1 - 1;
                                assert(ser_uint(l.width as nat) == s.subrange(j4, j5));
                                assert(s.subrange(j0, j0 + 1) =~= seq![91u8]);
                                if j0 + 1 < s.len() && s[j0 + 1] == 93 && ps.len() == 0 {
                                    assert(items =~= Seq::<u8>::empty());
                                    assert(s.subrange(j0 + 1, jm) =~= items);
                                    assert(s.subrange(jm, j1) =~= seq![93u8]);
                                } else {
                                    assert(s.subrange(j0 + 1, j1) == items + seq![93u8]);
                                    assert(j1 - (j0 + 1) == items.len() + 1) by {
                                        assert(s.subrange(j0 + 1, j1).len() == (items + seq![
                                            93u8,
                                        ]).len());
                                    }
                                    lemma_concat_split(s, j0 + 1, j1, items, seq![93u8]);
                                    assert(jm == j0 + 1 + items.len());
                                }
                                assert(s.subrange(j5, j6) =~= seq![125u8]);
                                lemma_line_assemble(s, i, j0, jm, j1, j2, j3, j4, j5, j6, l);
                            }
                        }
                    }
                }
            }
        }
    }
}

#[verifier::rlimit(100)]
proof fn lemma_parse_lines_rest_sound(s: Seq<u8>, i: int)
    ensures
        parse_lines_rest(s, i) matches Some((ls, k)) ==> {
            &&& 0 <= i < k <= s.len()
            &&& ls.len() >= 1
            &&& (forall|m: int| 0 <= m < ls.len() ==> (#[trigger] ls[m]).wf())
            &&& s.subrange(i, k) == ser_lines_items(ls) + seq![93u8]
        },
    decreases s.len() - i,
{
    lemma_parse_line_progress(s, i);
    lemma_parse_line_sound(s, i);
    if let Some((l, j)) = parse_line(s, i) {
        if j < s.len() && s[j] == 44 {
            lemma_parse_lines_rest_sound(s, j + 1);
            if let Some((ls2, k)) = parse_lines_rest(s, j + 1) {
                let ls = seq![l] + ls2;
                assert(ls[0] == l);
                assert(ls.drop_first() =~= ls2);
                lemma_ser_lines_items_front(ls);
                assert(s.subrange(j, j + 1) =~= seq![44u8]);
                lemma_splice3(
                    s,
                    i,
                    j,
                    k,
                    ser_line(l),
                    seq![44u8],
                    ser_lines_items(ls2) + seq![93u8],
                );
                assert(ser_line(l) + seq![44u8] + (ser_lines_items(ls2) + seq![93u8]) =~= (
                ser_line(l) + seq![44u8] + ser_lines_items(ls2)) + seq![93u8]);
            }
        } else if j < s.len() && s[j] == 93 {
            assert(ser_lines_items(seq![l]) == ser_line(l));
            assert(s.subrange(i, j + 1) =~= ser_lines_items(seq![l]) + seq![93u8]);
        }
    }
}

#[verifier::rlimit(100)]
proof fn lemma_parse_palette_rest_sound(s: Seq<u8>, i: int)
    ensures
        parse_palette_rest(s, i) matches Some((cs, k)) ==> {
            &&& 0 <= i < k <= s.len()
            &&& cs.len() >= 1
            &&& s.subrange(i, k) == ser_palette_items(cs) + seq![93u8]
        },
    decreases s.len() - i,
{
    lemma_parse_color_progress(s, i);
    lemma_parse_color_sound(s, i);
    if let Some((c, j)) = parse_color(s, i) {
        if j < s.len() && s[j] == 44 {
            lemma_parse_palette_rest_sound(s, j + 1);
            if let Some((cs2, k)) = parse_palette_rest(s, j + 1) {
                let cs = seq![c] + cs2;
                assert(cs[0] == c);
                assert(cs.drop_first() =~= cs2);
                lemma_ser_palette_items_front(cs);
                assert(s.subrange(j, j + 1) =~= seq![44u8]);
                lemma_splice3(
                    s,
                    i,
                    j,
                    k,
                    ser_color(c),
                    seq![44u8],
                    ser_palette_items(cs2) + seq![93u8],
                );
                assert(ser_color(c) + seq![44u8] + (ser_palette_items(cs2) + seq![93u8]) =~= (
                ser_color(c) + seq![44u8] + ser_palette_items(cs2)) + seq![93u8]);
            }
        } else if j < s.len() && s[j] == 93 {
            assert(ser_palette_items(seq![c]) == ser_color(c));
            assert(s.subrange(i, j + 1) =~= ser_palette_items(seq![c]) + seq![93u8]);
        }
    }
}

/// Splices the pieces of a whole document into `ser_state`.
proof fn lemma_doc_assemble(
    s: Seq<u8>,
    j0: int,
    jm: int,
    j1: int,
    j2: int,
    jp: int,
    j3: int,
    ls: Seq<LineV>,
    cs: Seq<Color>,
)
    requires
        0 <= j0 <= j0 + 1 <= jm <= j1 <= j2 <= j2 + 1 <= jp <= j3,
        j3 + 1 == s.len(),
        s.subrange(0, j0) == tok_lines(),
        s.subrange(j0, j0 + 1) == seq![91u8],
        s.subrange(j0 + 1, jm) == ser_lines_items(ls),
        s.subrange(jm, j1) == seq![93u8],
        s.subrange(j1, j2) == tok_palette(),
        s.subrange(j2, j2 + 1) == seq![91u8],
        s.subrange(j2 + 1, jp) == ser_palette_items(cs),
        s.subrange(jp, j3) == seq![93u8],
        s.subrange(j3, j3 + 1) == seq![125u8],
    ensures
        s == ser_state(StateV { lines: ls, palette: cs }),
{
    lemma_splice2(s, 0, j0, j0 + 1, tok_lines(), seq![91u8]);
    lemma_splice2(s, 0, j0 + 1, jm, tok_lines() + seq![91u8], ser_lines_items(ls));
    lemma_splice2(s, 0, jm, j1, tok_lines() + seq![91u8] + ser_lines_items(ls), seq![93u8]);
    let p4 = tok_lines() + seq![91u8] + ser_lines_items(ls) + seq![93u8];
    lemma_splice2(s, 0, j1, j2, p4, tok_palette());
    lemma_splice2(s, 0, j2, j2 + 1, p4 + tok_palette(), seq![91u8]);
    lemma_splice2(
        s,
        0,
        j2 + 1,
        jp,
        p4 + tok_palette() + seq![91u8],
        ser_palette_items(cs),
    );
    lemma_splice2(
        s,
        0,
        jp,
        j3,
        p4 + tok_palette() + seq![91u8] + ser_palette_items(cs),
        seq![93u8],
    );
    lemma_splice2(
        s,
        0,
        j3,
        j3 + 1,
        p4 + tok_palette() + seq![91u8] + ser_palette_items(cs) + seq![93u8],
        seq![125u8],
    );
    assert(s.subrange(0, s.len() as int) =~= s);
}

/// The grammar is canonical: whatever the parser accepts is exactly the
/// serialization of the snapshot it returns, and that snapshot is
/// well-formed. Together with `lemma_serialize_parses_back` this makes
/// `deserialize` accept precisely the documents `serialize` can produce.
#[verifier::rlimit(100)]
pub proof fn lemma_parse_doc_sound(s: Seq<u8>)
    ensures
        parse_doc(s) matches Some(v) ==> s == ser_state(v) && v.wf(),
{
    if let Some(j0) = expect(s, 0, tok_lines()) {
        if let Some(j0b) = expect1(s, j0, 91) {
            lemma_parse_lines_rest_sound(s, j0b);
        }
        if let Some((ls, j1)) = parse_lines(s, j0) {
            if let Some(j2) = expect(s, j1, tok_palette()) {
                if let Some(j2b) = expect1(s, j2, 91) {
                    lemma_parse_palette_rest_sound(s, j2b);
                }
                if let Some((cs, j3)) = parse_palette(s, j2) {
                    if let Some(j4) = expect1(s, j3, 125) {
                        if j4 == s.len() && cs.len() >= 1 {
                            let items = ser_lines_items(ls);
                            let pits = ser_palette_items(cs);
                            let jm = j1 - 1;
                            let jp = j3 - 1;
                            assert(s.subrange(j0, j0 + 1) =~= seq![91u8]);
                            if j0 + 1 < s.len() && s[j0 + 1] == 93 && ls.len() == 0 {
                                assert(items =~= Seq::<u8>::empty());
                                assert(s.subrange(j0 + 1, jm) =~= items);
                                assert(s.subrange(jm, j1) =~= seq![93u8]);
                            } else {
                                assert(s.subrange(j0 + 1, j1) == items + seq![93u8]);
                                assert(j1 - (j0 + 1) == items.len() + 1) by {
                                    assert(s.subrange(j0 + 1, j1).len() == (items + seq![
                                        93u8,
                                    ]).len());
                                }
                                lemma_concat_split(s, j0 + 1, j1, items, seq![93u8]);
                                assert(jm == j0 + 1 + items.len());
                            }
                            assert(s.subrange(j2, j2 + 1) =~= seq![91u8]);
                            assert(s.subrange(j2 + 1, j3) == pits + seq![93u8]);
                            assert(j3 - (j2 + 1) == pits.len() + 1) by {
                                assert(s.subrange(j2 + 1, j3).len() == (pits + seq![93u8]).len());
                            }
                            lemma_concat_split(s, j2 + 1, j3, pits, seq![93u8]);
                            assert(jp == j2 + 1 + pits.len());
                            assert(s.subrange(j3, j3 + 1) =~= seq![125u8]);
                            lemma_doc_assemble(s, j0, jm, j1, j2, jp, j3, ls, cs);
                        }
                    }
                }
            }
        }
    }
}

/// Parses a whiteboard document. Any input that is not exactly a document
/// of the canonical grammar, with every value in the canvas ranges and at
/// least one palette color, yields the single generic error, and nothing is
/// partially applied.
pub fn deserialize(doc: &Vec<u8>) -> (r: Result<WhiteboardState, ParseError>)
    ensures
        match r {
            Ok(st) => parse_doc(doc@) == Some(st@) && st.wf() && doc@ == ser_state(st@),
            Err(e) => parse_doc(doc@) is None && e == ParseError,
        },
{
    proof {
        lemma_parse_doc_sound(doc@);
    }
    let tl = tok_lines_vec();
    let j0 = match p_expect(doc, 0, &tl) {
        Some(j) => j,
        None => {
            return Err(ParseError);
        },
    };
    let (lines, j1) = match p_lines(doc, j0) {
        Some(v) => v,
        None => {
            return Err(ParseError);
        },
    };
    let tp = tok_palette_vec();
    let j2 = match p_expect(doc, j1, &tp) {
        Some(j) => j,
        None => {
            return Err(ParseError);
        },
    };
    let (palette, j3) = match p_palette(doc, j2) {
        Some(v) => v,
        None => {
            return Err(ParseError);
        },
    };
    let j4 = match p_expect1(doc, j3, 125) {
        Some(j) => j,
        None => {
            return Err(ParseError);
        },
    };
    if j4 != doc.len() {
        return Err(ParseError);
    }
    if palette.len() == 0 {
        return Err(ParseError);
    }
    Ok(WhiteboardState { lines, palette })
}

} // verus!
