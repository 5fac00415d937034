//! Integer canvas geometry: points, rectangles, bounding boxes, and the
//! exact point-to-segment distance test used by the eraser.
//!
//! All coordinates are `i32` canvas units bounded by [`COORD_LIMIT`], so that
//! every computation below can be carried out exactly in wider integers.

use vstd::prelude::*;

verus! {

/// Largest magnitude a canvas coordinate may have.
pub const COORD_LIMIT: i32 = 100_000_000;

/// Largest stroke width the board accepts.
pub const WIDTH_LIMIT: u32 = 1_000_000;

/// A position on the canvas. `y` grows downward, as in window coordinates.
#[derive(Clone, Copy, PartialEq, Eq, Structural, Debug)]
pub struct Point {
    pub x: i32,
    pub y: i32,
}

/// An axis-aligned rectangle; well-formed when `min <= max` on both axes.
#[derive(Clone, Copy, PartialEq, Eq, Structural, Debug)]
pub struct Rect {
    pub min: Point,
    pub max: Point,
}

pub open spec fn valid_coord(c: int) -> bool {
    -(COORD_LIMIT as int) <= c <= COORD_LIMIT as int
}

pub open spec fn valid_point(p: Point) -> bool {
    valid_coord(p.x as int) && valid_coord(p.y as int)
}

pub open spec fn valid_rect(r: Rect) -> bool {
    valid_point(r.min) && valid_point(r.max)
}

pub open spec fn min_i32(a: i32, b: i32) -> i32 {
    if a <= b {
        a
    } else {
        b
    }
}

pub open spec fn max_i32(a: i32, b: i32) -> i32 {
    if a >= b {
        a
    } else {
        b
    }
}

impl Rect {
    pub open spec fn wf(self) -> bool {
        self.min.x <= self.max.x && self.min.y <= self.max.y
    }

    pub open spec fn spec_contains(self, p: Point) -> bool {
        self.min.x <= p.x <= self.max.x && self.min.y <= p.y <= self.max.y
    }

    pub open spec fn spec_intersects(self, o: Rect) -> bool {
        self.min.x <= o.max.x && o.min.x <= self.max.x && self.min.y <= o.max.y && o.min.y
            <= self.max.y
    }

    /// Whether `p` lies inside the rectangle, borders included.
    pub fn contains(&self, p: Point) -> (r: bool)
        ensures
            r == self.spec_contains(p),
    {
        self.min.x <= p.x && p.x <= self.max.x && self.min.y <= p.y && p.y <= self.max.y
    }

    /// Whether the two rectangles share at least one point, borders included.
    pub fn intersects(&self, o: &Rect) -> (r: bool)
        ensures
            r == self.spec_intersects(*o),
    {
        self.min.x <= o.max.x && o.min.x <= self.max.x && self.min.y <= o.max.y && o.min.y
            <= self.max.y
    }
}

pub open spec fn spec_rect_from_two(a: Point, b: Point) -> Rect {
    Rect {
        min: Point { x: min_i32(a.x, b.x), y: min_i32(a.y, b.y) },
        max: Point { x: max_i32(a.x, b.x), y: max_i32(a.y, b.y) },
    }
}

/// The smallest rectangle that spans the two given corner points.
pub fn rect_from_two(a: Point, b: Point) -> (r: Rect)
    ensures
        r == spec_rect_from_two(a, b),
        r.wf(),
{
    Rect {
        min: Point { x: if a.x <= b.x { a.x } else { b.x }, y: if a.y <= b.y { a.y } else { b.y } },
        max: Point { x: if a.x >= b.x { a.x } else { b.x }, y: if a.y >= b.y { a.y } else { b.y } },
    }
}

pub open spec fn spec_expand(r: Rect, m: int) -> Rect {
    Rect {
        min: Point { x: (r.min.x - m) as i32, y: (r.min.y - m) as i32 },
        max: Point { x: (r.max.x + m) as i32, y: (r.max.y + m) as i32 },
    }
}

/// Grows the rectangle by `m` units on every side.
pub fn expand(r: &Rect, m: i32) -> (out: Rect)
    requires
        valid_rect(*r),
        0 <= m <= 1000,
    ensures
        out == spec_expand(*r, m as int),
{
    Rect {
        min: Point { x: r.min.x - m, y: r.min.y - m },
        max: Point { x: r.max.x + m, y: r.max.y + m },
    }
}

pub open spec fn extend_rect(r: Rect, p: Point) -> Rect {
    Rect {
        min: Point { x: min_i32(r.min.x, p.x), y: min_i32(r.min.y, p.y) },
        max: Point { x: max_i32(r.max.x, p.x), y: max_i32(r.max.y, p.y) },
    }
}

pub open spec fn merge_rect(a: Rect, b: Rect) -> Rect {
    Rect {
        min: Point { x: min_i32(a.min.x, b.min.x), y: min_i32(a.min.y, b.min.y) },
        max: Point { x: max_i32(a.max.x, b.max.x), y: max_i32(a.max.y, b.max.y) },
    }
}

/// The bounding box of a non-empty point sequence.
pub open spec fn bbox_of(ps: Seq<Point>) -> Rect
    recommends
        ps.len() >= 1,
    decreases ps.len(),
{
    if ps.len() <= 1 {
        Rect { min: ps[0], max: ps[0] }
    } else {
        extend_rect(bbox_of(ps.drop_last()), ps.last())
    }
}

/// The bounding box of a point sequence, or `None` when it has no points.
pub open spec fn bbox_opt(ps: Seq<Point>) -> Option<Rect> {
    if ps.len() == 0 {
        None
    } else {
        Some(bbox_of(ps))
    }
}

/// Computes the bounding box of the given points.
pub fn points_bbox(ps: &Vec<Point>) -> (r: Option<Rect>)
    ensures
        r == bbox_opt(ps@),
{
    if ps.len() == 0 {
        return None;
    }
    let first = ps[0];
    let mut acc = Rect { min: first, max: first };
    let mut i: usize = 1;
    while i < ps.len()
        invariant
            1 <= i <= ps@.len(),
            acc == bbox_of(ps@.take(i as int)),
        decreases ps@.len() - i,
    {
        let p = ps[i];
        acc = Rect {
            min: Point {
                x: if acc.min.x <= p.x { acc.min.x } else { p.x },
                y: if acc.min.y <= p.y { acc.min.y } else { p.y },
            },
            max: Point {
                x: if acc.max.x >= p.x { acc.max.x } else { p.x },
                y: if acc.max.y >= p.y { acc.max.y } else { p.y },
            },
        };
        proof {
            assert(ps@.take(i + 1 as int).drop_last() =~= ps@.take(i as int));
            assert(ps@.take(i + 1 as int).last() == ps@[i as int]);
        }
        i = i + 1;
    }
    proof {
        assert(ps@.take(ps@.len() as int) =~= ps@);
    }
    Some(acc)
}

pub open spec fn spec_clamp(v: int) -> int {
    if v < -(COORD_LIMIT as int) {
        -(COORD_LIMIT as int)
    } else if v > COORD_LIMIT as int {
        COORD_LIMIT as int
    } else {
        v
    }
}

/// Clamps a wide intermediate value back into the valid coordinate range.
pub fn clamp_coord(v: i64) -> (r: i32)
    ensures
        r as int == spec_clamp(v as int),
        valid_coord(r as int),
{
    if v < -(COORD_LIMIT as i64) {
        -COORD_LIMIT
    } else if v > COORD_LIMIT as i64 {
        COORD_LIMIT
    } else {
        v as i32
    }
}

pub open spec fn translate_clamped(p: Point, dx: int, dy: int) -> Point {
    Point { x: spec_clamp(p.x + dx) as i32, y: spec_clamp(p.y + dy) as i32 }
}

/// Moves a point by the given delta, clamped to the canvas range.
pub fn translate_point(p: Point, dx: i64, dy: i64) -> (r: Point)
    requires
        valid_point(p),
        -1_000_000_000 <= dx <= 1_000_000_000,
        -1_000_000_000 <= dy <= 1_000_000_000,
    ensures
        r == translate_clamped(p, dx as int, dy as int),
        valid_point(r),
{
    Point { x: clamp_coord(p.x as i64 + dx), y: clamp_coord(p.y as i64 + dy) }
}

pub open spec fn sq(v: int) -> int {
    v * v
}

pub open spec fn dist_sq(p: Point, q: Point) -> int {
    sq(p.x - q.x) + sq(p.y - q.y)
}

/// Whether the distance from `p` to the segment `a`-`b` is at most `r`:
/// the pointer is projected onto the segment (the projection parameter
/// clamped to the segment's ends) and the squared distances are compared
/// exactly, with denominators cleared.
pub open spec fn seg_within_dist(p: Point, a: Point, b: Point, r: int) -> bool {
    let dx = b.x - a.x;
    let dy = b.y - a.y;
    let len2 = sq(dx) + sq(dy);
    if len2 == 0 {
        dist_sq(p, a) <= sq(r)
    } else {
        let dot = (p.x - a.x) * dx + (p.y - a.y) * dy;
        if dot <= 0 {
            dist_sq(p, a) <= sq(r)
        } else if dot >= len2 {
            dist_sq(p, b) <= sq(r)
        } else {
            dist_sq(p, a) * len2 - dot * dot <= sq(r) * len2
        }
    }
}

proof fn lemma_mul_bound(a: int, b: int, m: int, n: int)
    by (nonlinear_arith)
    requires
        -m <= a <= m,
        -n <= b <= n,
        0 <= m,
        0 <= n,
    ensures
        -(m * n) <= a * b <= m * n,
{
}

/// Decides `seg_within_dist` with exact wide-integer arithmetic.
pub fn segment_within_distance(p: Point, a: Point, b: Point, r: u32) -> (hit: bool)
    requires
        valid_point(p),
        valid_point(a),
        valid_point(b),
        r <= WIDTH_LIMIT + 1000,
    ensures
        hit == seg_within_dist(p, a, b, r as int),
{
    let px = p.x as i128;
    let py = p.y as i128;
    let ax = a.x as i128;
    let ay = a.y as i128;
    let bx = b.x as i128;
    let by = b.y as i128;
    let dx = bx - ax;
    let dy = by - ay;
    let vx = px - ax;
    let vy = py - ay;
    let wx = px - bx;
    let wy = py - by;
    proof {
        let m: int = 200_000_000;
        lemma_mul_bound(dx as int, dx as int, m, m);
        lemma_mul_bound(dy as int, dy as int, m, m);
        lemma_mul_bound(vx as int, vx as int, m, m);
        lemma_mul_bound(vy as int, vy as int, m, m);
        lemma_mul_bound(wx as int, wx as int, m, m);
        lemma_mul_bound(wy as int, wy as int, m, m);
        lemma_mul_bound(vx as int, dx as int, m, m);
        lemma_mul_bound(vy as int, dy as int, m, m);
        lemma_mul_bound(r as int, r as int, 1_001_000, 1_001_000);
    }
    let len2 = dx * dx + dy * dy;
    let rr = (r as i128) * (r as i128);
    let da = vx * vx + vy * vy;
    if len2 == 0 {
        da <= rr
    } else {
        let dot = vx * dx + vy * dy;
        if dot <= 0 {
            da <= rr
        } else if dot >= len2 {
            let db = wx * wx + wy * wy;
            db <= rr
        } else {
            proof {
                let big: int = 800_000_000_000_000_000;
                lemma_mul_bound(da as int, len2 as int, big, big);
                lemma_mul_bound(dot as int, dot as int, big, big);
                lemma_mul_bound(rr as int, len2 as int, 2_000_000_000_000_000, big);
            }
            da * len2 - dot * dot <= rr * len2
        }
    }
}

/// Truncating division (rounds toward zero), matching machine division.
pub open spec fn tdiv(a: int, b: int) -> int
    recommends
        b > 0,
{
    if a >= 0 {
        a / b
    } else {
        -((-a) / b)
    }
}

/// Where a coordinate lands when the span `[orig_min, orig_min + orig_ext]`
/// is scaled onto `[new_min, new_min + new_ext]`; a degenerate original span
/// keeps the offset unscaled.
pub open spec fn spec_remap(orig: int, orig_min: int, new_min: int, orig_ext: int, new_ext: int) -> int
    recommends
        orig_ext >= 0,
        new_ext >= 0,
{
    if orig_ext == 0 {
        new_min + (orig - orig_min)
    } else {
        new_min + tdiv((orig - orig_min) * new_ext, orig_ext)
    }
}

/// Applies `spec_remap` and clamps the result into the canvas range.
pub fn remap_coord(orig: i32, orig_min: i32, new_min: i32, orig_ext: i32, new_ext: i32) -> (r: i32)
    requires
        valid_coord(orig as int),
        valid_coord(orig_min as int),
        -(COORD_LIMIT as int) - 1000 <= new_min as int <= COORD_LIMIT as int + 1000,
        0 <= orig_ext,
        0 <= new_ext,
        new_ext as int <= 2 * COORD_LIMIT as int + 2000,
    ensures
        r as int == spec_clamp(
            spec_remap(orig as int, orig_min as int, new_min as int, orig_ext as int, new_ext as int),
        ),
        valid_coord(r as int),
{
    let off: i64 = orig as i64 - orig_min as i64;
    if orig_ext == 0 {
        clamp_coord(new_min as i64 + off)
    } else {
        let mag: u64 = (if off >= 0 {
            off
        } else {
            -off
        }) as u64;
        proof {
            lemma_mul_bound(mag as int, new_ext as int, 200_000_000, 202_002_000);
        }
        let num: u64 = mag * (new_ext as u64);
        let q: u64 = num / (orig_ext as u64);
        proof {
            vstd::arithmetic::div_mod::lemma_div_is_ordered_by_denominator(num as int, 1, orig_ext as int);
            assert(num as int / 1 == num as int);
        }
        let qi: i64 = if off >= 0 {
            q as i64
        } else {
            -(q as i64)
        };
        proof {
            if off >= 0 {
                assert((off as int) * (new_ext as int) == num as int);
            } else {
                assert((mag as int) * (new_ext as int) == num as int);
                assert((off as int) * (new_ext as int) == -(num as int)) by (nonlinear_arith)
                    requires
                        off as int == -(mag as int),
                        (mag as int) * (new_ext as int) == num as int,
                ;
            }
        }
        clamp_coord(new_min as i64 + qi)
    }
}

} // verus!
