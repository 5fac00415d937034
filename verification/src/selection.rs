//! The selection engine: bounding boxes, corner-handle hit testing, and the
//! drag state machine that selects, moves and resizes groups of strokes.

use vstd::pervasive::VecAdditionalExecFns;
use vstd::prelude::*;

use crate::board::{
    snaps_view, wf_selection, wf_snapshot, CursorHint, Interaction, InteractionV, PointerEvent,
    ResizeCorner, Snap, SnapV, WhiteboardApp,
};
use crate::geom::{
    bbox_of, bbox_opt, expand, merge_rect, points_bbox, rect_from_two, remap_coord, spec_clamp,
    spec_expand, spec_rect_from_two, spec_remap, translate_clamped, translate_point, valid_coord,
    valid_point, valid_rect, Point, Rect, COORD_LIMIT,
};
use crate::state::{lines_view, wf_lines, Line, LineV};
use crate::tools::Tool;

verus! {

/// How far the selection bounding box is padded for hit testing.
pub const SELECTION_MARGIN: i32 = 5;

/// Corner handles accept hits within this distance of the corner on each
/// axis, so each handle is a 10 by 10 square.
pub const HANDLE_HALF_SIZE: i32 = 5;

/// The inward margin applied at the dragged edge while resizing, keeping the
/// new box away from the pointer.
pub const RESIZE_MARGIN: i32 = 5;

/// The selection overlay geometry: the tight bounding box of the selected
/// strokes and its padded version used for hit testing.
#[derive(Clone, Copy, PartialEq, Eq, Structural, Debug)]
pub struct SelectionInfo {
    pub bounding_box: Rect,
    pub expanded: Rect,
}

pub open spec fn merge_opt(a: Option<Rect>, b: Option<Rect>) -> Option<Rect> {
    match (a, b) {
        (Some(x), Some(y)) => Some(merge_rect(x, y)),
        (Some(x), None) => Some(x),
        (None, Some(y)) => Some(y),
        (None, None) => None,
    }
}

/// The bounding box of every point of every selected stroke, or `None` when
/// no selected stroke has a point.
pub open spec fn sel_bbox(lines: Seq<LineV>, sel: Seq<usize>) -> Option<Rect>
    decreases sel.len(),
{
    if sel.len() == 0 {
        None
    } else {
        let rest = sel_bbox(lines, sel.drop_last());
        let lb = if (sel.last() as int) < lines.len() {
            bbox_opt(lines[sel.last() as int].points)
        } else {
            None
        };
        merge_opt(rest, lb)
    }
}

/// The bounding box of valid points is a valid, well-formed rectangle.
proof fn lemma_bbox_of_props(ps: Seq<Point>)
    requires
        ps.len() >= 1,
        forall|k: int| 0 <= k < ps.len() ==> valid_point(#[trigger] ps[k]),
    ensures
        valid_rect(bbox_of(ps)),
        bbox_of(ps).wf(),
    decreases ps.len(),
{
    if ps.len() > 1 {
        lemma_bbox_of_props(ps.drop_last());
    }
}

/// The selection bounding box of a well-formed canvas is valid and
/// well-formed whenever it exists.
proof fn lemma_sel_bbox_props(lines: Seq<LineV>, sel: Seq<usize>)
    requires
        wf_lines(lines),
    ensures
        sel_bbox(lines, sel) matches Some(bb) ==> valid_rect(bb) && bb.wf(),
    decreases sel.len(),
{
    if sel.len() > 0 {
        lemma_sel_bbox_props(lines, sel.drop_last());
        let li = sel.last() as int;
        if li < lines.len() && lines[li].points.len() >= 1 {
            lemma_bbox_of_props(lines[li].points);
        }
    }
}

impl WhiteboardApp {
    /// The selection overlay geometry, or `None` when nothing is selected or
    /// no selected stroke has a point.
    pub fn get_selection_info(&self) -> (r: Option<SelectionInfo>)
        requires
            self.wf(),
        ensures
            match sel_bbox(lines_view(self.lines@), self.selected_lines@) {
                Some(bb) => r == Some(
                    SelectionInfo { bounding_box: bb, expanded: spec_expand(bb, SELECTION_MARGIN as int) },
                ) && valid_rect(bb) && bb.wf(),
                None => r is None,
            },
    {
        let ghost lsv = lines_view(self.lines@);
        let ghost sel = self.selected_lines@;
        let mut acc: Option<Rect> = None;
        let mut j: usize = 0;
        while j < self.selected_lines.len()
            invariant
                self.wf(),
                lsv == lines_view(self.lines@),
                sel == self.selected_lines@,
                j <= sel.len(),
                acc == sel_bbox(lsv, sel.take(j as int)),
            decreases sel.len() - j,
        {
            let idx = self.selected_lines[j];
            proof {
                assert(sel[j as int] < lsv.len());
                assert(lines_view(self.lines@)[idx as int] == self.lines@[idx as int]@);
            }
            let lb = points_bbox(&self.lines[idx].points);
            acc = match (acc, lb) {
                (Some(x), Some(y)) => Some(
                    Rect {
                        min: Point {
                            x: if x.min.x <= y.min.x { x.min.x } else { y.min.x },
                            y: if x.min.y <= y.min.y { x.min.y } else { y.min.y },
                        },
                        max: Point {
                            x: if x.max.x >= y.max.x { x.max.x } else { y.max.x },
                            y: if x.max.y >= y.max.y { x.max.y } else { y.max.y },
                        },
                    },
                ),
                (Some(x), None) => Some(x),
                (None, Some(y)) => Some(y),
                (None, None) => None,
            };
            proof {
                assert(sel.take(j + 1 as int).drop_last() =~= sel.take(j as int));
                assert(sel.take(j + 1 as int).last() == sel[j as int]);
            }
            j = j + 1;
        }
        proof {
            assert(sel.take(sel.len() as int) =~= sel);
            lemma_sel_bbox_props(lsv, sel);
        }
        match acc {
            None => None,
            Some(bb) => {
                let ex = expand(&bb, SELECTION_MARGIN);
                Some(SelectionInfo { bounding_box: bb, expanded: ex })
            },
        }
    }
}

/// The given corner of a rectangle.
pub open spec fn corner_point(r: Rect, c: ResizeCorner) -> Point {
    match c {
        ResizeCorner::TopLeft => r.min,
        ResizeCorner::TopRight => Point { x: r.max.x, y: r.min.y },
        ResizeCorner::BottomLeft => Point { x: r.min.x, y: r.max.y },
        ResizeCorner::BottomRight => r.max,
    }
}

/// The hit square of a corner handle.
pub open spec fn handle_rect(r: Rect, c: ResizeCorner) -> Rect {
    let cp = corner_point(r, c);
    Rect {
        min: Point {
            x: (cp.x - HANDLE_HALF_SIZE) as i32,
            y: (cp.y - HANDLE_HALF_SIZE) as i32,
        },
        max: Point {
            x: (cp.x + HANDLE_HALF_SIZE) as i32,
            y: (cp.y + HANDLE_HALF_SIZE) as i32,
        },
    }
}

/// Which corner handle of the expanded box the pointer hits, tried in the
/// fixed order top-left, top-right, bottom-left, bottom-right.
pub open spec fn spec_hit_corner(ex: Rect, p: Point) -> Option<ResizeCorner> {
    if handle_rect(ex, ResizeCorner::TopLeft).spec_contains(p) {
        Some(ResizeCorner::TopLeft)
    } else if handle_rect(ex, ResizeCorner::TopRight).spec_contains(p) {
        Some(ResizeCorner::TopRight)
    } else if handle_rect(ex, ResizeCorner::BottomLeft).spec_contains(p) {
        Some(ResizeCorner::BottomLeft)
    } else if handle_rect(ex, ResizeCorner::BottomRight).spec_contains(p) {
        Some(ResizeCorner::BottomRight)
    } else {
        None
    }
}

/// A rectangle with every coordinate within the canvas range plus `pad`.
pub open spec fn rect_in_range(r: Rect, pad: int) -> bool {
    &&& -(COORD_LIMIT as int) - pad <= r.min.x as int <= COORD_LIMIT as int + pad
    &&& -(COORD_LIMIT as int) - pad <= r.min.y as int <= COORD_LIMIT as int + pad
    &&& -(COORD_LIMIT as int) - pad <= r.max.x as int <= COORD_LIMIT as int + pad
    &&& -(COORD_LIMIT as int) - pad <= r.max.y as int <= COORD_LIMIT as int + pad
}

/// Computes `handle_rect`.
fn handle_rect_exec(r: &Rect, c: ResizeCorner) -> (out: Rect)
    requires
        rect_in_range(*r, 100),
    ensures
        out == handle_rect(*r, c),
{
    let cp = match c {
        ResizeCorner::TopLeft => r.min,
        ResizeCorner::TopRight => Point { x: r.max.x, y: r.min.y },
        ResizeCorner::BottomLeft => Point { x: r.min.x, y: r.max.y },
        ResizeCorner::BottomRight => r.max,
    };
    Rect {
        min: Point { x: cp.x - HANDLE_HALF_SIZE, y: cp.y - HANDLE_HALF_SIZE },
        max: Point { x: cp.x + HANDLE_HALF_SIZE, y: cp.y + HANDLE_HALF_SIZE },
    }
}

/// Decides `spec_hit_corner`.
pub fn hit_corner(ex: &Rect, p: Point) -> (r: Option<ResizeCorner>)
    requires
        rect_in_range(*ex, 100),
    ensures
        r == spec_hit_corner(*ex, p),
{
    if handle_rect_exec(ex, ResizeCorner::TopLeft).contains(p) {
        Some(ResizeCorner::TopLeft)
    } else if handle_rect_exec(ex, ResizeCorner::TopRight).contains(p) {
        Some(ResizeCorner::TopRight)
    } else if handle_rect_exec(ex, ResizeCorner::BottomLeft).contains(p) {
        Some(ResizeCorner::BottomLeft)
    } else if handle_rect_exec(ex, ResizeCorner::BottomRight).contains(p) {
        Some(ResizeCorner::BottomRight)
    } else {
        None
    }
}

/// The resize snapshot of the selected strokes: each selected index paired
/// with its stroke at drag-start.
pub open spec fn snap_of(lines: Seq<LineV>, sel: Seq<usize>) -> Seq<SnapV> {
    Seq::new(sel.len(), |j: int| SnapV { index: sel[j], line: lines[sel[j] as int] })
}

/// Whether some snapshot entry records the stroke index `i`.
pub open spec fn snap_has_index(snap: Seq<SnapV>, i: int) -> bool {
    exists|k: int| 0 <= k < snap.len() && (#[trigger] snap[k]).index as int == i
}

/// Whether one of the first `upto` snapshot entries records index `i`.
pub open spec fn snap_has_index_upto(snap: Seq<SnapV>, i: int, upto: int) -> bool {
    exists|k: int| 0 <= k < upto && (#[trigger] snap[k]).index as int == i
}

/// Whether the selection contains the stroke index `i`.
pub open spec fn sel_has(sel: Seq<usize>, i: int) -> bool {
    exists|k: int| 0 <= k < sel.len() && (#[trigger] sel[k]) as int == i
}

/// Copies a snapshot vector element by element.
fn copy_snaps(s: &Vec<Snap>) -> (r: Vec<Snap>)
    ensures
        snaps_view(r@) == snaps_view(s@),
{
    let mut out: Vec<Snap> = Vec::new();
    let mut i: usize = 0;
    while i < s.len()
        invariant
            i <= s@.len(),
            snaps_view(out@) == snaps_view(s@).take(i as int),
        decreases s@.len() - i,
    {
        let ghost prev = out@;
        let c = Snap { index: s[i].index, line: s[i].line.duplicate() };
        out.push(c);
        proof {
            assert(snaps_view(prev.push(c)) =~= snaps_view(prev).push(c@));
            assert(snaps_view(s@).take(i + 1 as int) =~= snaps_view(s@).take(i as int).push(
                s@[i as int]@,
            ));
        }
        i = i + 1;
    }
    proof {
        assert(snaps_view(s@).take(s@.len() as int) =~= snaps_view(s@));
    }
    out
}

/// The new bounding box while dragging `corner` to `p`: the dragged edges
/// follow the pointer, inset by `RESIZE_MARGIN`, and the opposite corner is
/// anchored.
pub open spec fn spec_new_bbox(obb: Rect, corner: ResizeCorner, p: Point) -> Rect {
    match corner {
        ResizeCorner::TopLeft => Rect {
            min: Point { x: (p.x + RESIZE_MARGIN) as i32, y: (p.y + RESIZE_MARGIN) as i32 },
            max: obb.max,
        },
        ResizeCorner::TopRight => Rect {
            min: Point { x: obb.min.x, y: (p.y + RESIZE_MARGIN) as i32 },
            max: Point { x: (p.x - RESIZE_MARGIN) as i32, y: obb.max.y },
        },
        ResizeCorner::BottomLeft => Rect {
            min: Point { x: (p.x + RESIZE_MARGIN) as i32, y: obb.min.y },
            max: Point { x: obb.max.x, y: (p.y - RESIZE_MARGIN) as i32 },
        },
        ResizeCorner::BottomRight => Rect {
            min: obb.min,
            max: Point { x: (p.x - RESIZE_MARGIN) as i32, y: (p.y - RESIZE_MARGIN) as i32 },
        },
    }
}

/// Computes `spec_new_bbox`.
fn new_bbox_exec(obb: &Rect, corner: ResizeCorner, p: Point) -> (r: Rect)
    requires
        valid_rect(*obb),
        valid_point(p),
    ensures
        r == spec_new_bbox(*obb, corner, p),
        rect_in_range(r, 100),
{
    match corner {
        ResizeCorner::TopLeft => Rect {
            min: Point { x: p.x + RESIZE_MARGIN, y: p.y + RESIZE_MARGIN },
            max: obb.max,
        },
        ResizeCorner::TopRight => Rect {
            min: Point { x: obb.min.x, y: p.y + RESIZE_MARGIN },
            max: Point { x: p.x - RESIZE_MARGIN, y: obb.max.y },
        },
        ResizeCorner::BottomLeft => Rect {
            min: Point { x: p.x + RESIZE_MARGIN, y: obb.min.y },
            max: Point { x: obb.max.x, y: p.y - RESIZE_MARGIN },
        },
        ResizeCorner::BottomRight => Rect {
            min: obb.min,
            max: Point { x: p.x - RESIZE_MARGIN, y: p.y - RESIZE_MARGIN },
        },
    }
}

/// A span length clamped to be non-negative.
pub open spec fn ext_clamped(lo: int, hi: int) -> int {
    if hi - lo < 0 {
        0
    } else {
        hi - lo
    }
}

/// Where one point lands when the original box is scaled onto the new box,
/// axis by axis, the result clamped into the canvas range.
pub open spec fn remap_point_spec(q: Point, obb: Rect, nb: Rect) -> Point {
    let ox = obb.max.x - obb.min.x;
    let oy = obb.max.y - obb.min.y;
    let nx = ext_clamped(nb.min.x as int, nb.max.x as int);
    let ny = ext_clamped(nb.min.y as int, nb.max.y as int);
    Point {
        x: spec_clamp(spec_remap(q.x as int, obb.min.x as int, nb.min.x as int, ox, nx)) as i32,
        y: spec_clamp(spec_remap(q.y as int, obb.min.y as int, nb.min.y as int, oy, ny)) as i32,
    }
}

/// A whole stroke remapped by the resize transform; color and width keep
/// their snapshotted values.
pub open spec fn resize_line(l: LineV, obb: Rect, nb: Rect) -> LineV {
    LineV {
        points: Seq::new(l.points.len(), |k: int| remap_point_spec(l.points[k], obb, nb)),
        color: l.color,
        width: l.width,
    }
}

/// Remaps every point of a snapshotted stroke.
fn remap_points(ps: &Vec<Point>, obb: &Rect, nb: &Rect) -> (r: Vec<Point>)
    requires
        forall|k: int| 0 <= k < ps@.len() ==> valid_point(#[trigger] ps@[k]),
        valid_rect(*obb),
        obb.wf(),
        rect_in_range(*nb, 100),
    ensures
        r@ == Seq::new(ps@.len(), |k: int| remap_point_spec(ps@[k], *obb, *nb)),
{
    let ghost target = Seq::new(ps@.len(), |k: int| remap_point_spec(ps@[k], *obb, *nb));
    let ox = obb.max.x - obb.min.x;
    let oy = obb.max.y - obb.min.y;
    let nx_raw = nb.max.x - nb.min.x;
    let ny_raw = nb.max.y - nb.min.y;
    let nx = if nx_raw < 0 {
        0
    } else {
        nx_raw
    };
    let ny = if ny_raw < 0 {
        0
    } else {
        ny_raw
    };
    let mut out: Vec<Point> = Vec::new();
    let mut m: usize = 0;
    while m < ps.len()
        invariant
            m <= ps@.len(),
            forall|k: int| 0 <= k < ps@.len() ==> valid_point(#[trigger] ps@[k]),
            valid_rect(*obb),
            obb.wf(),
            rect_in_range(*nb, 100),
            ox == obb.max.x - obb.min.x,
            oy == obb.max.y - obb.min.y,
            nx as int == ext_clamped(nb.min.x as int, nb.max.x as int),
            ny as int == ext_clamped(nb.min.y as int, nb.max.y as int),
            target == Seq::new(ps@.len(), |k: int| remap_point_spec(ps@[k], *obb, *nb)),
            out@ == target.take(m as int),
        decreases ps@.len() - m,
    {
        let q = ps[m];
        let np = Point {
            x: remap_coord(q.x, obb.min.x, nb.min.x, ox, nx),
            y: remap_coord(q.y, obb.min.y, nb.min.y, oy, ny),
        };
        out.push(np);
        proof {
            assert(np == remap_point_spec(ps@[m as int], *obb, *nb));
            assert(target.take(m + 1 as int) =~= target.take(m as int).push(target[m as int]));
        }
        m = m + 1;
    }
    proof {
        assert(target.take(ps@.len() as int) =~= target);
    }
    out
}

/// What everything except the canvas, the selection and the session must
/// satisfy across a selection-tool step: it stays unchanged.
pub open spec fn unchanged_core(pre: WhiteboardApp, post: WhiteboardApp) -> bool {
    &&& post.current_line@ == pre.current_line@
    &&& post.palette == pre.palette
    &&& post.stroke_width == pre.stroke_width
    &&& post.current_tool == pre.current_tool
    &&& post.undo_stack@ == pre.undo_stack@
}

/// The resize-drag relation: every snapshotted stroke is remapped from its
/// snapshot onto the new box derived from the pointer, every other stroke is
/// untouched, and nothing else changes.
pub open spec fn resize_session_applied(
    pre: WhiteboardApp,
    post: WhiteboardApp,
    pointer: Point,
) -> bool {
    pre.interaction@ matches InteractionV::Resizing { corner, orig_bbox, snapshot } && {
        let nb = spec_new_bbox(orig_bbox, corner, pointer);
        &&& post.lines@.len() == pre.lines@.len()
        &&& forall|k: int|
            0 <= k < snapshot.len() ==> lines_view(post.lines@)[(#[trigger] snapshot[k]).index as int]
                == resize_line(snapshot[k].line, orig_bbox, nb)
        &&& forall|i: int|
            #![trigger lines_view(post.lines@)[i]]
            0 <= i < pre.lines@.len() && !snap_has_index(snapshot, i) ==> lines_view(post.lines@)[i]
                == lines_view(pre.lines@)[i]
        &&& post.selected_lines@ == pre.selected_lines@
        &&& post.interaction@ == pre.interaction@
        &&& unchanged_core(pre, post)
    }
}

/// The move-drag relation: every selected stroke is translated by the delta
/// between the pointer and the previous sample (clamped to the canvas), the
/// session remembers the pointer, and nothing else changes.
pub open spec fn move_session_applied(
    pre: WhiteboardApp,
    post: WhiteboardApp,
    pointer: Point,
) -> bool {
    pre.interaction@ matches InteractionV::Moving { last } && {
        let dx = pointer.x - last.x;
        let dy = pointer.y - last.y;
        &&& post.lines@.len() == pre.lines@.len()
        &&& forall|j: int|
            0 <= j < pre.selected_lines@.len() ==> lines_view(post.lines@)[(
            #[trigger] pre.selected_lines@[j]) as int] == translate_line(
                lines_view(pre.lines@)[pre.selected_lines@[j] as int],
                dx,
                dy,
            )
        &&& forall|i: int|
            #![trigger lines_view(post.lines@)[i]]
            0 <= i < pre.lines@.len() && !sel_has(pre.selected_lines@, i) ==> lines_view(
                post.lines@,
            )[i] == lines_view(pre.lines@)[i]
        &&& post.selected_lines@ == pre.selected_lines@
        &&& post.interaction@ == (InteractionV::Moving { last: pointer })
        &&& unchanged_core(pre, post)
    }
}

/// A whole stroke translated by a delta, each point clamped to the canvas.
pub open spec fn translate_line(l: LineV, dx: int, dy: int) -> LineV {
    LineV {
        points: Seq::new(l.points.len(), |k: int| translate_clamped(l.points[k], dx, dy)),
        color: l.color,
        width: l.width,
    }
}

impl WhiteboardApp {
    /// Begins a resize session at `corner`, snapshotting the bounding box
    /// and every selected stroke.
    pub fn start_resizing(&mut self, corner: ResizeCorner, bbox: Rect)
        requires
            old(self).wf(),
            old(self).current_tool is Selection,
            valid_rect(bbox),
            bbox.wf(),
        ensures
            final(self).interaction@ == (InteractionV::Resizing {
                corner,
                orig_bbox: bbox,
                snapshot: snap_of(lines_view(old(self).lines@), old(self).selected_lines@),
            }),
            final(self).lines@ == old(self).lines@,
            final(self).selected_lines@ == old(self).selected_lines@,
            unchanged_core(*old(self), *final(self)),
            final(self).wf(),
    {
        let ghost lsv = lines_view(self.lines@);
        let ghost sel = self.selected_lines@;
        let ghost target = snap_of(lsv, sel);
        let mut snaps: Vec<Snap> = Vec::new();
        let mut j: usize = 0;
        while j < self.selected_lines.len()
            invariant
                self.wf(),
                lsv == lines_view(self.lines@),
                sel == self.selected_lines@,
                target == snap_of(lsv, sel),
                j <= sel.len(),
                snaps_view(snaps@) == target.take(j as int),
            decreases sel.len() - j,
        {
            let idx = self.selected_lines[j];
            proof {
                assert(sel[j as int] < lsv.len());
                assert(lines_view(self.lines@)[idx as int] == self.lines@[idx as int]@);
            }
            let ghost prev = snaps@;
            let entry = Snap { index: idx, line: self.lines[idx].duplicate() };
            snaps.push(entry);
            proof {
                assert(snaps_view(prev.push(entry)) =~= snaps_view(prev).push(entry@));
                assert(target.take(j + 1 as int) =~= target.take(j as int).push(target[j as int]));
            }
            j = j + 1;
        }
        proof {
            assert(target.take(sel.len() as int) =~= target);
        }
        self.interaction = Interaction::Resizing { corner, orig_bbox: bbox, snapshot: snaps };
        proof {
            assert(wf_snapshot(snaps_view(snaps@), lines_view(self.lines@)));
        }
    }

    /// One resize-drag step: recomputes every snapshotted stroke from its
    /// snapshot against the box dragged to `pointer`.
    pub fn update_resizing(&mut self, pointer: Point)
        requires
            old(self).wf(),
            valid_point(pointer),
            old(self).interaction@ is Resizing,
        ensures
            resize_session_applied(*old(self), *final(self), pointer),
            final(self).wf(),
    {
        let ghost lsv = lines_view(self.lines@);
        let corner_c: ResizeCorner;
        let obb_c: Rect;
        let snaps_copy: Vec<Snap>;
        match &self.interaction {
            Interaction::Resizing { corner, orig_bbox, snapshot } => {
                corner_c = *corner;
                obb_c = *orig_bbox;
                snaps_copy = copy_snaps(snapshot);
            },
            _ => {
                return ;
            },
        }
        let ghost snapv = snaps_view(snaps_copy@);
        let nb = new_bbox_exec(&obb_c, corner_c, pointer);
        let ghost nbg = nb;
        let mut k: usize = 0;
        while k < snaps_copy.len()
            invariant
                wf_snapshot(snapv, lsv),
                wf_lines(lsv),
                valid_rect(obb_c),
                obb_c.wf(),
                rect_in_range(nb, 100),
                nb == nbg,
                snapv == snaps_view(snaps_copy@),
                k <= snapv.len(),
                self.lines@.len() == lsv.len(),
                self.current_line@ == old(self).current_line@,
                self.palette == old(self).palette,
                self.stroke_width == old(self).stroke_width,
                self.current_tool == old(self).current_tool,
                self.undo_stack == old(self).undo_stack,
                self.selected_lines@ == old(self).selected_lines@,
                self.interaction == old(self).interaction,
                wf_selection(self.selected_lines@, self.lines@.len()),
                self.undo_stack.wf(),
                self.palette.wf(),
                1 <= self.stroke_width <= crate::geom::WIDTH_LIMIT,
                forall|k2: int|
                    0 <= k2 < k ==> lines_view(self.lines@)[(#[trigger] snapv[k2]).index as int]
                        == resize_line(snapv[k2].line, obb_c, nbg),
                forall|i: int|
                    #![trigger lines_view(self.lines@)[i]]
                    0 <= i < lsv.len() && !snap_has_index_upto(snapv, i, k as int) ==> lines_view(
                        self.lines@,
                    )[i] == lsv[i],
                wf_lines(lines_view(self.lines@)),
                wf_snapshot(snapv, lines_view(self.lines@)),
            decreases snapv.len() - k,
        {
            let idx = snaps_copy[k].index;
            proof {
                assert(snapv[k as int].index as int == idx as int);
                assert(idx < self.lines@.len());
                assert(snapv[k as int].line == snaps_copy@[k as int]@.line);
            }
            let newpts = remap_points(&snaps_copy[k].line.points, &obb_c, &nb);
            let newline = Line {
                points: newpts,
                color: snaps_copy[k].line.color,
                width: snaps_copy[k].line.width,
            };
            proof {
                assert(newline@ == resize_line(snapv[k as int].line, obb_c, nbg));
            }
            let ghost before = self.lines@;
            self.lines.set(idx, newline);
            proof {
                assert(lines_view(self.lines@) =~= lines_view(before).update(
                    idx as int,
                    newline@,
                ));
                assert forall|k2: int| 0 <= k2 < k + 1 implies lines_view(self.lines@)[(
                #[trigger] snapv[k2]).index as int] == resize_line(snapv[k2].line, obb_c, nbg) by {
                    if k2 < k {
                        if snapv[k2].index as int != idx as int {
                            assert(lines_view(self.lines@)[snapv[k2].index as int] == lines_view(
                                before,
                            )[snapv[k2].index as int]);
                        } else {
                            assert(snapv[k2].index < snapv[k as int].index);
                            assert(false);
                        }
                    }
                }
                assert forall|i: int|
                    0 <= i < lsv.len() && !snap_has_index_upto(snapv, i, k + 1 as int) implies
                    #[trigger] lines_view(self.lines@)[i] == lsv[i] by {
                    assert(!snap_has_index_upto(snapv, i, k as int));
                    assert(snapv[k as int].index as int != i);
                }
            }
            k = k + 1;
        }
        proof {
            assert forall|i: int|
                0 <= i < lsv.len() && !snap_has_index(snapv, i) implies #[trigger] lines_view(
                self.lines@,
            )[i] == lsv[i] by {
                assert(!snap_has_index_upto(snapv, i, snapv.len() as int));
            }
            assert(resize_session_applied(*old(self), *self, pointer));
        }
    }

    /// One move-drag step: translates every selected stroke by the pointer
    /// delta and remembers the pointer for the next step.
    pub fn move_selection(&mut self, pointer: Point)
        requires
            old(self).wf(),
            valid_point(pointer),
            old(self).interaction@ is Moving,
        ensures
            move_session_applied(*old(self), *final(self), pointer),
            final(self).wf(),
    {
        let last: Point;
        match &self.interaction {
            Interaction::Moving { last: l } => {
                last = *l;
            },
            _ => {
                return ;
            },
        }
        let ghost lsv = lines_view(self.lines@);
        let ghost sel = self.selected_lines@;
        let dx: i64 = pointer.x as i64 - last.x as i64;
        let dy: i64 = pointer.y as i64 - last.y as i64;
        let mut j: usize = 0;
        while j < self.selected_lines.len()
            invariant
                wf_lines(lsv),
                wf_selection(sel, lsv.len()),
                sel == self.selected_lines@,
                j <= sel.len(),
                self.lines@.len() == lsv.len(),
                dx as int == pointer.x - last.x,
                dy as int == pointer.y - last.y,
                -1_000_000_000 <= dx <= 1_000_000_000,
                -1_000_000_000 <= dy <= 1_000_000_000,
                self.current_line@ == old(self).current_line@,
                self.palette == old(self).palette,
                self.stroke_width == old(self).stroke_width,
                self.current_tool == old(self).current_tool,
                self.undo_stack == old(self).undo_stack,
                self.interaction == old(self).interaction,
                self.undo_stack.wf(),
                self.palette.wf(),
                1 <= self.stroke_width <= crate::geom::WIDTH_LIMIT,
                forall|j2: int|
                    0 <= j2 < j ==> lines_view(self.lines@)[(#[trigger] sel[j2]) as int]
                        == translate_line(lsv[sel[j2] as int], dx as int, dy as int),
                forall|i: int|
                    #![trigger lines_view(self.lines@)[i]]
                    0 <= i < lsv.len() && !sel_has_upto(sel, i, j as int) ==> lines_view(
                        self.lines@,
                    )[i] == lsv[i],
                wf_lines(lines_view(self.lines@)),
            decreases sel.len() - j,
        {
            let idx = self.selected_lines[j];
            proof {
                assert(sel[j as int] < lsv.len());
            }
            let ghost orig = lines_view(self.lines@)[idx as int];
            proof {
                assert(!sel_has_upto(sel, idx as int, j as int)) by {
                    assert forall|k2: int| 0 <= k2 < j implies (#[trigger] sel[k2]) as int != idx as int
                        by {
                        assert(sel[k2] < sel[j as int]);
                    }
                }
                assert(orig == lsv[idx as int]);
                assert(lines_view(self.lines@)[idx as int] == self.lines@[idx as int]@);
                assert(lines_view(self.lines@)[idx as int].wf());
                assert forall|k2: int|
                    0 <= k2 < self.lines@[idx as int]@.points.len() implies valid_point(
                    #[trigger] self.lines@[idx as int]@.points[k2],
                ) by {
                    assert(lines_view(self.lines@)[idx as int].points[k2] == self.lines@[idx as int]@.points[k2]);
                }
            }
            let newpts = translate_points(&self.lines[idx].points, dx, dy);
            let newline = Line {
                points: newpts,
                color: self.lines[idx].color,
                width: self.lines[idx].width,
            };
            proof {
                assert(newline@ == translate_line(lsv[idx as int], dx as int, dy as int));
            }
            let ghost before = self.lines@;
            self.lines.set(idx, newline);
            proof {
                assert(lines_view(self.lines@) =~= lines_view(before).update(
                    idx as int,
                    newline@,
                ));
                assert forall|j2: int| 0 <= j2 < j + 1 implies lines_view(self.lines@)[(
                #[trigger] sel[j2]) as int] == translate_line(
                    lsv[sel[j2] as int],
                    dx as int,
                    dy as int,
                ) by {
                    if j2 < j {
                        if sel[j2] as int != idx as int {
                            assert(lines_view(self.lines@)[sel[j2] as int] == lines_view(before)[
                                sel[j2] as int]);
                        } else {
                            assert(sel[j2] < sel[j as int]);
                            assert(false);
                        }
                    }
                }
                assert forall|i: int|
                    0 <= i < lsv.len() && !sel_has_upto(sel, i, j + 1 as int) implies
                    #[trigger] lines_view(self.lines@)[i] == lsv[i] by {
                    assert(!sel_has_upto(sel, i, j as int));
                    assert(sel[j as int] as int != i);
                }
            }
            j = j + 1;
        }
        self.interaction = Interaction::Moving { last: pointer };
        proof {
            assert forall|i: int|
                0 <= i < lsv.len() && !sel_has(sel, i) implies #[trigger] lines_view(
                self.lines@,
            )[i] == lsv[i] by {
                assert(!sel_has_upto(sel, i, sel.len() as int));
            }
            assert(move_session_applied(*old(self), *self, pointer));
        }
    }
}

/// Whether one of the first `upto` selected indices is `i`.
pub open spec fn sel_has_upto(sel: Seq<usize>, i: int, upto: int) -> bool {
    exists|k: int| 0 <= k < upto && (#[trigger] sel[k]) as int == i
}

/// Whether the marquee rectangle selects a stroke: the stroke has at least
/// one point and its point bounding box intersects the rectangle.
pub open spec fn line_selected_by(l: LineV, rect: Rect) -> bool {
    match bbox_opt(l.points) {
        Some(bb) => rect.spec_intersects(bb),
        None => false,
    }
}

/// The marquee-completion relation: the selection becomes exactly the set of
/// strokes whose bounding box intersects the rectangle spanned by the two
/// anchors, the session ends, and nothing else changes.
pub open spec fn marquee_finish_applied(pre: WhiteboardApp, post: WhiteboardApp) -> bool {
    pre.interaction@ matches InteractionV::Marquee { start, current } && {
        let rect = spec_rect_from_two(start, current);
        &&& post.lines@ == pre.lines@
        &&& wf_selection(post.selected_lines@, post.lines@.len())
        &&& forall|i: int|
            0 <= i < pre.lines@.len() ==> (sel_has(post.selected_lines@, i) <==> line_selected_by(
                #[trigger] lines_view(pre.lines@)[i],
                rect,
            ))
        &&& post.interaction@ is Idle
        &&& unchanged_core(pre, post)
    }
}

/// The click relation: a click outside the expanded selection box (or with
/// no selection geometry at all) deselects; a click inside keeps the
/// selection. Nothing else changes.
pub open spec fn click_applied(pre: WhiteboardApp, post: WhiteboardApp, p: Point) -> bool {
    let info = sel_bbox(lines_view(pre.lines@), pre.selected_lines@);
    &&& post.lines@ == pre.lines@
    &&& post.interaction@ == pre.interaction@
    &&& unchanged_core(pre, post)
    &&& post.selected_lines@ == if info matches Some(bb) && spec_expand(
        bb,
        SELECTION_MARGIN as int,
    ).spec_contains(p) {
        pre.selected_lines@
    } else {
        Seq::<usize>::empty()
    }
}

/// What a drag-start that opens a fresh marquee leaves behind.
pub open spec fn new_marquee_state(post: WhiteboardApp, p: Point) -> bool {
    post.selected_lines@.len() == 0 && post.interaction@ == (InteractionV::Marquee {
        start: p,
        current: p,
    })
}

/// The drag-start relation, evaluated in priority order: a corner handle of
/// a non-empty selection starts a resize session, the expanded box starts a
/// move session, anything else deselects and opens a marquee.
pub open spec fn drag_start_applied(pre: WhiteboardApp, post: WhiteboardApp, p: Point) -> bool {
    let info = sel_bbox(lines_view(pre.lines@), pre.selected_lines@);
    &&& post.lines@ == pre.lines@
    &&& unchanged_core(pre, post)
    &&& if pre.selected_lines@.len() > 0 && info is Some {
        let bb = info.unwrap();
        let ex = spec_expand(bb, SELECTION_MARGIN as int);
        match spec_hit_corner(ex, p) {
            Some(c) => post.interaction@ == (InteractionV::Resizing {
                corner: c,
                orig_bbox: bb,
                snapshot: snap_of(lines_view(pre.lines@), pre.selected_lines@),
            }) && post.selected_lines@ == pre.selected_lines@,
            None => if ex.spec_contains(p) {
                post.interaction@ == (InteractionV::Moving { last: p }) && post.selected_lines@
                    == pre.selected_lines@
            } else {
                new_marquee_state(post, p)
            },
        }
    } else {
        new_marquee_state(post, p)
    }
}

impl WhiteboardApp {
    /// Ends a marquee drag: selects every stroke whose point bounding box
    /// intersects the marquee rectangle, then returns to idle.
    pub fn finish_marquee(&mut self)
        requires
            old(self).wf(),
            old(self).interaction@ is Marquee,
        ensures
            marquee_finish_applied(*old(self), *final(self)),
            final(self).wf(),
    {
        let start: Point;
        let current: Point;
        match &self.interaction {
            Interaction::Marquee { start: s, current: c } => {
                start = *s;
                current = *c;
            },
            _ => {
                return ;
            },
        }
        let rect = rect_from_two(start, current);
        let ghost lsv = lines_view(self.lines@);
        let mut newsel: Vec<usize> = Vec::new();
        let mut i: usize = 0;
        while i < self.lines.len()
            invariant
                self.wf(),
                lsv == lines_view(self.lines@),
                rect == spec_rect_from_two(start, current),
                i <= self.lines@.len(),
                wf_selection(newsel@, i as nat),
                forall|i2: int|
                    0 <= i2 < i ==> (sel_has(newsel@, i2) <==> line_selected_by(
                        #[trigger] lsv[i2],
                        rect,
                    )),
            decreases self.lines@.len() - i,
        {
            proof {
                assert(lsv[i as int] == self.lines@[i as int]@);
            }
            let lb = points_bbox(&self.lines[i].points);
            let hit = match lb {
                Some(bb) => rect.intersects(&bb),
                None => false,
            };
            proof {
                assert(hit == line_selected_by(lsv[i as int], rect));
            }
            if hit {
                let ghost prev = newsel@;
                newsel.push(i);
                proof {
                    assert forall|a: int, b: int| 0 <= a < b < newsel@.len() implies newsel@[a]
                        < newsel@[b] by {
                        if b < prev.len() {
                            assert(prev[a] < prev[b]);
                        } else {
                            assert(newsel@[b] == i);
                            assert(newsel@[a] == prev[a]);
                            assert(prev[a] < i);
                        }
                    }
                    assert forall|i2: int|
                        0 <= i2 < i + 1 implies (sel_has(newsel@, i2) <==> line_selected_by(
                        lsv[i2],
                        rect,
                    )) by {
                        if i2 == i as int {
                            assert((newsel@[prev.len() as int]) as int == i2);
                            assert(sel_has(newsel@, i2));
                        } else {
                            if sel_has(prev, i2) {
                                let k = choose|k: int|
                                    0 <= k < prev.len() && (#[trigger] prev[k]) as int == i2;
                                assert((newsel@[k]) as int == i2);
                                assert(sel_has(newsel@, i2));
                            }
                            if sel_has(newsel@, i2) {
                                let k = choose|k: int|
                                    0 <= k < newsel@.len() && (#[trigger] newsel@[k]) as int == i2;
                                assert(k < prev.len());
                                assert((prev[k]) as int == i2);
                                assert(sel_has(prev, i2));
                            }
                        }
                    }
                }
            } else {
                proof {
                    assert forall|i2: int|
                        0 <= i2 < i + 1 implies (sel_has(newsel@, i2) <==> line_selected_by(
                        lsv[i2],
                        rect,
                    )) by {
                        if i2 == i as int {
                            if sel_has(newsel@, i2) {
                                let k = choose|k: int|
                                    0 <= k < newsel@.len() && (#[trigger] newsel@[k]) as int == i2;
                                assert(newsel@[k] < i);
                                assert(false);
                            }
                        }
                    }
                }
            }
            i = i + 1;
        }
        self.selected_lines = newsel;
        self.interaction = Interaction::Idle;
    }

    /// A plain click with the selection tool: outside the expanded selection
    /// box it deselects, inside it leaves the selection alone.
    pub fn click_selection(&mut self, p: Point)
        requires
            old(self).wf(),
            valid_point(p),
        ensures
            click_applied(*old(self), *final(self), p),
            final(self).wf(),
    {
        let info = self.get_selection_info();
        match info {
            Some(si) => {
                if !si.expanded.contains(p) {
                    self.selected_lines.clear();
                }
            },
            None => {
                self.selected_lines.clear();
            },
        }
    }

    /// A drag-start with the selection tool, decided in priority order:
    /// corner handle, expanded box interior, fresh marquee.
    fn start_selection_drag(&mut self, p: Point)
        requires
            old(self).wf(),
            old(self).current_tool is Selection,
            valid_point(p),
        ensures
            drag_start_applied(*old(self), *final(self), p),
            final(self).wf(),
    {
        let mut to_marquee = false;
        if self.selected_lines.len() > 0 {
            let info = self.get_selection_info();
            match info {
                Some(si) => {
                    match hit_corner(&si.expanded, p) {
                        Some(c) => {
                            self.start_resizing(c, si.bounding_box);
                        },
                        None => {
                            if si.expanded.contains(p) {
                                self.interaction = Interaction::Moving { last: p };
                            } else {
                                to_marquee = true;
                            }
                        },
                    }
                },
                None => {
                    to_marquee = true;
                },
            }
        } else {
            to_marquee = true;
        }
        if to_marquee {
            self.selected_lines.clear();
            self.interaction = Interaction::Marquee { start: p, current: p };
        }
    }

    /// The selection tool's reaction to one pointer event: drag-start picks
    /// a session in priority order, drag samples advance the session,
    /// drag-stop completes it, and a click hit-tests the selection box.
    pub fn handle_selection(&mut self, ev: PointerEvent)
        requires
            old(self).wf(),
            old(self).current_tool is Selection,
            valid_event(ev),
        ensures
            selection_event_applied(*old(self), *final(self), ev),
            final(self).wf(),
    {
        match ev {
            PointerEvent::DragStarted(p) => {
                self.start_selection_drag(p);
            },
            PointerEvent::Dragged(p) => {
                let mut marquee_start: Option<Point> = None;
                let kind: u8;
                match &self.interaction {
                    Interaction::Idle => {
                        kind = 0;
                    },
                    Interaction::Resizing { .. } => {
                        kind = 1;
                    },
                    Interaction::Moving { .. } => {
                        kind = 2;
                    },
                    Interaction::Marquee { start, .. } => {
                        kind = 3;
                        marquee_start = Some(*start);
                    },
                }
                if kind == 1 {
                    self.update_resizing(p);
                } else if kind == 2 {
                    self.move_selection(p);
                } else if kind == 3 {
                    self.interaction = Interaction::Marquee {
                        start: marquee_start.unwrap(),
                        current: p,
                    };
                }
            },
            PointerEvent::DragStopped => {
                let kind: u8;
                match &self.interaction {
                    Interaction::Idle => {
                        kind = 0;
                    },
                    Interaction::Resizing { .. } => {
                        kind = 1;
                    },
                    Interaction::Moving { .. } => {
                        kind = 2;
                    },
                    Interaction::Marquee { .. } => {
                        kind = 3;
                    },
                }
                if kind == 1 || kind == 2 {
                    self.interaction = Interaction::Idle;
                } else if kind == 3 {
                    self.finish_marquee();
                }
            },
            PointerEvent::Clicked(p) => {
                self.click_selection(p);
            },
        }
    }
}

/// The selection tool's whole event relation: what one pointer event does
/// to the board, by event kind and current session.
pub open spec fn selection_event_applied(
    pre: WhiteboardApp,
    post: WhiteboardApp,
    ev: PointerEvent,
) -> bool {
    match ev {
        PointerEvent::DragStarted(p) => drag_start_applied(pre, post, p),
        PointerEvent::Dragged(p) => match pre.interaction@ {
            InteractionV::Resizing { .. } => resize_session_applied(pre, post, p),
            InteractionV::Moving { .. } => move_session_applied(pre, post, p),
            InteractionV::Marquee { start, current } => {
                &&& post.interaction@ == (InteractionV::Marquee { start, current: p })
                &&& post.lines@ == pre.lines@
                &&& post.selected_lines@ == pre.selected_lines@
                &&& unchanged_core(pre, post)
            },
            InteractionV::Idle => post == pre,
        },
        PointerEvent::DragStopped => match pre.interaction@ {
            InteractionV::Resizing { .. } | InteractionV::Moving { .. } => {
                &&& post.interaction@ is Idle
                &&& post.lines@ == pre.lines@
                &&& post.selected_lines@ == pre.selected_lines@
                &&& unchanged_core(pre, post)
            },
            InteractionV::Marquee { .. } => marquee_finish_applied(pre, post),
            InteractionV::Idle => post == pre,
        },
        PointerEvent::Clicked(p) => click_applied(pre, post, p),
    }
}

/// Whether the event's pointer position, if it carries one, is a valid
/// canvas point.
pub open spec fn valid_event(ev: PointerEvent) -> bool {
    match ev {
        PointerEvent::DragStarted(p) => valid_point(p),
        PointerEvent::Dragged(p) => valid_point(p),
        PointerEvent::DragStopped => true,
        PointerEvent::Clicked(p) => valid_point(p),
    }
}

/// What the cursor should suggest: a diagonal resize hint over a corner
/// handle (mirrored for the opposite pair), a grab hint over the expanded
/// box, and nothing otherwise.
pub open spec fn spec_cursor_hint(app: WhiteboardApp, hover: Option<Point>) -> CursorHint {
    if app.current_tool != Tool::Selection {
        CursorHint::Arrow
    } else {
        match app.interaction@ {
            InteractionV::Resizing { corner, .. } => match corner {
                ResizeCorner::TopLeft | ResizeCorner::BottomRight => CursorHint::ResizeNwSe,
                ResizeCorner::TopRight | ResizeCorner::BottomLeft => CursorHint::ResizeNeSw,
            },
            InteractionV::Moving { .. } => CursorHint::Grab,
            _ => match hover {
                Some(p) => match sel_bbox(lines_view(app.lines@), app.selected_lines@) {
                    Some(bb) => {
                        let ex = spec_expand(bb, SELECTION_MARGIN as int);
                        if handle_rect(ex, ResizeCorner::TopLeft).spec_contains(p) || handle_rect(
                            ex,
                            ResizeCorner::BottomRight,
                        ).spec_contains(p) {
                            CursorHint::ResizeNwSe
                        } else if handle_rect(ex, ResizeCorner::TopRight).spec_contains(p)
                            || handle_rect(ex, ResizeCorner::BottomLeft).spec_contains(p) {
                            CursorHint::ResizeNeSw
                        } else if ex.spec_contains(p) {
                            CursorHint::Grab
                        } else {
                            CursorHint::Arrow
                        }
                    },
                    None => CursorHint::Arrow,
                },
                None => CursorHint::Arrow,
            },
        }
    }
}

impl WhiteboardApp {
    /// Reports the cursor hint for the current state and hover position.
    pub fn cursor_hint(&self, hover: Option<Point>) -> (r: CursorHint)
        requires
            self.wf(),
        ensures
            r == spec_cursor_hint(*self, hover),
    {
        let is_selection = match self.current_tool {
            Tool::Selection => true,
            _ => false,
        };
        if !is_selection {
            return CursorHint::Arrow;
        }
        match &self.interaction {
            Interaction::Resizing { corner, .. } => {
                return match corner {
                    ResizeCorner::TopLeft | ResizeCorner::BottomRight => CursorHint::ResizeNwSe,
                    ResizeCorner::TopRight | ResizeCorner::BottomLeft => CursorHint::ResizeNeSw,
                };
            },
            Interaction::Moving { .. } => {
                return CursorHint::Grab;
            },
            _ => {},
        }
        match hover {
            None => CursorHint::Arrow,
            Some(p) => {
                match self.get_selection_info() {
                    None => CursorHint::Arrow,
                    Some(si) => {
                        let ex = si.expanded;
                        if handle_rect_exec(&ex, ResizeCorner::TopLeft).contains(p)
                            || handle_rect_exec(&ex, ResizeCorner::BottomRight).contains(p) {
                            CursorHint::ResizeNwSe
                        } else if handle_rect_exec(&ex, ResizeCorner::TopRight).contains(p)
                            || handle_rect_exec(&ex, ResizeCorner::BottomLeft).contains(p) {
                            CursorHint::ResizeNeSw
                        } else if ex.contains(p) {
                            CursorHint::Grab
                        } else {
                            CursorHint::Arrow
                        }
                    },
                }
            },
        }
    }
}

/// Dragging one axis to exactly double the original span doubles every
/// point's offset from the anchored minimum corner along that axis, while an
/// axis whose span is kept leaves that offset unchanged.
pub proof fn lemma_resize_scales_axis(q: Point, obb: Rect, nb: Rect)
    requires
        obb.wf(),
        obb.min.x <= q.x <= obb.max.x,
        obb.min.y <= q.y <= obb.max.y,
        obb.max.x > obb.min.x,
        nb.max.x - nb.min.x == 2 * (obb.max.x - obb.min.x),
        nb.max.y - nb.min.y == obb.max.y - obb.min.y,
        valid_coord(nb.min.x + 2 * (q.x - obb.min.x)),
        valid_coord(nb.min.y + (q.y - obb.min.y)),
    ensures
        remap_point_spec(q, obb, nb).x as int == nb.min.x + 2 * (q.x - obb.min.x),
        remap_point_spec(q, obb, nb).y as int == nb.min.y + (q.y - obb.min.y),
{
    let a = q.x - obb.min.x;
    let e = obb.max.x - obb.min.x;
    assert(a * (2 * e) == (2 * a) * e) by (nonlinear_arith);
    vstd::arithmetic::div_mod::lemma_div_by_multiple(2 * a, e);
    assert((2 * a * e) / e == 2 * a);
    let b = q.y - obb.min.y;
    let f = obb.max.y - obb.min.y;
    if f > 0 {
        vstd::arithmetic::div_mod::lemma_div_by_multiple(b, f);
        assert((b * f) / f == b);
    }
}

/// Translates every point of a stroke by the given delta.
fn translate_points(ps: &Vec<Point>, dx: i64, dy: i64) -> (r: Vec<Point>)
    requires
        forall|k: int| 0 <= k < ps@.len() ==> valid_point(#[trigger] ps@[k]),
        -1_000_000_000 <= dx <= 1_000_000_000,
        -1_000_000_000 <= dy <= 1_000_000_000,
    ensures
        r@ == Seq::new(ps@.len(), |k: int| translate_clamped(ps@[k], dx as int, dy as int)),
{
    let ghost target = Seq::new(ps@.len(), |k: int| translate_clamped(ps@[k], dx as int, dy as int));
    let mut out: Vec<Point> = Vec::new();
    let mut m: usize = 0;
    while m < ps.len()
        invariant
            m <= ps@.len(),
            forall|k: int| 0 <= k < ps@.len() ==> valid_point(#[trigger] ps@[k]),
            -1_000_000_000 <= dx <= 1_000_000_000,
            -1_000_000_000 <= dy <= 1_000_000_000,
            target == Seq::new(ps@.len(), |k: int| translate_clamped(ps@[k], dx as int, dy as int)),
            out@ == target.take(m as int),
        decreases ps@.len() - m,
    {
        let np = translate_point(ps[m], dx, dy);
        out.push(np);
        proof {
            assert(target.take(m + 1 as int) =~= target.take(m as int).push(target[m as int]));
        }
        m = m + 1;
    }
    proof {
        assert(target.take(ps@.len() as int) =~= target);
    }
    out
}

} // verus!
