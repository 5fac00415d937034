//! The whiteboard state and the tool state machine: the single owner of the
//! canvas, the in-progress stroke, the palette, the selection, the undo
//! history, and the transient interaction session.

use vstd::prelude::*;

use crate::colors::ColorPalette;
use crate::geom::{
    seg_within_dist, segment_within_distance, valid_point, valid_rect, Point, Rect, WIDTH_LIMIT,
};
use crate::state::{copy_points, lines_view, wf_lines, Line, LineV};
use crate::tools::Tool;
use crate::undo::{
    erase_entries, push_all, push_entry, UndoAction, UndoStack, UndoV, UNDO_CAPACITY,
};

verus! {

/// How far outside its own width a stroke still counts as hit by the eraser.
pub const ERASER_TOLERANCE: u32 = 5;

/// A corner handle of the selection bounding box.
#[derive(Clone, Copy, PartialEq, Eq, Structural, Debug)]
pub enum ResizeCorner {
    TopLeft,
    TopRight,
    BottomLeft,
    BottomRight,
}

/// A pointer gesture phase, as forwarded by the shell. A drag reports its
/// start and every later sample with `DragStarted` / `Dragged`, then ends
/// with `DragStopped`; a press without movement arrives as `Clicked`.
#[derive(Clone, Copy, PartialEq, Eq, Structural, Debug)]
pub enum PointerEvent {
    DragStarted(Point),
    Dragged(Point),
    DragStopped,
    Clicked(Point),
}

/// A keyboard action, already decoded from raw key presses by the shell.
#[derive(Clone, Copy, PartialEq, Eq, Structural, Debug)]
pub enum KeyCommand {
    Undo,
    ClearCanvas,
    SelectTool(Tool),
    SelectPaletteSlot(usize),
    DeleteSelected,
    CancelSelection,
}

/// What the cursor should suggest while the selection tool hovers.
#[derive(Clone, Copy, PartialEq, Eq, Structural, Debug)]
pub enum CursorHint {
    ResizeNwSe,
    ResizeNeSw,
    Grab,
    Arrow,
}

/// One snapshotted stroke of a resize session: the stroke's index and its
/// value at drag-start.
#[derive(Debug)]
pub struct Snap {
    pub index: usize,
    pub line: Line,
}

/// The mathematical view of a [`Snap`].
pub struct SnapV {
    pub index: usize,
    pub line: LineV,
}

impl View for Snap {
    type V = SnapV;

    open spec fn view(&self) -> SnapV {
        SnapV { index: self.index, line: self.line@ }
    }
}

pub open spec fn snaps_view(v: Seq<Snap>) -> Seq<SnapV> {
    v.map_values(|s: Snap| s@)
}

/// The transient gesture session of the selection tool: at most one gesture
/// is in progress at any time.
#[derive(Debug)]
pub enum Interaction {
    Idle,
    Marquee { start: Point, current: Point },
    Moving { last: Point },
    Resizing { corner: ResizeCorner, orig_bbox: Rect, snapshot: Vec<Snap> },
}

/// The mathematical view of an [`Interaction`].
pub enum InteractionV {
    Idle,
    Marquee { start: Point, current: Point },
    Moving { last: Point },
    Resizing { corner: ResizeCorner, orig_bbox: Rect, snapshot: Seq<SnapV> },
}

impl View for Interaction {
    type V = InteractionV;

    open spec fn view(&self) -> InteractionV {
        match self {
            Interaction::Idle => InteractionV::Idle,
            Interaction::Marquee { start, current } => InteractionV::Marquee {
                start: *start,
                current: *current,
            },
            Interaction::Moving { last } => InteractionV::Moving { last: *last },
            Interaction::Resizing { corner, orig_bbox, snapshot } => InteractionV::Resizing {
                corner: *corner,
                orig_bbox: *orig_bbox,
                snapshot: snaps_view(snapshot@),
            },
        }
    }
}

/// A selection is a strictly increasing sequence of stroke indices, all of
/// them inside the canvas.
pub open spec fn wf_selection(sel: Seq<usize>, n: nat) -> bool {
    (forall|a: int, b: int| 0 <= a < b < sel.len() ==> sel[a] < sel[b]) && (forall|k: int|
        0 <= k < sel.len() ==> (#[trigger] sel[k]) < n)
}

/// A resize snapshot lists strictly increasing, in-range stroke indices, and
/// each snapshotted stroke still has the point count of its canvas stroke.
pub open spec fn wf_snapshot(snap: Seq<SnapV>, lines: Seq<LineV>) -> bool {
    (forall|a: int, b: int| 0 <= a < b < snap.len() ==> snap[a].index < snap[b].index) && (forall|
        k: int,
    |
        0 <= k < snap.len() ==> {
            &&& (#[trigger] snap[k]).index < lines.len()
            &&& snap[k].line.wf()
            &&& lines[snap[k].index as int].points.len() == snap[k].line.points.len()
        })
}

/// The whole application state driven by the event loop: the shell forwards
/// pointer and keyboard events and renders what the queries report.
pub struct WhiteboardApp {
    pub lines: Vec<Line>,
    pub current_line: Vec<Point>,
    pub palette: ColorPalette,
    pub stroke_width: u32,
    pub current_tool: Tool,
    pub undo_stack: UndoStack,
    pub selected_lines: Vec<usize>,
    pub interaction: Interaction,
}

impl WhiteboardApp {
    pub open spec fn wf_interaction(self) -> bool {
        match self.interaction@ {
            InteractionV::Idle => true,
            InteractionV::Marquee { start, current } => self.current_tool == Tool::Selection
                && valid_point(start) && valid_point(current),
            InteractionV::Moving { last } => self.current_tool == Tool::Selection && valid_point(
                last,
            ),
            InteractionV::Resizing { corner, orig_bbox, snapshot } => self.current_tool
                == Tool::Selection && valid_rect(orig_bbox) && orig_bbox.wf() && wf_snapshot(
                snapshot,
                lines_view(self.lines@),
            ),
        }
    }

    /// The global invariant: every stored stroke and point is within the
    /// canvas range, the palette and history are well-formed, the selection
    /// indices are strictly increasing and in range, and a non-idle gesture
    /// session belongs to the selection tool and is consistent with the
    /// canvas.
    pub open spec fn wf(self) -> bool {
        &&& wf_lines(lines_view(self.lines@))
        &&& forall|k: int|
            0 <= k < self.current_line@.len() ==> valid_point(#[trigger] self.current_line@[k])
        &&& self.palette.wf()
        &&& 1 <= self.stroke_width <= WIDTH_LIMIT
        &&& self.undo_stack.wf()
        &&& wf_selection(self.selected_lines@, self.lines@.len())
        &&& self.wf_interaction()
    }

    /// The stroke that a commit of the in-progress line would produce.
    pub open spec fn pending_line(self) -> LineV {
        LineV {
            points: self.current_line@,
            color: self.palette.colors@[self.palette.active_color_index as int],
            width: self.stroke_width,
        }
    }
}

impl Default for WhiteboardApp {
    /// An empty board: no strokes, the default palette, width 3, brush tool,
    /// empty history, no selection, idle session.
    fn default() -> (app: WhiteboardApp)
        ensures
            app.lines@.len() == 0,
            app.current_line@.len() == 0,
            app.palette.colors@.len() == 5,
            app.palette.active_color_index == 0,
            app.stroke_width == 3,
            app.current_tool == Tool::Brush,
            app.undo_stack@.len() == 0,
            app.selected_lines@.len() == 0,
            app.interaction@ is Idle,
            app.wf(),
    {
        let app = WhiteboardApp {
            lines: Vec::new(),
            current_line: Vec::new(),
            palette: ColorPalette::default(),
            stroke_width: 3,
            current_tool: Tool::Brush,
            undo_stack: UndoStack::default(),
            selected_lines: Vec::new(),
            interaction: Interaction::Idle,
        };
        proof {
            assert(lines_view(app.lines@) =~= Seq::<LineV>::empty());
        }
        app
    }
}

/// The in-progress line after one brush sample: the point is appended only
/// when it differs from the last recorded point.
pub open spec fn append_step(cl: Seq<Point>, p: Point) -> Seq<Point> {
    if cl.len() == 0 || cl.last() != p {
        cl.push(p)
    } else {
        cl
    }
}

impl WhiteboardApp {
    /// Brush sample: extends the in-progress line, suppressing duplicates of
    /// the last point. Nothing else changes.
    pub fn append_point(&mut self, p: Point)
        requires
            old(self).wf(),
            valid_point(p),
        ensures
            append_applied(*old(self), *final(self), p),
            final(self).wf(),
    {
        let n = self.current_line.len();
        if n == 0 {
            self.current_line.push(p);
        } else {
            let last = self.current_line[n - 1];
            if !(last.x == p.x && last.y == p.y) {
                self.current_line.push(p);
            } else {
                proof {
                    assert(old(self).current_line@.last() == p);
                }
            }
        }
    }

    /// Commits the in-progress line: with at least two points it becomes one
    /// new stroke at the end of the canvas together with exactly one `Draw`
    /// history entry; with fewer it is discarded with no other effect. The
    /// in-progress buffer is cleared in either case.
    pub fn commit_current_line(&mut self)
        requires
            old(self).wf(),
        ensures
            commit_applied(*old(self), *final(self)),
            final(self).wf(),
    {
        if self.current_line.len() >= 2 {
            let ghost pre_lines = lines_view(self.lines@);
            let pts = copy_points(&self.current_line);
            let color = self.palette.get_current_color();
            let width = self.stroke_width;
            let stroke = Line { points: pts, color, width };
            let entry = stroke.duplicate();
            self.lines.push(stroke);
            self.undo_stack.add_draw(entry);
            self.current_line.clear();
            proof {
                assert(lines_view(self.lines@) =~= pre_lines.push(old(self).pending_line()));
                assert(wf_lines(lines_view(self.lines@)));
                if old(self).interaction@ is Resizing {
                    assert(self.wf_interaction());
                }
            }
        } else {
            self.current_line.clear();
        }
    }
}

/// Whether some segment of the stroke lies within distance `r` of `p`.
pub open spec fn line_hit(l: LineV, p: Point, r: int) -> bool {
    exists|k: int|
        #![trigger l.points[k]]
        0 <= k < l.points.len() - 1 && seg_within_dist(p, l.points[k], l.points[k + 1], r)
}

/// The strokes that an erase at `p` with reach `r` keeps, in order.
pub open spec fn kept_of(ls: Seq<LineV>, p: Point, r: int) -> Seq<LineV>
    decreases ls.len(),
{
    if ls.len() == 0 {
        Seq::empty()
    } else if line_hit(ls.last(), p, r) {
        kept_of(ls.drop_last(), p, r)
    } else {
        kept_of(ls.drop_last(), p, r).push(ls.last())
    }
}

/// The strokes that an erase at `p` with reach `r` removes, in canvas order.
pub open spec fn erased_of(ls: Seq<LineV>, p: Point, r: int) -> Seq<LineV>
    decreases ls.len(),
{
    if ls.len() == 0 {
        Seq::empty()
    } else if line_hit(ls.last(), p, r) {
        erased_of(ls.drop_last(), p, r).push(ls.last())
    } else {
        erased_of(ls.drop_last(), p, r)
    }
}

/// An erase partitions the canvas: every removed stroke has a segment within
/// reach, every kept stroke has none, and nothing is lost.
pub proof fn lemma_eraser_partition(ls: Seq<LineV>, p: Point, r: int)
    ensures
        kept_of(ls, p, r).len() + erased_of(ls, p, r).len() == ls.len(),
        forall|k: int| 0 <= k < kept_of(ls, p, r).len() ==> !line_hit(
            #[trigger] kept_of(ls, p, r)[k],
            p,
            r,
        ),
        forall|k: int| 0 <= k < erased_of(ls, p, r).len() ==> line_hit(
            #[trigger] erased_of(ls, p, r)[k],
            p,
            r,
        ),
        wf_lines(ls) ==> wf_lines(kept_of(ls, p, r)) && wf_lines(erased_of(ls, p, r)),
    decreases ls.len(),
{
    if ls.len() > 0 {
        lemma_eraser_partition(ls.drop_last(), p, r);
        if wf_lines(ls) {
            assert(wf_lines(ls.drop_last()));
        }
    }
}

/// Decides `line_hit` by walking the stroke's consecutive point pairs.
pub fn line_hit_exec(l: &Line, p: Point, radius: u32) -> (hit: bool)
    requires
        l@.wf(),
        valid_point(p),
        radius <= WIDTH_LIMIT + 1000,
    ensures
        hit == line_hit(l@, p, radius as int),
{
    let n = l.points.len();
    if n < 2 {
        return false;
    }
    let mut k: usize = 0;
    while k < n - 1
        invariant
            l@.wf(),
            valid_point(p),
            radius <= WIDTH_LIMIT + 1000,
            2 <= n == l.points@.len(),
            k <= n - 1,
            forall|j: int|
                #![trigger l.points@[j]]
                0 <= j < k ==> !seg_within_dist(p, l.points@[j], l.points@[j + 1], radius as int),
        decreases n - k,
    {
        proof {
            assert(valid_point(l@.points[k as int]));
            assert(valid_point(l@.points[k as int + 1]));
        }
        if segment_within_distance(p, l.points[k], l.points[k + 1], radius) {
            proof {
                assert(seg_within_dist(
                    p,
                    l@.points[k as int],
                    l@.points[k as int + 1],
                    radius as int,
                ));
            }
            return true;
        }
        k = k + 1;
    }
    false
}

impl WhiteboardApp {
    /// Erase at `p`: removes, in one batch, every stroke with a segment
    /// within `stroke_width + ERASER_TOLERANCE` of `p`, records the removed
    /// strokes as erase history entries in canvas order, and clears the
    /// selection when anything was removed.
    pub fn handle_eraser(&mut self, p: Point)
        requires
            old(self).wf(),
            valid_point(p),
            old(self).interaction@ is Idle,
        ensures
            erase_applied(*old(self), *final(self), p),
            final(self).wf(),
    {
        let radius = self.stroke_width + ERASER_TOLERANCE;
        let ghost lsv = lines_view(self.lines@);
        let ghost r = radius as int;
        let mut kept: Vec<Line> = Vec::new();
        let mut deleted: Vec<Line> = Vec::new();
        let mut i: usize = 0;
        while i < self.lines.len()
            invariant
                self.wf(),
                valid_point(p),
                radius == self.stroke_width + ERASER_TOLERANCE,
                radius <= WIDTH_LIMIT + 1000,
                lsv == lines_view(self.lines@),
                r == radius as int,
                i <= self.lines@.len(),
                lines_view(kept@) == kept_of(lsv.take(i as int), p, r),
                lines_view(deleted@) == erased_of(lsv.take(i as int), p, r),
            decreases self.lines@.len() - i,
        {
            proof {
                assert(lines_view(self.lines@)[i as int] == self.lines@[i as int]@);
                assert(lines_view(self.lines@)[i as int].wf());
            }
            let hit = line_hit_exec(&self.lines[i], p, radius);
            let copy = self.lines[i].duplicate();
            proof {
                assert(lsv.take(i + 1 as int).drop_last() =~= lsv.take(i as int));
                assert(lsv.take(i + 1 as int).last() == lsv[i as int]);
            }
            if hit {
                let ghost prev = deleted@;
                deleted.push(copy);
                proof {
                    crate::state::lemma_lines_view_push(prev, copy);
                }
            } else {
                let ghost prev = kept@;
                kept.push(copy);
                proof {
                    crate::state::lemma_lines_view_push(prev, copy);
                }
            }
            i = i + 1;
        }
        proof {
            assert(lsv.take(lsv.len() as int) =~= lsv);
            lemma_eraser_partition(lsv, p, r);
        }
        self.lines = kept;
        if deleted.len() > 0 {
            self.selected_lines.clear();
            proof {
                assert forall|k: int|
                    0 <= k < deleted@.len() implies (#[trigger] deleted@[k])@.wf() by {
                    assert(lines_view(deleted@)[k] == deleted@[k]@);
                    assert(lines_view(deleted@)[k].wf());
                }
            }
            self.undo_stack.extend_erase(deleted);
        } else {
            proof {
                assert(erase_entries(lines_view(deleted@)) =~= Seq::<UndoV>::empty());
            }
        }
    }
}

/// One undo transition on the pair (canvas, history): popping a draw record
/// removes the most recently added stroke, popping an erase record appends
/// the recorded stroke at the end of the canvas, and an empty history
/// changes nothing.
pub open spec fn undo_step(lines: Seq<LineV>, stack: Seq<UndoV>) -> (Seq<LineV>, Seq<UndoV>) {
    if stack.len() == 0 {
        (lines, stack)
    } else {
        match stack.last() {
            UndoV::Draw(_) => (
                if lines.len() > 0 {
                    lines.drop_last()
                } else {
                    lines
                },
                stack.drop_last(),
            ),
            UndoV::Erase(l) => (lines.push(l), stack.drop_last()),
        }
    }
}

/// `n` undo transitions in a row.
pub open spec fn undo_n(lines: Seq<LineV>, stack: Seq<UndoV>, n: nat) -> (Seq<LineV>, Seq<UndoV>)
    decreases n,
{
    if n == 0 {
        (lines, stack)
    } else {
        let s = undo_step(lines, stack);
        undo_n(s.0, s.1, (n - 1) as nat)
    }
}

impl WhiteboardApp {
    /// Undo: applies one `undo_step` to the canvas and history, and clears
    /// the selection and any gesture session.
    pub fn undo(&mut self)
        requires
            old(self).wf(),
        ensures
            undo_applied(*old(self), *final(self)),
            final(self).wf(),
    {
        self.selected_lines.clear();
        self.interaction = Interaction::Idle;
        let ghost pre_lines = lines_view(self.lines@);
        match self.undo_stack.pop() {
            None => {},
            Some(action) => match action {
                UndoAction::Erase(line) => {
                    let ghost prev = self.lines@;
                    self.lines.push(line);
                    proof {
                        crate::state::lemma_lines_view_push(prev, line);
                    }
                },
                UndoAction::Draw(_line) => {
                    let popped = self.lines.pop();
                    proof {
                        if pre_lines.len() > 0 {
                            assert(lines_view(self.lines@) =~= pre_lines.drop_last());
                        } else {
                            assert(lines_view(self.lines@) =~= pre_lines);
                        }
                    }
                },
            },
        }
    }
}

/// The strokes whose index is not selected, in canvas order.
pub open spec fn keep_unselected(ls: Seq<LineV>, sel: Seq<usize>) -> Seq<LineV>
    decreases ls.len(),
{
    if ls.len() == 0 {
        Seq::empty()
    } else if sel.contains((ls.len() - 1) as usize) {
        keep_unselected(ls.drop_last(), sel)
    } else {
        keep_unselected(ls.drop_last(), sel).push(ls.last())
    }
}

/// The strokes whose index is selected, in canvas order.
pub open spec fn selected_strokes(ls: Seq<LineV>, sel: Seq<usize>) -> Seq<LineV>
    decreases ls.len(),
{
    if ls.len() == 0 {
        Seq::empty()
    } else if sel.contains((ls.len() - 1) as usize) {
        selected_strokes(ls.drop_last(), sel).push(ls.last())
    } else {
        selected_strokes(ls.drop_last(), sel)
    }
}

proof fn lemma_delete_partition_wf(ls: Seq<LineV>, sel: Seq<usize>)
    requires
        wf_lines(ls),
    ensures
        wf_lines(keep_unselected(ls, sel)),
        wf_lines(selected_strokes(ls, sel)),
        keep_unselected(ls, sel).len() + selected_strokes(ls, sel).len() == ls.len(),
    decreases ls.len(),
{
    if ls.len() > 0 {
        assert(wf_lines(ls.drop_last()));
        lemma_delete_partition_wf(ls.drop_last(), sel);
    }
}

/// Extending a selection with an index beyond the canvas does not change
/// which strokes it picks.
proof fn lemma_sel_drop_high(ls: Seq<LineV>, sel: Seq<usize>)
    requires
        ls.len() <= usize::MAX,
        sel.len() > 0,
        sel.last() as int >= ls.len(),
    ensures
        selected_strokes(ls, sel) == selected_strokes(ls, sel.drop_last()),
        keep_unselected(ls, sel) == keep_unselected(ls, sel.drop_last()),
    decreases ls.len(),
{
    if ls.len() > 0 {
        lemma_sel_drop_high(ls.drop_last(), sel);
        let v = (ls.len() - 1) as usize;
        assert(sel.contains(v) == sel.drop_last().contains(v)) by {
            if sel.contains(v) {
                let k = choose|k: int| 0 <= k < sel.len() && sel[k] == v;
                assert(k != sel.len() - 1);
                assert(sel.drop_last()[k] == v);
            }
            if sel.drop_last().contains(v) {
                let k = choose|k: int|
                    0 <= k < sel.drop_last().len() && sel.drop_last()[k] == v;
                assert(sel[k] == v);
            }
        }
    }
}

/// A well-formed selection picks exactly its indices' strokes, in index
/// order: deleting a selection of `n` indices removes those strokes and no
/// others, and records an erase batch of exactly `n` entries.
pub proof fn lemma_selected_strokes_exact(ls: Seq<LineV>, sel: Seq<usize>)
    requires
        ls.len() <= usize::MAX,
        wf_selection(sel, ls.len()),
    ensures
        selected_strokes(ls, sel).len() == sel.len(),
        forall|j: int|
            0 <= j < sel.len() ==> selected_strokes(ls, sel)[j] == ls[(#[trigger] sel[j]) as int],
        keep_unselected(ls, sel).len() + sel.len() == ls.len(),
    decreases ls.len(),
{
    if ls.len() == 0 {
        if sel.len() > 0 {
            assert(sel[0] < ls.len());
            assert(false);
        }
    } else {
        let n = ls.len() - 1;
        let v = (ls.len() - 1) as usize;
        if sel.contains(v) {
            let k = choose|k: int| 0 <= k < sel.len() && sel[k] == v;
            assert(k == sel.len() - 1) by {
                if k < sel.len() - 1 {
                    assert(sel[k] < sel[k + 1]);
                    assert(sel[k + 1] < ls.len());
                    assert(false);
                }
            }
            let sel2 = sel.drop_last();
            assert(wf_selection(sel2, ls.drop_last().len())) by {
                assert forall|k2: int|
                    0 <= k2 < sel2.len() implies ((#[trigger] sel2[k2]) as int) < ls.drop_last().len() by {
                    assert(sel[k2] < sel[sel.len() - 1]);
                }
            }
            lemma_sel_drop_high(ls.drop_last(), sel);
            lemma_selected_strokes_exact(ls.drop_last(), sel2);
            assert forall|j: int|
                0 <= j < sel.len() implies selected_strokes(ls, sel)[j] == ls[(
            #[trigger] sel[j]) as int] by {
                if j < sel.len() - 1 {
                    assert(selected_strokes(ls, sel)[j] == selected_strokes(ls.drop_last(), sel2)[
                        j]);
                    assert(selected_strokes(ls.drop_last(), sel2)[j] == ls.drop_last()[(
                    sel2[j]) as int]);
                    assert(sel2[j] < sel[sel.len() - 1]);
                } else {
                    assert(selected_strokes(ls, sel)[j] == ls.last());
                }
            }
        } else {
            assert(wf_selection(sel, ls.drop_last().len())) by {
                assert forall|k2: int|
                    0 <= k2 < sel.len() implies ((#[trigger] sel[k2]) as int) < ls.drop_last().len() by {
                    if sel[k2] as int == n {
                        assert(sel.contains(sel[k2]));
                        assert(false);
                    }
                }
            }
            lemma_selected_strokes_exact(ls.drop_last(), sel);
            assert forall|j: int|
                0 <= j < sel.len() implies selected_strokes(ls, sel)[j] == ls[(
            #[trigger] sel[j]) as int] by {
                assert(selected_strokes(ls, sel)[j] == ls.drop_last()[(sel[j]) as int]);
            }
        }
    }
}

/// Whether `sel` contains the index `i`.
pub fn selected_contains(sel: &Vec<usize>, i: usize) -> (r: bool)
    ensures
        r == sel@.contains(i),
{
    let mut k: usize = 0;
    while k < sel.len()
        invariant
            k <= sel@.len(),
            forall|j: int| 0 <= j < k ==> sel@[j] != i,
        decreases sel@.len() - k,
    {
        if sel[k] == i {
            return true;
        }
        k = k + 1;
    }
    proof {
        assert(forall|j: int| 0 <= j < sel@.len() ==> sel@[j] != i);
    }
    false
}

/// Reverses a stroke vector.
pub fn reverse_lines(ls: Vec<Line>) -> (r: Vec<Line>)
    ensures
        lines_view(r@) == lines_view(ls@).reverse(),
{
    let mut out: Vec<Line> = Vec::new();
    let mut i: usize = ls.len();
    while i > 0
        invariant
            i <= ls@.len(),
            lines_view(out@) == lines_view(ls@).skip(i as int).reverse(),
        decreases i,
    {
        i = i - 1;
        let ghost prev = out@;
        let dup = ls[i].duplicate();
        out.push(dup);
        proof {
            crate::state::lemma_lines_view_push(prev, dup);
            assert(lines_view(ls@).skip(i as int).reverse() =~= lines_view(ls@).skip(
                i + 1 as int,
            ).reverse().push(lines_view(ls@)[i as int]));
        }
    }
    proof {
        assert(lines_view(ls@).skip(0) =~= lines_view(ls@));
    }
    out
}

impl WhiteboardApp {
    /// Deletes every selected stroke in one batch: the canvas keeps the
    /// unselected strokes in order, the removed strokes are recorded as an
    /// erase batch in descending-index order, and the selection is cleared.
    /// An empty selection is silently ignored.
    pub fn delete_selected(&mut self)
        requires
            old(self).wf(),
        ensures
            delete_applied(*old(self), *final(self)),
            final(self).wf(),
    {
        if self.selected_lines.len() == 0 {
            return ;
        }
        let ghost lsv = lines_view(self.lines@);
        let ghost sel = self.selected_lines@;
        let mut kept: Vec<Line> = Vec::new();
        let mut deleted: Vec<Line> = Vec::new();
        let mut i: usize = 0;
        while i < self.lines.len()
            invariant
                self.wf(),
                lsv == lines_view(self.lines@),
                sel == self.selected_lines@,
                i <= self.lines@.len(),
                lines_view(kept@) == keep_unselected(lsv.take(i as int), sel),
                lines_view(deleted@) == selected_strokes(lsv.take(i as int), sel),
            decreases self.lines@.len() - i,
        {
            let is_sel = selected_contains(&self.selected_lines, i);
            let copy = self.lines[i].duplicate();
            proof {
                assert(lsv.take(i + 1 as int).drop_last() =~= lsv.take(i as int));
                assert(lsv.take(i + 1 as int).last() == lsv[i as int]);
            }
            if is_sel {
                let ghost prev = deleted@;
                deleted.push(copy);
                proof {
                    crate::state::lemma_lines_view_push(prev, copy);
                }
            } else {
                let ghost prev = kept@;
                kept.push(copy);
                proof {
                    crate::state::lemma_lines_view_push(prev, copy);
                }
            }
            i = i + 1;
        }
        proof {
            assert(lsv.take(lsv.len() as int) =~= lsv);
            lemma_delete_partition_wf(lsv, sel);
        }
        self.lines = kept;
        let deleted_desc = reverse_lines(deleted);
        proof {
            lemma_delete_partition_wf(lsv, sel);
            let dl = lines_view(deleted_desc@);
            let ss = selected_strokes(lsv, sel);
            assert forall|k: int|
                0 <= k < deleted_desc@.len() implies (#[trigger] deleted_desc@[k])@.wf() by {
                assert(dl[k] == deleted_desc@[k]@);
                assert(dl == ss.reverse());
                assert(dl.len() == deleted_desc@.len());
                assert(ss.len() == dl.len());
                assert(ss.reverse() == Seq::new(ss.len(), |i: int| ss[ss.len() - 1 - i]));
                assert(dl[k] == ss[ss.len() - 1 - k]);
                assert(ss[ss.len() - 1 - k].wf());
            }
        }
        self.undo_stack.extend_erase(deleted_desc);
        self.selected_lines.clear();
        self.interaction = Interaction::Idle;
    }

    /// Switches to `tool`. A change of tool ends any gesture session, and
    /// entering the selection tool starts it with an empty selection.
    pub fn set_tool(&mut self, tool: Tool)
        requires
            old(self).wf(),
        ensures
            set_tool_applied(*old(self), *final(self), tool),
            final(self).wf(),
    {
        if !(self.current_tool == tool) {
            self.interaction = Interaction::Idle;
            if tool == Tool::Selection {
                self.selected_lines.clear();
            }
            self.current_tool = tool;
        }
    }

    /// Clears the whole canvas and the selection; the history is kept.
    pub fn clear_canvas(&mut self)
        requires
            old(self).wf(),
        ensures
            clear_applied(*old(self), *final(self)),
            final(self).wf(),
    {
        self.lines.clear();
        self.selected_lines.clear();
        self.interaction = Interaction::Idle;
        proof {
            assert(lines_view(self.lines@) =~= Seq::<LineV>::empty());
        }
    }

    /// Loads a persisted snapshot: the canvas and palette are replaced (the
    /// first palette color becomes active), the selection and any session
    /// are cleared, and the history, tool, width and in-progress line are
    /// kept.
    pub fn load_state(&mut self, st: crate::state::WhiteboardState)
        requires
            old(self).wf(),
            st.wf(),
        ensures
            lines_view(final(self).lines@) == st@.lines,
            final(self).palette.colors@ == st@.palette,
            final(self).palette.active_color_index == 0,
            final(self).selected_lines@ == Seq::<usize>::empty(),
            final(self).interaction@ is Idle,
            final(self).current_line@ == old(self).current_line@,
            final(self).stroke_width == old(self).stroke_width,
            final(self).current_tool == old(self).current_tool,
            final(self).undo_stack@ == old(self).undo_stack@,
            final(self).wf(),
    {
        let crate::state::WhiteboardState { lines, palette } = st;
        self.lines = lines;
        self.palette = ColorPalette::from_colors(palette);
        self.selected_lines.clear();
        self.interaction = Interaction::Idle;
    }

    /// Sets the brush width, clamped into the accepted range.
    pub fn set_stroke_width(&mut self, w: u32)
        requires
            old(self).wf(),
        ensures
            final(self).stroke_width == if w < 1 {
                1u32
            } else if w > WIDTH_LIMIT {
                WIDTH_LIMIT
            } else {
                w
            },
            *final(self) == (WhiteboardApp { stroke_width: final(self).stroke_width, ..*old(self) }),
            final(self).wf(),
    {
        let clamped = if w < 1 {
            1
        } else if w > WIDTH_LIMIT {
            WIDTH_LIMIT
        } else {
            w
        };
        self.stroke_width = clamped;
    }
}

/// The brush-sample relation: only the in-progress line changes, by
/// `append_step`.
pub open spec fn append_applied(pre: WhiteboardApp, post: WhiteboardApp, p: Point) -> bool {
    &&& post.current_line@ == append_step(pre.current_line@, p)
    &&& post == (WhiteboardApp { current_line: post.current_line, ..pre })
}

/// The commit relation: two or more pending points become exactly one new
/// stroke and one `Draw` history entry, fewer are discarded; the pending
/// buffer is always cleared and nothing else changes.
pub open spec fn commit_applied(pre: WhiteboardApp, post: WhiteboardApp) -> bool {
    &&& post.current_line@.len() == 0
    &&& pre.current_line@.len() >= 2 ==> {
        &&& lines_view(post.lines@) == lines_view(pre.lines@).push(pre.pending_line())
        &&& post.undo_stack@ == push_entry(pre.undo_stack@, UndoV::Draw(pre.pending_line()))
        &&& post.lines@.len() == pre.lines@.len() + 1
    }
    &&& pre.current_line@.len() < 2 ==> {
        &&& lines_view(post.lines@) == lines_view(pre.lines@)
        &&& post.undo_stack@ == pre.undo_stack@
        &&& post.lines@.len() == pre.lines@.len()
    }
    &&& post.palette == pre.palette
    &&& post.stroke_width == pre.stroke_width
    &&& post.current_tool == pre.current_tool
    &&& post.selected_lines@ == pre.selected_lines@
    &&& post.interaction@ == pre.interaction@
}

/// The erase relation: the canvas keeps exactly the strokes out of reach,
/// the removed ones are recorded in canvas order, and the selection is
/// cleared when anything was removed.
pub open spec fn erase_applied(pre: WhiteboardApp, post: WhiteboardApp, p: Point) -> bool {
    let r = pre.stroke_width + ERASER_TOLERANCE;
    &&& lines_view(post.lines@) == kept_of(lines_view(pre.lines@), p, r)
    &&& post.undo_stack@ == push_all(
        pre.undo_stack@,
        erase_entries(erased_of(lines_view(pre.lines@), p, r)),
    )
    &&& post.selected_lines@ == if erased_of(lines_view(pre.lines@), p, r).len() > 0 {
        Seq::<usize>::empty()
    } else {
        pre.selected_lines@
    }
    &&& post.current_line@ == pre.current_line@
    &&& post.palette == pre.palette
    &&& post.stroke_width == pre.stroke_width
    &&& post.current_tool == pre.current_tool
    &&& post.interaction@ is Idle
}

/// The undo relation: one `undo_step` on canvas and history; selection and
/// session are cleared.
pub open spec fn undo_applied(pre: WhiteboardApp, post: WhiteboardApp) -> bool {
    &&& lines_view(post.lines@) == undo_step(lines_view(pre.lines@), pre.undo_stack@).0
    &&& post.undo_stack@ == undo_step(lines_view(pre.lines@), pre.undo_stack@).1
    &&& post.selected_lines@ == Seq::<usize>::empty()
    &&& post.interaction@ is Idle
    &&& post.current_line@ == pre.current_line@
    &&& post.palette == pre.palette
    &&& post.stroke_width == pre.stroke_width
    &&& post.current_tool == pre.current_tool
}

/// The delete relation: a non-empty selection is removed as one erase batch
/// in descending-index order; an empty selection changes nothing.
pub open spec fn delete_applied(pre: WhiteboardApp, post: WhiteboardApp) -> bool {
    &&& pre.selected_lines@.len() == 0 ==> post == pre
    &&& pre.selected_lines@.len() > 0 ==> {
        &&& lines_view(post.lines@) == keep_unselected(
            lines_view(pre.lines@),
            pre.selected_lines@,
        )
        &&& post.undo_stack@ == push_all(
            pre.undo_stack@,
            erase_entries(selected_strokes(lines_view(pre.lines@), pre.selected_lines@).reverse()),
        )
        &&& post.selected_lines@ == Seq::<usize>::empty()
        &&& post.interaction@ is Idle
        &&& post.current_line@ == pre.current_line@
        &&& post.palette == pre.palette
        &&& post.stroke_width == pre.stroke_width
        &&& post.current_tool == pre.current_tool
    }
}

/// The tool-switch relation: a change ends any session; entering the
/// selection tool also deselects.
pub open spec fn set_tool_applied(pre: WhiteboardApp, post: WhiteboardApp, tool: Tool) -> bool {
    &&& post.current_tool == tool
    &&& tool == pre.current_tool ==> post == pre
    &&& tool != pre.current_tool ==> {
        &&& post.interaction@ is Idle
        &&& post.selected_lines@ == if tool is Selection {
            Seq::<usize>::empty()
        } else {
            pre.selected_lines@
        }
        &&& post.lines@ == pre.lines@
        &&& post.current_line@ == pre.current_line@
        &&& post.palette == pre.palette
        &&& post.stroke_width == pre.stroke_width
        &&& post.undo_stack@ == pre.undo_stack@
    }
}

/// The clear-canvas relation: all strokes and the selection go, the history
/// stays.
pub open spec fn clear_applied(pre: WhiteboardApp, post: WhiteboardApp) -> bool {
    &&& post.lines@.len() == 0
    &&& post.selected_lines@.len() == 0
    &&& post.interaction@ is Idle
    &&& post.current_line@ == pre.current_line@
    &&& post.palette == pre.palette
    &&& post.stroke_width == pre.stroke_width
    &&& post.current_tool == pre.current_tool
    &&& post.undo_stack@ == pre.undo_stack@
}

/// The palette-shortcut relation: only the active palette slot may change,
/// and only to an index that exists.
pub open spec fn palette_slot_applied(pre: WhiteboardApp, post: WhiteboardApp, i: usize) -> bool {
    &&& post == (WhiteboardApp { palette: post.palette, ..pre })
    &&& post.palette.colors@ == pre.palette.colors@
    &&& i < pre.palette.colors@.len() ==> post.palette.active_color_index == i
    &&& i >= pre.palette.colors@.len() ==> post.palette.active_color_index
        == pre.palette.active_color_index
}

/// The cancel relation: selection and session are dropped, nothing else
/// moves.
pub open spec fn cancel_applied(pre: WhiteboardApp, post: WhiteboardApp) -> bool {
    &&& post.selected_lines@.len() == 0
    &&& post.interaction@ is Idle
    &&& post.lines@ == pre.lines@
    &&& post.current_line@ == pre.current_line@
    &&& post.palette == pre.palette
    &&& post.stroke_width == pre.stroke_width
    &&& post.current_tool == pre.current_tool
    &&& post.undo_stack@ == pre.undo_stack@
}

impl WhiteboardApp {
    /// Routes one pointer event to the active tool: the brush extends and
    /// commits the in-progress line, the eraser erases on press, drag and
    /// click, and the selection tool runs its drag state machine.
    pub fn handle_pointer_event(&mut self, ev: PointerEvent)
        requires
            old(self).wf(),
            crate::selection::valid_event(ev),
        ensures
            old(self).current_tool is Brush ==> match ev {
                PointerEvent::DragStarted(p) => append_applied(*old(self), *final(self), p),
                PointerEvent::Dragged(p) => append_applied(*old(self), *final(self), p),
                PointerEvent::DragStopped => commit_applied(*old(self), *final(self)),
                PointerEvent::Clicked(_) => *final(self) == *old(self),
            },
            old(self).current_tool is Eraser ==> match ev {
                PointerEvent::DragStarted(p) => erase_applied(*old(self), *final(self), p),
                PointerEvent::Dragged(p) => erase_applied(*old(self), *final(self), p),
                PointerEvent::Clicked(p) => erase_applied(*old(self), *final(self), p),
                PointerEvent::DragStopped => *final(self) == *old(self),
            },
            old(self).current_tool is Selection ==> crate::selection::selection_event_applied(
                *old(self),
                *final(self),
                ev,
            ),
            final(self).wf(),
    {
        match self.current_tool {
            Tool::Brush => match ev {
                PointerEvent::DragStarted(p) => self.append_point(p),
                PointerEvent::Dragged(p) => self.append_point(p),
                PointerEvent::DragStopped => self.commit_current_line(),
                PointerEvent::Clicked(_) => {},
            },
            Tool::Eraser => match ev {
                PointerEvent::DragStarted(p) => self.handle_eraser(p),
                PointerEvent::Dragged(p) => self.handle_eraser(p),
                PointerEvent::Clicked(p) => self.handle_eraser(p),
                PointerEvent::DragStopped => {},
            },
            Tool::Selection => self.handle_selection(ev),
        }
    }

    /// Applies one decoded keyboard command.
    pub fn handle_key_command(&mut self, cmd: KeyCommand)
        requires
            old(self).wf(),
        ensures
            match cmd {
                KeyCommand::Undo => undo_applied(*old(self), *final(self)),
                KeyCommand::ClearCanvas => clear_applied(*old(self), *final(self)),
                KeyCommand::SelectTool(t) => set_tool_applied(*old(self), *final(self), t),
                KeyCommand::SelectPaletteSlot(i) => palette_slot_applied(
                    *old(self),
                    *final(self),
                    i,
                ),
                KeyCommand::DeleteSelected => delete_applied(*old(self), *final(self)),
                KeyCommand::CancelSelection => cancel_applied(*old(self), *final(self)),
            },
            final(self).wf(),
    {
        match cmd {
            KeyCommand::Undo => self.undo(),
            KeyCommand::ClearCanvas => self.clear_canvas(),
            KeyCommand::SelectTool(t) => self.set_tool(t),
            KeyCommand::SelectPaletteSlot(i) => self.palette.set_active_color_index(i),
            KeyCommand::DeleteSelected => self.delete_selected(),
            KeyCommand::CancelSelection => {
                self.selected_lines.clear();
                self.interaction = Interaction::Idle;
            },
        }
    }
}

/// One stroke of the render projection with its selection flag.
#[derive(Debug)]
pub struct RenderItem {
    pub line: Line,
    pub selected: bool,
}

/// The mathematical view of a [`RenderItem`].
pub struct RenderItemV {
    pub line: LineV,
    pub selected: bool,
}

impl View for RenderItem {
    type V = RenderItemV;

    open spec fn view(&self) -> RenderItemV {
        RenderItemV { line: self.line@, selected: self.selected }
    }
}

pub open spec fn render_view(v: Seq<RenderItem>) -> Seq<RenderItemV> {
    v.map_values(|it: RenderItem| it@)
}

/// The render projection: every stroke with at least two points, in canvas
/// order, each flagged when its index is selected.
pub open spec fn render_of(lines: Seq<LineV>, sel: Seq<usize>) -> Seq<RenderItemV>
    decreases lines.len(),
{
    if lines.len() == 0 {
        Seq::empty()
    } else if lines.last().points.len() >= 2 {
        render_of(lines.drop_last(), sel).push(
            RenderItemV {
                line: lines.last(),
                selected: sel.contains((lines.len() - 1) as usize),
            },
        )
    } else {
        render_of(lines.drop_last(), sel)
    }
}

impl WhiteboardApp {
    /// The pure projection the shell draws each frame: strokes with fewer
    /// than two points are skipped.
    pub fn render_all(&self) -> (r: Vec<RenderItem>)
        requires
            self.wf(),
        ensures
            render_view(r@) == render_of(lines_view(self.lines@), self.selected_lines@),
    {
        let ghost lsv = lines_view(self.lines@);
        let ghost sel = self.selected_lines@;
        let mut out: Vec<RenderItem> = Vec::new();
        let mut i: usize = 0;
        while i < self.lines.len()
            invariant
                self.wf(),
                lsv == lines_view(self.lines@),
                sel == self.selected_lines@,
                i <= self.lines@.len(),
                render_view(out@) == render_of(lsv.take(i as int), sel),
            decreases self.lines@.len() - i,
        {
            proof {
                assert(lsv.take(i + 1 as int).drop_last() =~= lsv.take(i as int));
                assert(lsv.take(i + 1 as int).last() == lsv[i as int]);
                assert(lsv[i as int] == self.lines@[i as int]@);
            }
            if self.lines[i].points.len() >= 2 {
                let flag = selected_contains(&self.selected_lines, i);
                let ghost prev = out@;
                let item = RenderItem { line: self.lines[i].duplicate(), selected: flag };
                out.push(item);
                proof {
                    assert(render_view(prev.push(item)) =~= render_view(prev).push(item@));
                }
            }
            i = i + 1;
        }
        proof {
            assert(lsv.take(lsv.len() as int) =~= lsv);
        }
        out
    }
}

/// A bounded push of a batch appends the batch and drops just enough of the
/// oldest entries: the result is the concatenation with its overflow cut
/// off the front.
proof fn lemma_push_all_shape(s: Seq<UndoV>, es: Seq<UndoV>)
    requires
        s.len() <= UNDO_CAPACITY as nat,
    ensures
        push_all(s, es) == (s + es).skip(
            if s.len() + es.len() > UNDO_CAPACITY as nat {
                s.len() + es.len() - UNDO_CAPACITY as nat
            } else {
                0
            } as int,
        ),
        push_all(s, es).len() <= UNDO_CAPACITY as nat,
    decreases es.len(),
{
    if es.len() == 0 {
        assert((s + es).skip(0) =~= s);
    } else {
        lemma_push_all_shape(s, es.drop_last());
        let prev = push_all(s, es.drop_last());
        let x: int = if s.len() + es.len() - 1 > UNDO_CAPACITY as nat {
            s.len() + es.len() - 1 - UNDO_CAPACITY as nat
        } else {
            0
        };
        assert(prev == (s + es.drop_last()).skip(x));
        let e = es.last();
        if prev.len() < UNDO_CAPACITY as nat {
            assert(push_entry(prev, e) == prev.push(e));
            assert(prev.push(e) =~= (s + es).skip(x));
        } else {
            assert(push_entry(prev, e) == prev.push(e).drop_first());
            assert(prev.push(e).drop_first() =~= (s + es).skip(x + 1));
        }
    }
}

/// Popping as many entries as a batch that forms the top of the history
/// undoes the whole batch: each popped erase record re-appends its stroke,
/// so the canvas regains the batch in reverse order and the history is left
/// with what lay below the batch.
proof fn lemma_undo_pops_suffix(lines: Seq<LineV>, stack: Seq<UndoV>, batch: Seq<LineV>)
    requires
        stack.len() >= batch.len(),
        stack.skip(stack.len() - batch.len()) == erase_entries(batch),
    ensures
        undo_n(lines, stack, batch.len()).0 == lines + batch.reverse(),
        undo_n(lines, stack, batch.len()).1 == stack.take(stack.len() - batch.len()),
    decreases batch.len(),
{
    if batch.len() == 0 {
        assert(lines + batch.reverse() =~= lines);
        assert(stack.take(stack.len() as int) =~= stack);
    } else {
        let suffix = stack.skip(stack.len() - batch.len());
        assert(suffix.last() == erase_entries(batch).last());
        assert(erase_entries(batch).last() == UndoV::Erase(batch.last()));
        assert(stack.last() == suffix.last());
        let step = undo_step(lines, stack);
        assert(step.0 == lines.push(batch.last()));
        assert(step.1 == stack.drop_last());
        let batch2 = batch.drop_last();
        let m = stack.len() - batch.len();
        assert forall|j: int| 0 <= j < batch.len() implies stack[m + j] == UndoV::Erase(
            #[trigger] batch[j],
        ) by {
            assert(stack.skip(m)[j] == stack[m + j]);
            assert(erase_entries(batch)[j] == UndoV::Erase(batch[j]));
        }
        assert(stack.drop_last().skip(stack.drop_last().len() - batch2.len()) =~= erase_entries(
            batch2,
        ));
        lemma_undo_pops_suffix(lines.push(batch.last()), stack.drop_last(), batch2);
        assert(lines.push(batch.last()) + batch2.reverse() =~= lines + batch.reverse());
        assert(stack.drop_last().take(stack.drop_last().len() - batch2.len()) =~= stack.take(
            stack.len() - batch.len(),
        ));
    }
}

/// Undoing an erase batch of `n` strokes `n` times restores all `n`
/// strokes, appended at the end of the canvas in reverse removal order, and
/// leaves the history as it was below the batch.
pub proof fn lemma_undo_after_erase_batch(lines: Seq<LineV>, stack: Seq<UndoV>, batch: Seq<LineV>)
    requires
        stack.len() <= UNDO_CAPACITY as nat,
        batch.len() <= UNDO_CAPACITY as nat,
    ensures
        undo_n(lines, push_all(stack, erase_entries(batch)), batch.len()).0 == lines
            + batch.reverse(),
    decreases batch.len(),
{
    let es = erase_entries(batch);
    lemma_push_all_shape(stack, es);
    let stack2 = push_all(stack, es);
    let x: int = if stack.len() + es.len() > UNDO_CAPACITY as nat {
        stack.len() + es.len() - UNDO_CAPACITY as nat
    } else {
        0
    };
    assert(stack2 == (stack + es).skip(x));
    assert(stack2.len() == stack.len() + es.len() - x);
    assert(stack2.skip(stack2.len() - batch.len()) =~= es);
    lemma_undo_pops_suffix(lines, stack2, batch);
}

/// Undoing right after a commit removes exactly the committed stroke and
/// restores the canvas that preceded it.
pub proof fn lemma_undo_reverts_draw(lines: Seq<LineV>, stack: Seq<UndoV>, st: LineV)
    requires
        stack.len() <= UNDO_CAPACITY as nat,
    ensures
        undo_step(lines.push(st), push_entry(stack, UndoV::Draw(st))).0 == lines,
{
    let stack2 = push_entry(stack, UndoV::Draw(st));
    assert(stack2.last() == UndoV::Draw(st));
    assert(lines.push(st).drop_last() =~= lines);
}

} // verus!
