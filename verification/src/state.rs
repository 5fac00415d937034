//! The stroke type, the persisted snapshot of a board, and their
//! mathematical views.

use vstd::prelude::*;

use crate::colors::Color;
use crate::geom::{valid_point, Point, WIDTH_LIMIT};

verus! {

/// A committed freehand stroke: its points in drawing order, its color, and
/// its width in canvas units.
#[derive(Debug)]
pub struct Line {
    pub points: Vec<Point>,
    pub color: Color,
    pub width: u32,
}

/// The mathematical view of a [`Line`].
pub struct LineV {
    pub points: Seq<Point>,
    pub color: Color,
    pub width: u32,
}

impl View for Line {
    type V = LineV;

    open spec fn view(&self) -> LineV {
        LineV { points: self.points@, color: self.color, width: self.width }
    }
}

impl LineV {
    /// Every point within the canvas range and a positive, bounded width.
    pub open spec fn wf(self) -> bool {
        (forall|k: int| 0 <= k < self.points.len() ==> valid_point(#[trigger] self.points[k]))
            && 1 <= self.width <= WIDTH_LIMIT
    }
}

/// The view of a whole stroke list.
pub open spec fn lines_view(v: Seq<Line>) -> Seq<LineV> {
    v.map_values(|l: Line| l@)
}

pub open spec fn wf_lines(v: Seq<LineV>) -> bool {
    forall|k: int| 0 <= k < v.len() ==> (#[trigger] v[k]).wf()
}

/// Copies a point vector element by element.
pub fn copy_points(ps: &Vec<Point>) -> (r: Vec<Point>)
    ensures
        r@ == ps@,
{
    let mut out: Vec<Point> = Vec::new();
    let mut i: usize = 0;
    while i < ps.len()
        invariant
            i <= ps@.len(),
            out@ == ps@.take(i as int),
        decreases ps@.len() - i,
    {
        out.push(ps[i]);
        proof {
            assert(ps@.take(i + 1 as int) =~= ps@.take(i as int).push(ps@[i as int]));
        }
        i = i + 1;
    }
    proof {
        assert(ps@.take(ps@.len() as int) =~= ps@);
    }
    out
}

impl Line {
    /// A deep copy whose view equals this stroke's view.
    pub fn duplicate(&self) -> (r: Line)
        ensures
            r@ == self@,
    {
        Line { points: copy_points(&self.points), color: self.color, width: self.width }
    }
}

/// Mapping to views commutes with appending a stroke.
pub proof fn lemma_lines_view_push(s: Seq<Line>, l: Line)
    ensures
        lines_view(s.push(l)) == lines_view(s).push(l@),
{
    assert(lines_view(s.push(l)) =~= lines_view(s).push(l@));
}

/// Copies a stroke vector element by element.
pub fn copy_lines(ls: &Vec<Line>) -> (r: Vec<Line>)
    ensures
        lines_view(r@) == lines_view(ls@),
{
    let mut out: Vec<Line> = Vec::new();
    let mut i: usize = 0;
    while i < ls.len()
        invariant
            i <= ls@.len(),
            lines_view(out@) == lines_view(ls@).take(i as int),
        decreases ls@.len() - i,
    {
        let ghost prev = out@;
        let dup = ls[i].duplicate();
        out.push(dup);
        proof {
            lemma_lines_view_push(prev, dup);
            assert(lines_view(ls@).take(i + 1 as int) =~= lines_view(ls@).take(i as int).push(
                ls@[i as int]@,
            ));
        }
        i = i + 1;
    }
    proof {
        assert(lines_view(ls@).take(ls@.len() as int) =~= lines_view(ls@));
    }
    out
}

/// Everything a whiteboard document persists: the committed strokes and the
/// palette colors.
pub struct WhiteboardState {
    pub lines: Vec<Line>,
    pub palette: Vec<Color>,
}

/// The mathematical view of a [`WhiteboardState`].
pub struct StateV {
    pub lines: Seq<LineV>,
    pub palette: Seq<Color>,
}

impl View for WhiteboardState {
    type V = StateV;

    open spec fn view(&self) -> StateV {
        StateV { lines: lines_view(self.lines@), palette: self.palette@ }
    }
}

impl StateV {
    /// Every stroke well-formed and at least one palette color.
    pub open spec fn wf(self) -> bool {
        wf_lines(self.lines) && self.palette.len() >= 1
    }
}

impl WhiteboardState {
    pub open spec fn wf(self) -> bool {
        self@.wf()
    }

    /// Snapshots a board for persistence: its committed strokes and its
    /// palette colors.
    pub fn new(app: &crate::board::WhiteboardApp) -> (s: WhiteboardState)
        requires
            app.wf(),
        ensures
            s@.lines == lines_view(app.lines@),
            s@.palette == app.palette.colors@,
            s.wf(),
    {
        WhiteboardState {
            lines: copy_lines(&app.lines),
            palette: crate::colors::copy_colors(app.palette.get_palette_vec()),
        }
    }
}

} // verus!
