use whiteboard::board::{CursorHint, KeyCommand, PointerEvent, WhiteboardApp};
use whiteboard::colors::Color;
use whiteboard::geom::Point;
use whiteboard::state::Line;
use whiteboard::tools::Tool;

fn pt(x: i32, y: i32) -> Point {
    Point { x, y }
}

fn stroke(points: Vec<Point>) -> Line {
    Line { points, color: Color { r: 0, g: 0, b: 0, a: 255 }, width: 3 }
}

fn selection_app(strokes: Vec<Line>) -> WhiteboardApp {
    let mut app = WhiteboardApp::default();
    app.lines = strokes;
    app.handle_key_command(KeyCommand::SelectTool(Tool::Selection));
    app
}

fn marquee(app: &mut WhiteboardApp, from: Point, to: Point) {
    app.handle_pointer_event(PointerEvent::DragStarted(from));
    app.handle_pointer_event(PointerEvent::Dragged(to));
    app.handle_pointer_event(PointerEvent::DragStopped);
}

#[test]
fn marquee_selects_intersecting_strokes() {
    let mut app = selection_app(vec![
        stroke(vec![pt(10, 10), pt(20, 20)]),
        stroke(vec![pt(90, 90), pt(150, 150)]),
        stroke(vec![pt(200, 200), pt(210, 210)]),
    ]);
    marquee(&mut app, pt(0, 0), pt(100, 100));
    // The fully contained stroke and the partially overlapping one are
    // selected; the stroke outside is not.
    assert_eq!(app.selected_lines, vec![0, 1]);
}

#[test]
fn click_outside_selection_deselects() {
    let mut app = selection_app(vec![stroke(vec![pt(10, 10), pt(20, 20)])]);
    marquee(&mut app, pt(0, 0), pt(50, 50));
    assert_eq!(app.selected_lines, vec![0]);
    // A click inside the expanded box keeps the selection.
    app.handle_pointer_event(PointerEvent::Clicked(pt(15, 15)));
    assert_eq!(app.selected_lines, vec![0]);
    // A click far away clears it.
    app.handle_pointer_event(PointerEvent::Clicked(pt(500, 500)));
    assert!(app.selected_lines.is_empty());
}

#[test]
fn moving_a_selection_translates_every_point() {
    let mut app = selection_app(vec![
        stroke(vec![pt(10, 10), pt(20, 20)]),
        stroke(vec![pt(300, 300), pt(310, 310)]),
    ]);
    marquee(&mut app, pt(5, 5), pt(25, 25));
    assert_eq!(app.selected_lines, vec![0]);
    // Bounding box (10,10)-(20,20), expanded by 5; (15,15) hits no corner
    // handle, so the drag moves the selection.
    app.handle_pointer_event(PointerEvent::DragStarted(pt(15, 15)));
    app.handle_pointer_event(PointerEvent::Dragged(pt(18, 16)));
    app.handle_pointer_event(PointerEvent::DragStopped);
    assert_eq!(app.lines[0].points, vec![pt(13, 11), pt(23, 21)]);
    // The unselected stroke is untouched.
    assert_eq!(app.lines[1].points, vec![pt(300, 300), pt(310, 310)]);
    // The selection survives the move.
    assert_eq!(app.selected_lines, vec![0]);
}

#[test]
fn resize_doubles_one_axis_and_keeps_the_other() {
    let mut app = selection_app(vec![stroke(vec![pt(0, 0), pt(5, 5), pt(10, 10)])]);
    marquee(&mut app, pt(-2, -2), pt(12, 12));
    assert_eq!(app.selected_lines, vec![0]);
    // Bounding box (0,0)-(10,10); expanded (-5,-5)-(15,15); the
    // bottom-right handle covers (10,10)-(20,20).
    app.handle_pointer_event(PointerEvent::DragStarted(pt(15, 15)));
    // Dragging to (25,15) puts the new box at (0,0)-(20,10): the x span
    // doubles, the y span is unchanged.
    app.handle_pointer_event(PointerEvent::Dragged(pt(25, 15)));
    app.handle_pointer_event(PointerEvent::DragStopped);
    assert_eq!(app.lines[0].points, vec![pt(0, 0), pt(10, 5), pt(20, 10)]);
}

#[test]
fn resize_recomputes_from_the_snapshot_each_sample() {
    let mut app = selection_app(vec![stroke(vec![pt(0, 0), pt(10, 10)])]);
    marquee(&mut app, pt(-2, -2), pt(12, 12));
    app.handle_pointer_event(PointerEvent::DragStarted(pt(15, 15)));
    // Two drag samples; the second one alone determines the result.
    app.handle_pointer_event(PointerEvent::Dragged(pt(65, 65)));
    app.handle_pointer_event(PointerEvent::Dragged(pt(35, 35)));
    app.handle_pointer_event(PointerEvent::DragStopped);
    assert_eq!(app.lines[0].points, vec![pt(0, 0), pt(30, 30)]);
}

#[test]
fn degenerate_axis_keeps_offsets() {
    let mut app = selection_app(vec![stroke(vec![pt(0, 0), pt(10, 0)])]);
    marquee(&mut app, pt(-2, -2), pt(12, 2));
    // Bounding box (0,0)-(10,0): the y span is zero.
    app.handle_pointer_event(PointerEvent::DragStarted(pt(15, 5)));
    app.handle_pointer_event(PointerEvent::Dragged(pt(25, 8)));
    app.handle_pointer_event(PointerEvent::DragStopped);
    // x doubles; the degenerate y axis keeps each point's offset from the
    // anchored minimum corner, which stays at 0.
    assert_eq!(app.lines[0].points, vec![pt(0, 0), pt(20, 0)]);
}

#[test]
fn escape_cancels_selection_and_session() {
    let mut app = selection_app(vec![stroke(vec![pt(10, 10), pt(20, 20)])]);
    marquee(&mut app, pt(0, 0), pt(50, 50));
    assert_eq!(app.selected_lines, vec![0]);
    app.handle_key_command(KeyCommand::CancelSelection);
    assert!(app.selected_lines.is_empty());
}

#[test]
fn marquee_on_empty_space_clears_selection() {
    let mut app = selection_app(vec![stroke(vec![pt(10, 10), pt(20, 20)])]);
    marquee(&mut app, pt(0, 0), pt(50, 50));
    assert_eq!(app.selected_lines, vec![0]);
    marquee(&mut app, pt(600, 600), pt(700, 700));
    assert!(app.selected_lines.is_empty());
}

#[test]
fn cursor_hints_follow_the_hover_position() {
    let mut app = selection_app(vec![stroke(vec![pt(0, 0), pt(10, 10)])]);
    marquee(&mut app, pt(-2, -2), pt(12, 12));
    // Expanded box (-5,-5)-(15,15).
    assert_eq!(app.cursor_hint(Some(pt(15, 15))), CursorHint::ResizeNwSe);
    assert_eq!(app.cursor_hint(Some(pt(-5, -5))), CursorHint::ResizeNwSe);
    assert_eq!(app.cursor_hint(Some(pt(15, -5))), CursorHint::ResizeNeSw);
    assert_eq!(app.cursor_hint(Some(pt(-5, 15))), CursorHint::ResizeNeSw);
    assert_eq!(app.cursor_hint(Some(pt(5, 5))), CursorHint::Grab);
    assert_eq!(app.cursor_hint(Some(pt(100, 100))), CursorHint::Arrow);
    assert_eq!(app.cursor_hint(None), CursorHint::Arrow);
    app.handle_key_command(KeyCommand::SelectTool(Tool::Brush));
    assert_eq!(app.cursor_hint(Some(pt(5, 5))), CursorHint::Arrow);
}

#[test]
fn cursor_hints_during_active_sessions() {
    let mut app = selection_app(vec![stroke(vec![pt(0, 0), pt(10, 10)])]);
    marquee(&mut app, pt(-2, -2), pt(12, 12));
    // During a resize from the bottom-right corner the diagonal hint holds
    // wherever the pointer is.
    app.handle_pointer_event(PointerEvent::DragStarted(pt(15, 15)));
    assert_eq!(app.cursor_hint(Some(pt(500, 500))), CursorHint::ResizeNwSe);
    app.handle_pointer_event(PointerEvent::DragStopped);
    // During a move the grab hint holds.
    app.handle_pointer_event(PointerEvent::DragStarted(pt(5, 5)));
    assert_eq!(app.cursor_hint(Some(pt(500, 500))), CursorHint::Grab);
    app.handle_pointer_event(PointerEvent::DragStopped);
}

#[test]
fn eraser_clears_the_selection_when_it_removes() {
    let mut app = selection_app(vec![
        stroke(vec![pt(10, 10), pt(20, 20)]),
        stroke(vec![pt(400, 400), pt(410, 410)]),
    ]);
    marquee(&mut app, pt(0, 0), pt(500, 500));
    assert_eq!(app.selected_lines, vec![0, 1]);
    app.handle_key_command(KeyCommand::SelectTool(Tool::Eraser));
    app.handle_pointer_event(PointerEvent::Clicked(pt(15, 15)));
    assert_eq!(app.lines.len(), 1);
    assert!(app.selected_lines.is_empty());
}

#[test]
fn loading_a_document_clears_the_selection() {
    let mut app = selection_app(vec![stroke(vec![pt(10, 10), pt(20, 20)])]);
    marquee(&mut app, pt(0, 0), pt(50, 50));
    assert_eq!(app.selected_lines, vec![0]);
    let snapshot = whiteboard::state::WhiteboardState::new(&app);
    let doc = whiteboard::codec::serialize(&snapshot);
    let loaded = whiteboard::codec::deserialize(&doc).expect("own document must load");
    app.load_state(loaded);
    assert!(app.selected_lines.is_empty());
    assert_eq!(app.lines.len(), 1);
}

#[test]
fn save_and_load_round_trip_through_the_codec() {
    let mut app = WhiteboardApp::default();
    app.append_point(pt(1, 2));
    app.append_point(pt(30, 40));
    app.commit_current_line();
    let snapshot = whiteboard::state::WhiteboardState::new(&app);
    let doc = whiteboard::codec::serialize(&snapshot);
    let loaded = whiteboard::codec::deserialize(&doc).expect("own document must load");
    let mut other = WhiteboardApp::default();
    other.load_state(loaded);
    assert_eq!(other.lines.len(), 1);
    assert_eq!(other.lines[0].points, vec![pt(1, 2), pt(30, 40)]);
    assert_eq!(other.palette.colors, app.palette.colors);
    assert_eq!(other.palette.active_color_index, 0);
}
