use whiteboard::board::{KeyCommand, PointerEvent, WhiteboardApp};
use whiteboard::colors::Color;
use whiteboard::geom::Point;
use whiteboard::state::Line;
use whiteboard::tools::Tool;
use whiteboard::undo::UndoAction;

fn pt(x: i32, y: i32) -> Point {
    Point { x, y }
}

fn marked_line(mark: u32, a: Point, b: Point) -> Line {
    Line {
        points: vec![a, b],
        color: Color { r: 0, g: 0, b: 0, a: 255 },
        width: mark,
    }
}

#[test]
fn commit_with_one_point_is_discarded() {
    let mut app = WhiteboardApp::default();
    app.append_point(pt(3, 4));
    app.commit_current_line();
    assert_eq!(app.lines.len(), 0);
    assert_eq!(app.undo_stack.stack.len(), 0);
    assert_eq!(app.current_line.len(), 0);
}

#[test]
fn commit_with_two_points_makes_one_stroke_and_one_draw_record() {
    let mut app = WhiteboardApp::default();
    app.append_point(pt(0, 0));
    app.append_point(pt(5, 5));
    app.append_point(pt(9, 2));
    app.commit_current_line();
    assert_eq!(app.lines.len(), 1);
    assert_eq!(app.lines[0].points, vec![pt(0, 0), pt(5, 5), pt(9, 2)]);
    assert_eq!(app.lines[0].width, 3);
    assert_eq!(app.lines[0].color, Color { r: 255, g: 255, b: 255, a: 255 });
    assert_eq!(app.undo_stack.stack.len(), 1);
    assert!(matches!(app.undo_stack.stack[0], UndoAction::Draw(_)));
    assert_eq!(app.current_line.len(), 0);
}

#[test]
fn append_point_suppresses_duplicate_samples() {
    let mut app = WhiteboardApp::default();
    app.append_point(pt(1, 1));
    app.append_point(pt(1, 1));
    app.append_point(pt(2, 2));
    app.append_point(pt(2, 2));
    assert_eq!(app.current_line, vec![pt(1, 1), pt(2, 2)]);
}

#[test]
fn undo_after_draw_removes_the_last_stroke() {
    let mut app = WhiteboardApp::default();
    app.append_point(pt(0, 0));
    app.append_point(pt(10, 0));
    app.commit_current_line();
    assert_eq!(app.lines.len(), 1);
    app.undo();
    assert_eq!(app.lines.len(), 0);
    assert_eq!(app.undo_stack.stack.len(), 0);
    // Another undo on an empty history is silently ignored.
    app.undo();
    assert_eq!(app.lines.len(), 0);
}

#[test]
fn eraser_removes_stroke_within_reach() {
    let mut app = WhiteboardApp::default();
    // Default width 3 gives an erase reach of 8.
    app.lines.push(marked_line(1, pt(0, 0), pt(10, 0)));
    app.lines.push(marked_line(2, pt(1000, 1000), pt(1010, 1000)));
    app.handle_eraser(pt(5, 1));
    assert_eq!(app.lines.len(), 1);
    assert_eq!(app.lines[0].width, 2);
    assert_eq!(app.undo_stack.stack.len(), 1);
    assert!(matches!(app.undo_stack.stack[0], UndoAction::Erase(_)));
}

#[test]
fn eraser_keeps_strokes_out_of_reach() {
    let mut app = WhiteboardApp::default();
    // Distance from (5,9) to the segment is 9, just beyond the reach of 8.
    app.lines.push(marked_line(1, pt(0, 0), pt(10, 0)));
    app.handle_eraser(pt(5, 9));
    assert_eq!(app.lines.len(), 1);
    assert_eq!(app.undo_stack.stack.len(), 0);
    // At distance 8 the stroke is within reach.
    app.handle_eraser(pt(5, 8));
    assert_eq!(app.lines.len(), 0);
}

#[test]
fn undo_restores_erase_batch_at_the_end() {
    let mut app = WhiteboardApp::default();
    app.lines.push(marked_line(1, pt(0, 0), pt(10, 0)));
    app.lines.push(marked_line(2, pt(0, 2), pt(10, 2)));
    app.handle_eraser(pt(5, 1));
    assert_eq!(app.lines.len(), 0);
    assert_eq!(app.undo_stack.stack.len(), 2);
    app.undo();
    app.undo();
    // Both strokes return, in reverse removal order at the end of the list.
    assert_eq!(app.lines.len(), 2);
    assert_eq!(app.lines[0].width, 2);
    assert_eq!(app.lines[1].width, 1);
}

#[test]
fn delete_selected_removes_exactly_the_selected_indices() {
    let mut app = WhiteboardApp::default();
    for mark in 1..=5u32 {
        let base = mark as i32 * 100;
        app.lines.push(marked_line(mark, pt(base, 0), pt(base + 10, 0)));
    }
    app.selected_lines = vec![1, 3, 4];
    app.handle_key_command(KeyCommand::DeleteSelected);
    // Strokes originally at indices 0 and 2 remain, order preserved.
    assert_eq!(app.lines.len(), 2);
    assert_eq!(app.lines[0].width, 1);
    assert_eq!(app.lines[1].width, 3);
    assert!(app.selected_lines.is_empty());
    // The erase batch holds all three, in descending index order.
    assert_eq!(app.undo_stack.stack.len(), 3);
    let marks: Vec<u32> = app
        .undo_stack
        .stack
        .iter()
        .map(|a| match a {
            UndoAction::Erase(l) => l.width,
            UndoAction::Draw(_) => panic!("expected erase records"),
        })
        .collect();
    assert_eq!(marks, vec![5, 4, 2]);
}

#[test]
fn delete_with_empty_selection_is_ignored() {
    let mut app = WhiteboardApp::default();
    app.lines.push(marked_line(1, pt(0, 0), pt(10, 0)));
    app.handle_key_command(KeyCommand::DeleteSelected);
    assert_eq!(app.lines.len(), 1);
    assert_eq!(app.undo_stack.stack.len(), 0);
}

#[test]
fn clear_canvas_keeps_the_history() {
    let mut app = WhiteboardApp::default();
    app.append_point(pt(0, 0));
    app.append_point(pt(10, 0));
    app.commit_current_line();
    app.handle_key_command(KeyCommand::ClearCanvas);
    assert_eq!(app.lines.len(), 0);
    assert_eq!(app.undo_stack.stack.len(), 1);
}

#[test]
fn switching_to_selection_tool_starts_unselected() {
    let mut app = WhiteboardApp::default();
    app.lines.push(marked_line(1, pt(0, 0), pt(10, 0)));
    app.selected_lines = vec![0];
    app.handle_key_command(KeyCommand::SelectTool(Tool::Selection));
    assert_eq!(app.current_tool, Tool::Selection);
    assert!(app.selected_lines.is_empty());
    // Switching between brush and eraser keeps the selection.
    app.selected_lines = vec![0];
    app.handle_key_command(KeyCommand::SelectTool(Tool::Eraser));
    assert_eq!(app.selected_lines, vec![0]);
}

#[test]
fn palette_shortcut_ignores_out_of_range_slots() {
    let mut app = WhiteboardApp::default();
    app.handle_key_command(KeyCommand::SelectPaletteSlot(4));
    assert_eq!(app.palette.active_color_index, 4);
    app.handle_key_command(KeyCommand::SelectPaletteSlot(9));
    assert_eq!(app.palette.active_color_index, 4);
}

#[test]
fn palette_recolor_and_add() {
    let mut app = WhiteboardApp::default();
    app.palette.set_color_at(2, Color { r: 9, g: 9, b: 9, a: 9 });
    assert_eq!(app.palette.colors[2], Color { r: 9, g: 9, b: 9, a: 9 });
    app.palette.set_active_color_index(2);
    app.palette.add_color();
    assert_eq!(app.palette.colors.len(), 6);
    assert_eq!(app.palette.colors[5], Color { r: 9, g: 9, b: 9, a: 9 });
    assert_eq!(app.palette.active_color_index, 5);
    assert_eq!(app.palette.get_current_color(), Color { r: 9, g: 9, b: 9, a: 9 });
}

#[test]
fn stroke_width_is_clamped() {
    let mut app = WhiteboardApp::default();
    app.set_stroke_width(0);
    assert_eq!(app.stroke_width, 1);
    app.set_stroke_width(20);
    assert_eq!(app.stroke_width, 20);
    app.set_stroke_width(2_000_000);
    assert_eq!(app.stroke_width, 1_000_000);
}

#[test]
fn render_skips_strokes_with_fewer_than_two_points() {
    let mut app = WhiteboardApp::default();
    app.lines.push(Line {
        points: vec![pt(1, 1)],
        color: Color { r: 0, g: 0, b: 0, a: 255 },
        width: 7,
    });
    app.lines.push(marked_line(2, pt(0, 0), pt(10, 0)));
    app.selected_lines = vec![1];
    let items = app.render_all();
    assert_eq!(items.len(), 1);
    assert_eq!(items[0].line.width, 2);
    assert!(items[0].selected);
}

#[test]
fn brush_pointer_events_draw_a_stroke() {
    let mut app = WhiteboardApp::default();
    app.handle_pointer_event(PointerEvent::DragStarted(pt(0, 0)));
    app.handle_pointer_event(PointerEvent::Dragged(pt(4, 4)));
    app.handle_pointer_event(PointerEvent::Dragged(pt(8, 8)));
    app.handle_pointer_event(PointerEvent::DragStopped);
    assert_eq!(app.lines.len(), 1);
    assert_eq!(app.lines[0].points, vec![pt(0, 0), pt(4, 4), pt(8, 8)]);
    assert_eq!(app.undo_stack.stack.len(), 1);
}

#[test]
fn eraser_pointer_click_erases() {
    let mut app = WhiteboardApp::default();
    app.lines.push(marked_line(1, pt(0, 0), pt(10, 0)));
    app.handle_key_command(KeyCommand::SelectTool(Tool::Eraser));
    app.handle_pointer_event(PointerEvent::Clicked(pt(5, 1)));
    assert_eq!(app.lines.len(), 0);
}
