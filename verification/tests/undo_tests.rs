use whiteboard::colors::Color;
use whiteboard::geom::Point;
use whiteboard::state::Line;
use whiteboard::undo::{UndoAction, UndoStack};

fn marked_line(mark: u32) -> Line {
    Line {
        points: vec![Point { x: 0, y: 0 }, Point { x: 1, y: 1 }],
        color: Color { r: 0, g: 0, b: 0, a: 255 },
        width: mark,
    }
}

#[test]
fn history_never_exceeds_capacity() {
    let mut stack = UndoStack::default();
    for i in 0..250u32 {
        stack.add_draw(marked_line(i + 1));
        assert!(stack.stack.len() <= 100);
    }
    assert_eq!(stack.stack.len(), 100);
}

#[test]
fn push_at_capacity_evicts_the_oldest() {
    let mut stack = UndoStack::default();
    for i in 0..100u32 {
        stack.add_draw(marked_line(i + 1));
    }
    assert_eq!(stack.stack.len(), 100);
    // The 101st entry pushes out entry 1; entry 2 becomes the oldest.
    stack.add_draw(marked_line(101));
    assert_eq!(stack.stack.len(), 100);
    match &stack.stack[0] {
        UndoAction::Draw(l) => assert_eq!(l.width, 2),
        UndoAction::Erase(_) => panic!("expected a draw record"),
    }
    match &stack.stack[99] {
        UndoAction::Draw(l) => assert_eq!(l.width, 101),
        UndoAction::Erase(_) => panic!("expected a draw record"),
    }
}

#[test]
fn pop_is_last_in_first_out() {
    let mut stack = UndoStack::default();
    stack.add_draw(marked_line(1));
    stack.add_erase(marked_line(2));
    match stack.pop() {
        Some(UndoAction::Erase(l)) => assert_eq!(l.width, 2),
        _ => panic!("expected the erase record first"),
    }
    match stack.pop() {
        Some(UndoAction::Draw(l)) => assert_eq!(l.width, 1),
        _ => panic!("expected the draw record second"),
    }
    assert!(stack.pop().is_none());
}

#[test]
fn erase_batch_keeps_removal_order() {
    let mut stack = UndoStack::default();
    stack.extend_erase(vec![marked_line(10), marked_line(20), marked_line(30)]);
    assert_eq!(stack.stack.len(), 3);
    for (k, want) in [10u32, 20, 30].iter().enumerate() {
        match &stack.stack[k] {
            UndoAction::Erase(l) => assert_eq!(l.width, *want),
            UndoAction::Draw(_) => panic!("expected erase records"),
        }
    }
}

#[test]
fn erase_batch_evicts_entry_by_entry() {
    let mut stack = UndoStack::default();
    for i in 0..99u32 {
        stack.add_draw(marked_line(i + 1));
    }
    // A batch of three erasures lands entirely, evicting two old entries.
    stack.extend_erase(vec![marked_line(200), marked_line(201), marked_line(202)]);
    assert_eq!(stack.stack.len(), 100);
    match &stack.stack[0] {
        UndoAction::Draw(l) => assert_eq!(l.width, 3),
        UndoAction::Erase(_) => panic!("expected a draw record"),
    }
    match &stack.stack[99] {
        UndoAction::Erase(l) => assert_eq!(l.width, 202),
        UndoAction::Draw(_) => panic!("expected an erase record"),
    }
}
