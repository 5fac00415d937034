//! Core of a desktop whiteboard: freehand strokes on a canvas, an eraser,
//! marquee selection with move and corner-handle resize, a bounded undo
//! history, and a textual document codec.
//!
//! The canvas lives in an integer coordinate space: every point is a pair of
//! `i32` canvas units bounded by [`geom::COORD_LIMIT`], which keeps all of the
//! geometric arithmetic exact. A GUI shell around this crate converts pointer
//! positions into canvas units, forwards pointer and key events to
//! [`board::WhiteboardApp`], and draws what [`board::WhiteboardApp::render_all`]
//! and the selection queries report.

pub mod board;
pub mod codec;
pub mod colors;
pub mod geom;
pub mod selection;
pub mod state;
pub mod tools;
pub mod undo;
