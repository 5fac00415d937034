use whiteboard::codec::{deserialize, serialize};
use whiteboard::colors::Color;
use whiteboard::geom::Point;
use whiteboard::state::{Line, WhiteboardState};

fn color(r: u8, g: u8, b: u8, a: u8) -> Color {
    Color { r, g, b, a }
}

fn sample_state() -> WhiteboardState {
    WhiteboardState {
        lines: vec![
            Line {
                points: vec![
                    Point { x: 0, y: 0 },
                    Point { x: 10, y: -3 },
                    Point { x: -100000000, y: 100000000 },
                ],
                color: color(255, 0, 0, 255),
                width: 3,
            },
            Line {
                points: vec![Point { x: 7, y: 8 }, Point { x: 9, y: 10 }],
                color: color(1, 2, 3, 4),
                width: 1000000,
            },
        ],
        palette: vec![color(255, 255, 255, 255), color(0, 0, 255, 255)],
    }
}

fn states_equal(a: &WhiteboardState, b: &WhiteboardState) -> bool {
    if a.lines.len() != b.lines.len() || a.palette != b.palette {
        return false;
    }
    for (la, lb) in a.lines.iter().zip(b.lines.iter()) {
        if la.points != lb.points || la.color != lb.color || la.width != lb.width {
            return false;
        }
    }
    true
}

#[test]
fn round_trip_sample() {
    let st = sample_state();
    let doc = serialize(&st);
    let back = deserialize(&doc).expect("serialized document must parse");
    assert!(states_equal(&st, &back));
}

#[test]
fn round_trip_empty_canvas() {
    let st = WhiteboardState {
        lines: Vec::new(),
        palette: vec![color(255, 255, 255, 255)],
    };
    let doc = serialize(&st);
    let back = deserialize(&doc).expect("empty canvas must round-trip");
    assert!(states_equal(&st, &back));
}

#[test]
fn serialized_bytes_are_the_documented_format() {
    let st = WhiteboardState {
        lines: vec![Line {
            points: vec![Point { x: 1, y: -2 }, Point { x: 3, y: 4 }],
            color: color(9, 8, 7, 6),
            width: 5,
        }],
        palette: vec![color(0, 0, 0, 255)],
    };
    let doc = serialize(&st);
    let expected = "{\"lines\":[{\"points\":[{\"x\":1,\"y\":-2},{\"x\":3,\"y\":4}],\"color\":[9,8,7,6],\"width\":5}],\"palette\":[[0,0,0,255]]}";
    assert_eq!(doc, expected.as_bytes().to_vec());
}

#[test]
fn deserialize_accepts_canonical_text() {
    let doc = b"{\"lines\":[],\"palette\":[[1,2,3,4]]}".to_vec();
    let st = deserialize(&doc).expect("canonical empty document must parse");
    assert_eq!(st.lines.len(), 0);
    assert_eq!(st.palette, vec![color(1, 2, 3, 4)]);
}

#[test]
fn deserialize_rejects_garbage() {
    assert!(deserialize(&Vec::new()).is_err());
    assert!(deserialize(&b"hello".to_vec()).is_err());
    assert!(deserialize(&b"{}".to_vec()).is_err());
    assert!(deserialize(&b"{\"lines\":[]}".to_vec()).is_err());
}

#[test]
fn deserialize_rejects_truncated_document() {
    let st = sample_state();
    let mut doc = serialize(&st);
    doc.pop();
    assert!(deserialize(&doc).is_err());
}

#[test]
fn deserialize_rejects_trailing_bytes() {
    let st = sample_state();
    let mut doc = serialize(&st);
    doc.push(b' ');
    assert!(deserialize(&doc).is_err());
}

#[test]
fn deserialize_rejects_empty_palette() {
    let doc = b"{\"lines\":[],\"palette\":[]}".to_vec();
    assert!(deserialize(&doc).is_err());
}

#[test]
fn deserialize_rejects_out_of_range_values() {
    // Coordinate beyond the canvas range.
    let doc = b"{\"lines\":[{\"points\":[{\"x\":100000001,\"y\":0},{\"x\":0,\"y\":0}],\"color\":[0,0,0,255],\"width\":1}],\"palette\":[[0,0,0,255]]}".to_vec();
    assert!(deserialize(&doc).is_err());
    // Color channel beyond a byte.
    let doc = b"{\"lines\":[],\"palette\":[[256,0,0,255]]}".to_vec();
    assert!(deserialize(&doc).is_err());
    // Width of zero.
    let doc = b"{\"lines\":[{\"points\":[],\"color\":[0,0,0,255],\"width\":0}],\"palette\":[[0,0,0,255]]}".to_vec();
    assert!(deserialize(&doc).is_err());
}

#[test]
fn deserialize_rejects_whitespace_and_leading_zeros() {
    let doc = b"{\"lines\": [],\"palette\":[[1,2,3,4]]}".to_vec();
    assert!(deserialize(&doc).is_err());
    let doc = b"{\"lines\":[],\"palette\":[[01,2,3,4]]}".to_vec();
    assert!(deserialize(&doc).is_err());
    let doc = b"{\"lines\":[{\"points\":[{\"x\":-0,\"y\":0},{\"x\":1,\"y\":1}],\"color\":[0,0,0,255],\"width\":1}],\"palette\":[[1,2,3,4]]}".to_vec();
    assert!(deserialize(&doc).is_err());
}

#[test]
fn short_strokes_round_trip() {
    // Strokes with zero or one point are never committed by the board, but
    // the document format carries them faithfully.
    let st = WhiteboardState {
        lines: vec![
            Line { points: Vec::new(), color: color(1, 1, 1, 1), width: 2 },
            Line { points: vec![Point { x: 5, y: 6 }], color: color(2, 2, 2, 2), width: 4 },
        ],
        palette: vec![color(0, 0, 0, 255)],
    };
    let doc = serialize(&st);
    let back = deserialize(&doc).expect("short strokes must round-trip");
    assert!(states_equal(&st, &back));
}

#[test]
fn negative_coordinates_round_trip() {
    let st = WhiteboardState {
        lines: vec![Line {
            points: vec![Point { x: -1, y: -99999999 }, Point { x: -50, y: 60 }],
            color: color(10, 20, 30, 40),
            width: 17,
        }],
        palette: vec![color(5, 5, 5, 5)],
    };
    let doc = serialize(&st);
    let back = deserialize(&doc).expect("negative coordinates must round-trip");
    assert!(states_equal(&st, &back));
}
