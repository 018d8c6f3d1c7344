use worldrenderer::stream::Point;
use worldrenderer::tool::{make, Change, Extent, Frame, Hit, PlaceTool, SelectTool, Tool};
use worldrenderer::vector::VectorRenderer;

fn point(n: u64) -> Point {
    Point { x: n, y: n, z: n }
}

fn hit(n: u64) -> Option<Hit> {
    Some(Hit { position: point(n), radius: n })
}

#[test]
fn tools_have_names() {
    assert!(matches!(make("place"), Some(Tool::Place(_))));
    assert!(matches!(make("select"), Some(Tool::Select(_))));
    assert!(make("Place").is_none());
}

#[test]
fn balls_are_placed_and_dragged() {
    let mut v = VectorRenderer::new();
    let mut t = PlaceTool::new();
    assert!(!t.pointer_down(&mut v, 2, hit(1)).0);
    let (taken, change) = t.pointer_down(&mut v, 0, None);
    assert!(taken && matches!(change, Change::Nothing));
    let (taken, change) = t.pointer_down(&mut v, 0, hit(1));
    assert!(taken && matches!(change, Change::MarkerAdded(_)));
    assert!(t.dragging());
    let (taken, change) = t.pointer_move(&v, hit(5));
    assert!(taken && matches!(change, Change::MarkerMoved { marker: 0, slot: 0 }));
    assert!(t.pointer_up());
    assert!(!t.pointer_up());
    assert!(!t.pointer_move(&v, hit(6)).0);
    t.pointer_down(&mut v, 0, hit(8));
    assert!(t.position() == Some(point(8)));
    assert_eq!(t.positions(), [point(5), point(8)]);
    t.detach(&mut v);
    assert!(t.position() == None);
    assert_eq!(v.markers.len(), 0);
}

#[test]
fn selections_are_dragged_open() {
    let mut v = VectorRenderer::new();
    let mut t = SelectTool::new();
    let frame = Frame { anchor: point(1), right: point(2), forward: point(3), height: 4 };
    assert!(!t.pointer_down(&mut v, 1, Some(frame)).0);
    assert!(!t.pointer_down(&mut v, 0, None).0);
    assert!(!t.pointer_move(&mut v, None).0);
    let (taken, change) = t.pointer_down(&mut v, 0, Some(frame));
    assert!(taken && matches!(change, Change::SelectionCleared));
    let wide = Extent { u: 7, v: 8, shows: true };
    let (taken, change) = t.pointer_move(&mut v, Some(wide));
    assert!(taken && matches!(change, Change::SelectionShown(_)));
    assert!(v.selection.is_some());
    let flat = Extent { u: 0, v: 8, shows: false };
    let (_, change) = t.pointer_move(&mut v, Some(flat));
    assert!(matches!(change, Change::SelectionCleared));
    assert!(v.selection.is_none());
    t.pointer_move(&mut v, Some(wide));
    let (taken, change) = t.pointer_up(&mut v);
    assert!(taken && matches!(change, Change::SelectionShown(_)));
    assert!(!t.pointer_up(&mut v).0);
    t.detach(&mut v);
    assert!(v.selection.is_none());
}
