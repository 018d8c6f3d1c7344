use worldrenderer::vector::{
    grid_indices, polygon_indices, selection_edge, tube_indices, tube_sides, uniform_offset, unpack_color,
    BatchKind, BatchPlace, Draw, Pipeline, VectorRenderer, DEBUG_SLOT, SELECT_EDGE_SLOT, SELECT_FILL_SLOT,
};

#[test]
fn colors_are_unpacked() {
    assert_eq!(unpack_color(0x0102_03ff), [1, 2, 3, 255]);
}

#[test]
fn grids_are_covered_by_two_triangles_to_the_cell() {
    assert_eq!(grid_indices(1, 1), [0, 1, 3, 0, 3, 2]);
    let indices = grid_indices(2, 3);
    assert_eq!(indices.len(), 36);
    assert!(indices.iter().all(|i| *i < 12));
    assert_eq!(&indices[18..24], [4, 5, 9, 4, 9, 8]);
}

#[test]
fn polygons_have_walls_when_extruded() {
    let top = vec![2, 0, 1];
    assert_eq!(polygon_indices(3, &top, false), [2, 0, 1]);
    let walled = polygon_indices(3, &top, true);
    assert_eq!(walled.len(), 3 + 18);
    assert_eq!(&walled[..9], [2, 0, 1, 3, 4, 5, 3, 5, 6]);
    assert!(walled.iter().all(|i| *i < 15));
}

#[test]
fn tubes_are_closed() {
    assert_eq!((tube_sides(1), tube_sides(9), tube_sides(100)), (3, 9, 64));
    let indices = tube_indices(2, 3);
    assert_eq!(&indices[..6], [0, 1, 4, 0, 4, 3]);
    assert_eq!(&indices[12..18], [2, 0, 3, 2, 3, 5]);
    assert_eq!(&indices[18..24], [6, 1, 0, 6, 2, 1]);
    assert_eq!(&indices[27..], [7, 3, 4, 7, 4, 5, 7, 5, 3]);
    assert!(indices.iter().all(|i| *i < 8));
}

#[test]
fn batches_take_slots_in_turn() {
    let mut v = VectorRenderer::new();
    let top = vec![0, 1, 2];
    let polygon = v.add_polygon(3, Some(&top), false).unwrap();
    assert_eq!((polygon.index, polygon.slot), (0, 0));
    let tube = v.add_tube(2, true, 3).unwrap();
    assert_eq!((tube.index, tube.slot), (1, 1));
    assert_eq!(v.add_line(4), Some((2, 2)));
    assert_eq!(v.add_icons(2, 5), Some((3, 3, (0, 0))));
    let marker = v.add_marker();
    assert_eq!((marker.index, marker.slot), (0, 4));
    assert_eq!(v.set_marker(0), Some(4));
    assert_eq!(v.set_marker(1), None);
    assert_eq!(v.totals(), (1, 1, 1, 1, 3 + 8 + 3 * 6 + 2 * 6, 1 + 12 + 3 * 2 + 2 * 2));
    v.clear();
    assert_eq!((v.batches.len(), v.markers.len(), v.next_slot), (0, 1, 0));
    v.clear_markers();
    assert_eq!(v.markers.len(), 0);
}

#[test]
fn what_is_too_small_is_not_added() {
    let mut v = VectorRenderer::new();
    let top = vec![0, 1, 2];
    assert!(v.add_polygon(2, Some(&top), false).is_none());
    assert!(v.add_polygon(3, None, false).is_none());
    assert!(v.add_tube(1, true, 3).is_none());
    assert!(v.add_tube(2, false, 3).is_none());
    assert!(v.add_line(1).is_none());
    assert!(v.add_icons(0, 1).is_none());
    assert_eq!((v.batches.len(), v.next_slot), (0, 0));
}

#[test]
fn slots_come_round_before_those_of_the_selection() {
    let mut v = VectorRenderer::new();
    for _ in 0..SELECT_EDGE_SLOT {
        v.add_line(2);
    }
    assert_eq!(v.next_slot, 0);
    assert!(v.batches.iter().all(|b| b.slot < SELECT_EDGE_SLOT));
    v.set_selection();
    let (fill, edge) = v.selection.unwrap();
    assert_eq!((fill.slot, edge.slot), (SELECT_FILL_SLOT, SELECT_EDGE_SLOT));
    v.clear_selection();
    assert!(v.selection.is_none());
}

#[test]
fn icons_are_cells_of_a_whole_sheet() {
    let mut v = VectorRenderer::new();
    assert!(!v.set_icon_sheet(0, 4, 100, 2, 2));
    assert!(!v.set_icon_sheet(4, 4, 63, 2, 2));
    assert!(!v.icon_sheet_loaded);
    assert!(v.set_icon_sheet(4, 4, 64, 3, 2));
    assert!(v.icon_sheet_loaded);
    assert_eq!(v.icon_cell(4), (1, 1));
    assert_eq!(v.icon_cell(6), (0, 0));
    assert!(v.set_icon_sheet(1, 1, 4, 0, 0));
    assert_eq!(v.icon_cell(9), (0, 0));
}

#[test]
fn debug_lines_are_a_batch_of_their_own() {
    let mut v = VectorRenderer::new();
    v.set_debug_lines(12);
    assert!(v.debug.unwrap().kind == BatchKind::Line { count: 12 });
    v.clear_debug_lines();
    assert!(v.debug.is_none());
}

#[test]
fn every_batch_is_drawn_once_and_the_selection_last() {
    let mut v = VectorRenderer::new();
    assert!(v.draw().is_empty());
    v.add_icons(2, 0);
    v.add_line(4);
    v.add_tube(2, true, 3);
    v.add_marker();
    v.set_debug_lines(7);
    v.set_selection();
    let draws = v.draw();
    let order: Vec<(Pipeline, BatchPlace)> = draws.iter().map(|d| (d.pipeline, d.place)).collect();
    assert_eq!(
        order,
        [
            (Pipeline::Surface, BatchPlace::Shape(2)),
            (Pipeline::Surface, BatchPlace::Marker(0)),
            (Pipeline::Line, BatchPlace::Shape(1)),
            (Pipeline::Line, BatchPlace::Debug),
            (Pipeline::Icon, BatchPlace::Shape(0)),
            (Pipeline::OverlayFill, BatchPlace::SelectFill),
            (Pipeline::OverlayDash, BatchPlace::SelectEdge),
        ]
    );
    assert_eq!(
        draws[2],
        Draw { pipeline: Pipeline::Line, place: BatchPlace::Shape(1), offset: 256, count: 3 }
    );
    assert_eq!(draws[3].offset, uniform_offset(DEBUG_SLOT));
    assert_eq!(draws[3].count, 7);
    assert_eq!(draws[4].count, 2);
}

#[test]
fn uniforms_stand_apart() {
    assert_eq!(uniform_offset(0), 0);
    assert_eq!(uniform_offset(1), 256);
    assert_eq!(uniform_offset(4095), 1_048_320);
}

#[test]
fn the_dashes_go_round_the_selection() {
    assert_eq!(selection_edge(0), (0, 0));
    assert_eq!(selection_edge(11), (11, 0));
    assert_eq!(selection_edge(12), (12, 0));
    assert_eq!(selection_edge(24), (12, 12));
    assert_eq!(selection_edge(35), (1, 12));
    assert_eq!(selection_edge(37), (0, 11));
    assert_eq!(selection_edge(48), selection_edge(0));
}
