use worldrenderer::stream::JobKind;
use worldrenderer::terrain_mesh::{
    build_indices, cell_vertices, coarse_parents, keeps_height, perimeter_cell, skirt_source,
    vertex_uv, Heightmap, CORE_VERTS, SKIRT_VERTS, TOTAL_INDICES, TOTAL_VERTS,
};
use worldrenderer::worker::{
    ended, order, start_imagery, start_terrain, Fetches, HeightCache, Order, Start, Sweeper,
};

fn map(n: i32) -> Heightmap {
    Heightmap { w: 1, h: 1, data: vec![n] }
}

#[test]
fn cancelling_aborts_what_is_older() {
    let mut f = Fetches::new();
    let a = f.register(0);
    let b = f.register(1);
    let c = f.register(2);
    assert_eq!((a, b, c), (0, 1, 2));
    f.unregister(a);
    let aborted: Vec<u32> = f.cancel(2).iter().map(|x| x.id).collect();
    assert_eq!(aborted, [b]);
    assert_eq!(f.pending.len(), 1);
    assert!(f.stale(1) && !f.stale(2));
    assert!(ended(&f, 1) && !ended(&f, 2));
    assert!(start_imagery(&f, 1) == Start::Cancelled);
    assert!(start_imagery(&f, 2) == Start::Fetch);
}

#[test]
fn the_oldest_heights_make_room() {
    let mut c = HeightCache::new();
    let f = Fetches::new();
    for n in 0..24 {
        assert_eq!(c.store(&format!("u{}", n), map(n)), n as usize);
    }
    assert_eq!(c.find("u0"), Some(0));
    assert!(start_terrain(&f, &c, "u3", 0) == Start::AtHand(3));
    assert_eq!(c.store("u24", map(24)), 23);
    assert_eq!(c.find("u0"), None);
    assert_eq!(c.get(c.find("u24").unwrap()).data, [24]);
    assert!(start_terrain(&f, &c, "u0", 0) == Start::Fetch);
    assert_eq!(c.store("u5", map(55)), 23);
    assert!(start_terrain(&f, &c, "u5", 0) == Start::AtHand(3));
    assert_eq!(c.get(3).data, [5]);
}

#[test]
fn the_cache_is_swept_now_and_then() {
    let mut s = Sweeper::new();
    for _ in 0..63 {
        assert!(!s.put());
    }
    assert!(s.put());
    for _ in 0..64 {
        assert!(!s.put());
    }
    s.swept();
    for _ in 0..63 {
        assert!(!s.put());
    }
    assert!(s.put());
}

#[test]
fn orders_have_words() {
    assert!(order("cachelimit") == Order::CacheLimit);
    assert!(order("cancel") == Order::Cancel);
    for kind in [JobKind::Terrain, JobKind::Imagery, JobKind::Model, JobKind::Icon] {
        assert!(order(kind.tag()) == Order::Job(kind));
    }
    assert!(order("") == Order::Unknown);
}

#[test]
fn meshes_are_a_grid_with_a_skirt() {
    let indices = build_indices();
    assert_eq!(indices.len(), TOTAL_INDICES as usize);
    assert!(indices.iter().all(|i| (*i as u32) < TOTAL_VERTS));
    assert_eq!(&indices[..6], [0, 33, 1, 1, 33, 34]);
    let (a, b, c, d) = cell_vertices(31, 31);
    assert_eq!((a, b, c, d), (1054, 1055, 1087, 1088));
    assert_eq!(d as u32, CORE_VERTS - 1);
}

#[test]
fn the_border_goes_round() {
    assert_eq!(perimeter_cell(0), (0, 0));
    assert_eq!(perimeter_cell(33), (32, 1));
    assert_eq!(perimeter_cell(64), (32, 32));
    assert_eq!(perimeter_cell(127), (0, 1));
    let mut cells: Vec<(u32, u32)> = (0..SKIRT_VERTS).map(perimeter_cell).collect();
    cells.sort();
    cells.dedup();
    assert_eq!(cells.len(), 128);
    assert_eq!(skirt_source(33), 33 + 32);
}

#[test]
fn coarse_vertices_stay() {
    assert_eq!(coarse_parents(4, 6), (202, 202, 202, 202));
    assert_eq!(coarse_parents(5, 6), (202, 204, 202, 204));
    assert_eq!(coarse_parents(5, 7), (202, 204, 268, 270));
    assert!(keeps_height(4, 6) && !keeps_height(5, 6));
    assert_eq!((vertex_uv(0), vertex_uv(16), vertex_uv(32)), (0, 32767, 65535));
}

#[test]
fn heights_are_clamped_at_the_edge() {
    let m = Heightmap { w: 2, h: 2, data: vec![1, 2, 3, 4] };
    assert_eq!(m.corners(0, 0), (1, 2, 3, 4));
    assert_eq!(m.corners(1, 1), (4, 4, 4, 4));
    assert_eq!(m.corners(1, 0), (2, 2, 4, 4));
}
