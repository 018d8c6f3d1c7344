use worldrenderer::tiling::{
    default_sources, fill, imagery_max_zoom, imagery_url, max_tile_zoom, set_imagery_source,
    set_terrain_source, terrain_max_zoom, terrain_source, terrain_url, uv_window, TileKey,
};

fn key(z: u8, x: u32, y: u32) -> TileKey {
    TileKey { z, x, y }
}

#[test]
fn templates_are_filled() {
    let k = key(12, 2047, 0);
    assert_eq!(fill("a/{z}/{y}/{x}?{z}", k), "a/12/0/2047?12");
    assert_eq!(fill("{{z}}{q}", k), "{12}{q}");
    assert_eq!(fill("", k), "");
    assert_eq!(fill("{x", k), "{x");
}

#[test]
fn deep_terrain_is_part_of_the_deepest_image() {
    let s = default_sources();
    let (url, w) = terrain_source(&s, key(17, 70_003, 5));
    assert_eq!(
        url,
        "https://s3.amazonaws.com/elevation-tiles-prod/terrarium/15/17500/1.png"
    );
    assert_eq!((w.span, w.du, w.dv), (4, 3, 1));
}

#[test]
fn shallow_terrain_is_a_whole_image() {
    let s = default_sources();
    let k = key(3, 7, 2);
    let (url, w) = terrain_source(&s, k);
    assert_eq!(url, terrain_url(&s, k));
    assert_eq!((w.span, w.du, w.dv), (1, 0, 0));
    assert!(imagery_url(&s, k).len() > 0);
}

#[test]
fn children_go_back_to_their_parent() {
    let k = key(5, 9, 30);
    let children: Vec<TileKey> = (0..4).map(|i| k.child(i)).collect();
    assert_eq!(children[0], key(6, 18, 60));
    assert_eq!(children[1], key(6, 19, 60));
    assert_eq!(children[2], key(6, 18, 61));
    assert_eq!(children[3], key(6, 19, 61));
    for c in children {
        assert_eq!(c.ancestor(1), k);
        assert_eq!(c.ancestor(0), c);
        assert_eq!(c.ancestor(3), k.ancestor(2));
    }
    assert_eq!(key(17, 70_003, 5).ancestor(17), key(0, 0, 0));
}

#[test]
fn windows_restore_the_tile() {
    let k = key(17, 70_003, 5);
    let w = uv_window(k, 3);
    let a = k.ancestor(3);
    assert_eq!(w.span, 8);
    assert_eq!(a.x * w.span + w.du, k.x);
    assert_eq!(a.y * w.span + w.dv, k.y);
}

#[test]
fn sources_are_replaced_and_their_depth_is_bounded() {
    let mut s = default_sources();
    assert_eq!((terrain_max_zoom(&s), imagery_max_zoom(&s)), (15, 19));
    assert_eq!(max_tile_zoom(&s), 19);
    set_terrain_source(&mut s, "t/{z}", 9);
    assert_eq!(max_tile_zoom(&s), 19);
    set_imagery_source(&mut s, "i/{z}", 40);
    assert_eq!(terrain_max_zoom(&s), 9);
    assert_eq!(imagery_max_zoom(&s), 22);
    assert_eq!(max_tile_zoom(&s), 20);
    assert_eq!(terrain_url(&s, key(4, 1, 1)), "t/4");
    assert_eq!(imagery_url(&s, key(4, 1, 1)), "i/4");
    set_terrain_source(&mut s, "", 30);
    assert_eq!(terrain_max_zoom(&s), 22);
    assert_eq!(terrain_url(&s, key(4, 1, 1)), "");
}

#[test]
fn tiles_have_numbers_of_their_own() {
    let keys = [key(1, 0, 0), key(0, 1, 0), key(0, 0, 1), key(0, 0, 0), key(1, 1, 0)];
    for (i, a) in keys.iter().enumerate() {
        for (j, b) in keys.iter().enumerate() {
            assert_eq!(a.number() == b.number(), i == j);
        }
    }
}

#[test]
fn neighbours_stop_at_the_edges() {
    let k = key(3, 7, 0);
    let around: Vec<Option<TileKey>> = (0..9).map(|i| k.neighbour(i)).collect();
    assert_eq!(around.iter().filter(|n| n.is_some()).count(), 4);
    assert_eq!(around[4], Some(k));
    assert_eq!(around[3], Some(key(3, 6, 0)));
    assert_eq!(around[6], Some(key(3, 6, 1)));
    assert_eq!(around[8], None);
    assert!((0..9).all(|i| key(3, 3, 3).neighbour(i).is_some()));
}
