//! What holds of a frame: which tiles are drawn in it, with which images, and what is
//! asked for while it is put together.
#[allow(unused_imports)]
use crate::quadtree::{
    bearable, block_asked, drawn_at, drawn_tile, focus_asked, found, fresh_frame, image_level,
    imagery_asked, imagery_request, imagery_wanted, lemma_drawn_levels, lemma_image_level_nearest,
    level_fits, looked_at, looked_at_all, mesh_asked, mesh_request, mesh_wanted, quarters_asked,
    quarters_ready, resolved, roomy, root_tiles, seen_tile, selecting, split_up, starved, tint_of,
    wants_quarters, DrawnTile, Outlook, Pass, Shading, Sight, Texture, Tint, TreeView,
    MAX_DRAWN_TILES, MAX_RETRIES,
};
#[allow(unused_imports)]
use crate::stream::{
    focus_rank, is_active, is_queued, one_more, requested, seen_rank, JobKind, PoolView,
    RequestView,
};
#[allow(unused_imports)]
use crate::tiles::{Tile, TileMap};
#[allow(unused_imports)]
use crate::tiling::{
    ancestor_of, child_of, lemma_window_restores_tile, neighbour_of, terrain_levels, tile_url,
    Sources, TileKey, UvWindow,
};
#[allow(unused_imports)]
use vstd::arithmetic::power2::pow2;
use vstd::prelude::*;

verus! {

/// Whether `b` knows of every tile what `a` knows of it, but for when it was used and drawn
/// and how it changes.
#[verifier::opaque]
pub open spec fn same_stock(a: TileMap, b: TileMap) -> bool {
    forall|k: TileKey|
        #![trigger b.get(k)]
        b.get(k) == (Tile {
            last_used: b.get(k).last_used,
            last_drawn: b.get(k).last_drawn,
            unfold_at: b.get(k).unfold_at,
            merge_at: b.get(k).merge_at,
            split: b.get(k).split,
            ..a.get(k)
        })
}

proof fn lemma_stock_of(a: TileMap, b: TileMap, k: TileKey)
    requires
        same_stock(a, b),
    ensures
        b.get(k).mesh == a.get(k).mesh,
        b.get(k).imagery == a.get(k).imagery,
        b.get(k).mesh_inbound == a.get(k).mesh_inbound,
        b.get(k).imagery_inbound == a.get(k).imagery_inbound,
        b.get(k).mesh_fails == a.get(k).mesh_fails,
        b.get(k).imagery_fails == a.get(k).imagery_fails,
        b.get(k).mesh_retry_at == a.get(k).mesh_retry_at,
        b.get(k).imagery_retry_at == a.get(k).imagery_retry_at,
        b.get(k).imagery_at == a.get(k).imagery_at,
{
    reveal(same_stock);
}

proof fn lemma_same_stock_itself(a: TileMap)
    ensures
        same_stock(a, a),
{
    reveal(same_stock);
}

proof fn lemma_put_keeps_stock(a: TileMap, b: TileMap, key: TileKey, tile: Tile)
    requires
        same_stock(a, b),
        tile == (Tile {
            last_used: tile.last_used,
            last_drawn: tile.last_drawn,
            unfold_at: tile.unfold_at,
            merge_at: tile.merge_at,
            split: tile.split,
            ..b.get(key)
        }),
    ensures
        same_stock(a, b.put(key, tile)),
        b.put(key, tile).get(key) == tile,
{
    reveal(same_stock);
    let after = b.put(key, tile);
    assert forall|k: TileKey| #[trigger] after.get(k) == (if k == key {
        tile
    } else {
        b.get(k)
    }) by {}
    assert(b.get(key).mesh == a.get(key).mesh);
}

/// Whether a job waits or is in hand.
pub open spec fn asked_for(pool: PoolView, kind: JobKind, key: TileKey) -> bool {
    is_queued(pool.queue, kind, key) || is_active(pool.active, kind, key)
}

/// Whether everything that was asked for still is, in the same order.
#[verifier::opaque]
pub open spec fn asks_more(a: PoolView, b: PoolView) -> bool {
    &&& b.active == a.active
    &&& a.queue.len() <= b.queue.len()
    &&& forall|i: int| 0 <= i < a.queue.len() ==> #[trigger] b.queue[i] == a.queue[i]
}

proof fn lemma_asks_more(a: PoolView, b: PoolView, c: PoolView, kind: JobKind, key: TileKey)
    requires
        asks_more(a, b),
        asks_more(b, c),
    ensures
        asks_more(a, c),
        asked_for(a, kind, key) ==> asked_for(b, kind, key),
        asked_for(b, kind, key) ==> asked_for(c, kind, key),
{
    reveal(asks_more);
    if is_queued(a.queue, kind, key) {
        let i = choose|i: int|
            0 <= i < a.queue.len() && (#[trigger] a.queue[i]).kind == kind && a.queue[i].key == key;
        assert(b.queue[i] == a.queue[i]);
    }
    if is_queued(b.queue, kind, key) {
        let i = choose|i: int|
            0 <= i < b.queue.len() && (#[trigger] b.queue[i]).kind == kind && b.queue[i].key == key;
        assert(c.queue[i] == b.queue[i]);
    }
}

proof fn lemma_requested_asks(pool: PoolView, request: RequestView)
    ensures
        asks_more(pool, pool),
        asks_more(pool, requested(pool, request)),
        asked_for(requested(pool, request), request.kind, request.key),
{
    reveal(asks_more);
    let after = requested(pool, request);
    if after != pool {
        assert(after.queue[after.queue.len() - 1] == request);
    }
}

/// Whether `above` is the tile `levels` levels above `key` that covers it.
pub open spec fn lies_above(above: TileKey, key: TileKey, levels: nat) -> bool {
    &&& above.z + levels == key.z
    &&& above.x == key.x as nat / pow2(levels)
    &&& above.y == key.y as nat / pow2(levels)
}

proof fn lemma_lies_above(above: TileKey, key: TileKey, levels: nat)
    requires
        levels <= key.z,
    ensures
        lies_above(ancestor_of(key, levels), key, levels),
        lies_above(above, key, levels) ==> above == ancestor_of(key, levels),
{
    vstd::arithmetic::power2::lemma_pow2_pos(levels);
    vstd::arithmetic::div_mod::lemma_div_nonincreasing(key.x as int, pow2(levels) as int);
    vstd::arithmetic::div_mod::lemma_div_nonincreasing(key.y as int, pow2(levels) as int);
    vstd::arithmetic::div_mod::lemma_div_pos_is_pos(key.x as int, pow2(levels) as int);
    vstd::arithmetic::div_mod::lemma_div_pos_is_pos(key.y as int, pow2(levels) as int);
}

/// Whether the mesh of a tile is missing and not on its way, and may be asked for now: it
/// did not fail too often, nor a moment ago.
pub open spec fn lacks_mesh(tile: Tile, frame: u64) -> bool {
    tile.mesh is None && !tile.mesh_inbound && tile.mesh_fails < MAX_RETRIES && frame
        >= tile.mesh_retry_at
}

/// Whether the image of a tile is missing and not on its way, and may be asked for now.
pub open spec fn lacks_image(tile: Tile, frame: u64) -> bool {
    tile.imagery is None && !tile.imagery_inbound && tile.imagery_fails < MAX_RETRIES && frame
        >= tile.imagery_retry_at
}

/// Whether a window is where `key` lies in the tile `above`, `levels` levels up.
pub open spec fn window_fits(window: UvWindow, key: TileKey, above: TileKey, levels: nat) -> bool {
    &&& lies_above(above, key, levels)
    &&& window.span == pow2(levels)
    &&& window.du < window.span
    &&& window.dv < window.span
    &&& above.x * window.span + window.du == key.x
    &&& above.y * window.span + window.dv == key.y
}

/// Whether terrain for `key` is read from the tile `above`: from the tile itself, or where
/// the source does not go that deep, from the deepest that it has.
pub open spec fn terrain_from(
    sources: &Sources,
    request: RequestView,
    above: TileKey,
    levels: nat,
) -> bool {
    &&& window_fits(request.uv, request.key, above, levels)
    &&& above.z <= sources.terrain_max_zoom
    &&& levels > 0 ==> above.z == sources.terrain_max_zoom
    &&& request.url == tile_url(sources.terrain@, above)
}

/// Whether no more than 85 percent of the layers are taken.
pub open spec fn layers_left(tree: TreeView) -> bool {
    100 * tree.layer_pressure.used <= 85 * tree.layer_pressure.capacity
}

/// Whether a request is for something that is missing, and for nothing else than that. Where
/// layers are short, an image is missing only where there is none above it.
pub open spec fn request_right(tree: TreeView, sources: &Sources, request: RequestView) -> bool {
    let tile = tree.tiles.get(request.key);
    &&& !tree.frozen
    &&& request.extra_url.len() == 0
    &&& match request.kind {
        JobKind::Terrain => lacks_mesh(tile, tree.frame) && exists|above: TileKey, levels: nat| #[trigger]
            terrain_from(sources, request, above, levels),
        JobKind::Imagery => lacks_image(tile, tree.frame) && request.key.z
            <= sources.imagery_max_zoom && (layers_left(tree) || no_image(
            tree.tiles,
            request.key,
            1,
        )) && request.url == tile_url(sources.imagery@, request.key) && request.uv == (UvWindow {
            span: 1,
            du: 0,
            dv: 0,
        }),
        _ => false,
    }
}

/// Whether everything that was asked for still is, and what was asked for since was missing.
#[verifier::opaque]
pub open spec fn asks_lacking(
    tree: TreeView,
    sources: &Sources,
    a: PoolView,
    b: PoolView,
) -> bool {
    &&& asks_more(a, b)
    &&& forall|i: int|
        a.queue.len() <= i < b.queue.len() ==> request_right(
            tree,
            sources,
            #[trigger] b.queue[i],
        )
}

proof fn lemma_nothing_asked(tree: TreeView, sources: &Sources, pool: PoolView)
    ensures
        asks_lacking(tree, sources, pool, pool),
{
    reveal(asks_more);
    reveal(asks_lacking);
}

proof fn lemma_lacking_asked(
    tree: TreeView,
    sources: &Sources,
    a: PoolView,
    b: PoolView,
    request: RequestView,
)
    requires
        asks_lacking(tree, sources, a, b),
        request_right(tree, sources, request),
    ensures
        asks_more(a, b),
        asks_lacking(tree, sources, a, requested(b, request)),
{
    reveal(asks_more);
    reveal(asks_lacking);
    let after = requested(b, request);
    assert forall|i: int| a.queue.len() <= i < after.queue.len() implies request_right(
        tree,
        sources,
        #[trigger] after.queue[i],
    ) by {
        if i < b.queue.len() {
            assert(after.queue[i] == b.queue[i]);
        }
    }
}

proof fn lemma_asks_lacking_more(
    tree: TreeView,
    sources: &Sources,
    a: PoolView,
    b: PoolView,
)
    requires
        asks_lacking(tree, sources, a, b),
    ensures
        asks_more(a, b),
{
    reveal(asks_lacking);
}

/// A tile is where its window says in the tile above it, and terrain is read from no deeper
/// than the source goes.
pub proof fn lemma_terrain_read_from_source(sources: &Sources, key: TileKey, rank: u64)
    requires
        terrain_levels(sources, key) < 32,
    ensures
        exists|above: TileKey, levels: nat| #[trigger]
            terrain_from(sources, mesh_request(sources, key, rank), above, levels),
{
    let levels = terrain_levels(sources, key);
    let above = ancestor_of(key, levels);
    lemma_window_restores_tile(key, levels);
    vstd::bits::lemma_u32_pow2_no_overflow(levels);
    lemma_lies_above(above, key, levels);
    assert(terrain_from(sources, mesh_request(sources, key, rank), above, levels));
}

/// What holds of a step that looks at tiles and asks for things: it knows what it knew, and
/// has asked for what it had.
spec fn steps(a: Pass, b: Pass, sources: &Sources) -> bool {
    &&& same_stock(a.tree.tiles, b.tree.tiles)
    &&& asks_lacking(a.tree, sources, a.pool, b.pool)
    &&& b.tree.frame == a.tree.frame
    &&& b.tree.frozen == a.tree.frozen
    &&& b.tree.mesh_pressure == a.tree.mesh_pressure
    &&& b.tree.layer_pressure == a.tree.layer_pressure
    &&& b.tree.debug_mode == a.tree.debug_mode
}

/// Whether no tile changes otherwise than it did.
spec fn same_changes(a: TileMap, b: TileMap) -> bool {
    forall|k: TileKey|
        #![trigger b.get(k)]
        b.get(k).unfold_at == a.get(k).unfold_at && b.get(k).merge_at == a.get(k).merge_at
}

/// Whether the counts and lists of a frame are the same.
spec fn same_tally(a: TreeView, b: TreeView) -> bool {
    &&& a.pending == b.pending
    &&& a.drawn == b.drawn
    &&& a.splits == b.splits
    &&& a.starved_splits == b.starved_splits
    &&& a.blocked_splits == b.blocked_splits
    &&& a.visited == b.visited
    &&& a.culled == b.culled
}

proof fn lemma_mesh_asked_steps(a: Pass, b: Pass, sources: &Sources, key: TileKey, rank: u64)
    requires
        steps(a, b, sources),
        key.z < 32,
    ensures
        ({
            let c = mesh_asked(b, sources, key, rank);
            &&& steps(a, c, sources)
            &&& same_changes(b.tree.tiles, c.tree.tiles)
            &&& same_tally(b.tree, c.tree)
            &&& asks_more(b.pool, c.pool)
            &&& !b.tree.frozen && mesh_wanted(b.tree.tiles.get(key), b.tree.frame) ==> asked_for(
                c.pool,
                JobKind::Terrain,
                key,
            )
        }),
{
    let tile = b.tree.tiles.get(key);
    lemma_put_keeps_stock(
        a.tree.tiles,
        b.tree.tiles,
        key,
        Tile { last_used: b.tree.frame, ..tile },
    );
    let request = mesh_request(sources, key, rank);
    lemma_requested_asks(b.pool, request);
    lemma_stock_of(a.tree.tiles, b.tree.tiles, key);
    lemma_terrain_read_from_source(sources, key, rank);
    if mesh_wanted(tile, b.tree.frame) && !b.tree.frozen {
        lemma_lacking_asked(a.tree, sources, a.pool, b.pool, request);
    }
}

proof fn lemma_imagery_asked_steps(a: Pass, b: Pass, sources: &Sources, key: TileKey, rank: u64)
    requires
        steps(a, b, sources),
        key.z < 32,
    ensures
        ({
            let c = imagery_asked(b, sources, key, rank);
            &&& steps(a, c, sources)
            &&& same_tally(b.tree, c.tree)
            &&& asks_more(b.pool, c.pool)
            &&& !a.tree.frozen && key.z <= sources.imagery_max_zoom && (layers_left(a.tree)
                || no_image(a.tree.tiles, key, 1)) && lacks_image(
                a.tree.tiles.get(key),
                a.tree.frame,
            ) ==> asked_for(
                c.pool,
                JobKind::Imagery,
                key,
            )
        }),
{
    lemma_put_keeps_stock(a.tree.tiles, b.tree.tiles, key, b.tree.tiles.get(key));
    let request = imagery_request(sources, key, rank);
    lemma_requested_asks(b.pool, request);
    lemma_stock_of(a.tree.tiles, b.tree.tiles, key);
    lemma_found_fits(a.tree.tiles, b.tree, key, 1);
    if no_image(a.tree.tiles, key, 1) && image_level(b.tree.tiles, key, 1) is Some {
        let texture = found(b.tree, key, 1).1->0;
        let (levels, above) = choose|levels: nat, above: TileKey| #[trigger]
            image_above(a.tree.tiles, key, 1, texture, levels, above);
        assert(lies_above(above, key, levels));
    }
    if imagery_wanted(b.tree.tiles.get(key), b.tree.frame) && key.z <= sources.imagery_max_zoom
        && !b.tree.frozen && (layers_left(a.tree) || no_image(a.tree.tiles, key, 1)) {
        lemma_lacking_asked(a.tree, sources, a.pool, b.pool, request);
    }
}

proof fn lemma_quarters_asked_steps(
    a: Pass,
    b: Pass,
    sources: &Sources,
    key: TileKey,
    which: Seq<bool>,
    rank: u64,
    n: nat,
    i: nat,
)
    requires
        steps(a, b, sources),
        key.z < 31,
        n <= 4,
    ensures
        ({
            let c = quarters_asked(b, sources, key, which, rank, n);
            &&& steps(a, c, sources)
            &&& steps(b, c, sources)
            &&& same_changes(b.tree.tiles, c.tree.tiles)
            &&& same_tally(b.tree, c.tree)
            &&& i < n && which[i as int] && !b.tree.frozen && mesh_wanted(
                b.tree.tiles.get(child_of(key, i)),
                b.tree.frame,
            ) ==> asked_for(c.pool, JobKind::Terrain, child_of(key, i))
        }),
    decreases n,
{
    lemma_same_stock_itself(b.tree.tiles);
    lemma_nothing_asked(b.tree, sources, b.pool);
    if n > 0 {
        let m = (n - 1) as nat;
        lemma_quarters_asked_steps(a, b, sources, key, which, rank, m, i);
        let before = quarters_asked(b, sources, key, which, rank, m);
        let child = child_of(key, m);
        lemma_mesh_asked_steps(a, before, sources, child, rank);
        lemma_mesh_asked_steps(b, before, sources, child, rank);
        lemma_asks_lacking_more(b.tree, sources, b.pool, before.pool);
        lemma_asks_more(
            b.pool,
            before.pool,
            mesh_asked(before, sources, child, rank).pool,
            JobKind::Terrain,
            child_of(key, i),
        );
        lemma_stock_of(b.tree.tiles, before.tree.tiles, child);
    }
}

/// Whether no tile above `key`, `from` levels up at the least, has an image.
pub open spec fn no_image(tiles: TileMap, key: TileKey, from: nat) -> bool {
    forall|m: nat, t: TileKey|
        #![trigger lies_above(t, key, m)]
        from <= m && lies_above(t, key, m) ==> tiles.get(t).imagery is None
}

/// Whether a texture is the part over `key` of the image of the tile `above`, which lies
/// `levels` levels up, and no tile between has an image.
pub open spec fn image_above(
    tiles: TileMap,
    key: TileKey,
    from: nat,
    texture: Texture,
    levels: nat,
    above: TileKey,
) -> bool {
    &&& from <= levels
    &&& lies_above(above, key, levels)
    &&& tiles.get(above).imagery == Some(texture.layer)
    &&& texture.window.span == pow2(levels)
    &&& texture.window.du < texture.window.span
    &&& texture.window.dv < texture.window.span
    &&& above.x * texture.window.span + texture.window.du == key.x
    &&& above.y * texture.window.span + texture.window.dv == key.y
    &&& forall|m: nat, t: TileKey|
        #![trigger lies_above(t, key, m)]
        from <= m < levels && lies_above(t, key, m) ==> tiles.get(t).imagery is None
}

/// Whether a texture is the ground of `key` in the nearest image at or above it, `from`
/// levels up at the least.
pub open spec fn shows_ground(tiles: TileMap, key: TileKey, from: nat, texture: Texture) -> bool {
    exists|levels: nat, above: TileKey| #[trigger]
        image_above(tiles, key, from, texture, levels, above)
}

/// Whether a tile is shaded by the ground that it covers: with the nearest image at or above
/// it, over the nearest above it where that is another.
pub open spec fn shading_fits(tiles: TileMap, key: TileKey, shading: Shading) -> bool {
    match shading.own {
        None => no_image(tiles, key, 0) && shading.prev is None,
        Some(own) => {
            &&& shows_ground(tiles, key, 0, own)
            &&& shading.prev matches Some(prev) && if prev == own {
                no_image(tiles, key, 1) || exists|coarse: Texture|
                    #[trigger] shows_ground(tiles, key, 1, coarse) && coarse.layer == own.layer
            } else {
                prev.layer != own.layer && shows_ground(tiles, key, 1, prev)
            }
        },
    }
}

proof fn lemma_found_fits(a: TileMap, tree: TreeView, key: TileKey, from: nat)
    requires
        same_stock(a, tree.tiles),
        key.z < 32,
    ensures
        same_stock(a, found(tree, key, from).0.tiles),
        found(tree, key, from).0 == (TreeView { tiles: found(tree, key, from).0.tiles, ..tree }),
        match found(tree, key, from).1 {
            Some(texture) => shows_ground(a, key, from, texture),
            None => no_image(a, key, from),
        },
{
    let tiles = tree.tiles;
    lemma_image_level_nearest(tiles, key, from);
    match image_level(tiles, key, from) {
        Some(l) => {
            let above = ancestor_of(key, l);
            let tile = tiles.get(above);
            lemma_put_keeps_stock(
                a,
                tiles,
                above,
                Tile { last_used: tree.frame, last_drawn: tree.frame, ..tile },
            );
            let texture = found(tree, key, from).1->0;
            lemma_window_restores_tile(key, l);
            vstd::bits::lemma_u32_pow2_no_overflow(l);
            lemma_lies_above(above, key, l);
            lemma_stock_of(a, tiles, above);
            assert forall|m: nat, t: TileKey|
                #![trigger lies_above(t, key, m)]
                from <= m < l && lies_above(t, key, m) implies a.get(t).imagery is None by {
                lemma_lies_above(t, key, m);
                lemma_stock_of(a, tiles, t);
                assert(tiles.get(ancestor_of(key, m)).imagery is None);
            }
            assert(image_above(a, key, from, texture, l, above));
        },
        None => {
            assert forall|m: nat, t: TileKey|
                #![trigger lies_above(t, key, m)]
                from <= m && lies_above(t, key, m) implies a.get(t).imagery is None by {
                lemma_lies_above(t, key, m);
                lemma_stock_of(a, tiles, t);
                assert(tiles.get(ancestor_of(key, m)).imagery is None);
            }
        },
    }
}

proof fn lemma_resolved_fits(a: TileMap, tree: TreeView, key: TileKey)
    requires
        same_stock(a, tree.tiles),
        key.z < 32,
    ensures
        same_stock(a, resolved(tree, key).0.tiles),
        resolved(tree, key).0 == (TreeView { tiles: resolved(tree, key).0.tiles, ..tree }),
        shading_fits(a, key, resolved(tree, key).1),
        resolved(tree, key).1.age == (if resolved(tree, key).1.own is Some && tree.frame >= a.get(
            key,
        ).imagery_at {
            tree.frame - a.get(key).imagery_at
        } else {
            0
        }),
{
    lemma_found_fits(a, tree, key, 0);
    let tree1 = found(tree, key, 0).0;
    let own = found(tree, key, 0).1;
    lemma_found_fits(a, tree1, key, 1);
    let coarse = if key.z > 0 {
        found(tree1, key, 1).1
    } else {
        None
    };
    let tree2 = resolved(tree, key).0;
    lemma_stock_of(a, tree2.tiles, key);
    if own is None {
        assert(coarse is None) by {
            if coarse is Some {
                assert(shows_ground(a, key, 1, coarse->0));
                let (levels, above) = choose|levels: nat, above: TileKey| #[trigger]
                    image_above(a, key, 1, coarse->0, levels, above);
                assert(lies_above(above, key, levels));
            }
        }
    } else if key.z == 0 {
        assert(no_image(a, key, 1));
    }
}

/// How far a change has gone that began at a frame: all the way where none began.
pub open spec fn change_gone(gone: u64, began: u64, frame: u64) -> bool {
    &&& began == 0 || frame >= began + 18 ==> gone == 18
    &&& 0 < began <= frame < began + 18 ==> gone == frame - began
}

/// Whether a tile is drawn as what is known of it says: its mesh where it lies, its own
/// ground on it, merging where its quarters were drawn before and unfolding where nothing
/// was.
pub open spec fn drawn_right(
    tree: TreeView,
    key: TileKey,
    was_split: bool,
    prev_drawn: u64,
    drawn: DrawnTile,
) -> bool {
    let tile = tree.tiles.get(key);
    let frame = tree.frame;
    &&& tile.mesh matches Some(mesh) && drawn.slot == mesh.slot && drawn.center == mesh.center
    &&& drawn.key == key
    &&& shading_fits(tree.tiles, key, drawn.shading)
    &&& drawn.shading.own is Some && frame >= tile.imagery_at ==> drawn.shading.age == frame
        - tile.imagery_at
    &&& was_split ==> change_gone(drawn.merged, frame, frame) && drawn.unfolded == 18
    &&& !was_split && prev_drawn + 1 < frame ==> change_gone(drawn.unfolded, frame, frame)
        && drawn.merged == 18
    &&& !was_split && prev_drawn + 1 >= frame ==> change_gone(drawn.unfolded, tile.unfold_at, frame)
        && change_gone(drawn.merged, tile.merge_at, frame)
    &&& tint_right(tree, key, drawn.slot, drawn.tint)
}

/// Whether a color tells what the mode of the tree asks for: the level of a tile in turns of
/// twelve, how it stands with its data, how far above it its image lies, the slot of its mesh,
/// or nothing.
pub open spec fn tint_right(tree: TreeView, key: TileKey, slot: u32, tint: Tint) -> bool {
    let tile = tree.tiles.get(key);
    let failed = tile.mesh_fails >= 3 || tile.imagery_fails >= 3;
    let coming = tile.mesh_inbound || tile.imagery_inbound;
    if tree.debug_mode == 1 {
        tint matches Tint::Level(turn) && turn < 12 && (key.z - turn) % 12 == 0
    } else if tree.debug_mode == 2 {
        &&& failed ==> tint is Failed
        &&& !failed && coming ==> tint is Inbound
        &&& !failed && !coming && tile.imagery is Some ==> tint is OwnImage
        &&& !failed && !coming && tile.imagery is None ==> tint is Waiting
    } else if tree.debug_mode == 3 {
        match tint {
            Tint::Depth(levels) => nearest_image(tree.tiles, key, levels as nat),
            Tint::NoImage => no_image(tree.tiles, key, 0),
            _ => false,
        }
    } else if tree.debug_mode == 4 {
        tint matches Tint::Slot(r, g, b) && r * 65_536 + g * 256 + b == (slot * 2_654_435_761)
            % 16_777_216
    } else {
        tint is Plain
    }
}

/// Whether the nearest image at or above a tile is `levels` levels up.
pub open spec fn nearest_image(tiles: TileMap, key: TileKey, levels: nat) -> bool {
    forall|m: nat, t: TileKey|
        #![trigger lies_above(t, key, m)]
        m <= levels && lies_above(t, key, m) ==> (tiles.get(t).imagery is Some <==> m == levels)
}

proof fn lemma_three_bytes(x: nat)
    ensures
        ({
            let hash = x % 0x1_0000_0000;
            (hash / 0x1_0000 % 0x100) * 65_536 + (hash / 0x100 % 0x100) * 256 + hash % 0x100 == x
                % 16_777_216
        }),
{
}

proof fn lemma_tint_right(a: TreeView, b: TreeView, key: TileKey, slot: u32)
    requires
        same_stock(a.tiles, b.tiles),
        b.debug_mode == a.debug_mode,
        key.z < 32,
    ensures
        tint_right(a, key, slot, tint_of(b, key, slot)),
{
    lemma_stock_of(a.tiles, b.tiles, key);
    if a.debug_mode == 3 {
        lemma_image_level_nearest(b.tiles, key, 0);
        match image_level(b.tiles, key, 0) {
            Some(l) => {
                assert forall|m: nat, t: TileKey|
                    #![trigger lies_above(t, key, m)]
                    m <= l && lies_above(t, key, m) implies (a.tiles.get(t).imagery is Some <==> m
                    == l) by {
                    lemma_lies_above(t, key, m);
                    lemma_stock_of(a.tiles, b.tiles, t);
                    if m < l {
                        assert(b.tiles.get(ancestor_of(key, m)).imagery is None);
                    }
                }
            },
            None => {
                assert forall|m: nat, t: TileKey|
                    #![trigger lies_above(t, key, m)]
                    0 <= m && lies_above(t, key, m) implies a.tiles.get(t).imagery is None by {
                    lemma_lies_above(t, key, m);
                    lemma_stock_of(a.tiles, b.tiles, t);
                    assert(b.tiles.get(ancestor_of(key, m)).imagery is None);
                }
            },
        }
    } else if a.debug_mode == 4 {
        lemma_three_bytes(slot as nat * 2_654_435_761);
    }
}

/// The color that a tile is shown with tells what the mode of the tree asks for.
pub proof fn lemma_tint_tells(tree: TreeView, key: TileKey, slot: u32)
    requires
        key.z < 32,
    ensures
        tint_right(tree, key, slot, tint_of(tree, key, slot)),
{
    lemma_same_stock_itself(tree.tiles);
    lemma_tint_right(tree, tree, key, slot);
}

proof fn lemma_drawn_steps(
    a: Pass,
    b: Pass,
    sources: &Sources,
    key: TileKey,
    sight: Sight,
    was_split: bool,
    prev_drawn: u64,
)
    requires
        steps(a, b, sources),
        b.tree.tiles.get(key).unfold_at == a.tree.tiles.get(key).unfold_at,
        b.tree.tiles.get(key).merge_at == a.tree.tiles.get(key).merge_at,
        key.z < 32,
    ensures
        ({
            let c = drawn_tile(b, sources, key, sight, was_split, prev_drawn);
            let tile = a.tree.tiles.get(key);
            let drawn = b.tree.drawn;
            &&& steps(a, c, sources)
            &&& asks_more(b.pool, c.pool)
            &&& same_tally(TreeView { drawn: c.tree.drawn, ..b.tree }, c.tree)
            &&& drawn.len() >= MAX_DRAWN_TILES || tile.mesh is None ==> c.tree.drawn == drawn
            &&& drawn.len() < MAX_DRAWN_TILES && tile.mesh is Some ==> {
                &&& c.tree.drawn.len() == drawn.len() + 1
                &&& c.tree.drawn.drop_last() == drawn
                &&& drawn_right(a.tree, key, was_split, prev_drawn, c.tree.drawn.last())
                &&& !a.tree.frozen && key.z <= sources.imagery_max_zoom && (layers_left(a.tree)
                    || no_image(a.tree.tiles, key, 1)) && lacks_image(
                    tile,
                    a.tree.frame,
                ) ==> asked_for(
                    c.pool,
                    JobKind::Imagery,
                    key,
                )
            }
        }),
{
    reveal(drawn_tile);
    let frame = b.tree.frame;
    let tile = b.tree.tiles.get(key);
    lemma_stock_of(a.tree.tiles, b.tree.tiles, key);
    lemma_requested_asks(b.pool, imagery_request(sources, key, 0));
    if b.tree.drawn.len() >= MAX_DRAWN_TILES {
    } else if tile.mesh is None {
        lemma_put_keeps_stock(
            a.tree.tiles,
            b.tree.tiles,
            key,
            Tile { last_used: frame, ..tile },
        );
    } else {
        let shown = drawn_at(tile, frame, was_split, prev_drawn);
        let start = Pass { tree: b.tree.with(key, shown), ..b };
        lemma_put_keeps_stock(a.tree.tiles, b.tree.tiles, key, shown);
        let rank = seen_rank(sight.at);
        lemma_imagery_asked_steps(a, start, sources, key, rank);
        let asked = imagery_asked(start, sources, key, rank);
        lemma_resolved_fits(a.tree.tiles, asked.tree, key);
        let shaded = resolved(asked.tree, key).0;
        lemma_tint_right(a.tree, shaded, key, tile.mesh->0.slot);
        let c = drawn_tile(b, sources, key, sight, was_split, prev_drawn);
        assert(c.tree.drawn.drop_last() =~= b.tree.drawn);
    }
}

/// The quarter of a tile to the east or the west, to the south or the north.
pub open spec fn quarter(key: TileKey, east: bool, south: bool) -> TileKey {
    TileKey {
        z: (key.z + 1) as u8,
        x: (2 * key.x + (if east {
            1int
        } else {
            0
        })) as u32,
        y: (2 * key.y + (if south {
            1int
        } else {
            0
        })) as u32,
    }
}

/// Whether a tile can be drawn, or never will be: it has a mesh, or failed too often.
pub open spec fn drawable(tile: Tile) -> bool {
    tile.mesh is Some || tile.mesh_fails >= MAX_RETRIES
}

/// Whether every quarter that is seen can be drawn, or never will be.
pub open spec fn no_quarter_missing(tiles: TileMap, key: TileKey, seen: Seq<bool>) -> bool {
    &&& seen[0] ==> drawable(tiles.get(quarter(key, false, false)))
    &&& seen[1] ==> drawable(tiles.get(quarter(key, true, false)))
    &&& seen[2] ==> drawable(tiles.get(quarter(key, false, true)))
    &&& seen[3] ==> drawable(tiles.get(quarter(key, true, true)))
}

/// Whether a tile that is seen is to give way to its quarters: it is large enough and not
/// of the deepest level, a quarter of it is seen, and of those that are none is missing.
pub open spec fn gives_way(
    tree: TreeView,
    sources: &Sources,
    key: TileKey,
    sight: Sight,
    seen: Seq<bool>,
) -> bool {
    &&& large_enough(tree, sources, key, sight)
    &&& seen[0] || seen[1] || seen[2] || seen[3]
    &&& no_quarter_missing(tree.tiles, key, seen)
}

/// Whether a tile is large enough for its quarters, and not of the deepest level.
pub open spec fn large_enough(
    tree: TreeView,
    sources: &Sources,
    key: TileKey,
    sight: Sight,
) -> bool {
    &&& key.z < 20
    &&& key.z < sources.terrain_max_zoom || key.z < sources.imagery_max_zoom
    &&& if tree.tiles.get(key).split {
        sight.stays_split
    } else {
        sight.splits
    }
}

proof fn lemma_quarters_are_children(key: TileKey)
    ensures
        child_of(key, 0) == quarter(key, false, false),
        child_of(key, 1) == quarter(key, true, false),
        child_of(key, 2) == quarter(key, false, true),
        child_of(key, 3) == quarter(key, true, true),
{
}

proof fn lemma_way_given(
    tree: TreeView,
    sources: &Sources,
    key: TileKey,
    sight: Sight,
    seen: Seq<bool>,
)
    ensures
        wants_quarters(tree, sources, key, sight) == large_enough(tree, sources, key, sight),
        quarters_ready(tree, key, seen) == no_quarter_missing(tree.tiles, key, seen),
{
    lemma_quarters_are_children(key);
    if no_quarter_missing(tree.tiles, key, seen) {
        assert forall|i: int| 0 <= i < 4 && #[trigger] seen[i] implies {
            let tile = tree.tiles.get(child_of(key, i as nat));
            tile.mesh is Some || tile.mesh_fails >= MAX_RETRIES
        } by {
            assert(i == 0 || i == 1 || i == 2 || i == 3);
        }
    }
    if quarters_ready(tree, key, seen) {
        assert(seen[0] ==> drawable(tree.tiles.get(child_of(key, 0))));
        assert(seen[1] ==> drawable(tree.tiles.get(child_of(key, 1))));
        assert(seen[2] ==> drawable(tree.tiles.get(child_of(key, 2))));
        assert(seen[3] ==> drawable(tree.tiles.get(child_of(key, 3))));
    }
}

/// What a look at a tile that is seen comes to: the tile gives way to its quarters, or is
/// drawn itself.
proof fn lemma_seen_steps(
    a: Pass,
    sources: &Sources,
    key: TileKey,
    sight: Sight,
    seen: Seq<bool>,
    i: nat,
)
    requires
        key.z < 31,
        i < 4,
    ensures
        ({
            let c = seen_tile(a, sources, key, sight, seen);
            let way = gives_way(a.tree, sources, key, sight, seen);
            let tile = a.tree.tiles.get(key);
            let part = child_of(key, i);
            let starves = large_enough(a.tree, sources, key, sight) && (seen[0] || seen[1]
                || seen[2] || seen[3]) && !no_quarter_missing(a.tree.tiles, key, seen);
            &&& steps(a, c, sources)
            &&& c.tree.visited == a.tree.visited
            &&& c.tree.culled == a.tree.culled
            &&& c.tree.splits == (if way {
                one_more(a.tree.splits)
            } else {
                a.tree.splits
            })
            &&& c.tree.starved_splits == (if starves {
                one_more(a.tree.starved_splits)
            } else {
                a.tree.starved_splits
            })
            &&& c.tree.blocked_splits == (if starves && !bearable(a.tree.mesh_pressure) {
                one_more(a.tree.blocked_splits)
            } else {
                a.tree.blocked_splits
            })
            &&& way ==> {
                &&& c.tree.pending == a.tree.pending + seq![
                    quarter(key, true, true),
                    quarter(key, false, true),
                    quarter(key, true, false),
                    quarter(key, false, false),
                ]
                &&& c.tree.drawn == a.tree.drawn
                &&& roomy(a.tree.mesh_pressure) && !a.tree.frozen && part != key && mesh_wanted(
                    a.tree.tiles.get(part),
                    a.tree.frame,
                ) ==> asked_for(c.pool, JobKind::Terrain, part)
            }
            &&& !way ==> {
                &&& c.tree.pending == a.tree.pending
                &&& a.tree.drawn.len() >= MAX_DRAWN_TILES || tile.mesh is None ==> c.tree.drawn
                    == a.tree.drawn
                &&& a.tree.drawn.len() < MAX_DRAWN_TILES && tile.mesh is Some ==> {
                    &&& c.tree.drawn.len() == a.tree.drawn.len() + 1
                    &&& c.tree.drawn.drop_last() == a.tree.drawn
                    &&& drawn_right(
                        a.tree,
                        key,
                        tile.split,
                        tile.last_drawn,
                        c.tree.drawn.last(),
                    )
                    &&& !a.tree.frozen && key.z <= sources.imagery_max_zoom && (layers_left(a.tree)
                        || no_image(a.tree.tiles, key, 1)) && lacks_image(
                        tile,
                        a.tree.frame,
                    ) ==> asked_for(
                        c.pool,
                        JobKind::Imagery,
                        key,
                    )
                }
                &&& !a.tree.frozen && mesh_wanted(tile, a.tree.frame) ==> asked_for(
                    c.pool,
                    JobKind::Terrain,
                    key,
                )
                &&& starves && bearable(a.tree.mesh_pressure) && !a.tree.frozen && seen[i as int]
                    && mesh_wanted(a.tree.tiles.get(part), a.tree.frame) ==> asked_for(
                    c.pool,
                    JobKind::Terrain,
                    part,
                )
            }
        }),
{
    let frame = a.tree.frame;
    let tile = a.tree.tiles.get(key);
    let part = child_of(key, i);
    lemma_way_given(a.tree, sources, key, sight, seen);
    lemma_quarters_are_children(key);
    lemma_same_stock_itself(a.tree.tiles);
    lemma_nothing_asked(a.tree, sources, a.pool);
    let c = seen_tile(a, sources, key, sight, seen);
    let way = gives_way(a.tree, sources, key, sight, seen);
    if way {
        reveal(split_up);
        let marked = Tile { split: true, last_used: frame, last_drawn: frame, ..tile };
        let start = Pass {
            tree: TreeView { splits: one_more(a.tree.splits), ..a.tree }.with(key, marked),
            ..a
        };
        lemma_put_keeps_stock(a.tree.tiles, a.tree.tiles, key, marked);
        let all = seq![true, true, true, true];
        lemma_quarters_asked_steps(a, start, sources, key, all, seen_rank(sight.far), 4, i);
        lemma_stock_of(a.tree.tiles, start.tree.tiles, part);
        assert(c.tree.pending =~= a.tree.pending + seq![
            quarter(key, true, true),
            quarter(key, false, true),
            quarter(key, true, false),
            quarter(key, false, false),
        ]);
    } else {
        reveal(starved);
        let wanted = large_enough(a.tree, sources, key, sight) && (seen[0] || seen[1] || seen[2]
            || seen[3]);
        let hungry = Pass {
            tree: TreeView { starved_splits: one_more(a.tree.starved_splits), ..a.tree },
            ..a
        };
        lemma_quarters_asked_steps(a, hungry, sources, key, seen, seen_rank(sight.near), 4, i);
        let waiting = if wanted {
            starved(a, sources, key, sight, seen)
        } else {
            a
        };
        assert(steps(a, waiting, sources));
        lemma_stock_of(a.tree.tiles, waiting.tree.tiles, key);
        let bare = Tile { split: false, ..waiting.tree.tiles.get(key) };
        let whole = Pass { tree: waiting.tree.with(key, bare), ..waiting };
        lemma_put_keeps_stock(a.tree.tiles, waiting.tree.tiles, key, bare);
        let rank = seen_rank(sight.at);
        lemma_mesh_asked_steps(a, whole, sources, key, rank);
        let asked = mesh_asked(whole, sources, key, rank);
        lemma_drawn_steps(a, asked, sources, key, sight, tile.split, tile.last_drawn);
        lemma_asks_more(waiting.pool, asked.pool, c.pool, JobKind::Terrain, key);
        lemma_asks_more(waiting.pool, asked.pool, c.pool, JobKind::Terrain, part);
    }
}

/// No hole in a frame: a tile that is seen gives way to its four quarters if and only if it
/// is large enough, a quarter of it is seen, and each that is seen has a mesh or has failed
/// too often. In every other case it is drawn itself, if it has a mesh and there is room:
/// in its place, with its own ground on it.
pub proof fn lemma_no_hole(pass: Pass, sources: &Sources, outlook: Outlook)
    requires
        pass.tree.pending.len() > 0,
        pass.tree.pending.last().z < 31,
        outlook.sight is Some,
    ensures
        ({
            let key = pass.tree.pending.last();
            let rest = pass.tree.pending.drop_last();
            let tile = pass.tree.tiles.get(key);
            let drawn = pass.tree.drawn;
            let after = looked_at(pass, sources, outlook).tree;
            if gives_way(pass.tree, sources, key, outlook.sight->0, outlook.quarters@) {
                &&& no_quarter_missing(after.tiles, key, outlook.quarters@)
                &&& after.pending == rest + seq![
                    quarter(key, true, true),
                    quarter(key, false, true),
                    quarter(key, true, false),
                    quarter(key, false, false),
                ]
                &&& after.drawn == drawn
            } else {
                &&& after.pending == rest
                &&& tile.mesh is None || drawn.len() >= MAX_DRAWN_TILES ==> after.drawn == drawn
                &&& tile.mesh is Some && drawn.len() < MAX_DRAWN_TILES ==> {
                    &&& after.drawn.len() == drawn.len() + 1
                    &&& after.drawn.drop_last() == drawn
                    &&& after.drawn.last().key == key
                    &&& drawn_right(
                        pass.tree,
                        key,
                        tile.split,
                        tile.last_drawn,
                        after.drawn.last(),
                    )
                }
            }
        }),
{
    let key = pass.tree.pending.last();
    let rest = TreeView { pending: pass.tree.pending.drop_last(), ..pass.tree };
    let a = Pass { tree: TreeView { visited: one_more(rest.visited), ..rest }, ..pass };
    let seen = outlook.quarters@;
    lemma_seen_steps(a, sources, key, outlook.sight->0, seen, 0);
    let after = looked_at(pass, sources, outlook).tree;
    lemma_stock_of(a.tree.tiles, after.tiles, quarter(key, false, false));
    lemma_stock_of(a.tree.tiles, after.tiles, quarter(key, true, false));
    lemma_stock_of(a.tree.tiles, after.tiles, quarter(key, false, true));
    lemma_stock_of(a.tree.tiles, after.tiles, quarter(key, true, true));
}

/// What is counted of a look: a tile that is not seen, one that is, one that gives way, one
/// whose quarters are missing, and one whose quarters are not even asked for.
pub proof fn lemma_looks_counted(pass: Pass, sources: &Sources, outlook: Outlook)
    requires
        pass.tree.pending.len() > 0,
        pass.tree.pending.last().z < 31,
    ensures
        ({
            let key = pass.tree.pending.last();
            let seen = outlook.quarters@;
            let p = pass.tree.mesh_pressure;
            let after = looked_at(pass, sources, outlook).tree;
            let way = outlook.sight is Some && gives_way(
                pass.tree,
                sources,
                key,
                outlook.sight->0,
                seen,
            );
            let starves = outlook.sight is Some && large_enough(
                pass.tree,
                sources,
                key,
                outlook.sight->0,
            ) && (seen[0] || seen[1] || seen[2] || seen[3]) && !way;
            &&& counted(pass.tree.culled, after.culled, outlook.sight is None)
            &&& counted(pass.tree.visited, after.visited, outlook.sight is Some)
            &&& counted(pass.tree.splits, after.splits, way)
            &&& counted(pass.tree.starved_splits, after.starved_splits, starves)
            &&& counted(
                pass.tree.blocked_splits,
                after.blocked_splits,
                starves && 100 * p.used >= 95 * p.capacity,
            )
        }),
{
    if let Some(sight) = outlook.sight {
        let key = pass.tree.pending.last();
        let rest = TreeView { pending: pass.tree.pending.drop_last(), ..pass.tree };
        let a = Pass { tree: TreeView { visited: one_more(rest.visited), ..rest }, ..pass };
        lemma_seen_steps(a, sources, key, sight, outlook.quarters@, 0);
    }
}

/// Whether a count went up by one if there was something to count, as far as it goes, and
/// stayed as it was if not.
pub open spec fn counted(before: u32, after: u32, one: bool) -> bool {
    &&& one && before < u32::MAX ==> after == before + 1
    &&& !one || before == u32::MAX ==> after == before
}

/// What a look at a tile finds missing is asked for, unless the tree is frozen: the mesh and
/// the image of a tile that is drawn, the quarters that are seen of one that is large enough
/// unless meshes are nearly used up, and all quarters of one that gives way while there are
/// meshes to spare.
pub proof fn lemma_missing_asked_for(
    pass: Pass,
    sources: &Sources,
    outlook: Outlook,
    east: bool,
    south: bool,
)
    requires
        pass.tree.pending.len() > 0,
        pass.tree.pending.last().z < 31,
        outlook.sight is Some,
        !pass.tree.frozen,
    ensures
        ({
            let tree = pass.tree;
            let p = tree.mesh_pressure;
            let key = tree.pending.last();
            let tile = tree.tiles.get(key);
            let part = quarter(key, east, south);
            let seen = outlook.quarters@;
            let this_seen = if east {
                if south {
                    seen[3]
                } else {
                    seen[1]
                }
            } else if south {
                seen[2]
            } else {
                seen[0]
            };
            let way = gives_way(tree, sources, key, outlook.sight->0, seen);
            let after = looked_at(pass, sources, outlook);
            &&& !way && lacks_mesh(tile, tree.frame) ==> asked_for(
                after.pool,
                JobKind::Terrain,
                key,
            )
            &&& !way && tile.mesh is Some && tree.drawn.len() < MAX_DRAWN_TILES && lacks_image(
                tile,
                tree.frame,
            ) && key.z <= sources.imagery_max_zoom && (layers_left(tree) || no_image(
                tree.tiles,
                key,
                1,
            )) ==> asked_for(after.pool, JobKind::Imagery, key)
            &&& !way && large_enough(tree, sources, key, outlook.sight->0) && this_seen && 100
                * p.used < 95 * p.capacity && lacks_mesh(tree.tiles.get(part), tree.frame)
                ==> asked_for(after.pool, JobKind::Terrain, part)
            &&& way && 100 * p.used < 85 * p.capacity && lacks_mesh(
                tree.tiles.get(part),
                tree.frame,
            ) ==> asked_for(after.pool, JobKind::Terrain, part)
        }),
{
    let key = pass.tree.pending.last();
    let rest = TreeView { pending: pass.tree.pending.drop_last(), ..pass.tree };
    let a = Pass { tree: TreeView { visited: one_more(rest.visited), ..rest }, ..pass };
    let i: nat = if east {
        if south {
            3
        } else {
            1
        }
    } else if south {
        2
    } else {
        0
    };
    lemma_quarters_are_children(key);
    lemma_seen_steps(a, sources, key, outlook.sight->0, outlook.quarters@, i);
}

proof fn lemma_no_image_stays(a: TileMap, b: TileMap, key: TileKey, from: nat)
    requires
        same_stock(a, b),
        no_image(a, key, from),
    ensures
        no_image(b, key, from),
{
    assert forall|m: nat, t: TileKey|
        #![trigger lies_above(t, key, m)]
        from <= m && lies_above(t, key, m) implies b.get(t).imagery is None by {
        lemma_stock_of(a, b, t);
    }
}

proof fn lemma_ground_stays(a: TileMap, b: TileMap, key: TileKey, from: nat, texture: Texture)
    requires
        same_stock(a, b),
        shows_ground(a, key, from, texture),
    ensures
        shows_ground(b, key, from, texture),
{
    let (levels, above) = choose|levels: nat, above: TileKey| #[trigger]
        image_above(a, key, from, texture, levels, above);
    lemma_stock_of(a, b, above);
    assert forall|m: nat, t: TileKey|
        #![trigger lies_above(t, key, m)]
        from <= m < levels && lies_above(t, key, m) implies b.get(t).imagery is None by {
        lemma_stock_of(a, b, t);
    }
    assert(image_above(b, key, from, texture, levels, above));
}

proof fn lemma_shading_stays(a: TileMap, b: TileMap, key: TileKey, shading: Shading)
    requires
        same_stock(a, b),
        shading_fits(a, key, shading),
    ensures
        shading_fits(b, key, shading),
{
    match shading.own {
        None => {
            lemma_no_image_stays(a, b, key, 0);
        },
        Some(own) => {
            lemma_ground_stays(a, b, key, 0, own);
            if shading.prev->0 != own {
                lemma_ground_stays(a, b, key, 1, shading.prev->0);
            } else if no_image(a, key, 1) {
                lemma_no_image_stays(a, b, key, 1);
            } else {
                let coarse = choose|coarse: Texture|
                    #[trigger] shows_ground(a, key, 1, coarse) && coarse.layer == own.layer;
                lemma_ground_stays(a, b, key, 1, coarse);
            }
        },
    }
}

/// Whether every tile that is drawn is drawn with its own mesh, and with the ground that it
/// covers on it.
pub open spec fn frame_right(tree: TreeView) -> bool {
    forall|i: int|
        0 <= i < tree.drawn.len() ==> {
            let drawn = #[trigger] tree.drawn[i];
            &&& tree.tiles.get(drawn.key).mesh matches Some(mesh) && drawn.slot == mesh.slot
                && drawn.center == mesh.center
            &&& shading_fits(tree.tiles, drawn.key, drawn.shading)
        }
}

proof fn lemma_look_keeps_right(pass: Pass, sources: &Sources, outlook: Outlook)
    requires
        frame_right(pass.tree),
        pass.tree.pending.len() > 0,
        pass.tree.pending.last().z < 31,
    ensures
        frame_right(looked_at(pass, sources, outlook).tree),
        same_stock(pass.tree.tiles, looked_at(pass, sources, outlook).tree.tiles),
{
    let after = looked_at(pass, sources, outlook).tree;
    lemma_same_stock_itself(pass.tree.tiles);
    if let Some(sight) = outlook.sight {
        let key = pass.tree.pending.last();
        let rest = TreeView { pending: pass.tree.pending.drop_last(), ..pass.tree };
        let a = Pass { tree: TreeView { visited: one_more(rest.visited), ..rest }, ..pass };
        lemma_seen_steps(a, sources, key, sight, outlook.quarters@, 0);
        let n = pass.tree.drawn.len() as int;
        assert forall|i: int| 0 <= i < after.drawn.len() implies {
            let drawn = #[trigger] after.drawn[i];
            &&& after.tiles.get(drawn.key).mesh matches Some(mesh) && drawn.slot == mesh.slot
                && drawn.center == mesh.center
            &&& shading_fits(after.tiles, drawn.key, drawn.shading)
        } by {
            let drawn = after.drawn[i];
            if i < n {
                if after.drawn != pass.tree.drawn {
                    assert(after.drawn.drop_last()[i] == after.drawn[i]);
                }
                assert(drawn == pass.tree.drawn[i]);
            }
            lemma_stock_of(a.tree.tiles, after.tiles, drawn.key);
            lemma_shading_stays(a.tree.tiles, after.tiles, drawn.key, drawn.shading);
        }
    }
}

/// Whatever is seen in a frame, every tile that is drawn in it is drawn with its own mesh,
/// and the part of an image that is put on it is the ground that it covers.
pub proof fn lemma_frame_shows_ground(
    pass: Pass,
    sources: &Sources,
    jumped: bool,
    focus: Seq<TileKey>,
    outlooks: Seq<Outlook>,
    n: nat,
)
    requires
        n <= outlooks.len(),
    ensures
        frame_right(
            looked_at_all(selecting(pass, sources, jumped, focus), sources, outlooks, n).tree,
        ),
    decreases n,
{
    let start = selecting(pass, sources, jumped, focus);
    if n == 0 {
        crate::quadtree::lemma_selecting_starts(pass, sources, jumped, focus);
    } else {
        let m = (n - 1) as nat;
        lemma_frame_shows_ground(pass, sources, jumped, focus, outlooks, m);
        lemma_drawn_levels(pass, sources, jumped, focus, outlooks, m);
        let before = looked_at_all(start, sources, outlooks, m);
        if before.tree.pending.len() > 0 {
            let last = before.tree.pending.len() - 1;
            assert(level_fits(before.tree.pending[last].z, sources));
            lemma_look_keeps_right(before, sources, outlooks[m as int]);
        }
    }
}

/// A frame starts with the whole globe: every tile of the level with eight columns and eight
/// rows waits once, row by row, and nothing is drawn or counted. It is one frame later,
/// unless the tree is frozen.
pub proof fn lemma_frame_starts_whole(
    pass: Pass,
    sources: &Sources,
    jumped: bool,
    focus: Seq<TileKey>,
    x: u32,
    y: u32,
)
    requires
        x < 8,
        y < 8,
        pass.tree.frame < u64::MAX,
    ensures
        ({
            let start = selecting(pass, sources, jumped, focus).tree;
            &&& start.pending.len() == 64
            &&& start.pending[63 - (8 * y + x)] == (TileKey { z: 3, x, y })
            &&& start.drawn.len() == 0
            &&& start.splits == 0
            &&& start.starved_splits == 0
            &&& start.blocked_splits == 0
            &&& start.visited == 0
            &&& start.culled == 0
            &&& start.camera_jumped == jumped
            &&& start.frame == pass.tree.frame + (if pass.tree.frozen {
                0int
            } else {
                1
            })
            &&& pass.tree.frozen ==> selecting(pass, sources, jumped, focus).pool == pass.pool
        }),
{
    crate::quadtree::lemma_selecting_starts(pass, sources, jumped, focus);
    let i = 63 - (8 * y + x);
    assert((63 - i) % 8 == x && (63 - i) / 8 == y);
    assert(root_tiles()[i] == (TileKey { z: 3, x, y }));
}

proof fn lemma_block_steps(a: Pass, b: Pass, sources: &Sources, key: TileKey, n: nat, i: nat)
    requires
        steps(a, b, sources),
        key.z < 32,
    ensures
        ({
            let c = block_asked(b, sources, key, n);
            &&& steps(a, c, sources)
            &&& asks_more(b.pool, c.pool)
            &&& i < n && neighbour_of(key, i as int) is Some ==> {
                let near = neighbour_of(key, i as int)->0;
                let tile = a.tree.tiles.get(near);
                &&& !a.tree.frozen && lacks_mesh(tile, a.tree.frame) ==> asked_for(
                    c.pool,
                    JobKind::Terrain,
                    near,
                )
                &&& !a.tree.frozen && lacks_image(tile, a.tree.frame) && near.z
                    <= sources.imagery_max_zoom && (layers_left(a.tree) || no_image(
                    a.tree.tiles,
                    near,
                    1,
                )) ==> asked_for(c.pool, JobKind::Imagery, near)
            }
        }),
    decreases n,
{
    lemma_requested_asks(b.pool, mesh_request(sources, key, 0));
    if n > 0 {
        let m = (n - 1) as nat;
        lemma_block_steps(a, b, sources, key, m, i);
        let before = block_asked(b, sources, key, m);
        let rank = focus_rank(key.z);
        if let Some(near) = neighbour_of(key, m as int) {
            lemma_stock_of(a.tree.tiles, before.tree.tiles, near);
            lemma_mesh_asked_steps(a, before, sources, near, rank);
            let meshed = mesh_asked(before, sources, near, rank);
            lemma_imagery_asked_steps(a, meshed, sources, near, rank);
            let after = imagery_asked(meshed, sources, near, rank);
            lemma_asks_more(b.pool, before.pool, meshed.pool, JobKind::Terrain, near);
            lemma_asks_more(b.pool, meshed.pool, after.pool, JobKind::Terrain, near);
            if let Some(other) = neighbour_of(key, i as int) {
                lemma_asks_more(before.pool, meshed.pool, after.pool, JobKind::Terrain, other);
                lemma_asks_more(before.pool, meshed.pool, after.pool, JobKind::Imagery, other);
            }
        }
    }
}

proof fn lemma_focus_steps(
    a: Pass,
    sources: &Sources,
    keys: Seq<TileKey>,
    n: nat,
    f: nat,
    i: nat,
)
    requires
        n <= keys.len(),
        i < 9,
        forall|j: int| 0 <= j < keys.len() ==> (#[trigger] keys[j]).z < 32,
    ensures
        ({
            let c = focus_asked(a, sources, keys, n);
            &&& steps(a, c, sources)
            &&& f < n && neighbour_of(keys[f as int], i as int) is Some ==> {
                let near = neighbour_of(keys[f as int], i as int)->0;
                let tile = a.tree.tiles.get(near);
                &&& !a.tree.frozen && lacks_mesh(tile, a.tree.frame) ==> asked_for(
                    c.pool,
                    JobKind::Terrain,
                    near,
                )
                &&& !a.tree.frozen && lacks_image(tile, a.tree.frame) && near.z
                    <= sources.imagery_max_zoom && (layers_left(a.tree) || no_image(
                    a.tree.tiles,
                    near,
                    1,
                )) ==> asked_for(c.pool, JobKind::Imagery, near)
            }
        }),
    decreases n,
{
    lemma_same_stock_itself(a.tree.tiles);
    lemma_nothing_asked(a.tree, sources, a.pool);
    if n > 0 {
        let m = (n - 1) as nat;
        lemma_focus_steps(a, sources, keys, m, f, i);
        let before = focus_asked(a, sources, keys, m);
        lemma_block_steps(a, before, sources, keys[m as int], 9, i);
        let after = focus_asked(a, sources, keys, n);
        lemma_requested_asks(after.pool, mesh_request(sources, keys[m as int], 0));
        if let Some(near) = neighbour_of(keys[f as int], i as int) {
            lemma_asks_more(before.pool, after.pool, after.pool, JobKind::Terrain, near);
            lemma_asks_more(before.pool, after.pool, after.pool, JobKind::Imagery, near);
        }
    }
}

/// What is missing around the point looked at is asked for before anything is looked at: the
/// meshes and images of each tile of the focus and of those next to it on the grid. Nothing
/// is asked for that is not missing.
pub proof fn lemma_focus_asked_for(
    pass: Pass,
    sources: &Sources,
    jumped: bool,
    focus: Seq<TileKey>,
    f: nat,
    near: TileKey,
)
    requires
        !pass.tree.frozen,
        pass.tree.frame < u64::MAX,
        forall|j: int| 0 <= j < focus.len() ==> (#[trigger] focus[j]).z < 32,
        f < focus.len(),
        near.z == focus[f as int].z,
        near.x < pow2(near.z as nat),
        near.y < pow2(near.z as nat),
        focus[f as int].x - 1 <= near.x <= focus[f as int].x + 1,
        focus[f as int].y - 1 <= near.y <= focus[f as int].y + 1,
    ensures
        ({
            let start = TreeView { frame: (pass.tree.frame + 1) as u64, ..pass.tree };
            let tile = start.tiles.get(near);
            let after = selecting(pass, sources, jumped, focus);
            &&& lacks_mesh(tile, start.frame) ==> asked_for(after.pool, JobKind::Terrain, near)
            &&& lacks_image(tile, start.frame) && near.z <= sources.imagery_max_zoom && (
            layers_left(start) || no_image(start.tiles, near, 1)) ==> asked_for(
                after.pool,
                JobKind::Imagery,
                near,
            )
            &&& forall|i: int|
                pass.pool.queue.len() <= i < after.pool.queue.len() ==> request_right(
                    start,
                    sources,
                    #[trigger] after.pool.queue[i],
                )
        }),
{
    let key = focus[f as int];
    let fresh = Pass { tree: fresh_frame(pass.tree, jumped), ..pass };
    let start = TreeView { frame: (pass.tree.frame + 1) as u64, ..pass.tree };
    let i = (3 * (near.y - key.y + 1) + (near.x - key.x + 1)) as nat;
    assert(i % 3 == near.x - key.x + 1 && i / 3 == near.y - key.y + 1);
    assert(neighbour_of(key, i as int) == Some(near));
    lemma_focus_steps(fresh, sources, focus, focus.len(), f, i);
    let after = selecting(pass, sources, jumped, focus);
    reveal(asks_lacking);
    assert forall|j: int| pass.pool.queue.len() <= j < after.pool.queue.len() implies request_right(
        start,
        sources,
        #[trigger] after.pool.queue[j],
    ) by {
        assert(request_right(fresh.tree, sources, after.pool.queue[j]));
    }
}

/// Nothing is asked for by a look that is not missing, and nothing that was asked for is
/// forgotten.
pub proof fn lemma_only_missing_asked_for(pass: Pass, sources: &Sources, outlook: Outlook, i: int)
    requires
        pass.tree.pending.len() > 0,
        pass.tree.pending.last().z < 31,
        0 <= i < looked_at(pass, sources, outlook).pool.queue.len(),
    ensures
        ({
            let after = looked_at(pass, sources, outlook).pool;
            &&& after.active == pass.pool.active
            &&& pass.pool.queue.len() <= after.queue.len()
            &&& i < pass.pool.queue.len() ==> after.queue[i] == pass.pool.queue[i]
            &&& i >= pass.pool.queue.len() ==> request_right(pass.tree, sources, after.queue[i])
        }),
{
    if let Some(sight) = outlook.sight {
        let key = pass.tree.pending.last();
        let rest = TreeView { pending: pass.tree.pending.drop_last(), ..pass.tree };
        let a = Pass { tree: TreeView { visited: one_more(rest.visited), ..rest }, ..pass };
        lemma_seen_steps(a, sources, key, sight, outlook.quarters@, 0);
        reveal(asks_lacking);
        reveal(asks_more);
        let after = looked_at(pass, sources, outlook).pool;
        if i >= pass.pool.queue.len() {
            assert(request_right(a.tree, sources, after.queue[i]));
        }
    }
}

/// Whether `b` knows of every tile what `a` knows of it, but that some were used or drawn at
/// `frame`.
spec fn touched(a: TileMap, b: TileMap, frame: u64) -> bool {
    forall|k: TileKey|
        #![trigger b.get(k)]
        {
            let was = a.get(k);
            let now = b.get(k);
            &&& now == (Tile { last_used: now.last_used, last_drawn: now.last_drawn, ..was })
            &&& now.last_used == was.last_used || now.last_used == frame
            &&& now.last_drawn == was.last_drawn || now.last_drawn == frame
        }
}

proof fn lemma_put_touches(a: TileMap, b: TileMap, key: TileKey, tile: Tile, frame: u64)
    requires
        touched(a, b, frame),
        tile == (Tile { last_used: tile.last_used, last_drawn: tile.last_drawn, ..b.get(key) }),
        tile.last_used == b.get(key).last_used || tile.last_used == frame,
        tile.last_drawn == b.get(key).last_drawn || tile.last_drawn == frame,
    ensures
        touched(a, b.put(key, tile), frame),
{
    let after = b.put(key, tile);
    assert forall|k: TileKey| #[trigger] after.get(k) == (if k == key {
        tile
    } else {
        b.get(k)
    }) by {}
    assert(b.get(key).mesh == a.get(key).mesh);
}

proof fn lemma_quarters_touched(
    a: TileMap,
    pass: Pass,
    sources: &Sources,
    key: TileKey,
    which: Seq<bool>,
    rank: u64,
    n: nat,
)
    requires
        touched(a, pass.tree.tiles, pass.tree.frame),
    ensures
        ({
            let after = quarters_asked(pass, sources, key, which, rank, n).tree;
            &&& after.frame == pass.tree.frame
            &&& touched(a, after.tiles, pass.tree.frame)
        }),
    decreases n,
{
    if n > 0 {
        let m = (n - 1) as nat;
        lemma_quarters_touched(a, pass, sources, key, which, rank, m);
        let before = quarters_asked(pass, sources, key, which, rank, m).tree;
        let child = child_of(key, m);
        lemma_put_touches(
            a,
            before.tiles,
            child,
            Tile { last_used: before.frame, ..before.tiles.get(child) },
            before.frame,
        );
    }
}

proof fn lemma_found_touched(a: TileMap, tree: TreeView, key: TileKey, from: nat)
    requires
        touched(a, tree.tiles, tree.frame),
    ensures
        touched(a, found(tree, key, from).0.tiles, tree.frame),
        found(tree, key, from).0.frame == tree.frame,
{
    if let Some(l) = image_level(tree.tiles, key, from) {
        let above = ancestor_of(key, l);
        lemma_put_touches(
            a,
            tree.tiles,
            above,
            Tile { last_used: tree.frame, last_drawn: tree.frame, ..tree.tiles.get(above) },
            tree.frame,
        );
    }
}

/// What a look leaves on a tile that is seen. One that gives way is split and counts as
/// drawn. One that is drawn is whole: it begins to merge where it was split before, and to
/// unfold where it was not drawn in the frame before. Of all other tiles, it changes nothing
/// but that some count as used or drawn.
pub proof fn lemma_look_marks_tile(
    pass: Pass,
    sources: &Sources,
    outlook: Outlook,
    other: TileKey,
)
    requires
        pass.tree.pending.len() > 0,
        pass.tree.pending.last().z < 31,
        outlook.sight is Some,
    ensures
        ({
            let key = pass.tree.pending.last();
            let frame = pass.tree.frame;
            let was = pass.tree.tiles.get(key);
            let after = looked_at(pass, sources, outlook).tree.tiles;
            let now = after.get(key);
            let before = pass.tree.tiles.get(other);
            let way = gives_way(pass.tree, sources, key, outlook.sight->0, outlook.quarters@);
            &&& way ==> now == (Tile {
                split: true,
                last_used: frame,
                last_drawn: frame,
                ..was
            })
            &&& !way && was.mesh is Some && pass.tree.drawn.len() < MAX_DRAWN_TILES ==> {
                let fresh = !was.split && was.last_drawn + 1 < frame;
                &&& now == (Tile {
                    split: false,
                    last_used: frame,
                    last_drawn: frame,
                    unfold_at: now.unfold_at,
                    merge_at: now.merge_at,
                    ..was
                })
                &&& was.split ==> now.merge_at == frame && now.unfold_at == 0
                &&& fresh ==> now.unfold_at == frame && now.merge_at == 0
                &&& !was.split && !fresh ==> now.unfold_at == was.unfold_at && now.merge_at
                    == was.merge_at
            }
            &&& !way && was.mesh is None ==> !now.split && now.unfold_at == was.unfold_at
                && now.merge_at == was.merge_at && now.last_drawn == was.last_drawn
            &&& !way && was.mesh is None && pass.tree.drawn.len() < MAX_DRAWN_TILES
                ==> now.last_used == frame
            &&& other != key ==> after.get(other) == (Tile {
                last_used: after.get(other).last_used,
                last_drawn: after.get(other).last_drawn,
                ..before
            })
            &&& other != key ==> (after.get(other).last_used == before.last_used || after.get(
                other,
            ).last_used == frame) && (after.get(other).last_drawn == before.last_drawn
                || after.get(other).last_drawn == frame)
        }),
{
    let key = pass.tree.pending.last();
    let rest = TreeView { pending: pass.tree.pending.drop_last(), ..pass.tree };
    let a = Pass { tree: TreeView { visited: one_more(rest.visited), ..rest }, ..pass };
    let sight = outlook.sight->0;
    let seen = outlook.quarters@;
    let frame = a.tree.frame;
    let tile = a.tree.tiles.get(key);
    let way = gives_way(a.tree, sources, key, sight, seen);
    let after = looked_at(pass, sources, outlook).tree.tiles;
    lemma_way_given(a.tree, sources, key, sight, seen);
    if way {
        reveal(split_up);
        let marked = Tile { split: true, last_used: frame, last_drawn: frame, ..tile };
        let start = Pass {
            tree: TreeView { splits: one_more(a.tree.splits), ..a.tree }.with(key, marked),
            ..a
        };
        let all = seq![true, true, true, true];
        lemma_quarters_touched(
            start.tree.tiles,
            start,
            sources,
            key,
            all,
            seen_rank(sight.far),
            4,
        );
        assert(touched(start.tree.tiles, after, frame));
        assert(start.tree.tiles.get(key) == marked);
        assert(other != key ==> start.tree.tiles.get(other) == a.tree.tiles.get(other));
        assert(after.get(key).last_used == frame);
        assert(other != key ==> after.get(other).split == a.tree.tiles.get(other).split);
    } else {
        reveal(starved);
        let wanted = large_enough(a.tree, sources, key, sight) && (seen[0] || seen[1] || seen[2]
            || seen[3]);
        let hungry = Pass {
            tree: TreeView { starved_splits: one_more(a.tree.starved_splits), ..a.tree },
            ..a
        };
        lemma_quarters_untouching(a.tree.tiles, hungry, sources, key, seen, sight.near);
        lemma_same_stock_itself(a.tree.tiles);
        lemma_nothing_asked(a.tree, sources, a.pool);
        lemma_quarters_asked_steps(a, hungry, sources, key, seen, seen_rank(sight.near), 4, 0);
        let waiting = if wanted {
            starved(a, sources, key, sight, seen)
        } else {
            a
        };
        assert(touched(a.tree.tiles, waiting.tree.tiles, frame));
        assert(waiting.tree.frame == frame && waiting.tree.drawn == a.tree.drawn);
        let here = waiting.tree.tiles.get(key);
        assert(here.mesh == tile.mesh && here.last_drawn == tile.last_drawn);
        let bare = Tile { split: false, ..here };
        let whole = Pass { tree: waiting.tree.with(key, bare), ..waiting };
        assert(whole.tree.tiles.get(key) == bare);
        assert(other != key ==> whole.tree.tiles.get(other) == waiting.tree.tiles.get(other));
        assert(waiting.tree.tiles.get(other).split == a.tree.tiles.get(other).split);
        let asked = mesh_asked(whole, sources, key, seen_rank(sight.at));
        assert(asked.tree.tiles.get(key) == (Tile {
            last_used: asked.tree.tiles.get(key).last_used,
            ..bare
        }));
        assert(other != key ==> asked.tree.tiles.get(other) == whole.tree.tiles.get(other));
        lemma_drawing_marks(asked, sources, key, sight, tile.split, tile.last_drawn, other);
    }
}

proof fn lemma_quarters_untouching(
    a: TileMap,
    pass: Pass,
    sources: &Sources,
    key: TileKey,
    which: Seq<bool>,
    distance: u32,
)
    requires
        pass.tree.tiles == a,
    ensures
        ({
            let after = quarters_asked(pass, sources, key, which, seen_rank(distance), 4).tree.tiles;
            &&& touched(a, after, pass.tree.frame)
            &&& key.z < u8::MAX ==> after.get(key) == a.get(key)
        }),
{
    lemma_quarters_touched(a, pass, sources, key, which, seen_rank(distance), 4);
    lemma_quarters_spare_tile(pass, sources, key, which, seen_rank(distance), 4);
}

proof fn lemma_quarters_spare_tile(
    pass: Pass,
    sources: &Sources,
    key: TileKey,
    which: Seq<bool>,
    rank: u64,
    n: nat,
)
    ensures
        key.z < u8::MAX ==> quarters_asked(pass, sources, key, which, rank, n).tree.tiles.get(key)
            == pass.tree.tiles.get(key),
    decreases n,
{
    if n > 0 {
        lemma_quarters_spare_tile(pass, sources, key, which, rank, (n - 1) as nat);
    }
}

proof fn lemma_drawing_marks(
    b: Pass,
    sources: &Sources,
    key: TileKey,
    sight: Sight,
    was_split: bool,
    prev_drawn: u64,
    other: TileKey,
)
    ensures
        ({
            let frame = b.tree.frame;
            let was = b.tree.tiles.get(key);
            let after = drawn_tile(b, sources, key, sight, was_split, prev_drawn).tree.tiles;
            let now = after.get(key);
            let before = b.tree.tiles.get(other);
            &&& b.tree.drawn.len() >= MAX_DRAWN_TILES ==> now == was
            &&& b.tree.drawn.len() < MAX_DRAWN_TILES && was.mesh is None ==> now == (Tile {
                last_used: frame,
                ..was
            })
            &&& b.tree.drawn.len() < MAX_DRAWN_TILES && was.mesh is Some ==> now == drawn_at(
                was,
                frame,
                was_split,
                prev_drawn,
            )
            &&& other != key ==> after.get(other) == (Tile {
                last_used: after.get(other).last_used,
                last_drawn: after.get(other).last_drawn,
                ..before
            })
            &&& other != key ==> (after.get(other).last_used == before.last_used || after.get(
                other,
            ).last_used == frame) && (after.get(other).last_drawn == before.last_drawn
                || after.get(other).last_drawn == frame)
        }),
{
    reveal(drawn_tile);
    let frame = b.tree.frame;
    let tile = b.tree.tiles.get(key);
    if b.tree.drawn.len() < MAX_DRAWN_TILES && tile.mesh is Some {
        let shown = drawn_at(tile, frame, was_split, prev_drawn);
        let start = b.tree.with(key, shown);
        assert(start.tiles.get(key) == shown);
        assert(other != key ==> start.tiles.get(other) == b.tree.tiles.get(other));
        assert(touched(start.tiles, start.tiles, frame));
        let asked = imagery_asked(
            Pass { tree: start, ..b },
            sources,
            key,
            seen_rank(sight.at),
        ).tree;
        lemma_put_touches(start.tiles, start.tiles, key, shown, frame);
        assert(touched(start.tiles, asked.tiles, frame));
        lemma_found_touched(start.tiles, asked, key, 0);
        let tree1 = found(asked, key, 0).0;
        lemma_found_touched(start.tiles, tree1, key, 1);
        let after = drawn_tile(b, sources, key, sight, was_split, prev_drawn).tree.tiles;
        assert(touched(start.tiles, after, frame));
        assert(after.get(key).last_used == frame && after.get(key).last_drawn == frame);
        assert(after.get(other).split == start.tiles.get(other).split);
    }
}

/// Whether all that `b` lists beyond `a` has a rank of its own for `key`, and another for all
/// other tiles.
spec fn ranked(
    a: Seq<RequestView>,
    b: Seq<RequestView>,
    key: TileKey,
    own: int,
    others: int,
) -> bool {
    &&& a.len() <= b.len()
    &&& forall|i: int|
        a.len() <= i < b.len() ==> (#[trigger] b[i]).rank == (if b[i].key == key {
            own
        } else {
            others
        })
}

proof fn lemma_quarters_ranked(
    a: Seq<RequestView>,
    pass: Pass,
    sources: &Sources,
    key: TileKey,
    which: Seq<bool>,
    own: int,
    rank: u64,
    n: nat,
)
    requires
        ranked(a, pass.pool.queue, key, own, rank as int),
        key.z < 31,
    ensures
        ranked(
            a,
            quarters_asked(pass, sources, key, which, rank, n).pool.queue,
            key,
            own,
            rank as int,
        ),
    decreases n,
{
    if n > 0 {
        lemma_quarters_ranked(a, pass, sources, key, which, own, rank, (n - 1) as nat);
        assert(child_of(key, (n - 1) as nat).z == key.z + 1);
    }
}

/// What is near goes out first: what a look asks for a tile is ranked by the distance of the
/// tile, what it asks for quarters that are missing by half of it, and what it asks for
/// quarters that take its place by twice as much.
pub proof fn lemma_asked_by_distance(pass: Pass, sources: &Sources, outlook: Outlook, i: int)
    requires
        pass.tree.pending.len() > 0,
        pass.tree.pending.last().z < 31,
        outlook.sight is Some,
        pass.pool.queue.len() <= i < looked_at(pass, sources, outlook).pool.queue.len(),
    ensures
        ({
            let key = pass.tree.pending.last();
            let sight = outlook.sight->0;
            let request = looked_at(pass, sources, outlook).pool.queue[i];
            request.rank == 0x2_0000_0000 + (if request.key == key {
                sight.at
            } else if gives_way(pass.tree, sources, key, sight, outlook.quarters@) {
                sight.far
            } else {
                sight.near
            })
        }),
{
    let key = pass.tree.pending.last();
    let rest = TreeView { pending: pass.tree.pending.drop_last(), ..pass.tree };
    let a = Pass { tree: TreeView { visited: one_more(rest.visited), ..rest }, ..pass };
    let sight = outlook.sight->0;
    let seen = outlook.quarters@;
    let queue = pass.pool.queue;
    let own = 0x2_0000_0000 + sight.at;
    lemma_way_given(a.tree, sources, key, sight, seen);
    reveal(split_up);
    reveal(starved);
    reveal(drawn_tile);
    if gives_way(a.tree, sources, key, sight, seen) {
        let marked = Tile {
            split: true,
            last_used: a.tree.frame,
            last_drawn: a.tree.frame,
            ..a.tree.tiles.get(key)
        };
        let start = Pass {
            tree: TreeView { splits: one_more(a.tree.splits), ..a.tree }.with(key, marked),
            ..a
        };
        let all = seq![true, true, true, true];
        lemma_quarters_ranked(
            queue,
            start,
            sources,
            key,
            all,
            own,
            seen_rank(sight.far),
            4,
        );
    } else {
        let others = seen_rank(sight.near) as int;
        let hungry = Pass {
            tree: TreeView { starved_splits: one_more(a.tree.starved_splits), ..a.tree },
            ..a
        };
        lemma_quarters_ranked(
            queue,
            hungry,
            sources,
            key,
            seen,
            own,
            seen_rank(sight.near),
            4,
        );
        let after = looked_at(pass, sources, outlook).pool.queue;
        assert(ranked(queue, after, key, own, others));
    }
}

spec fn focus_ranked(a: Seq<RequestView>, b: Seq<RequestView>) -> bool {
    &&& a.len() <= b.len()
    &&& forall|i: int|
        a.len() <= i < b.len() ==> (#[trigger] b[i]).rank == 0x1_0000_0000 + b[i].key.z
}

proof fn lemma_block_ranked(
    a: Seq<RequestView>,
    pass: Pass,
    sources: &Sources,
    key: TileKey,
    n: nat,
)
    requires
        focus_ranked(a, pass.pool.queue),
    ensures
        focus_ranked(a, block_asked(pass, sources, key, n).pool.queue),
    decreases n,
{
    if n > 0 {
        lemma_block_ranked(a, pass, sources, key, (n - 1) as nat);
        let before = block_asked(pass, sources, key, (n - 1) as nat);
        let rank = focus_rank(key.z);
        if let Some(near) = neighbour_of(key, n - 1) {
            assert(near.z == key.z);
            let meshed = mesh_asked(before, sources, near, rank);
            assert(focus_ranked(a, meshed.pool.queue));
            assert(focus_ranked(a, imagery_asked(meshed, sources, near, rank).pool.queue));
        }
    }
}

proof fn lemma_focus_ranked(
    a: Seq<RequestView>,
    pass: Pass,
    sources: &Sources,
    keys: Seq<TileKey>,
    n: nat,
)
    requires
        focus_ranked(a, pass.pool.queue),
    ensures
        focus_ranked(a, focus_asked(pass, sources, keys, n).pool.queue),
    decreases n,
{
    if n > 0 {
        lemma_focus_ranked(a, pass, sources, keys, (n - 1) as nat);
        lemma_block_ranked(
            a,
            focus_asked(pass, sources, keys, (n - 1) as nat),
            sources,
            keys[n - 1],
            9,
        );
    }
}

/// What is asked for around the point looked at goes out before all that is merely seen, the
/// coarse before the fine.
pub proof fn lemma_focus_goes_out_first(
    pass: Pass,
    sources: &Sources,
    jumped: bool,
    focus: Seq<TileKey>,
    i: int,
)
    requires
        pass.pool.queue.len() <= i < selecting(pass, sources, jumped, focus).pool.queue.len(),
    ensures
        ({
            let request = selecting(pass, sources, jumped, focus).pool.queue[i];
            request.rank == 0x1_0000_0000 + request.key.z
        }),
{
    let fresh = Pass { tree: fresh_frame(pass.tree, jumped), ..pass };
    lemma_focus_ranked(pass.pool.queue, fresh, sources, focus, focus.len());
}

/// The mesh that stands for the ground of a tile is the nearest at or above it.
pub proof fn lemma_nearest_mesh(tiles: TileMap, key: TileKey, from: nat)
    ensures
        match crate::quadtree::mesh_level(tiles, key, from) {
            Some(levels) => from <= levels <= key.z && forall|m: nat, t: TileKey|
                #![trigger lies_above(t, key, m)]
                from <= m <= levels && lies_above(t, key, m) ==> (tiles.get(t).mesh is Some <==> m
                    == levels),
            None => forall|m: nat, t: TileKey|
                #![trigger lies_above(t, key, m)]
                from <= m && lies_above(t, key, m) ==> tiles.get(t).mesh is None,
        },
    decreases key.z + 1 - from,
{
    if from <= key.z {
        lemma_nearest_mesh(tiles, key, from + 1);
        assert forall|t: TileKey| #[trigger] lies_above(t, key, from) implies t == ancestor_of(
            key,
            from,
        ) by {
            lemma_lies_above(t, key, from);
        }
    }
}

} // verus!
