//! The tree of tiles: which are drawn, which are asked for, and which stay.
use crate::stream::{count_one, Incoming, JobKind, Point, WorkerPool};
#[allow(unused_imports)]
use crate::stream::{one_more, requested, PoolView, RequestView};
#[allow(unused_imports)]
use crate::tiles::{lemma_put_get, TileMap};
use crate::tiles::{MeshRes, Tile, TileStore};
#[allow(unused_imports)]
use crate::tiling::{
    ancestor_of, child_of, covers, lemma_ancestor_of_none, neighbour_of, on_grid, terrain_levels,
    tile_url, window_of,
};
use crate::tiling::{
    imagery_url, max_tile_zoom, terrain_source, uv_window, Sources, TileKey, UvWindow,
};
use vstd::prelude::*;

verus! {

/// The level at which the tree starts.
pub const ROOT_LEVEL: u8 = 3;

/// How often a tile is asked for in vain.
pub const MAX_RETRIES: u8 = 3;

/// How many frames pass before a tile that failed is asked for again.
pub const RETRY_DELAY_FRAMES: u64 = 120;

/// Over how many frames a fresh image fades in.
pub const IMAGERY_FADE_FRAMES: u64 = 15;

/// Over how many frames a tile unfolds or merges.
pub const GEOMORPH_FRAMES: u64 = 18;

/// For how many frames a tile that was drawn is not evicted.
pub const EVICT_PROTECT_FRAMES: u64 = 30;

/// How many uploads may wait for a later frame.
pub const MAX_DEFERRED: usize = 512;

/// How many levels a report tells apart.
pub const MAX_LEVELS: usize = 24;

/// After how many frames a tile that is not used gives up what it holds.
pub const RETIRE_AFTER_FRAMES: u64 = 240;

/// The same, when memory is short after the camera jumped.
pub const RETIRE_JUMP_FRAMES: u64 = 15;

/// The same, when memory is short.
pub const RETIRE_PRESSURE_FRAMES: u64 = 60;

/// How many tiles are drawn at the most.
pub const MAX_DRAWN_TILES: u32 = 4096;

/// How many tiles are known before those of no use are forgotten.
pub const PRUNE_AT: usize = 8000;

/// For how many frames a tile of no use is remembered.
pub const PRUNE_AFTER_FRAMES: u64 = 600;

/// How many colors tell levels apart.
pub const LEVEL_COLORS: u8 = 12;

/// The last of the debug modes.
pub const LAST_DEBUG_MODE: u32 = 5;

/// The last frame that the tree counts to.
pub const MAX_FRAME: u64 = 0xffff_ffff_ffff_0000;

/// How much of an arena is taken.
#[derive(Copy, Clone, PartialEq, Eq, Debug, Structural)]
pub struct Pressure {
    pub used: u32,
    pub capacity: u32,
}

/// Whether more than 85 percent are taken.
pub open spec fn trims(p: Pressure) -> bool {
    20 * p.used > 17 * p.capacity
}

/// Whether less than 85 percent are taken.
pub open spec fn roomy(p: Pressure) -> bool {
    20 * p.used < 17 * p.capacity
}

/// Whether less than 95 percent are taken.
pub open spec fn bearable(p: Pressure) -> bool {
    20 * p.used < 19 * p.capacity
}

impl Pressure {
    /// Whether more than 85 percent are taken.
    pub fn trims(&self) -> (yes: bool)
        ensures
            yes == trims(*self),
    {
        20 * (self.used as u64) > 17 * (self.capacity as u64)
    }

    /// Whether less than 85 percent are taken.
    pub fn roomy(&self) -> (yes: bool)
        ensures
            yes == roomy(*self),
    {
        20 * (self.used as u64) < 17 * (self.capacity as u64)
    }

    /// Whether less than 95 percent are taken.
    pub fn bearable(&self) -> (yes: bool)
        ensures
            yes == bearable(*self),
    {
        20 * (self.used as u64) < 19 * (self.capacity as u64)
    }
}

/// An image and the part of it that a tile shows.
#[derive(Copy, Clone, PartialEq, Eq, Debug, Structural)]
pub struct Texture {
    pub layer: u32,
    pub window: UvWindow,
}

/// The image of a tile, the one it fades in over, and for how many frames it has
/// been there.
#[derive(Copy, Clone, PartialEq, Eq, Debug, Structural)]
pub struct Shading {
    pub own: Option<Texture>,
    pub prev: Option<Texture>,
    pub age: u64,
}

/// The color that a tile is tinted with to show what the tree knows of it.
#[derive(Copy, Clone, PartialEq, Eq, Debug, Structural)]
pub enum Tint {
    /// None.
    Plain,
    /// The color of a level.
    Level(u8),
    /// It failed for good.
    Failed,
    /// Something of it waits to be uploaded.
    Inbound,
    /// It has an image of its own.
    OwnImage,
    /// It waits for an image of its own.
    Waiting,
    /// Its image is that of a tile so many levels up.
    Depth(u8),
    /// It has no image.
    NoImage,
    /// The color of a slot.
    Slot(u8, u8, u8),
}

/// A tile that is drawn in this frame.
#[derive(Copy, Clone, PartialEq, Eq, Debug, Structural)]
pub struct DrawnTile {
    pub key: TileKey,
    pub slot: u32,
    pub center: Point,
    pub shading: Shading,
    /// How many frames of unfolding have passed.
    pub unfolded: u64,
    /// How many frames of merging have passed.
    pub merged: u64,
    pub tint: Tint,
}

/// The tree of tiles.
pub struct TileTree {
    pub tiles: TileStore,
    pub frame: u64,
    /// What this frame has yet to look at, the next one last.
    pub pending: Vec<TileKey>,
    pub drawn: Vec<DrawnTile>,
    pub max_level_drawn: u8,
    pub min_level_drawn: u8,
    pub uploaded_bytes: usize,
    pub deferred_uploads: usize,
    pub mesh_evictions: u64,
    pub imagery_evictions: u64,
    pub upload_stalls: u64,
    pub dropped_uploads: u64,
    pub splits: u32,
    pub starved_splits: u32,
    pub visited: u32,
    pub culled: u32,
    pub blocked_splits: u32,
    pub mesh_pressure: Pressure,
    pub layer_pressure: Pressure,
    pub retired_meshes: u64,
    pub retired_imagery: u64,
    pub camera_jumped: bool,
    pub frozen: bool,
    pub debug_mode: u32,
    pub models: Vec<Incoming>,
    pub icons: Vec<Incoming>,
}

#[verifier::ext_equal]
pub struct TreeView {
    pub tiles: TileMap,
    pub frame: u64,
    pub pending: Seq<TileKey>,
    pub drawn: Seq<DrawnTile>,
    pub max_level_drawn: u8,
    pub min_level_drawn: u8,
    pub uploaded_bytes: usize,
    pub deferred_uploads: usize,
    pub mesh_evictions: u64,
    pub imagery_evictions: u64,
    pub upload_stalls: u64,
    pub dropped_uploads: u64,
    pub splits: u32,
    pub starved_splits: u32,
    pub visited: u32,
    pub culled: u32,
    pub blocked_splits: u32,
    pub mesh_pressure: Pressure,
    pub layer_pressure: Pressure,
    pub retired_meshes: u64,
    pub retired_imagery: u64,
    pub camera_jumped: bool,
    pub frozen: bool,
    pub debug_mode: u32,
    pub models: Seq<Incoming>,
    pub icons: Seq<Incoming>,
}

impl View for TileTree {
    type V = TreeView;

    open spec fn view(&self) -> TreeView {
        TreeView {
            tiles: self.tiles@,
            frame: self.frame,
            pending: self.pending@,
            drawn: self.drawn@,
            max_level_drawn: self.max_level_drawn,
            min_level_drawn: self.min_level_drawn,
            uploaded_bytes: self.uploaded_bytes,
            deferred_uploads: self.deferred_uploads,
            mesh_evictions: self.mesh_evictions,
            imagery_evictions: self.imagery_evictions,
            upload_stalls: self.upload_stalls,
            dropped_uploads: self.dropped_uploads,
            splits: self.splits,
            starved_splits: self.starved_splits,
            visited: self.visited,
            culled: self.culled,
            blocked_splits: self.blocked_splits,
            mesh_pressure: self.mesh_pressure,
            layer_pressure: self.layer_pressure,
            retired_meshes: self.retired_meshes,
            retired_imagery: self.retired_imagery,
            camera_jumped: self.camera_jumped,
            frozen: self.frozen,
            debug_mode: self.debug_mode,
            models: self.models@,
            icons: self.icons@,
        }
    }
}

/// Whether no time noted of `tile` lies after `frame`, but for those at which it
/// is asked for again.
pub open spec fn stamped_by(tile: Tile, frame: u64) -> bool {
    &&& tile.last_used <= frame
    &&& tile.last_drawn <= frame
    &&& tile.imagery_at <= frame
    &&& tile.unfold_at <= frame
    &&& tile.merge_at <= frame
    &&& tile.mesh_retry_at <= frame + RETRY_DELAY_FRAMES
    &&& tile.imagery_retry_at <= frame + RETRY_DELAY_FRAMES
}

/// Whether neither of two tiles covers the other.
pub open spec fn apart(a: TileKey, b: TileKey) -> bool {
    !covers(a, b) && !covers(b, a)
}

/// Whether no time noted of a tile lies in the future.
#[verifier::opaque]
pub open spec fn stamps_past(tiles: TileMap, frame: u64) -> bool {
    &&& tiles.wf()
    &&& frame <= MAX_FRAME
    &&& forall|k: TileKey| stamped_by(#[trigger] tiles.get(k), frame)
}

/// Whether no two of the tiles that are drawn or waited for share ground, and
/// each that is waited for is a tile of the grid.
#[verifier::opaque]
pub open spec fn ground_once(pending: Seq<TileKey>, drawn: Seq<DrawnTile>) -> bool {
    &&& drawn.len() <= MAX_DRAWN_TILES
    &&& forall|i: int|
        0 <= i < pending.len() ==> on_grid(#[trigger] pending[i]) && ROOT_LEVEL <= pending[i].z
            <= crate::tiling::MAX_TREE_ZOOM
    &&& forall|i: int, j: int|
        #![trigger pending[i], pending[j]]
        0 <= i < j < pending.len() ==> apart(pending[i], pending[j])
    &&& forall|i: int, j: int|
        #![trigger pending[i], drawn[j]]
        0 <= i < pending.len() && 0 <= j < drawn.len() ==> apart(pending[i], drawn[j].key)
    &&& forall|i: int, j: int|
        #![trigger drawn[i], drawn[j]]
        0 <= i < j < drawn.len() ==> apart(drawn[i].key, drawn[j].key)
}

impl TreeView {
    /// Whether what is drawn and waited for shares no ground, and no time noted of
    /// a tile lies in the future.
    pub open spec fn wf(self) -> bool {
        stamps_past(self.tiles, self.frame) && ground_once(self.pending, self.drawn)
    }

    /// The tree after `tile` was put at `key`.
    pub open spec fn with(self, key: TileKey, tile: Tile) -> TreeView {
        TreeView { tiles: self.tiles.put(key, tile), ..self }
    }
}

impl TileTree {
    pub open spec fn wf(&self) -> bool {
        self.tiles.wf() && self@.wf()
    }

    /// An empty tree before its first frame.
    pub fn new() -> (tree: Self)
        ensures
            tree.wf(),
            tree@ == (TreeView {
                tiles: TileMap { order: Seq::empty(), at: Map::empty() },
                frame: 0,
                pending: Seq::empty(),
                drawn: Seq::empty(),
                max_level_drawn: 0,
                min_level_drawn: 0,
                uploaded_bytes: 0,
                deferred_uploads: 0,
                mesh_evictions: 0,
                imagery_evictions: 0,
                upload_stalls: 0,
                dropped_uploads: 0,
                splits: 0,
                starved_splits: 0,
                visited: 0,
                culled: 0,
                blocked_splits: 0,
                mesh_pressure: Pressure { used: 0, capacity: 1 },
                layer_pressure: Pressure { used: 0, capacity: 1 },
                retired_meshes: 0,
                retired_imagery: 0,
                camera_jumped: false,
                frozen: false,
                debug_mode: 0,
                models: Seq::empty(),
                icons: Seq::empty(),
            }),
    {
        proof {
            reveal(stamps_past);
            reveal(ground_once);
        }
        TileTree {
            tiles: TileStore::new(),
            frame: 0,
            pending: Vec::new(),
            drawn: Vec::new(),
            max_level_drawn: 0,
            min_level_drawn: 0,
            uploaded_bytes: 0,
            deferred_uploads: 0,
            mesh_evictions: 0,
            imagery_evictions: 0,
            upload_stalls: 0,
            dropped_uploads: 0,
            splits: 0,
            starved_splits: 0,
            visited: 0,
            culled: 0,
            blocked_splits: 0,
            mesh_pressure: Pressure { used: 0, capacity: 1 },
            layer_pressure: Pressure { used: 0, capacity: 1 },
            retired_meshes: 0,
            retired_imagery: 0,
            camera_jumped: false,
            frozen: false,
            debug_mode: 0,
            models: Vec::new(),
            icons: Vec::new(),
        }
    }
}

/// How many levels above `key`, `from` at the least, the nearest tile with an
/// image is.
pub open spec fn image_level(tiles: TileMap, key: TileKey, from: nat) -> Option<nat>
    decreases key.z + 1 - from,
{
    if from > key.z {
        None
    } else if tiles.get(ancestor_of(key, from)).imagery is Some {
        Some(from)
    } else {
        image_level(tiles, key, from + 1)
    }
}

/// The image that is found is the nearest.
pub proof fn lemma_image_level_nearest(tiles: TileMap, key: TileKey, from: nat)
    ensures
        image_level(tiles, key, from) matches Some(n) ==> from <= n <= key.z && tiles.get(
            ancestor_of(key, n),
        ).imagery is Some && forall|l: nat|
            from <= l < n ==> tiles.get(#[trigger] ancestor_of(key, l)).imagery is None,
        image_level(tiles, key, from) is None ==> forall|l: nat|
            from <= l <= key.z ==> tiles.get(#[trigger] ancestor_of(key, l)).imagery is None,
    decreases key.z + 1 - from,
{
    if from <= key.z && tiles.get(ancestor_of(key, from)).imagery is None {
        lemma_image_level_nearest(tiles, key, from + 1);
        assert forall|l: nat|
            from <= l && (match image_level(tiles, key, from) {
                Some(n) => l < n,
                None => l <= key.z,
            }) implies tiles.get(#[trigger] ancestor_of(key, l)).imagery is None by {
            if l > from {
                assert(from + 1 <= l);
            }
        }
    }
}

/// How many levels above `key` the nearest tile with a mesh is.
pub open spec fn mesh_level(tiles: TileMap, key: TileKey, from: nat) -> Option<nat>
    decreases key.z + 1 - from,
{
    if from > key.z {
        None
    } else if tiles.get(ancestor_of(key, from)).mesh is Some {
        Some(from)
    } else {
        mesh_level(tiles, key, from + 1)
    }
}

/// Whether the mesh of a tile is to be asked for.
pub open spec fn mesh_wanted(tile: Tile, frame: u64) -> bool {
    tile.mesh is None && !tile.mesh_inbound && tile.mesh_fails < MAX_RETRIES && tile.mesh_retry_at
        <= frame
}

/// Whether the image of a tile is to be asked for.
pub open spec fn imagery_wanted(tile: Tile, frame: u64) -> bool {
    tile.imagery is None && !tile.imagery_inbound && tile.imagery_fails < MAX_RETRIES
        && tile.imagery_retry_at <= frame
}

/// The job that fetches the mesh of `key`.
pub open spec fn mesh_request(sources: &Sources, key: TileKey, rank: u64) -> RequestView {
    RequestView {
        kind: JobKind::Terrain,
        key,
        url: tile_url(sources.terrain@, ancestor_of(key, terrain_levels(sources, key))),
        extra_url: Seq::empty(),
        uv: window_of(key, terrain_levels(sources, key)),
        rank,
    }
}

/// The job that fetches the image of `key`.
pub open spec fn imagery_request(sources: &Sources, key: TileKey, rank: u64) -> RequestView {
    RequestView {
        kind: JobKind::Imagery,
        key,
        url: tile_url(sources.imagery@, key),
        extra_url: Seq::empty(),
        uv: UvWindow { span: 1, du: 0, dv: 0 },
        rank,
    }
}

/// The tree and the pool that it asks.
#[verifier::ext_equal]
pub struct Pass {
    pub tree: TreeView,
    pub pool: PoolView,
}

/// After the mesh of `key` was asked for, unless the tree is frozen. The tile
/// counts as used either way.
pub open spec fn mesh_asked(pass: Pass, sources: &Sources, key: TileKey, rank: u64) -> Pass {
    let frame = pass.tree.frame;
    let tile = pass.tree.tiles.get(key);
    if pass.tree.frozen {
        pass
    } else {
        Pass {
            tree: pass.tree.with(key, Tile { last_used: frame, ..tile }),
            pool: if mesh_wanted(tile, frame) {
                requested(pass.pool, mesh_request(sources, key, rank))
            } else {
                pass.pool
            },
        }
    }
}

/// After the image of `key` was asked for, unless the tree is frozen, the source
/// has none that deep, or layers are short and a tile above has one.
pub open spec fn imagery_asked(pass: Pass, sources: &Sources, key: TileKey, rank: u64) -> Pass {
    let frame = pass.tree.frame;
    let tile = pass.tree.tiles.get(key);
    if pass.tree.frozen || key.z > sources.imagery_max_zoom || (trims(pass.tree.layer_pressure)
        && image_level(pass.tree.tiles, key, 1) is Some) {
        pass
    } else {
        Pass {
            tree: pass.tree.with(key, tile),
            pool: if imagery_wanted(tile, frame) {
                requested(pass.pool, imagery_request(sources, key, rank))
            } else {
                pass.pool
            },
        }
    }
}

pub proof fn lemma_stamped(tree: TreeView, key: TileKey)
    requires
        tree.wf(),
    ensures
        stamped_by(tree.tiles.get(key), tree.frame),
        tree.frame <= MAX_FRAME,
        tree.tiles.wf(),
{
    reveal(stamps_past);
}

pub proof fn lemma_with_keeps_wf(tree: TreeView, key: TileKey, tile: Tile)
    requires
        tree.wf(),
        stamped_by(tile, tree.frame),
    ensures
        tree.with(key, tile).wf(),
{
    reveal(stamps_past);
    let after = tree.with(key, tile);
    assert forall|k: TileKey| stamped_by(#[trigger] after.tiles.get(k), tree.frame) by {
        lemma_put_get(tree.tiles, key, tile, k);
        assert(stamped_by(tree.tiles.get(k), tree.frame));
    }
    lemma_put_get(tree.tiles, key, tile, key);
}

impl TileTree {
    pub(crate) fn put(&mut self, key: TileKey, tile: Tile)
        requires
            old(self).wf(),
            stamped_by(tile, old(self).frame),
        ensures
            final(self).wf(),
            final(self)@ == old(self)@.with(key, tile),
    {
        proof {
            lemma_with_keeps_wf(self@, key, tile);
        }
        self.tiles.put(key, tile);
        assert(self@ =~= old(self)@.with(key, tile));
    }

    /// How many levels above `key`, `from` at the least, the nearest tile with an
    /// image is.
    pub fn image_level(&self, key: TileKey, from: u8) -> (level: Option<u8>)
        requires
            self.wf(),
            key.z < 32,
            from < 32,
        ensures
            match level {
                Some(l) => image_level(self@.tiles, key, from as nat) == Some(l as nat)
                    && from <= l <= key.z,
                None => image_level(self@.tiles, key, from as nat) is None,
            },
    {
        let mut level: u8 = from;
        while level <= key.z
            invariant
                self.wf(),
                key.z < 32,
                from <= level <= 32,
                image_level(self@.tiles, key, from as nat) == image_level(
                    self@.tiles,
                    key,
                    level as nat,
                ),
            decreases 33 - level,
        {
            if self.tiles.tile(key.ancestor(level)).imagery.is_some() {
                return Some(level);
            }
            level = level + 1;
        }
        None
    }

    /// How many levels above `key` its image is, or that it has none.
    pub fn imagery_depth(&self, key: TileKey) -> (depth: Option<u8>)
        requires
            self.wf(),
            key.z < 32,
        ensures
            match depth {
                Some(l) => image_level(self@.tiles, key, 0) == Some(l as nat),
                None => image_level(self@.tiles, key, 0) is None,
            },
    {
        self.image_level(key, 0)
    }

    /// Whether a tile above `key` has an image.
    pub fn covered_by_ancestor(&self, key: TileKey) -> (covered: bool)
        requires
            self.wf(),
            key.z < 32,
        ensures
            covered == (image_level(self@.tiles, key, 1) is Some),
    {
        self.image_level(key, 1).is_some()
    }

    /// The lowest and highest ground of the nearest mesh at or above `key`, as the
    /// bits of floats.
    pub fn height_range(&self, key: TileKey) -> (range: Option<(u32, u32)>)
        requires
            self.wf(),
            key.z < 32,
        ensures
            match mesh_level(self@.tiles, key, 0) {
                Some(l) => {
                    let mesh = self@.tiles.get(ancestor_of(key, l)).mesh->0;
                    range == Some((mesh.min_height, mesh.max_height))
                },
                None => range is None,
            },
    {
        let mut level: u8 = 0;
        while level <= key.z
            invariant
                self.wf(),
                key.z < 32,
                level <= 32,
                mesh_level(self@.tiles, key, 0) == mesh_level(self@.tiles, key, level as nat),
            decreases 33 - level,
        {
            if let Some(mesh) = self.tiles.tile(key.ancestor(level)).mesh {
                return Some((mesh.min_height, mesh.max_height));
            }
            level = level + 1;
        }
        None
    }

    /// Whether `key` has a mesh.
    pub fn renderable(&self, key: TileKey) -> (yes: bool)
        requires
            self.wf(),
        ensures
            yes == (self@.tiles.get(key).mesh is Some),
    {
        self.tiles.tile(key).mesh.is_some()
    }

    /// Whether the mesh of `key` is not asked for any more.
    pub fn exhausted(&self, key: TileKey) -> (yes: bool)
        requires
            self.wf(),
        ensures
            yes == (self@.tiles.get(key).mesh_fails >= MAX_RETRIES),
    {
        self.tiles.tile(key).mesh_fails >= MAX_RETRIES
    }

    /// Asks for the mesh of `key`.
    pub fn request_mesh(
        &mut self,
        key: TileKey,
        pool: &mut WorkerPool,
        sources: &Sources,
        rank: u64,
    )
        requires
            old(self).wf(),
            old(pool).wf(),
            terrain_levels(sources, key) < 32,
        ensures
            final(self).wf(),
            final(pool).wf(),
            (Pass { tree: final(self)@, pool: final(pool)@ }) == mesh_asked(
                Pass { tree: old(self)@, pool: old(pool)@ },
                sources,
                key,
                rank,
            ),
    {
        if self.frozen {
            return;
        }
        let frame: u64 = self.frame;
        let mut tile: Tile = self.tiles.tile(key);
        proof {
            lemma_stamped(self@, key);
        }
        tile.last_used = frame;
        self.put(key, tile);
        if tile.mesh.is_some() || tile.mesh_inbound || tile.mesh_fails >= MAX_RETRIES
            || tile.mesh_retry_at > frame {
            return;
        }
        let (url, uv) = terrain_source(sources, key);
        pool.request(JobKind::Terrain, key, url, uv, rank);
    }

    /// Asks for the image of `key`.
    pub fn request_imagery(
        &mut self,
        key: TileKey,
        pool: &mut WorkerPool,
        sources: &Sources,
        rank: u64,
    )
        requires
            old(self).wf(),
            old(pool).wf(),
            key.z < 32,
        ensures
            final(self).wf(),
            final(pool).wf(),
            (Pass { tree: final(self)@, pool: final(pool)@ }) == imagery_asked(
                Pass { tree: old(self)@, pool: old(pool)@ },
                sources,
                key,
                rank,
            ),
    {
        if self.frozen {
            return;
        }
        if key.z > sources.imagery_max_zoom {
            return;
        }
        if self.layer_pressure.trims() && self.covered_by_ancestor(key) {
            return;
        }
        let frame: u64 = self.frame;
        let tile: Tile = self.tiles.tile(key);
        proof {
            lemma_stamped(self@, key);
        }
        self.put(key, tile);
        if tile.imagery.is_some() || tile.imagery_inbound || tile.imagery_fails >= MAX_RETRIES
            || tile.imagery_retry_at > frame {
            return;
        }
        pool.request(
            JobKind::Imagery,
            key,
            imagery_url(sources, key),
            UvWindow { span: 1, du: 0, dv: 0 },
            rank,
        );
    }
}

/// The nearest image at or above `key`, `from` levels up at the least. The tile
/// that has it counts as used and drawn.
pub open spec fn found(tree: TreeView, key: TileKey, from: nat) -> (TreeView, Option<Texture>) {
    match image_level(tree.tiles, key, from) {
        Some(l) => {
            let tile = tree.tiles.get(ancestor_of(key, l));
            (
                tree.with(
                    ancestor_of(key, l),
                    Tile { last_used: tree.frame, last_drawn: tree.frame, ..tile },
                ),
                Some(Texture { layer: tile.imagery->0, window: window_of(key, l) }),
            )
        },
        None => (tree, None),
    }
}

/// How `key` is shaded: its own image fades in over that of a tile above, and
/// over itself where there is no other.
pub open spec fn resolved(tree: TreeView, key: TileKey) -> (TreeView, Shading) {
    let (tree1, own) = found(tree, key, 0);
    let (tree2, coarse) = if key.z > 0 {
        found(tree1, key, 1)
    } else {
        (tree1, None)
    };
    let arrived = tree2.tiles.get(key).imagery_at;
    let shading = match own {
        Some(texture) => Shading {
            own,
            prev: if coarse is Some && coarse->0.layer != texture.layer {
                coarse
            } else {
                own
            },
            age: if tree.frame >= arrived {
                (tree.frame - arrived) as u64
            } else {
                0
            },
        },
        None => Shading { own, prev: coarse, age: 0 },
    };
    (tree2, shading)
}

/// The color of a slot: three bytes of its number spread over 32 bits.
pub open spec fn slot_color(slot: u32) -> Tint {
    let hash = (slot as nat * 2_654_435_761) % 0x1_0000_0000;
    Tint::Slot((hash / 0x1_0000 % 0x100) as u8, (hash / 0x100 % 0x100) as u8, (hash % 0x100) as u8)
}

/// The color that shows what the tree knows of `key`, by the mode of the tree.
pub open spec fn tint_of(tree: TreeView, key: TileKey, slot: u32) -> Tint {
    let tile = tree.tiles.get(key);
    if tree.debug_mode == 1 {
        Tint::Level((key.z % LEVEL_COLORS) as u8)
    } else if tree.debug_mode == 2 {
        if tile.mesh_fails >= MAX_RETRIES || tile.imagery_fails >= MAX_RETRIES {
            Tint::Failed
        } else if tile.mesh_inbound || tile.imagery_inbound {
            Tint::Inbound
        } else if tile.imagery is Some {
            Tint::OwnImage
        } else {
            Tint::Waiting
        }
    } else if tree.debug_mode == 3 {
        match image_level(tree.tiles, key, 0) {
            Some(l) => Tint::Depth(l as u8),
            None => Tint::NoImage,
        }
    } else if tree.debug_mode == 4 {
        slot_color(slot)
    } else {
        Tint::Plain
    }
}

/// How many frames of a change that began at `at` have passed: all of them where
/// none began.
pub open spec fn ramp_of(at: u64, frame: u64) -> u64 {
    if at == 0 || frame - at >= GEOMORPH_FRAMES {
        GEOMORPH_FRAMES
    } else if frame <= at {
        0
    } else {
        (frame - at) as u64
    }
}

/// How many frames of a change that began at `at` have passed.
pub fn ramp(at: u64, frame: u64) -> (passed: u64)
    ensures
        passed == ramp_of(at, frame),
        passed <= GEOMORPH_FRAMES,
{
    if at == 0 {
        return GEOMORPH_FRAMES;
    }
    let passed: u64 = frame.saturating_sub(at);
    if passed >= GEOMORPH_FRAMES {
        GEOMORPH_FRAMES
    } else {
        passed
    }
}

impl TileTree {
    fn find_imagery(&mut self, key: TileKey, from: u8) -> (texture: Option<Texture>)
        requires
            old(self).wf(),
            key.z < 32,
            from < 32,
        ensures
            final(self).wf(),
            (final(self)@, texture) == found(old(self)@, key, from as nat),
    {
        match self.image_level(key, from) {
            Some(level) => {
                let above: TileKey = key.ancestor(level);
                let mut tile: Tile = self.tiles.tile(above);
                proof {
                    lemma_image_level_nearest(self@.tiles, key, from as nat);
                    lemma_stamped(self@, above);
                }
                tile.last_used = self.frame;
                tile.last_drawn = self.frame;
                self.put(above, tile);
                match tile.imagery {
                    Some(layer) => Some(Texture { layer, window: uv_window(key, level) }),
                    None => None,
                }
            },
            None => None,
        }
    }

    fn resolve_imagery(&mut self, key: TileKey) -> (shading: Shading)
        requires
            old(self).wf(),
            key.z < 32,
        ensures
            final(self).wf(),
            (final(self)@, shading) == resolved(old(self)@, key),
    {
        let own: Option<Texture> = self.find_imagery(key, 0);
        let coarse: Option<Texture> = if key.z > 0 {
            self.find_imagery(key, 1)
        } else {
            None
        };
        match own {
            Some(texture) => {
                let age: u64 = self.frame.saturating_sub(self.tiles.tile(key).imagery_at);
                let prev: Option<Texture> = match coarse {
                    Some(other) => if other.layer != texture.layer {
                        coarse
                    } else {
                        own
                    },
                    None => own,
                };
                Shading { own, prev, age }
            },
            None => Shading { own: None, prev: coarse, age: 0 },
        }
    }

    /// The color that shows what the tree knows of `key`.
    pub fn debug_color(&self, key: TileKey, slot: u32) -> (tint: Tint)
        requires
            self.wf(),
            key.z < 32,
        ensures
            tint == tint_of(self@, key, slot),
    {
        match self.debug_mode {
            1 => Tint::Level(key.z % LEVEL_COLORS),
            2 => {
                let tile: Tile = self.tiles.tile(key);
                if tile.mesh_fails >= MAX_RETRIES || tile.imagery_fails >= MAX_RETRIES {
                    Tint::Failed
                } else if tile.mesh_inbound || tile.imagery_inbound {
                    Tint::Inbound
                } else if tile.imagery.is_some() {
                    Tint::OwnImage
                } else {
                    Tint::Waiting
                }
            },
            3 => match self.imagery_depth(key) {
                Some(levels) => Tint::Depth(levels),
                None => Tint::NoImage,
            },
            4 => {
                let hash: u64 = (slot as u64 * 2_654_435_761) % 0x1_0000_0000;
                Tint::Slot(
                    (hash / 0x1_0000 % 0x100) as u8,
                    (hash / 0x100 % 0x100) as u8,
                    (hash % 0x100) as u8,
                )
            },
            _ => Tint::Plain,
        }
    }
}

/// How a tile is seen: whether it is large enough to be split, whether it is
/// large enough to stay split, and its distance as the bits of a float, halved,
/// whole and doubled.
#[derive(Copy, Clone, PartialEq, Eq, Debug, Structural)]
pub struct Sight {
    pub splits: bool,
    pub stays_split: bool,
    pub near: u32,
    pub at: u32,
    pub far: u32,
}

/// How a tile is seen, if it is, and which of its quarters are.
#[derive(Copy, Clone, Debug)]
pub struct Outlook {
    pub sight: Option<Sight>,
    pub quarters: [bool; 4],
}

/// Whether the quarters of `key` are to be drawn in its place: a tile that is
/// split stays so for a while.
pub open spec fn wants_quarters(
    tree: TreeView,
    sources: &Sources,
    key: TileKey,
    sight: Sight,
) -> bool {
    key.z < sources.deepest() && (if tree.tiles.get(key).split {
        sight.stays_split
    } else {
        sight.splits
    })
}

/// Whether every quarter that is seen can be drawn, or never will be.
pub open spec fn quarters_ready(tree: TreeView, key: TileKey, quarters: Seq<bool>) -> bool {
    forall|i: int|
        0 <= i < 4 && #[trigger] quarters[i] ==> {
            let tile = tree.tiles.get(child_of(key, i as nat));
            tile.mesh is Some || tile.mesh_fails >= MAX_RETRIES
        }
}

/// After the meshes of those of the first `n` quarters that `which` marks were
/// asked for.
pub open spec fn quarters_asked(
    pass: Pass,
    sources: &Sources,
    key: TileKey,
    which: Seq<bool>,
    rank: u64,
    n: nat,
) -> Pass
    decreases n,
{
    if n == 0 {
        pass
    } else {
        let before = quarters_asked(pass, sources, key, which, rank, (n - 1) as nat);
        if which[n - 1] {
            mesh_asked(before, sources, child_of(key, (n - 1) as nat), rank)
        } else {
            before
        }
    }
}

/// What waits after `key` gave way to its quarters.
pub open spec fn quarters_pending(pending: Seq<TileKey>, key: TileKey) -> Seq<TileKey> {
    pending.push(child_of(key, 3)).push(child_of(key, 2)).push(child_of(key, 1)).push(
        child_of(key, 0),
    )
}

/// After `key` gave way to its quarters.
#[verifier::opaque]
pub open spec fn split_up(pass: Pass, sources: &Sources, key: TileKey, sight: Sight) -> Pass {
    let frame = pass.tree.frame;
    let tile = pass.tree.tiles.get(key);
    let marked = TreeView { splits: one_more(pass.tree.splits), ..pass.tree }.with(
        key,
        Tile { split: true, last_used: frame, last_drawn: frame, ..tile },
    );
    let start = Pass { tree: marked, ..pass };
    let asked = if roomy(pass.tree.mesh_pressure) {
        quarters_asked(
            start,
            sources,
            key,
            seq![true, true, true, true],
            crate::stream::seen_rank(sight.far),
            4,
        )
    } else {
        start
    };
    Pass {
        tree: TreeView { pending: quarters_pending(asked.tree.pending, key), ..asked.tree },
        ..asked
    }
}

/// After the quarters of `key` were found missing.
#[verifier::opaque]
pub open spec fn starved(
    pass: Pass,
    sources: &Sources,
    key: TileKey,
    sight: Sight,
    quarters: Seq<bool>,
) -> Pass {
    let start = Pass {
        tree: TreeView { starved_splits: one_more(pass.tree.starved_splits), ..pass.tree },
        ..pass
    };
    if bearable(pass.tree.mesh_pressure) {
        quarters_asked(start, sources, key, quarters, crate::stream::seen_rank(sight.near), 4)
    } else {
        Pass {
            tree: TreeView { blocked_splits: one_more(start.tree.blocked_splits), ..start.tree },
            ..start
        }
    }
}

/// A tile that is drawn at `frame`, having been drawn last at `prev_drawn`: it
/// merges where its quarters were drawn before, and unfolds where it was not.
pub open spec fn drawn_at(tile: Tile, frame: u64, was_split: bool, prev_drawn: u64) -> Tile {
    Tile {
        last_used: frame,
        last_drawn: frame,
        merge_at: if was_split {
            frame
        } else if prev_drawn + 1 < frame {
            0
        } else {
            tile.merge_at
        },
        unfold_at: if was_split {
            0
        } else if prev_drawn + 1 < frame {
            frame
        } else {
            tile.unfold_at
        },
        ..tile
    }
}

/// After `key` was drawn, if there is room and it has a mesh.
#[verifier::opaque]
pub open spec fn drawn_tile(
    pass: Pass,
    sources: &Sources,
    key: TileKey,
    sight: Sight,
    was_split: bool,
    prev_drawn: u64,
) -> Pass {
    let frame = pass.tree.frame;
    let tile = pass.tree.tiles.get(key);
    if pass.tree.drawn.len() >= MAX_DRAWN_TILES {
        pass
    } else if tile.mesh is None {
        Pass { tree: pass.tree.with(key, Tile { last_used: frame, ..tile }), ..pass }
    } else {
        let shown = drawn_at(tile, frame, was_split, prev_drawn);
        let asked = imagery_asked(
            Pass { tree: pass.tree.with(key, shown), ..pass },
            sources,
            key,
            crate::stream::seen_rank(sight.at),
        );
        let (tree, shading) = resolved(asked.tree, key);
        let mesh = tile.mesh->0;
        Pass {
            tree: TreeView {
                max_level_drawn: if tree.max_level_drawn >= key.z {
                    tree.max_level_drawn
                } else {
                    key.z
                },
                min_level_drawn: if tree.min_level_drawn <= key.z {
                    tree.min_level_drawn
                } else {
                    key.z
                },
                drawn: tree.drawn.push(
                    DrawnTile {
                        key,
                        slot: mesh.slot,
                        center: mesh.center,
                        shading,
                        unfolded: ramp_of(shown.unfold_at, frame),
                        merged: ramp_of(shown.merge_at, frame),
                        tint: tint_of(tree, key, mesh.slot),
                    },
                ),
                ..tree
            },
            ..asked
        }
    }
}

/// After `key`, which is seen, was looked at: it gives way to its quarters, or is
/// drawn itself.
pub open spec fn seen_tile(
    pass: Pass,
    sources: &Sources,
    key: TileKey,
    sight: Sight,
    quarters: Seq<bool>,
) -> Pass {
    let tile = pass.tree.tiles.get(key);
    let wanted = wants_quarters(pass.tree, sources, key, sight) && (quarters[0] || quarters[1]
        || quarters[2] || quarters[3]);
    if wanted && quarters_ready(pass.tree, key, quarters) {
        split_up(pass, sources, key, sight)
    } else {
        let waiting = if wanted {
            starved(pass, sources, key, sight, quarters)
        } else {
            pass
        };
        let whole = Pass {
            tree: waiting.tree.with(key, Tile { split: false, ..waiting.tree.tiles.get(key) }),
            ..waiting
        };
        drawn_tile(
            mesh_asked(whole, sources, key, crate::stream::seen_rank(sight.at)),
            sources,
            key,
            sight,
            tile.split,
            tile.last_drawn,
        )
    }
}

/// After the next tile that waits was looked at.
pub open spec fn looked_at(pass: Pass, sources: &Sources, outlook: Outlook) -> Pass {
    let key = pass.tree.pending.last();
    let rest = TreeView { pending: pass.tree.pending.drop_last(), ..pass.tree };
    match outlook.sight {
        None => Pass { tree: TreeView { culled: one_more(rest.culled), ..rest }, ..pass },
        Some(sight) => seen_tile(
            Pass { tree: TreeView { visited: one_more(rest.visited), ..rest }, ..pass },
            sources,
            key,
            sight,
            outlook.quarters@,
        ),
    }
}

/// Whether `key` shares no ground with what is drawn or waits.
#[verifier::opaque]
pub open spec fn clear_of(pending: Seq<TileKey>, drawn: Seq<DrawnTile>, key: TileKey) -> bool {
    &&& forall|i: int| 0 <= i < pending.len() ==> apart(#[trigger] pending[i], key)
    &&& forall|j: int| 0 <= j < drawn.len() ==> apart(key, (#[trigger] drawn[j]).key)
}

/// Whether two trees wait for and draw the same tiles in the same frame.
pub open spec fn same_picture(a: TreeView, b: TreeView) -> bool {
    &&& a.pending == b.pending
    &&& a.drawn == b.drawn
    &&& a.frame == b.frame
    &&& a.frozen == b.frozen
}

/// The quarters of a tile share no ground with what the tile does not, nor with
/// each other.
pub proof fn lemma_quarters_apart(key: TileKey, other: TileKey)
    requires
        on_grid(key),
        key.z < 31,
    ensures
        apart(key, other) ==> forall|i: nat| i < 4 ==> apart(#[trigger] child_of(key, i), other),
        forall|i: nat, j: nat|
            i < j < 4 ==> apart(#[trigger] child_of(key, i), #[trigger] child_of(key, j)),
{
    crate::tiling::lemma_children_on_grid(key);
    assert forall|i: nat| apart(key, other) && i < 4 implies apart(
        #[trigger] child_of(key, i),
        other,
    ) by {
        let child = child_of(key, i);
        crate::tiling::lemma_parent_of_child(key, i);
        if covers(child, other) {
            crate::tiling::lemma_covers_transitive(key, child, other);
        }
        if covers(other, child) {
            crate::tiling::lemma_covers_comparable(key, other, child);
        }
    }
    assert forall|i: nat, j: nat| i < j < 4 implies apart(
        #[trigger] child_of(key, i),
        #[trigger] child_of(key, j),
    ) by {
        lemma_ancestor_of_none(child_of(key, i));
        lemma_ancestor_of_none(child_of(key, j));
    }
}

proof fn lemma_split_keeps_ground(pending: Seq<TileKey>, drawn: Seq<DrawnTile>, key: TileKey)
    requires
        ground_once(pending, drawn),
        clear_of(pending, drawn, key),
        on_grid(key),
        ROOT_LEVEL <= key.z < crate::tiling::MAX_TREE_ZOOM,
    ensures
        ground_once(quarters_pending(pending, key), drawn),
{
    reveal(ground_once);
    reveal(clear_of);
    crate::tiling::lemma_children_on_grid(key);
    let after = quarters_pending(pending, key);
    let n = pending.len() as int;
    assert(after.len() == n + 4);
    assert forall|i: int| 0 <= i < n + 4 implies #[trigger] after[i] == (if i < n {
        pending[i]
    } else {
        child_of(key, (3 - (i - n)) as nat)
    }) by {}
    assert forall|i: int| 0 <= i < after.len() implies on_grid(#[trigger] after[i]) && ROOT_LEVEL
        <= after[i].z <= crate::tiling::MAX_TREE_ZOOM by {
        if i >= n {
            let c = child_of(key, (3 - (i - n)) as nat);
        } else {
            assert(on_grid(pending[i]));
        }
    }
    assert forall|i: int, j: int|
        #![trigger after[i], after[j]]
        0 <= i < j < after.len() implies apart(after[i], after[j]) by {
        if j < n {
            assert(apart(pending[i], pending[j]));
        } else if i < n {
            assert(apart(pending[i], key));
            lemma_quarters_apart(key, pending[i]);
            assert(apart(child_of(key, (3 - (j - n)) as nat), pending[i]));
        } else {
            lemma_quarters_apart(key, key);
            assert(apart(child_of(key, (3 - (j - n)) as nat), child_of(key, (3 - (i - n)) as nat)));
        }
    }
    assert forall|i: int, j: int|
        #![trigger after[i], drawn[j]]
        0 <= i < after.len() && 0 <= j < drawn.len() implies apart(after[i], drawn[j].key) by {
        if i < n {
            assert(apart(pending[i], drawn[j].key));
        } else {
            lemma_quarters_apart(key, drawn[j].key);
            assert(apart(child_of(key, (3 - (i - n)) as nat), drawn[j].key));
        }
    }
}

proof fn lemma_draw_keeps_ground(pending: Seq<TileKey>, drawn: Seq<DrawnTile>, shown: DrawnTile)
    requires
        ground_once(pending, drawn),
        clear_of(pending, drawn, shown.key),
        drawn.len() < MAX_DRAWN_TILES,
    ensures
        ground_once(pending, drawn.push(shown)),
{
    reveal(ground_once);
    reveal(clear_of);
    let after = drawn.push(shown);
    assert forall|i: int, j: int|
        #![trigger pending[i], after[j]]
        0 <= i < pending.len() && 0 <= j < after.len() implies apart(pending[i], after[j].key) by {
        if j < drawn.len() {
            assert(apart(pending[i], drawn[j].key));
        }
    }
    assert forall|i: int, j: int|
        #![trigger after[i], after[j]]
        0 <= i < j < after.len() implies apart(after[i].key, after[j].key) by {
        if j < drawn.len() {
            assert(apart(drawn[i].key, drawn[j].key));
        } else {
            assert(apart(shown.key, drawn[i].key));
        }
    }
}

proof fn lemma_next_clear(pending: Seq<TileKey>, drawn: Seq<DrawnTile>)
    requires
        ground_once(pending, drawn),
        pending.len() > 0,
    ensures
        ground_once(pending.drop_last(), drawn),
        clear_of(pending.drop_last(), drawn, pending.last()),
        on_grid(pending.last()),
        ROOT_LEVEL <= pending.last().z <= crate::tiling::MAX_TREE_ZOOM,
{
    reveal(ground_once);
    reveal(clear_of);
    let last = pending.len() - 1;
    let rest = pending.drop_last();
    assert forall|i: int| 0 <= i < rest.len() implies apart(#[trigger] rest[i], pending.last()) by {
        assert(apart(pending[i], pending[last]));
    }
    assert forall|j: int| 0 <= j < drawn.len() implies apart(
        pending.last(),
        (#[trigger] drawn[j]).key,
    ) by {
        assert(apart(pending[last], drawn[j].key));
    }
    assert(on_grid(pending[last]));
}

proof fn lemma_quarters_asked_keep(
    pass: Pass,
    sources: &Sources,
    key: TileKey,
    which: Seq<bool>,
    rank: u64,
    n: nat,
)
    ensures
        same_picture(quarters_asked(pass, sources, key, which, rank, n).tree, pass.tree),
    decreases n,
{
    if n > 0 {
        lemma_quarters_asked_keep(pass, sources, key, which, rank, (n - 1) as nat);
    }
}

impl TileTree {
    fn ask_quarters(
        &mut self,
        key: TileKey,
        which: [bool; 4],
        pool: &mut WorkerPool,
        sources: &Sources,
        rank: u64,
    )
        requires
            old(self).wf(),
            old(pool).wf(),
            on_grid(key),
            key.z < 30,
        ensures
            final(self).wf(),
            final(pool).wf(),
            (Pass { tree: final(self)@, pool: final(pool)@ }) == quarters_asked(
                Pass { tree: old(self)@, pool: old(pool)@ },
                sources,
                key,
                which@,
                rank,
                4,
            ),
    {
        let ghost start = Pass { tree: self@, pool: pool@ };
        let mut i: u32 = 0;
        while i < 4
            invariant
                i <= 4,
                self.wf(),
                pool.wf(),
                on_grid(key),
                key.z < 30,
                (Pass { tree: self@, pool: pool@ }) == quarters_asked(
                    start,
                    sources,
                    key,
                    which@,
                    rank,
                    i as nat,
                ),
            decreases 4 - i,
        {
            proof {
                crate::tiling::lemma_children_on_grid(key);
            }
            if which[i as usize] {
                let child: TileKey = key.child(i);
                self.request_mesh(child, pool, sources, rank);
            }
            i = i + 1;
        }
    }

    /// Whether the quarters of the next tile are to be drawn in its place.
    pub fn wants_children(&self, sources: &Sources, sight: &Sight) -> (wants: bool)
        requires
            self.wf(),
            self@.pending.len() > 0,
        ensures
            wants == wants_quarters(self@, sources, self@.pending.last(), *sight),
    {
        let key: TileKey = self.pending[self.pending.len() - 1];
        key.z < max_tile_zoom(sources) && (if self.tiles.tile(key).split {
            sight.stays_split
        } else {
            sight.splits
        })
    }

    fn children_ready(&self, key: TileKey, quarters: &[bool; 4]) -> (ready: bool)
        requires
            self.wf(),
            on_grid(key),
            key.z < 30,
        ensures
            ready == quarters_ready(self@, key, quarters@),
    {
        let mut i: u32 = 0;
        while i < 4
            invariant
                i <= 4,
                self.wf(),
                on_grid(key),
                key.z < 30,
                forall|j: int|
                    0 <= j < i && #[trigger] quarters@[j] ==> {
                        let tile = self@.tiles.get(child_of(key, j as nat));
                        tile.mesh is Some || tile.mesh_fails >= MAX_RETRIES
                    },
            decreases 4 - i,
        {
            proof {
                crate::tiling::lemma_children_on_grid(key);
            }
            if quarters[i as usize] {
                let child: TileKey = key.child(i);
                if !self.renderable(child) && !self.exhausted(child) {
                    assert(quarters@[i as int]);
                    return false;
                }
            }
            i = i + 1;
        }
        true
    }

    fn split(&mut self, key: TileKey, sight: Sight, pool: &mut WorkerPool, sources: &Sources)
        requires
            old(self).wf(),
            old(pool).wf(),
            clear_of(old(self)@.pending, old(self)@.drawn, key),
            on_grid(key),
            ROOT_LEVEL <= key.z < crate::tiling::MAX_TREE_ZOOM,
        ensures
            final(self).wf(),
            final(pool).wf(),
            (Pass { tree: final(self)@, pool: final(pool)@ }) == split_up(
                Pass { tree: old(self)@, pool: old(pool)@ },
                sources,
                key,
                sight,
            ),
    {
        reveal(split_up);
        self.splits = count_one(self.splits);
        let mut tile: Tile = self.tiles.tile(key);
        proof {
            lemma_stamped(self@, key);
        }
        tile.split = true;
        tile.last_used = self.frame;
        tile.last_drawn = self.frame;
        self.put(key, tile);
        let ghost start = Pass { tree: self@, pool: pool@ };
        let all: [bool; 4] = [true, true, true, true];
        assert(all@ =~= seq![true, true, true, true]);
        if self.mesh_pressure.roomy() {
            self.ask_quarters(
                key,
                all,
                pool,
                sources,
                crate::stream::rank_of_distance(sight.far),
            );
        }
        proof {
            lemma_quarters_asked_keep(
                start,
                sources,
                key,
                all@,
                crate::stream::seen_rank(sight.far),
                4,
            );
            crate::tiling::lemma_children_on_grid(key);
            lemma_split_keeps_ground(self@.pending, self@.drawn, key);
        }
        let ghost asked = self@;
        self.pending.push(key.child(3));
        self.pending.push(key.child(2));
        self.pending.push(key.child(1));
        self.pending.push(key.child(0));
        assert(self@ =~= (TreeView { pending: quarters_pending(asked.pending, key), ..asked }));
    }

    fn starve(
        &mut self,
        key: TileKey,
        sight: Sight,
        quarters: [bool; 4],
        pool: &mut WorkerPool,
        sources: &Sources,
    )
        requires
            old(self).wf(),
            old(pool).wf(),
            on_grid(key),
            key.z < 30,
        ensures
            final(self).wf(),
            final(pool).wf(),
            same_picture(final(self)@, old(self)@),
            (Pass { tree: final(self)@, pool: final(pool)@ }) == starved(
                Pass { tree: old(self)@, pool: old(pool)@ },
                sources,
                key,
                sight,
                quarters@,
            ),
    {
        reveal(starved);
        self.starved_splits = count_one(self.starved_splits);
        let ghost start = Pass { tree: self@, pool: pool@ };
        if self.mesh_pressure.bearable() {
            self.ask_quarters(
                key,
                quarters,
                pool,
                sources,
                crate::stream::rank_of_distance(sight.near),
            );
            proof {
                lemma_quarters_asked_keep(
                    start,
                    sources,
                    key,
                    quarters@,
                    crate::stream::seen_rank(sight.near),
                    4,
                );
            }
        } else {
            self.blocked_splits = count_one(self.blocked_splits);
        }
    }

    fn draw(
        &mut self,
        key: TileKey,
        sight: Sight,
        was_split: bool,
        prev_drawn: u64,
        pool: &mut WorkerPool,
        sources: &Sources,
    )
        requires
            old(self).wf(),
            old(pool).wf(),
            clear_of(old(self)@.pending, old(self)@.drawn, key),
            prev_drawn <= old(self).frame,
            key.z < 32,
        ensures
            final(self).wf(),
            final(pool).wf(),
            (Pass { tree: final(self)@, pool: final(pool)@ }) == drawn_tile(
                Pass { tree: old(self)@, pool: old(pool)@ },
                sources,
                key,
                sight,
                was_split,
                prev_drawn,
            ),
    {
        reveal(drawn_tile);
        if self.drawn.len() as u64 >= MAX_DRAWN_TILES as u64 {
            return;
        }
        let frame: u64 = self.frame;
        let mut tile: Tile = self.tiles.tile(key);
        proof {
            lemma_stamped(self@, key);
        }
        tile.last_used = frame;
        let mesh: MeshRes = match tile.mesh {
            Some(mesh) => mesh,
            None => {
                self.put(key, tile);
                return;
            },
        };
        tile.last_drawn = frame;
        if was_split {
            tile.merge_at = frame;
            tile.unfold_at = 0;
        } else if prev_drawn + 1 < frame {
            tile.unfold_at = frame;
            tile.merge_at = 0;
        }
        let unfolded: u64 = ramp(tile.unfold_at, frame);
        let merged: u64 = ramp(tile.merge_at, frame);
        self.put(key, tile);
        self.request_imagery(key, pool, sources, crate::stream::rank_of_distance(sight.at));
        let shading: Shading = self.resolve_imagery(key);
        let tint: Tint = self.debug_color(key, mesh.slot);
        if self.max_level_drawn < key.z {
            self.max_level_drawn = key.z;
        }
        if self.min_level_drawn > key.z {
            self.min_level_drawn = key.z;
        }
        let shown: DrawnTile = DrawnTile {
            key,
            slot: mesh.slot,
            center: mesh.center,
            shading,
            unfolded,
            merged,
            tint,
        };
        let ghost before = self@;
        assert(same_picture(before, old(self)@));
        proof {
            lemma_draw_keeps_ground(before.pending, before.drawn, shown);
        }
        self.drawn.push(shown);
    }

    fn look(
        &mut self,
        key: TileKey,
        sight: Sight,
        quarters: [bool; 4],
        pool: &mut WorkerPool,
        sources: &Sources,
    )
        requires
            old(self).wf(),
            old(pool).wf(),
            clear_of(old(self)@.pending, old(self)@.drawn, key),
            on_grid(key),
            ROOT_LEVEL <= key.z <= crate::tiling::MAX_TREE_ZOOM,
        ensures
            final(self).wf(),
            final(pool).wf(),
            (Pass { tree: final(self)@, pool: final(pool)@ }) == seen_tile(
                Pass { tree: old(self)@, pool: old(pool)@ },
                sources,
                key,
                sight,
                quarters@,
            ),
    {
        let tile: Tile = self.tiles.tile(key);
        proof {
            lemma_stamped(self@, key);
        }
        let wanted: bool = key.z < max_tile_zoom(sources) && (if tile.split {
            sight.stays_split
        } else {
            sight.splits
        }) && (quarters[0] || quarters[1] || quarters[2] || quarters[3]);
        if wanted && self.children_ready(key, &quarters) {
            self.split(key, sight, pool, sources);
            return;
        }
        if wanted {
            self.starve(key, sight, quarters, pool, sources);
        }
        let ghost waiting = Pass { tree: self@, pool: pool@ };
        let mut whole: Tile = self.tiles.tile(key);
        proof {
            lemma_stamped(self@, key);
        }
        whole.split = false;
        self.put(key, whole);
        assert(self@ == waiting.tree.with(
            key,
            Tile { split: false, ..waiting.tree.tiles.get(key) },
        ));
        self.request_mesh(key, pool, sources, crate::stream::rank_of_distance(sight.at));
        assert(same_picture(self@, old(self)@));
        self.draw(key, sight, tile.split, tile.last_drawn, pool, sources);
    }

    /// Looks at the next tile that waits: it gives way to its quarters, or is drawn
    /// itself.
    pub fn visit(&mut self, outlook: Outlook, pool: &mut WorkerPool, sources: &Sources)
        requires
            old(self).wf(),
            old(pool).wf(),
            old(self)@.pending.len() > 0,
        ensures
            final(self).wf(),
            final(pool).wf(),
            (Pass { tree: final(self)@, pool: final(pool)@ }) == looked_at(
                Pass { tree: old(self)@, pool: old(pool)@ },
                sources,
                outlook,
            ),
    {
        let key: TileKey = self.pending[self.pending.len() - 1];
        let ghost before = self@;
        self.pending.pop();
        proof {
            lemma_next_clear(before.pending, before.drawn);
            assert(self@.pending =~= before.pending.drop_last());
        }
        match outlook.sight {
            Some(sight) => {
                self.visited = count_one(self.visited);
                let ghost rest = TreeView { pending: before.pending.drop_last(), ..before };
                assert(self@ =~= (TreeView { visited: one_more(rest.visited), ..rest }));
                self.look(key, sight, outlook.quarters, pool, sources);
            },
            None => {
                self.culled = count_one(self.culled);
            },
        }
    }
}

/// After the first `n` tiles of the block around `key` were asked for.
pub open spec fn block_asked(pass: Pass, sources: &Sources, key: TileKey, n: nat) -> Pass
    decreases n,
{
    if n == 0 {
        pass
    } else {
        let before = block_asked(pass, sources, key, (n - 1) as nat);
        let rank = crate::stream::focus_rank(key.z);
        match neighbour_of(key, n - 1) {
            Some(near) => imagery_asked(
                mesh_asked(before, sources, near, rank),
                sources,
                near,
                rank,
            ),
            None => before,
        }
    }
}

/// After the blocks around the first `n` of `keys` were asked for.
pub open spec fn focus_asked(pass: Pass, sources: &Sources, keys: Seq<TileKey>, n: nat) -> Pass
    decreases n,
{
    if n == 0 {
        pass
    } else {
        block_asked(focus_asked(pass, sources, keys, (n - 1) as nat), sources, keys[n - 1], 9)
    }
}

/// The tiles of the root level, the first of the first row last.
pub open spec fn root_tiles() -> Seq<TileKey> {
    Seq::new(
        64,
        |i: int| TileKey { z: ROOT_LEVEL, x: ((63 - i) % 8) as u32, y: ((63 - i) / 8) as u32 },
    )
}

/// A tree that starts its next frame. One that is frozen stays in its frame.
pub open spec fn fresh_frame(tree: TreeView, jumped: bool) -> TreeView {
    TreeView {
        frame: if tree.frozen {
            tree.frame
        } else {
            (tree.frame + 1) as u64
        },
        pending: root_tiles(),
        drawn: Seq::empty(),
        max_level_drawn: 0,
        min_level_drawn: u8::MAX,
        splits: 0,
        starved_splits: 0,
        visited: 0,
        culled: 0,
        blocked_splits: 0,
        camera_jumped: jumped,
        ..tree
    }
}

/// After a frame was started, and what surrounds the point looked at was asked
/// for.
pub open spec fn selecting(
    pass: Pass,
    sources: &Sources,
    jumped: bool,
    focus: Seq<TileKey>,
) -> Pass {
    let start = Pass { tree: fresh_frame(pass.tree, jumped), ..pass };
    if pass.tree.frozen {
        start
    } else {
        focus_asked(start, sources, focus, focus.len())
    }
}

proof fn lemma_roots_once()
    ensures
        ground_once(root_tiles(), Seq::empty()),
{
    reveal(ground_once);
    let roots = root_tiles();
    vstd::arithmetic::power2::lemma2_to64();
    assert forall|i: int, j: int|
        #![trigger roots[i], roots[j]]
        0 <= i < j < roots.len() implies apart(roots[i], roots[j]) by {
        lemma_ancestor_of_none(roots[i]);
        lemma_ancestor_of_none(roots[j]);
        assert(roots[i].x + 8 * roots[i].y == 63 - i);
        assert(roots[j].x + 8 * roots[j].y == 63 - j);
    }
}

proof fn lemma_stamps_stay_past(tiles: TileMap, frame: u64, later: u64)
    requires
        stamps_past(tiles, frame),
        frame <= later <= MAX_FRAME,
    ensures
        stamps_past(tiles, later),
{
    reveal(stamps_past);
    assert forall|k: TileKey| stamped_by(#[trigger] tiles.get(k), later) by {
        assert(stamped_by(tiles.get(k), frame));
    }
}

impl TileTree {
    fn prefetch_focus(&mut self, focus: &Vec<TileKey>, pool: &mut WorkerPool, sources: &Sources)
        requires
            old(self).wf(),
            old(pool).wf(),
            forall|i: int| 0 <= i < focus@.len() ==> (#[trigger] focus@[i]).z < 32,
        ensures
            final(self).wf(),
            final(pool).wf(),
            (Pass { tree: final(self)@, pool: final(pool)@ }) == focus_asked(
                Pass { tree: old(self)@, pool: old(pool)@ },
                sources,
                focus@,
                focus@.len(),
            ),
    {
        let ghost start = Pass { tree: self@, pool: pool@ };
        let mut n: usize = 0;
        while n < focus.len()
            invariant
                n <= focus@.len(),
                self.wf(),
                pool.wf(),
                forall|i: int| 0 <= i < focus@.len() ==> (#[trigger] focus@[i]).z < 32,
                (Pass { tree: self@, pool: pool@ }) == focus_asked(
                    start,
                    sources,
                    focus@,
                    n as nat,
                ),
            decreases focus@.len() - n,
        {
            let key: TileKey = focus[n];
            let ghost middle = Pass { tree: self@, pool: pool@ };
            let rank: u64 = crate::stream::rank_of_focus(key.z);
            let mut i: u32 = 0;
            while i < 9
                invariant
                    i <= 9,
                    key.z < 32,
                    rank == crate::stream::focus_rank(key.z),
                    self.wf(),
                    pool.wf(),
                    (Pass { tree: self@, pool: pool@ }) == block_asked(
                        middle,
                        sources,
                        key,
                        i as nat,
                    ),
                decreases 9 - i,
            {
                match key.neighbour(i) {
                    Some(near) => {
                        self.request_mesh(near, pool, sources, rank);
                        self.request_imagery(near, pool, sources, rank);
                    },
                    None => {},
                }
                i = i + 1;
            }
            n = n + 1;
        }
    }

    /// Colors the tiles by one of the debug modes; the last stands for all beyond it.
    pub fn set_debug_mode(&mut self, mode: u32)
        requires
            old(self).wf(),
        ensures
            final(self).wf(),
            final(self)@ == (TreeView {
                debug_mode: if mode < LAST_DEBUG_MODE {
                    mode
                } else {
                    LAST_DEBUG_MODE
                },
                ..old(self)@
            }),
    {
        self.debug_mode = if mode < LAST_DEBUG_MODE {
            mode
        } else {
            LAST_DEBUG_MODE
        };
    }

    /// Starts a frame: the tiles of the root level wait to be looked at, and what
    /// lies around the tiles of `focus` is asked for first. `jumped` tells whether
    /// the camera moved far since the last frame.
    pub fn select(
        &mut self,
        jumped: bool,
        focus: &Vec<TileKey>,
        pool: &mut WorkerPool,
        sources: &Sources,
    )
        requires
            old(self).wf(),
            old(pool).wf(),
            old(self).frozen || old(self).frame < MAX_FRAME,
            forall|i: int| 0 <= i < focus@.len() ==> (#[trigger] focus@[i]).z < 32,
        ensures
            final(self).wf(),
            final(pool).wf(),
            (Pass { tree: final(self)@, pool: final(pool)@ }) == selecting(
                Pass { tree: old(self)@, pool: old(pool)@ },
                sources,
                jumped,
                focus@,
            ),
    {
        if !self.frozen {
            proof {
                lemma_stamps_stay_past(self@.tiles, self.frame, (self.frame + 1) as u64);
            }
            self.frame = self.frame + 1;
        }
        let mut roots: Vec<TileKey> = Vec::new();
        let mut i: u32 = 0;
        while i < 64
            invariant
                i <= 64,
                roots@ == root_tiles().take(i as int),
            decreases 64 - i,
        {
            roots.push(TileKey { z: ROOT_LEVEL, x: (63 - i) % 8, y: (63 - i) / 8 });
            i = i + 1;
            assert(roots@ =~= root_tiles().take(i as int));
        }
        assert(roots@ =~= root_tiles());
        proof {
            lemma_roots_once();
        }
        self.pending = roots;
        self.drawn = Vec::new();
        self.max_level_drawn = 0;
        self.min_level_drawn = u8::MAX;
        self.splits = 0;
        self.starved_splits = 0;
        self.visited = 0;
        self.culled = 0;
        self.blocked_splits = 0;
        self.camera_jumped = jumped;
        assert(self@ =~= fresh_frame(old(self)@, jumped));
        if !self.frozen {
            self.prefetch_focus(focus, pool, sources);
        }
    }

    /// The next tile to be looked at in this frame.
    pub fn upcoming(&self) -> (key: Option<TileKey>)
        ensures
            key is Some <==> self@.pending.len() > 0,
            key matches Some(k) ==> k == self@.pending.last(),
    {
        if self.pending.len() == 0 {
            None
        } else {
            Some(self.pending[self.pending.len() - 1])
        }
    }

    /// Ends a frame: where nothing was drawn, the lowest level is none.
    pub fn end_select(&mut self)
        requires
            old(self).wf(),
        ensures
            final(self).wf(),
            final(self)@ == (TreeView {
                min_level_drawn: if old(self)@.min_level_drawn == u8::MAX {
                    0
                } else {
                    old(self)@.min_level_drawn
                },
                ..old(self)@
            }),
    {
        if self.min_level_drawn == u8::MAX {
            self.min_level_drawn = 0;
        }
    }
}

/// No two tiles that are drawn in one frame share ground, and there are never
/// more than the renderer takes.
pub proof fn lemma_drawn_share_no_ground(tree: TreeView, i: int, j: int)
    requires
        tree.wf(),
        0 <= i < j < tree.drawn.len(),
    ensures
        apart(tree.drawn[i].key, tree.drawn[j].key),
        tree.drawn.len() <= MAX_DRAWN_TILES,
{
    reveal(ground_once);
}

/// Nothing is drawn or asked for of a tile that is not seen.
pub proof fn lemma_unseen_tile_changes_nothing(pass: Pass, sources: &Sources, outlook: Outlook)
    requires
        outlook.sight is None,
        pass.tree.pending.len() > 0,
    ensures
        looked_at(pass, sources, outlook).pool == pass.pool,
        looked_at(pass, sources, outlook).tree.tiles == pass.tree.tiles,
        looked_at(pass, sources, outlook).tree.drawn == pass.tree.drawn,
        looked_at(pass, sources, outlook).tree.pending == pass.tree.pending.drop_last(),
{
}

/// A frozen tree asks for nothing.
pub proof fn lemma_frozen_tree_asks_nothing(pass: Pass, sources: &Sources, outlook: Outlook)
    requires
        pass.tree.frozen,
        pass.tree.pending.len() > 0,
    ensures
        looked_at(pass, sources, outlook).pool == pass.pool,
{
    reveal(split_up);
    reveal(starved);
    reveal(drawn_tile);
    if let Some(sight) = outlook.sight {
        let key = pass.tree.pending.last();
        let rest = TreeView { pending: pass.tree.pending.drop_last(), ..pass.tree };
        let seen = Pass { tree: TreeView { visited: one_more(rest.visited), ..rest }, ..pass };
        let marked = TreeView { splits: one_more(seen.tree.splits), ..seen.tree }.with(
            key,
            Tile {
                split: true,
                last_used: seen.tree.frame,
                last_drawn: seen.tree.frame,
                ..seen.tree.tiles.get(key)
            },
        );
        lemma_frozen_quarters(
            Pass { tree: marked, ..seen },
            sources,
            key,
            seq![true, true, true, true],
            crate::stream::seen_rank(sight.far),
            4,
        );
        let hungry = TreeView { starved_splits: one_more(seen.tree.starved_splits), ..seen.tree };
        lemma_frozen_quarters(
            Pass { tree: hungry, ..seen },
            sources,
            key,
            outlook.quarters@,
            crate::stream::seen_rank(sight.near),
            4,
        );
    }
}

proof fn lemma_frozen_quarters(
    pass: Pass,
    sources: &Sources,
    key: TileKey,
    which: Seq<bool>,
    rank: u64,
    n: nat,
)
    requires
        pass.tree.frozen,
    ensures
        quarters_asked(pass, sources, key, which, rank, n) == pass,
    decreases n,
{
    if n > 0 {
        lemma_frozen_quarters(pass, sources, key, which, rank, (n - 1) as nat);
    }
}

/// How many tiles at the most are looked at for a tile of level `z`.
pub open spec fn effort(z: nat) -> nat
    decreases crate::tiling::MAX_TREE_ZOOM - z,
{
    if z >= crate::tiling::MAX_TREE_ZOOM {
        1
    } else {
        1 + 4 * effort(z + 1)
    }
}

/// How many tiles at the most are looked at for those that wait.
pub open spec fn effort_left(pending: Seq<TileKey>) -> nat
    decreases pending.len(),
{
    if pending.len() == 0 {
        0
    } else {
        effort_left(pending.drop_last()) + effort(pending.last().z as nat)
    }
}

proof fn lemma_effort_pushed(pending: Seq<TileKey>, key: TileKey)
    ensures
        effort_left(pending.push(key)) == effort_left(pending) + effort(key.z as nat),
{
    assert(pending.push(key).drop_last() =~= pending);
}

/// A frame comes to its end: with every tile that is looked at, fewer are left to
/// look at.
pub proof fn lemma_looking_ends(pass: Pass, sources: &Sources, outlook: Outlook)
    requires
        pass.tree.wf(),
        pass.tree.pending.len() > 0,
    ensures
        effort_left(looked_at(pass, sources, outlook).tree.pending) < effort_left(
            pass.tree.pending,
        ),
{
    reveal(split_up);
    reveal(starved);
    reveal(drawn_tile);
    let key = pass.tree.pending.last();
    let rest = pass.tree.pending.drop_last();
    lemma_next_clear(pass.tree.pending, pass.tree.drawn);
    if let Some(sight) = outlook.sight {
        let seen = Pass {
            tree: TreeView {
                visited: one_more(pass.tree.visited),
                pending: rest,
                ..pass.tree
            },
            ..pass
        };
        let after = looked_at(pass, sources, outlook).tree.pending;
        let marked = TreeView { splits: one_more(seen.tree.splits), ..seen.tree }.with(
            key,
            Tile {
                split: true,
                last_used: seen.tree.frame,
                last_drawn: seen.tree.frame,
                ..seen.tree.tiles.get(key)
            },
        );
        lemma_quarters_asked_keep(
            Pass { tree: marked, ..seen },
            sources,
            key,
            seq![true, true, true, true],
            crate::stream::seen_rank(sight.far),
            4,
        );
        let hungry = TreeView { starved_splits: one_more(seen.tree.starved_splits), ..seen.tree };
        lemma_quarters_asked_keep(
            Pass { tree: hungry, ..seen },
            sources,
            key,
            outlook.quarters@,
            crate::stream::seen_rank(sight.near),
            4,
        );
        if wants_quarters(seen.tree, sources, key, sight) && after == quarters_pending(rest, key) {
            let three = rest.push(child_of(key, 3));
            let two = three.push(child_of(key, 2));
            let one = two.push(child_of(key, 1));
            lemma_effort_pushed(rest, child_of(key, 3));
            lemma_effort_pushed(three, child_of(key, 2));
            lemma_effort_pushed(two, child_of(key, 1));
            lemma_effort_pushed(one, child_of(key, 0));
            assert(effort(key.z as nat) == 1 + 4 * effort((key.z + 1) as nat));
        } else {
            assert(after == rest);
        }
    }
}

/// Whether every tile that waits or is drawn lies between the root level and the
/// deepest, and the lowest and the highest level drawn are those of tiles that are
/// drawn: 255 and 0 before any is.
pub open spec fn levels_kept(tree: TreeView, sources: &Sources) -> bool {
    &&& forall|i: int|
        0 <= i < tree.pending.len() ==> level_fits((#[trigger] tree.pending[i]).z, sources)
    &&& forall|i: int|
        0 <= i < tree.drawn.len() ==> level_fits((#[trigger] tree.drawn[i]).key.z, sources)
            && tree.min_level_drawn <= tree.drawn[i].key.z <= tree.max_level_drawn
    &&& if tree.drawn.len() == 0 {
        tree.min_level_drawn == u8::MAX && tree.max_level_drawn == 0
    } else {
        &&& exists|i: int|
            0 <= i < tree.drawn.len() && (#[trigger] tree.drawn[i]).key.z == tree.min_level_drawn
        &&& exists|i: int|
            0 <= i < tree.drawn.len() && (#[trigger] tree.drawn[i]).key.z == tree.max_level_drawn
    }
}

/// Whether a level lies between the root level and the deepest.
pub open spec fn level_fits(z: u8, sources: &Sources) -> bool {
    ROOT_LEVEL <= z && (z <= ROOT_LEVEL || z <= sources.deepest())
}

/// Whether two trees wait for and draw the same tiles, at the same levels.
spec fn same_levels(a: TreeView, b: TreeView) -> bool {
    &&& a.pending == b.pending
    &&& a.drawn == b.drawn
    &&& a.min_level_drawn == b.min_level_drawn
    &&& a.max_level_drawn == b.max_level_drawn
}

proof fn lemma_quarters_keep_levels(
    pass: Pass,
    sources: &Sources,
    key: TileKey,
    which: Seq<bool>,
    rank: u64,
    n: nat,
)
    ensures
        same_levels(quarters_asked(pass, sources, key, which, rank, n).tree, pass.tree),
    decreases n,
{
    if n > 0 {
        lemma_quarters_keep_levels(pass, sources, key, which, rank, (n - 1) as nat);
    }
}

proof fn lemma_block_keeps_levels(pass: Pass, sources: &Sources, key: TileKey, n: nat)
    ensures
        same_levels(block_asked(pass, sources, key, n).tree, pass.tree),
    decreases n,
{
    if n > 0 {
        lemma_block_keeps_levels(pass, sources, key, (n - 1) as nat);
    }
}

proof fn lemma_focus_keeps_levels(pass: Pass, sources: &Sources, keys: Seq<TileKey>, n: nat)
    ensures
        same_levels(focus_asked(pass, sources, keys, n).tree, pass.tree),
    decreases n,
{
    if n > 0 {
        lemma_focus_keeps_levels(pass, sources, keys, (n - 1) as nat);
        lemma_block_keeps_levels(
            focus_asked(pass, sources, keys, (n - 1) as nat),
            sources,
            keys[n - 1],
            9,
        );
    }
}

/// What is asked for as a frame starts changes nothing of what waits, is drawn and counted.
pub(crate) proof fn lemma_selecting_starts(
    pass: Pass,
    sources: &Sources,
    jumped: bool,
    focus: Seq<TileKey>,
)
    ensures
        ({
            let start = selecting(pass, sources, jumped, focus).tree;
            start == (TreeView { tiles: start.tiles, ..fresh_frame(pass.tree, jumped) })
        }),
{
    lemma_focus_keeps_rest(
        Pass { tree: fresh_frame(pass.tree, jumped), ..pass },
        sources,
        focus,
        focus.len(),
    );
}

proof fn lemma_block_keeps_rest(pass: Pass, sources: &Sources, key: TileKey, n: nat)
    ensures
        ({
            let after = block_asked(pass, sources, key, n).tree;
            after == (TreeView { tiles: after.tiles, ..pass.tree })
        }),
    decreases n,
{
    if n > 0 {
        lemma_block_keeps_rest(pass, sources, key, (n - 1) as nat);
    }
}

proof fn lemma_focus_keeps_rest(pass: Pass, sources: &Sources, keys: Seq<TileKey>, n: nat)
    ensures
        ({
            let after = focus_asked(pass, sources, keys, n).tree;
            after == (TreeView { tiles: after.tiles, ..pass.tree })
        }),
    decreases n,
{
    if n > 0 {
        lemma_focus_keeps_rest(pass, sources, keys, (n - 1) as nat);
        lemma_block_keeps_rest(
            focus_asked(pass, sources, keys, (n - 1) as nat),
            sources,
            keys[n - 1],
            9,
        );
    }
}

/// Drawing a tile keeps the levels.
proof fn lemma_draw_keeps_levels(
    pass: Pass,
    sources: &Sources,
    key: TileKey,
    sight: Sight,
    was_split: bool,
    prev_drawn: u64,
)
    requires
        levels_kept(pass.tree, sources),
        level_fits(key.z, sources),
    ensures
        levels_kept(
            drawn_tile(pass, sources, key, sight, was_split, prev_drawn).tree,
            sources,
        ),
{
    reveal(drawn_tile);
    let before = pass.tree;
    let after = drawn_tile(pass, sources, key, sight, was_split, prev_drawn).tree;
    if after.drawn != before.drawn {
        let n = before.drawn.len() as int;
        assert(after.pending == before.pending);
        assert(after.drawn.len() == n + 1);
        assert(after.drawn[n].key == key);
        assert(forall|i: int| 0 <= i < n ==> after.drawn[i] == before.drawn[i]);
        if n > 0 {
            let low = choose|i: int|
                0 <= i < n && (#[trigger] before.drawn[i]).key.z == before.min_level_drawn;
            let high = choose|i: int|
                0 <= i < n && (#[trigger] before.drawn[i]).key.z == before.max_level_drawn;
            assert(after.drawn[low].key.z == before.min_level_drawn);
            assert(after.drawn[high].key.z == before.max_level_drawn);
        }
    } else {
        assert(same_levels(after, before));
    }
}

/// Looking at a tile keeps the levels.
proof fn lemma_look_keeps_levels(pass: Pass, sources: &Sources, outlook: Outlook)
    requires
        levels_kept(pass.tree, sources),
        pass.tree.pending.len() > 0,
    ensures
        levels_kept(looked_at(pass, sources, outlook).tree, sources),
{
    let key = pass.tree.pending.last();
    let rest = TreeView { pending: pass.tree.pending.drop_last(), ..pass.tree };
    assert(level_fits(pass.tree.pending[pass.tree.pending.len() - 1].z, sources));
    assert(levels_kept(rest, sources));
    if let Some(sight) = outlook.sight {
        let quarters = outlook.quarters@;
        let seen = Pass { tree: TreeView { visited: one_more(rest.visited), ..rest }, ..pass };
        let tile = seen.tree.tiles.get(key);
        let wanted = wants_quarters(seen.tree, sources, key, sight) && (quarters[0] || quarters[1]
            || quarters[2] || quarters[3]);
        if wanted && quarters_ready(seen.tree, key, quarters) {
            reveal(split_up);
            let marked = TreeView { splits: one_more(seen.tree.splits), ..seen.tree }.with(
                key,
                Tile {
                    split: true,
                    last_used: seen.tree.frame,
                    last_drawn: seen.tree.frame,
                    ..tile
                },
            );
            lemma_quarters_keep_levels(
                Pass { tree: marked, ..seen },
                sources,
                key,
                seq![true, true, true, true],
                crate::stream::seen_rank(sight.far),
                4,
            );
            let after = split_up(seen, sources, key, sight).tree;
            let n = rest.pending.len() as int;
            assert(after.pending == quarters_pending(rest.pending, key));
            assert forall|i: int| 0 <= i < after.pending.len() implies level_fits(
                (#[trigger] after.pending[i]).z,
                sources,
            ) by {
                if i < n {
                    assert(after.pending[i] == rest.pending[i]);
                } else {
                    assert(after.pending[i].z == key.z + 1);
                }
            }
        } else {
            reveal(starved);
            let hungry = TreeView {
                starved_splits: one_more(seen.tree.starved_splits),
                ..seen.tree
            };
            lemma_quarters_keep_levels(
                Pass { tree: hungry, ..seen },
                sources,
                key,
                quarters,
                crate::stream::seen_rank(sight.near),
                4,
            );
            let waiting = if wanted {
                starved(seen, sources, key, sight, quarters)
            } else {
                seen
            };
            let whole = Pass {
                tree: waiting.tree.with(key, Tile { split: false, ..waiting.tree.tiles.get(key) }),
                ..waiting
            };
            let asked = mesh_asked(whole, sources, key, crate::stream::seen_rank(sight.at));
            assert(same_levels(asked.tree, rest));
            lemma_draw_keeps_levels(asked, sources, key, sight, tile.split, tile.last_drawn);
        }
    }
}

/// After the first `n` of `outlooks` were had in turn, as long as a tile waits.
pub open spec fn looked_at_all(
    pass: Pass,
    sources: &Sources,
    outlooks: Seq<Outlook>,
    n: nat,
) -> Pass
    decreases n,
{
    if n == 0 {
        pass
    } else {
        let before = looked_at_all(pass, sources, outlooks, (n - 1) as nat);
        if before.tree.pending.len() == 0 {
            before
        } else {
            looked_at(before, sources, outlooks[n - 1])
        }
    }
}

/// Whatever is seen in a frame, the tiles that are drawn lie between the root level
/// and the deepest, and the lowest and the highest level drawn are the extremes of
/// theirs.
pub proof fn lemma_drawn_levels(
    pass: Pass,
    sources: &Sources,
    jumped: bool,
    focus: Seq<TileKey>,
    outlooks: Seq<Outlook>,
    n: nat,
)
    requires
        n <= outlooks.len(),
    ensures
        levels_kept(
            looked_at_all(selecting(pass, sources, jumped, focus), sources, outlooks, n).tree,
            sources,
        ),
    decreases n,
{
    let start = selecting(pass, sources, jumped, focus);
    if n == 0 {
        let fresh = Pass { tree: fresh_frame(pass.tree, jumped), ..pass };
        lemma_focus_keeps_levels(fresh, sources, focus, focus.len());
        assert(same_levels(start.tree, fresh.tree));
        assert(levels_kept(fresh.tree, sources));
    } else {
        lemma_drawn_levels(pass, sources, jumped, focus, outlooks, (n - 1) as nat);
        let before = looked_at_all(start, sources, outlooks, (n - 1) as nat);
        if before.tree.pending.len() > 0 {
            lemma_look_keeps_levels(before, sources, outlooks[n - 1]);
        }
    }
}

} // verus!
