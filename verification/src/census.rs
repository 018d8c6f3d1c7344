//! What the tree reports of itself.
use crate::quadtree::{TileTree, EVICT_PROTECT_FRAMES, MAX_LEVELS, MAX_RETRIES};
#[allow(unused_imports)]
use crate::quadtree::{lemma_stamped, TreeView};
use crate::tiles::Tile;
#[allow(unused_imports)]
use crate::tiles::TileMap;
use crate::tiling::TileKey;
use vstd::prelude::*;

verus! {

/// Something that can be said of a tile.
#[derive(Copy, Clone, PartialEq, Eq, Debug, Structural)]
pub enum Trait {
    HasMesh,
    HasImagery,
    MeshInbound,
    ImageryInbound,
    MeshFailed,
    ImageryFailed,
    Split,
    Drawn,
    /// It holds something and may not be evicted.
    Protected,
    EvictableMesh,
    EvictableImagery,
}

/// Whether a tile may not be evicted at `frame`.
pub open spec fn protected(tile: Tile, frame: u64) -> bool {
    tile.last_drawn + EVICT_PROTECT_FRAMES > frame || tile.last_used >= frame
}

/// Whether something can be said of a tile at `frame`.
pub open spec fn shows(tile: Tile, what: Trait, frame: u64) -> bool {
    match what {
        Trait::HasMesh => tile.mesh is Some,
        Trait::HasImagery => tile.imagery is Some,
        Trait::MeshInbound => tile.mesh_inbound,
        Trait::ImageryInbound => tile.imagery_inbound,
        Trait::MeshFailed => tile.mesh_fails >= MAX_RETRIES,
        Trait::ImageryFailed => tile.imagery_fails >= MAX_RETRIES,
        Trait::Split => tile.split,
        Trait::Drawn => tile.last_drawn == frame,
        Trait::Protected => protected(tile, frame) && (tile.mesh is Some || tile.imagery is Some),
        Trait::EvictableMesh => !protected(tile, frame) && tile.mesh is Some,
        Trait::EvictableImagery => !protected(tile, frame) && tile.imagery is Some,
    }
}

/// The level under which a tile is reported.
pub open spec fn reported_level(key: TileKey) -> nat {
    if key.z < MAX_LEVELS {
        key.z as nat
    } else {
        (MAX_LEVELS - 1) as nat
    }
}

/// How many tiles show something.
pub open spec fn count_of(tree: TreeView, what: Trait) -> nat {
    tree.tiles.order.filter(|k: TileKey| shows(tree.tiles.get(k), what, tree.frame)).len()
}

/// How many tiles of a level show something.
pub open spec fn level_count_of(tree: TreeView, what: Trait, level: nat) -> nat {
    tree.tiles.order.filter(
        |k: TileKey| reported_level(k) == level && shows(tree.tiles.get(k), what, tree.frame),
    ).len()
}

/// How many meshes and images a level has, how many of its tiles were drawn, and
/// how much of it waits to be uploaded.
#[derive(Copy, Clone, PartialEq, Eq, Debug, Structural)]
pub struct LevelStat {
    pub meshes: u32,
    pub imagery: u32,
    pub drawn: u32,
    pub pending: u32,
}

/// What is reported of a level.
pub open spec fn level_stat_of(tree: TreeView, level: nat) -> LevelStat {
    LevelStat {
        meshes: capped(level_count_of(tree, Trait::HasMesh, level)),
        imagery: capped(level_count_of(tree, Trait::HasImagery, level)),
        drawn: capped(level_count_of(tree, Trait::Drawn, level)),
        pending: capped(
            level_count_of(tree, Trait::MeshInbound, level) + level_count_of(
                tree,
                Trait::ImageryInbound,
                level,
            ),
        ),
    }
}

/// A count, as far as the type counts.
pub open spec fn capped(n: nat) -> u32 {
    if n <= u32::MAX {
        n as u32
    } else {
        u32::MAX
    }
}

fn cap(n: u64) -> (capped_n: u32)
    ensures
        capped_n == capped(n as nat),
{
    if n <= u32::MAX as u64 {
        n as u32
    } else {
        u32::MAX
    }
}

/// Whether there is nothing to report of a level.
pub open spec fn level_empty(stat: LevelStat) -> bool {
    stat.meshes == 0 && stat.imagery == 0 && stat.drawn == 0 && stat.pending == 0
}

/// The levels below `n` of which there is something to report.
pub open spec fn levels_of(tree: TreeView, n: nat) -> Seq<(u8, LevelStat)>
    decreases n,
{
    if n == 0 {
        Seq::empty()
    } else {
        let before = levels_of(tree, (n - 1) as nat);
        let stat = level_stat_of(tree, (n - 1) as nat);
        if level_empty(stat) {
            before
        } else {
            before.push(((n - 1) as u8, stat))
        }
    }
}

/// What the tree reports of itself.
pub struct TreeDebug {
    pub tiles: usize,
    pub meshes: usize,
    pub imagery: usize,
    pub mesh_inbound: usize,
    pub imagery_inbound: usize,
    pub mesh_failed: usize,
    pub imagery_failed: usize,
    pub split: usize,
    pub protected: usize,
    pub evictable_mesh: usize,
    pub evictable_imagery: usize,
    pub levels: Vec<(u8, LevelStat)>,
}

/// The greatest ground of the first of `keys` that has a mesh, as the bits of a
/// float.
pub open spec fn first_ground(tiles: TileMap, keys: Seq<TileKey>) -> Option<u32>
    decreases keys.len(),
{
    if keys.len() == 0 {
        None
    } else if tiles.get(keys[0]).mesh is Some {
        Some(tiles.get(keys[0]).mesh->0.max_height)
    } else {
        first_ground(tiles, keys.drop_first())
    }
}

fn tile_shows(tile: &Tile, what: Trait, frame: u64) -> (yes: bool)
    requires
        tile.last_drawn <= frame,
        frame <= crate::quadtree::MAX_FRAME,
    ensures
        yes == shows(*tile, what, frame),
{
    let safe: bool = tile.last_drawn + EVICT_PROTECT_FRAMES > frame || tile.last_used >= frame;
    match what {
        Trait::HasMesh => tile.mesh.is_some(),
        Trait::HasImagery => tile.imagery.is_some(),
        Trait::MeshInbound => tile.mesh_inbound,
        Trait::ImageryInbound => tile.imagery_inbound,
        Trait::MeshFailed => tile.mesh_fails >= MAX_RETRIES,
        Trait::ImageryFailed => tile.imagery_fails >= MAX_RETRIES,
        Trait::Split => tile.split,
        Trait::Drawn => tile.last_drawn == frame,
        Trait::Protected => safe && (tile.mesh.is_some() || tile.imagery.is_some()),
        Trait::EvictableMesh => !safe && tile.mesh.is_some(),
        Trait::EvictableImagery => !safe && tile.imagery.is_some(),
    }
}

fn level_of(key: TileKey) -> (level: usize)
    ensures
        level == reported_level(key),
{
    if (key.z as usize) < MAX_LEVELS {
        key.z as usize
    } else {
        MAX_LEVELS - 1
    }
}

impl TileTree {
    /// How many tiles show something.
    pub fn count(&self, what: Trait) -> (count: usize)
        requires
            self.wf(),
        ensures
            count == count_of(self@, what),
            count <= self@.tiles.order.len(),
    {
        let ghost tiles = self@.tiles;
        let ghost pred = |k: TileKey| shows(tiles.get(k), what, self.frame);
        let mut count: usize = 0;
        let mut n: usize = 0;
        proof {
            reveal(Seq::filter);
        }
        while n < self.tiles.len()
            invariant
                self.wf(),
                tiles == self@.tiles,
                pred == (|k: TileKey| shows(tiles.get(k), what, self.frame)),
                n <= tiles.order.len(),
                count <= n,
                count == tiles.order.take(n as int).filter(pred).len(),
            decreases tiles.order.len() - n,
        {
            let key: TileKey = self.tiles.key_at(n);
            let tile: Tile = self.tiles.tile(key);
            proof {
                lemma_stamped(self@, key);
                reveal(Seq::filter);
                assert(tiles.order.take(n + 1).drop_last() =~= tiles.order.take(n as int));
            }
            if tile_shows(&tile, what, self.frame) {
                count = count + 1;
            }
            n = n + 1;
        }
        assert(tiles.order.take(n as int) =~= tiles.order);
        count
    }

    /// How many tiles of a level show something.
    pub fn level_count(&self, what: Trait, level: usize) -> (count: usize)
        requires
            self.wf(),
        ensures
            count == level_count_of(self@, what, level as nat),
            count <= self@.tiles.order.len(),
    {
        let ghost tiles = self@.tiles;
        let ghost pred = |k: TileKey|
            reported_level(k) == level as nat && shows(tiles.get(k), what, self.frame);
        let mut count: usize = 0;
        let mut n: usize = 0;
        proof {
            reveal(Seq::filter);
        }
        while n < self.tiles.len()
            invariant
                self.wf(),
                tiles == self@.tiles,
                pred == (|k: TileKey|
                    reported_level(k) == level as nat && shows(tiles.get(k), what, self.frame)),
                n <= tiles.order.len(),
                count <= n,
                count == tiles.order.take(n as int).filter(pred).len(),
            decreases tiles.order.len() - n,
        {
            let key: TileKey = self.tiles.key_at(n);
            let tile: Tile = self.tiles.tile(key);
            proof {
                lemma_stamped(self@, key);
                reveal(Seq::filter);
                assert(tiles.order.take(n + 1).drop_last() =~= tiles.order.take(n as int));
            }
            if level_of(key) == level && tile_shows(&tile, what, self.frame) {
                count = count + 1;
            }
            n = n + 1;
        }
        assert(tiles.order.take(n as int) =~= tiles.order);
        count
    }

    /// How many tiles have a mesh.
    pub fn resident_tiles(&self) -> (count: usize)
        requires
            self.wf(),
        ensures
            count == count_of(self@, Trait::HasMesh),
    {
        self.count(Trait::HasMesh)
    }

    /// How many tiles have an image.
    pub fn resident_imagery(&self) -> (count: usize)
        requires
            self.wf(),
        ensures
            count == count_of(self@, Trait::HasImagery),
    {
        self.count(Trait::HasImagery)
    }

    fn level_stat(&self, level: usize) -> (stat: LevelStat)
        requires
            self.wf(),
        ensures
            stat == level_stat_of(self@, level as nat),
    {
        let meshes: u64 = self.level_count(Trait::HasMesh, level) as u64;
        let imagery: u64 = self.level_count(Trait::HasImagery, level) as u64;
        let drawn: u64 = self.level_count(Trait::Drawn, level) as u64;
        let mesh_inbound: u64 = self.level_count(Trait::MeshInbound, level) as u64;
        let imagery_inbound: u64 = self.level_count(Trait::ImageryInbound, level) as u64;
        LevelStat {
            meshes: cap(meshes),
            imagery: cap(imagery),
            drawn: cap(drawn),
            pending: cap(mesh_inbound.saturating_add(imagery_inbound)),
        }
    }

    /// What the tree reports of itself.
    pub fn debug(&self) -> (report: TreeDebug)
        requires
            self.wf(),
        ensures
            report.tiles == self@.tiles.order.len(),
            report.meshes == count_of(self@, Trait::HasMesh),
            report.imagery == count_of(self@, Trait::HasImagery),
            report.mesh_inbound == count_of(self@, Trait::MeshInbound),
            report.imagery_inbound == count_of(self@, Trait::ImageryInbound),
            report.mesh_failed == count_of(self@, Trait::MeshFailed),
            report.imagery_failed == count_of(self@, Trait::ImageryFailed),
            report.split == count_of(self@, Trait::Split),
            report.protected == count_of(self@, Trait::Protected),
            report.evictable_mesh == count_of(self@, Trait::EvictableMesh),
            report.evictable_imagery == count_of(self@, Trait::EvictableImagery),
            report.levels@ == levels_of(self@, MAX_LEVELS as nat),
    {
        let mut levels: Vec<(u8, LevelStat)> = Vec::new();
        let mut z: usize = 0;
        while z < MAX_LEVELS
            invariant
                self.wf(),
                z <= MAX_LEVELS,
                levels@ == levels_of(self@, z as nat),
            decreases MAX_LEVELS - z,
        {
            let stat: LevelStat = self.level_stat(z);
            if stat.meshes > 0 || stat.imagery > 0 || stat.drawn > 0 || stat.pending > 0 {
                levels.push((z as u8, stat));
            }
            z = z + 1;
        }
        TreeDebug {
            tiles: self.tiles.len(),
            meshes: self.count(Trait::HasMesh),
            imagery: self.count(Trait::HasImagery),
            mesh_inbound: self.count(Trait::MeshInbound),
            imagery_inbound: self.count(Trait::ImageryInbound),
            mesh_failed: self.count(Trait::MeshFailed),
            imagery_failed: self.count(Trait::ImageryFailed),
            split: self.count(Trait::Split),
            protected: self.count(Trait::Protected),
            evictable_mesh: self.count(Trait::EvictableMesh),
            evictable_imagery: self.count(Trait::EvictableImagery),
            levels,
        }
    }

    /// The greatest ground of the first of `keys` that has a mesh, as the bits of a
    /// float: with the tiles over a place, deepest first, the ground there.
    pub fn ground_height(&self, keys: &Vec<TileKey>) -> (height: Option<u32>)
        requires
            self.wf(),
        ensures
            height == first_ground(self@.tiles, keys@),
    {
        let mut i: usize = 0;
        assert(keys@.skip(0) =~= keys@);
        while i < keys.len()
            invariant
                self.wf(),
                i <= keys@.len(),
                first_ground(self@.tiles, keys@) == first_ground(self@.tiles, keys@.skip(i as int)),
            decreases keys@.len() - i,
        {
            assert(keys@.skip(i as int)[0] == keys@[i as int]);
            assert(keys@.skip(i as int).drop_first() =~= keys@.skip(i + 1));
            if let Some(mesh) = self.tiles.tile(keys[i]).mesh {
                return Some(mesh.max_height);
            }
            i = i + 1;
        }
        None
    }
}

proof fn lemma_filters_split(
    keys: Seq<TileKey>,
    all: spec_fn(TileKey) -> bool,
    some: spec_fn(TileKey) -> bool,
    rest: spec_fn(TileKey) -> bool,
)
    requires
        forall|k: TileKey| #[trigger] all(k) == (some(k) || rest(k)),
        forall|k: TileKey| !(#[trigger] some(k) && rest(k)),
    ensures
        keys.filter(all).len() == keys.filter(some).len() + keys.filter(rest).len(),
    decreases keys.len(),
{
    reveal(Seq::filter);
    if keys.len() > 0 {
        lemma_filters_split(keys.drop_last(), all, some, rest);
        assert(all(keys.last()) == (some(keys.last()) || rest(keys.last())));
        assert(!(some(keys.last()) && rest(keys.last())));
    }
}

/// A tile that holds both a mesh and an image, or either, is protected or
/// evictable: the meshes are those that may be evicted and those that may not.
pub proof fn lemma_meshes_protected_or_evictable(tree: TreeView)
    ensures
        count_of(tree, Trait::EvictableMesh) <= count_of(tree, Trait::HasMesh),
        count_of(tree, Trait::HasMesh) <= count_of(tree, Trait::EvictableMesh) + count_of(
            tree,
            Trait::Protected,
        ),
{
    let keys = tree.tiles.order;
    let all = |k: TileKey| shows(tree.tiles.get(k), Trait::HasMesh, tree.frame);
    let some = |k: TileKey| shows(tree.tiles.get(k), Trait::EvictableMesh, tree.frame);
    let rest = |k: TileKey|
        shows(tree.tiles.get(k), Trait::HasMesh, tree.frame) && protected(
            tree.tiles.get(k),
            tree.frame,
        );
    lemma_filters_split(keys, all, some, rest);
    let safe = |k: TileKey| shows(tree.tiles.get(k), Trait::Protected, tree.frame);
    let bare = |k: TileKey| safe(k) && !rest(k);
    lemma_filters_split(keys, safe, rest, bare);
}

/// What is said of a tile in a report, by what the tile holds and when it was last drawn and
/// used. What may be evicted is what was neither drawn in the last thirty frames nor used in
/// this one, and what failed three times is given up.
pub proof fn lemma_what_a_tile_shows(tile: Tile, frame: u64)
    ensures
        ({
            let idle = tile.last_drawn + 30 <= frame && tile.last_used < frame;
            &&& shows(tile, Trait::HasMesh, frame) <==> tile.mesh is Some
            &&& shows(tile, Trait::HasImagery, frame) <==> tile.imagery is Some
            &&& shows(tile, Trait::MeshInbound, frame) <==> tile.mesh_inbound
            &&& shows(tile, Trait::ImageryInbound, frame) <==> tile.imagery_inbound
            &&& shows(tile, Trait::MeshFailed, frame) <==> tile.mesh_fails >= 3
            &&& shows(tile, Trait::ImageryFailed, frame) <==> tile.imagery_fails >= 3
            &&& shows(tile, Trait::Split, frame) <==> tile.split
            &&& shows(tile, Trait::Drawn, frame) <==> tile.last_drawn == frame
            &&& shows(tile, Trait::EvictableMesh, frame) <==> idle && tile.mesh is Some
            &&& shows(tile, Trait::EvictableImagery, frame) <==> idle && tile.imagery is Some
            &&& shows(tile, Trait::Protected, frame) <==> !idle && (tile.mesh is Some
                || tile.imagery is Some)
        }),
{
}

/// How many tiles of the first `n` levels show something.
pub open spec fn counted_below(tree: TreeView, what: Trait, n: nat) -> nat
    decreases n,
{
    if n == 0 {
        0
    } else {
        counted_below(tree, what, (n - 1) as nat) + level_count_of(tree, what, (n - 1) as nat)
    }
}

proof fn lemma_counted_below(tree: TreeView, what: Trait, n: nat)
    ensures
        counted_below(tree, what, n) == tree.tiles.order.filter(
            |k: TileKey| reported_level(k) < n && shows(tree.tiles.get(k), what, tree.frame),
        ).len(),
    decreases n,
{
    let keys = tree.tiles.order;
    let all = |k: TileKey| reported_level(k) < n && shows(tree.tiles.get(k), what, tree.frame);
    if n == 0 {
        lemma_none_kept(keys, all);
    } else {
        let m = (n - 1) as nat;
        lemma_counted_below(tree, what, m);
        let some = |k: TileKey|
            reported_level(k) < m && shows(tree.tiles.get(k), what, tree.frame);
        let rest = |k: TileKey|
            reported_level(k) == m && shows(tree.tiles.get(k), what, tree.frame);
        lemma_filters_split(keys, all, some, rest);
    }
}

proof fn lemma_none_kept(keys: Seq<TileKey>, keep: spec_fn(TileKey) -> bool)
    requires
        forall|k: TileKey| !#[trigger] keep(k),
    ensures
        keys.filter(keep).len() == 0,
    decreases keys.len(),
{
    reveal(Seq::filter);
    if keys.len() > 0 {
        lemma_none_kept(keys.drop_last(), keep);
    }
}

/// What is counted level by level is all that there is: no tile is left out and none is
/// counted twice, however deep it lies.
pub proof fn lemma_levels_add_up(tree: TreeView, what: Trait)
    ensures
        counted_below(tree, what, 24) == count_of(tree, what),
{
    lemma_counted_below(tree, what, 24);
    let below = |k: TileKey| reported_level(k) < 24 && shows(tree.tiles.get(k), what, tree.frame);
    let all = |k: TileKey| shows(tree.tiles.get(k), what, tree.frame);
    assert(below =~= all);
}

/// A tile is counted with its own level, or with the last that is reported if it lies deeper.
pub proof fn lemma_counted_with_its_level(tree: TreeView, what: Trait, i: int)
    requires
        0 <= i < tree.tiles.order.len(),
        shows(tree.tiles.get(tree.tiles.order[i]), what, tree.frame),
    ensures
        tree.tiles.order[i].z < 24 ==> level_count_of(
            tree,
            what,
            tree.tiles.order[i].z as nat,
        ) > 0,
        tree.tiles.order[i].z >= 24 ==> level_count_of(tree, what, 23) > 0,
{
    let level = reported_level(tree.tiles.order[i]);
    let keep = |k: TileKey|
        reported_level(k) == level && shows(tree.tiles.get(k), what, tree.frame);
    tree.tiles.order.lemma_filter_contains(keep, i);
    let kept = tree.tiles.order.filter(keep);
    assert(kept.contains(tree.tiles.order[i]));
}

/// The levels are reported from the highest to the deepest, each of which there is something
/// to report, and no other, with as many meshes, images, tiles drawn and uploads to come as it
/// has.
pub proof fn lemma_levels_listed(tree: TreeView, n: nat, z: nat, i: int, j: int)
    requires
        n <= 24,
    ensures
        ({
            let levels = levels_of(tree, n);
            let meshes = level_count_of(tree, Trait::HasMesh, z);
            let imagery = level_count_of(tree, Trait::HasImagery, z);
            let drawn = level_count_of(tree, Trait::Drawn, z);
            let pending = level_count_of(tree, Trait::MeshInbound, z) + level_count_of(
                tree,
                Trait::ImageryInbound,
                z,
            );
            &&& z < n && (meshes > 0 || imagery > 0 || drawn > 0 || pending > 0) ==> exists|k: int|
                0 <= k < levels.len() && (#[trigger] levels[k]).0 == z
            &&& 0 <= i < levels.len() ==> levels[i].0 < n
            &&& 0 <= i < j < levels.len() ==> levels[i].0 < levels[j].0
            &&& 0 <= i < levels.len() && levels[i].0 == z ==> {
                let stat = levels[i].1;
                &&& meshes > 0 || imagery > 0 || drawn > 0 || pending > 0
                &&& meshes <= u32::MAX ==> stat.meshes == meshes
                &&& imagery <= u32::MAX ==> stat.imagery == imagery
                &&& drawn <= u32::MAX ==> stat.drawn == drawn
                &&& pending <= u32::MAX ==> stat.pending == pending
            }
        }),
    decreases n,
{
    if n > 0 {
        let m = (n - 1) as nat;
        lemma_levels_listed(tree, m, z, i, j);
        let before = levels_of(tree, m);
        let levels = levels_of(tree, n);
        if levels.len() > before.len() {
            lemma_levels_listed(tree, m, z, before.len() - 1, i);
            assert(levels[before.len() as int].0 == m);
        }
        if exists|k: int| 0 <= k < before.len() && (#[trigger] before[k]).0 == z {
            let k = choose|k: int| 0 <= k < before.len() && (#[trigger] before[k]).0 == z;
            assert(levels[k] == before[k]);
        }
        if 0 <= i < j < levels.len() && j == before.len() {
            lemma_levels_listed(tree, m, z, i, i);
        }
    }
}

/// The ground at a place is that of the first tile that has a mesh, and there is none if no
/// tile has one.
pub proof fn lemma_first_mesh_tells_ground(tiles: TileMap, keys: Seq<TileKey>, i: int)
    ensures
        0 <= i < keys.len() && tiles.get(keys[i]).mesh is Some && (forall|j: int|
            0 <= j < i ==> tiles.get(#[trigger] keys[j]).mesh is None) ==> first_ground(tiles, keys)
            == Some(tiles.get(keys[i]).mesh->0.max_height),
        (forall|j: int| 0 <= j < keys.len() ==> tiles.get(#[trigger] keys[j]).mesh is None)
            ==> first_ground(tiles, keys) is None,
    decreases keys.len(),
{
    if keys.len() > 0 {
        let rest = keys.drop_first();
        lemma_first_mesh_tells_ground(tiles, rest, i - 1);
        assert forall|j: int| 0 <= j < rest.len() implies rest[j] == #[trigger] keys[j + 1] by {}
        if i > 0 && i < keys.len() {
            assert(rest[i - 1] == keys[i]);
            if forall|j: int| 0 <= j < i ==> tiles.get(#[trigger] keys[j]).mesh is None {
                assert(tiles.get(keys[0]).mesh is None);
                assert forall|j: int| 0 <= j < i - 1 implies tiles.get(
                    #[trigger] rest[j],
                ).mesh is None by {
                    assert(rest[j] == keys[j + 1]);
                }
            }
        }
        if forall|j: int| 0 <= j < keys.len() ==> tiles.get(#[trigger] keys[j]).mesh is None {
            assert(tiles.get(keys[0]).mesh is None);
            assert forall|j: int| 0 <= j < rest.len() implies tiles.get(
                #[trigger] rest[j],
            ).mesh is None by {
                assert(rest[j] == keys[j + 1]);
            }
        }
    }
}

} // verus!
