//! What the tree holds on the graphics device: how answers are taken in, and what
//! gives way to them.
#[allow(unused_imports)]
use crate::census::{count_of, shows, Trait};
use crate::gpu::{SlotAllocator, UploadBudget};
#[allow(unused_imports)]
use crate::gpu::{slot_returned, slots_listed_once, upload_fits};
use crate::quadtree::{
    Pressure, TileTree, EVICT_PROTECT_FRAMES, MAX_DEFERRED, PRUNE_AFTER_FRAMES, PRUNE_AT,
    RETIRE_AFTER_FRAMES, RETIRE_JUMP_FRAMES, RETIRE_PRESSURE_FRAMES, RETRY_DELAY_FRAMES,
};
#[allow(unused_imports)]
use crate::quadtree::{
    block_asked, drawn_at, drawn_tile, focus_asked, found, fresh_frame, imagery_asked,
    lemma_stamped, looked_at, mesh_asked, quarters_asked, selecting, split_up, stamped_by,
    stamps_past, starved, trims, Outlook, Pass, Sight, TreeView,
};
#[allow(unused_imports)]
use crate::stream::{fetches_tiles, one_more_long, PoolView};
use crate::stream::{count_one_long, Incoming, JobKind, WorkerPool};
#[allow(unused_imports)]
use crate::tiles::{lemma_put_get, unknown_tile, TileMap};
use crate::tiles::{MeshRes, Tile, TileStore};
#[allow(unused_imports)]
use crate::tiling::{neighbour_of, Sources};
use crate::tiling::TileKey;
use vstd::prelude::*;

verus! {

/// The slots for meshes and the layers for images.
pub struct Arena {
    pub slots: SlotAllocator,
    pub layers: SlotAllocator,
}

/// The slot of a tile's mesh, or the layer of its image.
pub open spec fn held(tile: Tile, meshes: bool) -> Option<u32> {
    if meshes {
        match tile.mesh {
            Some(mesh) => Some(mesh.slot),
            None => None,
        }
    } else {
        tile.imagery
    }
}

/// Whether each of `capacity` slots is free, in hand, or held by a tile, and by
/// one only.
#[verifier::opaque]
pub open spec fn accounted(
    tiles: TileMap,
    free: Seq<u32>,
    capacity: u32,
    meshes: bool,
    in_hand: Option<u32>,
) -> bool {
    &&& slots_listed_once(free, capacity)
    &&& in_hand matches Some(s) ==> s < capacity && !free.contains(s)
    &&& forall|k: TileKey|
        #![trigger tiles.get(k)]
        held(tiles.get(k), meshes) matches Some(s) ==> s < capacity && !free.contains(s) && in_hand
            != Some(s)
    &&& forall|a: TileKey, b: TileKey|
        #![trigger tiles.get(a), tiles.get(b)]
        a != b && held(tiles.get(a), meshes) is Some ==> held(tiles.get(a), meshes) != held(
            tiles.get(b),
            meshes,
        )
    &&& forall|s: u32|
        #![trigger free.contains(s)]
        s < capacity && !free.contains(s) && in_hand != Some(s) ==> exists|k: TileKey|
            held(#[trigger] tiles.get(k), meshes) == Some(s)
}

/// No two tiles share a slot, and what a tile holds is not free.
pub proof fn lemma_slots_held_once(
    tiles: TileMap,
    free: Seq<u32>,
    capacity: u32,
    meshes: bool,
    a: TileKey,
    b: TileKey,
)
    requires
        accounted(tiles, free, capacity, meshes, None),
        held(tiles.get(a), meshes) is Some,
    ensures
        held(tiles.get(a), meshes)->0 < capacity,
        !free.contains(held(tiles.get(a), meshes)->0),
        held(tiles.get(a), meshes) == held(tiles.get(b), meshes) ==> a == b,
{
    reveal(accounted);
}

/// No slot is lost: one that is not free is held by a tile.
pub proof fn lemma_no_slot_lost(
    tiles: TileMap,
    free: Seq<u32>,
    capacity: u32,
    meshes: bool,
    slot: u32,
)
    requires
        accounted(tiles, free, capacity, meshes, None),
        slot < capacity,
        !free.contains(slot),
    ensures
        exists|k: TileKey| held(#[trigger] tiles.get(k), meshes) == Some(slot),
{
    reveal(accounted);
}

proof fn lemma_free_fits(
    tiles: TileMap,
    free: Seq<u32>,
    capacity: u32,
    meshes: bool,
    in_hand: Option<u32>,
)
    requires
        accounted(tiles, free, capacity, meshes, in_hand),
    ensures
        slots_listed_once(free, capacity),
        free.len() <= capacity,
{
    reveal(accounted);
    crate::gpu::lemma_listed_slots_fit(free, capacity);
}

proof fn lemma_untouched(
    tiles: TileMap,
    free: Seq<u32>,
    capacity: u32,
    meshes: bool,
    in_hand: Option<u32>,
    key: TileKey,
    tile: Tile,
)
    requires
        tiles.wf(),
        accounted(tiles, free, capacity, meshes, in_hand),
        held(tile, meshes) == held(tiles.get(key), meshes),
    ensures
        accounted(tiles.put(key, tile), free, capacity, meshes, in_hand),
{
    reveal(accounted);
    let after = tiles.put(key, tile);
    assert forall|k: TileKey| held(#[trigger] after.get(k), meshes) == held(
        tiles.get(k),
        meshes,
    ) by {
        lemma_put_get(tiles, key, tile, k);
    }
    assert forall|s: u32|
        #![trigger free.contains(s)]
        s < capacity && !free.contains(s) && in_hand != Some(s) implies exists|k: TileKey|
        held(#[trigger] after.get(k), meshes) == Some(s) by {
        let k = choose|k: TileKey| held(#[trigger] tiles.get(k), meshes) == Some(s);
        assert(held(after.get(k), meshes) == Some(s));
    }
}

proof fn lemma_handed_out(tiles: TileMap, free: Seq<u32>, capacity: u32, meshes: bool)
    requires
        accounted(tiles, free, capacity, meshes, None),
        free.len() > 0,
    ensures
        accounted(tiles, free.drop_last(), capacity, meshes, Some(free.last())),
{
    reveal(accounted);
    let rest = free.drop_last();
    let s = free.last();
    crate::gpu::lemma_slot_goes_out_once(free);
    assert(free[free.len() - 1] == s);
    assert(free.contains(s));
    assert forall|x: u32| #[trigger] rest.contains(x) <==> free.contains(x) && x != s by {
        if free.contains(x) && x != s {
            let i = choose|i: int| 0 <= i < free.len() && free[i] == x;
            assert(rest[i] == x);
        }
        if rest.contains(x) {
            let i = choose|i: int| 0 <= i < rest.len() && rest[i] == x;
            assert(free[i] == x);
        }
    }
}

proof fn lemma_taken_from(
    tiles: TileMap,
    free: Seq<u32>,
    capacity: u32,
    meshes: bool,
    key: TileKey,
    tile: Tile,
)
    requires
        tiles.wf(),
        accounted(tiles, free, capacity, meshes, None),
        held(tiles.get(key), meshes) is Some,
        held(tile, meshes) is None,
    ensures
        accounted(tiles.put(key, tile), free, capacity, meshes, held(tiles.get(key), meshes)),
{
    reveal(accounted);
    let after = tiles.put(key, tile);
    assert forall|k: TileKey|
        (k != key ==> #[trigger] after.get(k) == tiles.get(k)) && (k == key ==> after.get(k)
            == tile) by {
        lemma_put_get(tiles, key, tile, k);
    }
    assert forall|s: u32|
        #![trigger free.contains(s)]
        s < capacity && !free.contains(s) && held(tiles.get(key), meshes) != Some(
            s,
        ) implies exists|k: TileKey| held(#[trigger] after.get(k), meshes) == Some(s) by {
        let k = choose|k: TileKey| held(#[trigger] tiles.get(k), meshes) == Some(s);
        assert(held(after.get(k), meshes) == Some(s));
    }
}

proof fn lemma_given_back(tiles: TileMap, free: Seq<u32>, capacity: u32, meshes: bool, slot: u32)
    requires
        accounted(tiles, free, capacity, meshes, Some(slot)),
    ensures
        accounted(tiles, slot_returned(free, slot), capacity, meshes, None),
{
    reveal(accounted);
    let after = slot_returned(free, slot);
    assert(after == free.push(slot));
    assert forall|x: u32| #[trigger] after.contains(x) <==> free.contains(x) || x == slot by {
        if free.contains(x) {
            let i = choose|i: int| 0 <= i < free.len() && free[i] == x;
            assert(after[i] == x);
        }
        if x == slot {
            assert(after[after.len() - 1] == x);
        }
    }
}

/// A tile takes what is in hand, and gives what it held for it.
proof fn lemma_exchanged(
    tiles: TileMap,
    free: Seq<u32>,
    capacity: u32,
    meshes: bool,
    slot: u32,
    key: TileKey,
    tile: Tile,
)
    requires
        tiles.wf(),
        accounted(tiles, free, capacity, meshes, Some(slot)),
        held(tile, meshes) == Some(slot),
    ensures
        accounted(tiles.put(key, tile), free, capacity, meshes, held(tiles.get(key), meshes)),
{
    reveal(accounted);
    let after = tiles.put(key, tile);
    assert forall|k: TileKey|
        (k != key ==> #[trigger] after.get(k) == tiles.get(k)) && (k == key ==> after.get(k)
            == tile) by {
        lemma_put_get(tiles, key, tile, k);
    }
    let given = held(tiles.get(key), meshes);
    assert forall|k: TileKey|
        #![trigger after.get(k)]
        held(after.get(k), meshes) matches Some(s) ==> s < capacity && !free.contains(s) && given
            != Some(s) by {
        if k != key {
            assert(held(tiles.get(k), meshes) is Some ==> held(tiles.get(k), meshes) != held(
                tiles.get(key),
                meshes,
            ));
        } else {
            assert(held(tiles.get(key), meshes) != Some(slot));
        }
    }
    assert forall|s: u32|
        #![trigger free.contains(s)]
        s < capacity && !free.contains(s) && given != Some(s) implies exists|k: TileKey|
        held(#[trigger] after.get(k), meshes) == Some(s) by {
        if s == slot {
            assert(held(after.get(key), meshes) == Some(s));
        } else {
            let k = choose|k: TileKey| held(#[trigger] tiles.get(k), meshes) == Some(s);
            assert(held(after.get(k), meshes) == Some(s));
        }
    }
}

/// Whether a tile may be made to give up what it holds.
pub open spec fn evictable(tile: Tile, frame: u64, meshes: bool) -> bool {
    held(tile, meshes) is Some && tile.last_used < frame && tile.last_drawn + EVICT_PROTECT_FRAMES
        <= frame
}

/// Whether tile `a` gives way before tile `b`: the one that was drawn longest ago,
/// then the one that was used longest ago, then the deeper one.
pub open spec fn goes_sooner(ka: TileKey, a: Tile, kb: TileKey, b: Tile) -> bool {
    a.last_drawn < b.last_drawn || (a.last_drawn == b.last_drawn && (a.last_used < b.last_used || (
    a.last_used == b.last_used && ka.z > kb.z)))
}

/// Of the first `n` tiles, the one that gives way first.
pub open spec fn victim_among(tiles: TileMap, frame: u64, meshes: bool, n: nat) -> Option<TileKey>
    decreases n,
{
    if n == 0 {
        None
    } else {
        let best = victim_among(tiles, frame, meshes, (n - 1) as nat);
        let key = tiles.order[n - 1];
        if !evictable(tiles.get(key), frame, meshes) {
            best
        } else {
            match best {
                Some(other) => if goes_sooner(
                    key,
                    tiles.get(key),
                    other,
                    tiles.get(other),
                ) {
                    Some(key)
                } else {
                    best
                },
                None => Some(key),
            }
        }
    }
}

/// The tile that gives way first.
pub open spec fn victim_of(tiles: TileMap, frame: u64, meshes: bool) -> Option<TileKey> {
    victim_among(tiles, frame, meshes, tiles.order.len())
}

proof fn lemma_victim_among(tiles: TileMap, frame: u64, meshes: bool, n: nat)
    requires
        n <= tiles.order.len(),
    ensures
        victim_among(tiles, frame, meshes, n) matches Some(v) ==> evictable(
            tiles.get(v),
            frame,
            meshes,
        ) && forall|i: int|
            0 <= i < n && evictable(tiles.get(#[trigger] tiles.order[i]), frame, meshes)
                ==> !goes_sooner(tiles.order[i], tiles.get(tiles.order[i]), v, tiles.get(v)),
        victim_among(tiles, frame, meshes, n) is None ==> forall|i: int|
            0 <= i < n ==> !evictable(tiles.get(#[trigger] tiles.order[i]), frame, meshes),
    decreases n,
{
    if n > 0 {
        lemma_victim_among(tiles, frame, meshes, (n - 1) as nat);
    }
}

/// The tile that gives way may be evicted, none that may goes sooner, and where
/// none gives way none may be evicted.
pub proof fn lemma_victim_goes_first(tiles: TileMap, frame: u64, meshes: bool, other: TileKey)
    requires
        tiles.wf(),
    ensures
        victim_of(tiles, frame, meshes) matches Some(v) ==> evictable(
            tiles.get(v),
            frame,
            meshes,
        ) && (evictable(tiles.get(other), frame, meshes) ==> !goes_sooner(
            other,
            tiles.get(other),
            v,
            tiles.get(v),
        )),
        victim_of(tiles, frame, meshes) is None ==> !evictable(tiles.get(other), frame, meshes),
{
    lemma_victim_among(tiles, frame, meshes, tiles.order.len());
    if evictable(tiles.get(other), frame, meshes) {
        assert(tiles.at.contains_key(other));
        let i = choose|i: int| 0 <= i < tiles.order.len() && tiles.order[i] == other;
        assert(tiles.order[i] == other);
    }
}

/// Something that goes up to the graphics device: a mesh to a slot, or an image
/// to a layer.
pub struct Upload {
    pub mesh: bool,
    pub slot: u32,
    pub bytes: Vec<u8>,
}

pub struct UploadView {
    pub mesh: bool,
    pub slot: u32,
    pub bytes: Seq<u8>,
}

impl View for Upload {
    type V = UploadView;

    open spec fn view(&self) -> UploadView {
        UploadView { mesh: self.mesh, slot: self.slot, bytes: self.bytes@ }
    }
}

pub open spec fn upload_views(uploads: Seq<Upload>) -> Seq<UploadView> {
    uploads.map_values(|u: Upload| u@)
}

/// A tile that gave up its mesh or its image.
pub open spec fn given_up(tile: Tile, meshes: bool) -> Tile {
    if meshes {
        Tile { mesh: None, split: false, ..tile }
    } else {
        Tile { imagery: None, imagery_at: 0, ..tile }
    }
}

/// A slot for a new mesh, or a layer for a new image: a free one, else that of
/// the tile that gives way. With it, the tree and what is free after.
pub open spec fn acquired(tree: TreeView, free: Seq<u32>, meshes: bool) -> Option<
    (TreeView, Seq<u32>, u32),
> {
    if free.len() > 0 {
        Some((tree, free.drop_last(), free.last()))
    } else {
        match victim_of(tree.tiles, tree.frame, meshes) {
            Some(key) => {
                let tile = tree.tiles.get(key);
                let counted = if meshes {
                    TreeView { mesh_evictions: one_more_long(tree.mesh_evictions), ..tree }
                } else {
                    TreeView { imagery_evictions: one_more_long(tree.imagery_evictions), ..tree }
                };
                Some((counted.with(key, given_up(tile, meshes)), free, held(tile, meshes)->0))
            },
            None => None,
        }
    }
}

fn held_by(tile: &Tile, meshes: bool) -> (slot: Option<u32>)
    ensures
        slot == held(*tile, meshes),
{
    if meshes {
        match tile.mesh {
            Some(mesh) => Some(mesh.slot),
            None => None,
        }
    } else {
        tile.imagery
    }
}

impl TileTree {
    /// The tile that gives way first.
    pub fn victim(&self, meshes: bool) -> (victim: Option<TileKey>)
        requires
            self.wf(),
        ensures
            victim == victim_of(self@.tiles, self@.frame, meshes),
    {
        let frame: u64 = self.frame;
        let mut best: Option<TileKey> = None;
        let mut n: usize = 0;
        while n < self.tiles.len()
            invariant
                self.wf(),
                frame == self.frame,
                n <= self@.tiles.order.len(),
                best == victim_among(self@.tiles, frame, meshes, n as nat),
            decreases self@.tiles.order.len() - n,
        {
            let key: TileKey = self.tiles.key_at(n);
            let tile: Tile = self.tiles.tile(key);
            proof {
                lemma_stamped(self@, key);
            }
            if held_by(&tile, meshes).is_some() && tile.last_used < frame && tile.last_drawn
                + EVICT_PROTECT_FRAMES <= frame {
                match best {
                    Some(other) => {
                        let rival: Tile = self.tiles.tile(other);
                        if tile.last_drawn < rival.last_drawn || (tile.last_drawn
                            == rival.last_drawn && (tile.last_used < rival.last_used || (
                        tile.last_used == rival.last_used && key.z > other.z))) {
                            best = Some(key);
                        }
                    },
                    None => {
                        best = Some(key);
                    },
                }
            }
            n = n + 1;
        }
        best
    }

    /// Finds a slot for a mesh, or a layer for an image.
    fn acquire(&mut self, slots: &mut SlotAllocator, meshes: bool) -> (slot: Option<u32>)
        requires
            old(self).wf(),
            accounted(old(self)@.tiles, old(slots)@, old(slots).slots(), meshes, None),
        ensures
            final(self).wf(),
            final(slots).slots() == old(slots).slots(),
            match acquired(old(self)@, old(slots)@, meshes) {
                Some((tree, free, s)) => slot == Some(s) && final(self)@ == tree && final(slots)@
                    == free,
                None => slot is None && final(self)@ == old(self)@ && final(slots)@ == old(slots)@,
            },
            accounted(final(self)@.tiles, final(slots)@, final(slots).slots(), meshes, slot),
            forall|f: Seq<u32>, c: u32, m: bool|
                m != meshes && accounted(old(self)@.tiles, f, c, m, None)
                    ==> #[trigger] accounted(final(self)@.tiles, f, c, m, None),
    {
        proof {
            if slots@.len() > 0 {
                lemma_handed_out(self@.tiles, slots@, slots.slots(), meshes);
            }
        }
        if let Some(slot) = slots.allocate() {
            return Some(slot);
        }
        let key: TileKey = match self.victim(meshes) {
            Some(key) => key,
            None => {
                return None;
            },
        };
        let mut tile: Tile = self.tiles.tile(key);
        proof {
            lemma_stamped(self@, key);
            lemma_victim_goes_first(self@.tiles, self@.frame, meshes, key);
        }
        let slot: Option<u32> = held_by(&tile, meshes);
        if meshes {
            tile.mesh = None;
            tile.split = false;
            self.mesh_evictions = count_one_long(self.mesh_evictions);
        } else {
            tile.imagery = None;
            tile.imagery_at = 0;
            self.imagery_evictions = count_one_long(self.imagery_evictions);
        }
        proof {
            lemma_taken_from(self@.tiles, slots@, slots.slots(), meshes, key, tile);
            assert forall|f: Seq<u32>, c: u32, m: bool|
                m != meshes && accounted(
                    old(self)@.tiles,
                    f,
                    c,
                    m,
                    None,
                ) implies #[trigger] accounted(old(self)@.tiles.put(key, tile), f, c, m, None) by {
                lemma_untouched(old(self)@.tiles, f, c, m, None, key, tile);
            }
        }
        self.put(key, tile);
        slot
    }
}

/// A tile of which the mesh or the image could not be fetched.
pub open spec fn failed(tile: Tile, meshes: bool, frame: u64) -> Tile {
    if meshes {
        Tile {
            mesh_inbound: false,
            mesh_fails: if tile.mesh_fails < u8::MAX {
                (tile.mesh_fails + 1) as u8
            } else {
                u8::MAX
            },
            mesh_retry_at: (frame + RETRY_DELAY_FRAMES) as u64,
            ..tile
        }
    } else {
        Tile {
            imagery_inbound: false,
            imagery_fails: if tile.imagery_fails < u8::MAX {
                (tile.imagery_fails + 1) as u8
            } else {
                u8::MAX
            },
            imagery_retry_at: (frame + RETRY_DELAY_FRAMES) as u64,
            ..tile
        }
    }
}

/// A tile that got the mesh or the image of `msg`, in `slot`.
pub open spec fn installed(tile: Tile, msg: Incoming, slot: u32, frame: u64) -> Tile {
    if msg.kind == JobKind::Terrain {
        Tile {
            mesh_fails: 0,
            mesh_inbound: false,
            mesh: Some(
                MeshRes {
                    slot,
                    center: msg.center,
                    min_height: msg.min_height,
                    max_height: msg.max_height,
                },
            ),
            ..tile
        }
    } else {
        Tile {
            imagery_fails: 0,
            imagery_inbound: false,
            imagery_at: frame,
            imagery: Some(slot),
            ..tile
        }
    }
}

/// What is free after what a tile held was given back.
pub open spec fn given_back(free: Seq<u32>, old: Option<u32>) -> Seq<u32> {
    match old {
        Some(slot) => slot_returned(free, slot),
        None => free,
    }
}

/// The tree, what is free, and what became of the answers so far.
#[verifier::ext_equal]
pub struct Intake {
    pub tree: TreeView,
    pub slots: Seq<u32>,
    pub layers: Seq<u32>,
    /// The bytes spent in this frame.
    pub spent: nat,
    /// What waits for a later frame.
    pub leftover: Seq<Incoming>,
    /// What goes up in this frame.
    pub uploads: Seq<UploadView>,
}

/// After one answer was taken in. A job that failed is noted as such. What does
/// not fit the frame, or finds no slot, waits. All else goes up.
pub open spec fn placed(intake: Intake, msg: Incoming, limit: nat) -> Intake {
    let meshes = msg.kind == JobKind::Terrain;
    let tree = intake.tree;
    if !fetches_tiles(msg.kind) {
        intake
    } else if msg.payload is None {
        Intake {
            tree: tree.with(msg.key, failed(tree.tiles.get(msg.key), meshes, tree.frame)),
            ..intake
        }
    } else if !upload_fits(limit, intake.spent, msg.size()) {
        Intake { leftover: intake.leftover.push(msg), ..intake }
    } else {
        match acquired(
            tree,
            if meshes {
                intake.slots
            } else {
                intake.layers
            },
            meshes,
        ) {
            None => Intake {
                tree: TreeView { upload_stalls: one_more_long(tree.upload_stalls), ..tree },
                leftover: intake.leftover.push(msg),
                ..intake
            },
            Some((tree, free, slot)) => {
                let tile = tree.tiles.get(msg.key);
                let free = given_back(free, held(tile, meshes));
                Intake {
                    tree: TreeView {
                        uploaded_bytes: (tree.uploaded_bytes + msg.size()) as usize,
                        ..tree
                    }.with(msg.key, installed(tile, msg, slot, tree.frame)),
                    slots: if meshes {
                        free
                    } else {
                        intake.slots
                    },
                    layers: if meshes {
                        intake.layers
                    } else {
                        free
                    },
                    spent: intake.spent + msg.size(),
                    leftover: intake.leftover,
                    uploads: intake.uploads.push(
                        UploadView { mesh: meshes, slot, bytes: msg.payload->0@ },
                    ),
                }
            },
        }
    }
}

/// After the first `n` of `messages` were taken in.
pub open spec fn placed_all(
    intake: Intake,
    messages: Seq<Incoming>,
    limit: nat,
    n: nat,
) -> Intake
    decreases n,
{
    if n == 0 {
        intake
    } else {
        placed(placed_all(intake, messages, limit, (n - 1) as nat), messages[n - 1], limit)
    }
}

impl Arena {
    /// Whether each slot and each layer is free or held by one tile of `tree`.
    pub open spec fn serves(&self, tree: TreeView) -> bool {
        &&& accounted(tree.tiles, self.slots@, self.slots.slots(), true, None)
        &&& accounted(tree.tiles, self.layers@, self.layers.slots(), false, None)
    }

    /// Whether `self` has as many slots and layers as `other`.
    pub open spec fn same_size(&self, other: &Arena) -> bool {
        self.slots.slots() == other.slots.slots() && self.layers.slots() == other.layers.slots()
    }
}

impl TileTree {
    /// Gives what is in hand to the tile of an answer.
    fn install(
        &mut self,
        slots: &mut SlotAllocator,
        msg: &Incoming,
        slot: u32,
    )
        requires
            old(self).wf(),
            fetches_tiles(msg.kind),
            accounted(
                old(self)@.tiles,
                old(slots)@,
                old(slots).slots(),
                msg.kind == JobKind::Terrain,
                Some(slot),
            ),
        ensures
            final(self).wf(),
            final(slots).slots() == old(slots).slots(),
            final(self)@ == old(self)@.with(
                msg.key,
                installed(old(self)@.tiles.get(msg.key), *msg, slot, old(self)@.frame),
            ),
            final(slots)@ == given_back(
                old(slots)@,
                held(old(self)@.tiles.get(msg.key), msg.kind == JobKind::Terrain),
            ),
            accounted(
                final(self)@.tiles,
                final(slots)@,
                final(slots).slots(),
                msg.kind == JobKind::Terrain,
                None,
            ),
            forall|f: Seq<u32>, c: u32, m: bool|
                m != (msg.kind == JobKind::Terrain) && accounted(old(self)@.tiles, f, c, m, None)
                    ==> #[trigger] accounted(final(self)@.tiles, f, c, m, None),
    {
        let key: TileKey = msg.key;
        let meshes: bool = msg.kind == JobKind::Terrain;
        let mut tile: Tile = self.tiles.tile(key);
        proof {
            lemma_stamped(self@, key);
        }
        let old_slot: Option<u32> = held_by(&tile, meshes);
        if meshes {
            tile.mesh_fails = 0;
            tile.mesh_inbound = false;
            tile.mesh = Some(
                MeshRes {
                    slot,
                    center: msg.center,
                    min_height: msg.min_height,
                    max_height: msg.max_height,
                },
            );
        } else {
            tile.imagery_fails = 0;
            tile.imagery_inbound = false;
            tile.imagery_at = self.frame;
            tile.imagery = Some(slot);
        }
        proof {
            lemma_exchanged(self@.tiles, slots@, slots.slots(), meshes, slot, key, tile);
            assert forall|f: Seq<u32>, c: u32, m: bool|
                m != meshes && accounted(
                    old(self)@.tiles,
                    f,
                    c,
                    m,
                    None,
                ) implies #[trigger] accounted(old(self)@.tiles.put(key, tile), f, c, m, None) by {
                lemma_untouched(old(self)@.tiles, f, c, m, None, key, tile);
            }
        }
        self.put(key, tile);
        if let Some(old_slot) = old_slot {
            proof {
                lemma_given_back(self@.tiles, slots@, slots.slots(), meshes, old_slot);
            }
            slots.free(old_slot);
        }
    }

    /// Notes that the mesh or the image of `key` could not be fetched.
    fn note_failure(&mut self, key: TileKey, meshes: bool)
        requires
            old(self).wf(),
        ensures
            final(self).wf(),
            final(self)@ == old(self)@.with(
                key,
                failed(old(self)@.tiles.get(key), meshes, old(self)@.frame),
            ),
            forall|f: Seq<u32>, c: u32, m: bool|
                accounted(old(self)@.tiles, f, c, m, None) ==> #[trigger] accounted(
                    final(self)@.tiles,
                    f,
                    c,
                    m,
                    None,
                ),
    {
        let mut tile: Tile = self.tiles.tile(key);
        proof {
            lemma_stamped(self@, key);
        }
        if meshes {
            tile.mesh_inbound = false;
            tile.mesh_fails = tile.mesh_fails.saturating_add(1);
            tile.mesh_retry_at = self.frame + RETRY_DELAY_FRAMES;
        } else {
            tile.imagery_inbound = false;
            tile.imagery_fails = tile.imagery_fails.saturating_add(1);
            tile.imagery_retry_at = self.frame + RETRY_DELAY_FRAMES;
        }
        proof {
            assert forall|f: Seq<u32>, c: u32, m: bool|
                accounted(old(self)@.tiles, f, c, m, None) implies #[trigger] accounted(
                old(self)@.tiles.put(key, tile),
                f,
                c,
                m,
                None,
            ) by {
                lemma_untouched(old(self)@.tiles, f, c, m, None, key, tile);
            }
        }
        self.put(key, tile);
    }

    /// Takes in one answer.
    fn place(
        &mut self,
        arena: &mut Arena,
        budget: &mut UploadBudget,
        msg: Incoming,
        leftover: &mut Vec<Incoming>,
        uploads: &mut Vec<Upload>,
    )
        requires
            old(self).wf(),
            old(arena).serves(old(self)@),
            old(self)@.uploaded_bytes <= old(budget)@,
        ensures
            final(self).wf(),
            final(arena).serves(final(self)@),
            final(arena).same_size(old(arena)),
            final(budget).limit() == old(budget).limit(),
            final(self)@.uploaded_bytes <= final(budget)@,
            (Intake {
                tree: final(self)@,
                slots: final(arena).slots@,
                layers: final(arena).layers@,
                spent: final(budget)@,
                leftover: final(leftover)@,
                uploads: upload_views(final(uploads)@),
            }) == placed(
                Intake {
                    tree: old(self)@,
                    slots: old(arena).slots@,
                    layers: old(arena).layers@,
                    spent: old(budget)@,
                    leftover: old(leftover)@,
                    uploads: upload_views(old(uploads)@),
                },
                msg,
                old(budget).limit(),
            ),
    {
        let bytes: usize = msg.bytes();
        let meshes: bool = msg.kind == JobKind::Terrain;
        if !meshes && msg.kind != JobKind::Imagery {
            return;
        }
        if msg.payload.is_none() {
            self.note_failure(msg.key, meshes);
            return;
        }
        if !budget.fits(bytes) {
            leftover.push(msg);
            return;
        }
        let acquired_slot: Option<u32> = if meshes {
            self.acquire(&mut arena.slots, true)
        } else {
            self.acquire(&mut arena.layers, false)
        };
        let slot: u32 = match acquired_slot {
            Some(slot) => slot,
            None => {
                self.upload_stalls = count_one_long(self.upload_stalls);
                leftover.push(msg);
                return;
            },
        };
        budget.take(bytes);
        let spent: usize = budget.spent();
        self.uploaded_bytes = self.uploaded_bytes + bytes;
        if meshes {
            self.install(&mut arena.slots, &msg, slot);
        } else {
            self.install(&mut arena.layers, &msg, slot);
        }
        let ghost before = upload_views(uploads@);
        if let Some(data) = msg.payload {
            uploads.push(Upload { mesh: meshes, slot, bytes: data });
            assert(upload_views(uploads@) =~= before.push(
                UploadView { mesh: meshes, slot, bytes: data@ },
            ));
        }
    }
}

/// A tile of which something waits to be uploaded, or does so no more.
pub open spec fn inbound(tile: Tile, kind: JobKind, waits: bool) -> Tile {
    match kind {
        JobKind::Terrain => Tile { mesh_inbound: waits, ..tile },
        JobKind::Imagery => Tile { imagery_inbound: waits, ..tile },
        JobKind::Model | JobKind::Icon => tile,
    }
}

/// After one answer was looked through: what was cancelled is dropped, models and
/// icons are put aside, and what is left waits to be uploaded.
pub open spec fn looked_through(
    tree: TreeView,
    deferred: Seq<Incoming>,
    msg: Incoming,
) -> (TreeView, Seq<Incoming>) {
    if msg.cancelled {
        (tree, deferred)
    } else if msg.kind == JobKind::Model {
        (TreeView { models: tree.models.push(msg), ..tree }, deferred)
    } else if msg.kind == JobKind::Icon {
        (TreeView { icons: tree.icons.push(msg), ..tree }, deferred)
    } else {
        (
            tree.with(msg.key, inbound(tree.tiles.get(msg.key), msg.kind, true)),
            deferred.push(msg),
        )
    }
}

/// After the first `n` of `messages` were looked through.
pub open spec fn looked_through_all(
    tree: TreeView,
    deferred: Seq<Incoming>,
    messages: Seq<Incoming>,
    n: nat,
) -> (TreeView, Seq<Incoming>)
    decreases n,
{
    if n == 0 {
        (tree, deferred)
    } else {
        let (t, d) = looked_through_all(tree, deferred, messages, (n - 1) as nat);
        looked_through(t, d, messages[n - 1])
    }
}

/// After the last of what waits was given up, for as long as too much waits.
pub open spec fn trimmed(tree: TreeView, leftover: Seq<Incoming>) -> (TreeView, Seq<Incoming>)
    decreases leftover.len(),
{
    if leftover.len() <= MAX_DEFERRED {
        (tree, leftover)
    } else {
        let msg = leftover.last();
        let counted = TreeView { dropped_uploads: one_more_long(tree.dropped_uploads), ..tree };
        trimmed(
            counted.with(msg.key, inbound(tree.tiles.get(msg.key), msg.kind, false)),
            leftover.drop_last(),
        )
    }
}

/// What waits is never more than may.
pub proof fn lemma_trimmed_fits(tree: TreeView, leftover: Seq<Incoming>)
    ensures
        trimmed(tree, leftover).1.len() <= MAX_DEFERRED,
        trimmed(tree, leftover).1.is_prefix_of(leftover),
    decreases leftover.len(),
{
    if leftover.len() > MAX_DEFERRED {
        let msg = leftover.last();
        let counted = TreeView { dropped_uploads: one_more_long(tree.dropped_uploads), ..tree };
        lemma_trimmed_fits(
            counted.with(msg.key, inbound(tree.tiles.get(msg.key), msg.kind, false)),
            leftover.drop_last(),
        );
    }
}

/// The tree and what is free.
#[verifier::ext_equal]
pub struct Holdings {
    pub tree: TreeView,
    pub slots: Seq<u32>,
    pub layers: Seq<u32>,
}

/// After how many frames without use a tile gives up what it holds.
pub open spec fn retire_age(tree: TreeView) -> u64 {
    if !trims(tree.mesh_pressure) && !trims(tree.layer_pressure) {
        RETIRE_AFTER_FRAMES
    } else if tree.camera_jumped {
        RETIRE_JUMP_FRAMES
    } else {
        RETIRE_PRESSURE_FRAMES
    }
}

/// After `key` gave up what it holds, if it was not used for `age` frames.
pub open spec fn retired_one(at: Holdings, key: TileKey, age: u64) -> Holdings {
    let tile = at.tree.tiles.get(key);
    if tile.last_used + age > at.tree.frame {
        at
    } else {
        let bare = if tile.mesh is Some {
            given_up(tile, true)
        } else {
            tile
        };
        let bare = if tile.imagery is Some {
            given_up(bare, false)
        } else {
            bare
        };
        Holdings {
            tree: TreeView {
                retired_meshes: if tile.mesh is Some {
                    one_more_long(at.tree.retired_meshes)
                } else {
                    at.tree.retired_meshes
                },
                retired_imagery: if tile.imagery is Some {
                    one_more_long(at.tree.retired_imagery)
                } else {
                    at.tree.retired_imagery
                },
                ..at.tree
            }.with(key, bare),
            slots: given_back(at.slots, held(tile, true)),
            layers: given_back(at.layers, held(tile, false)),
        }
    }
}

/// After each of the first `n` of `keys` gave up what it holds, if it was not used
/// for `age` frames.
pub open spec fn retired_all(at: Holdings, keys: Seq<TileKey>, age: u64, n: nat) -> Holdings
    decreases n,
{
    if n == 0 {
        at
    } else {
        retired_one(retired_all(at, keys, age, (n - 1) as nat), keys[n - 1], age)
    }
}

/// Whether a tile is worth remembering.
pub open spec fn worth_keeping(tile: Tile, frame: u64) -> bool {
    tile.mesh is Some || tile.imagery is Some || tile.mesh_inbound || tile.imagery_inbound
        || tile.last_used + PRUNE_AFTER_FRAMES > frame
}

/// The tiles after those that are not worth remembering were forgotten, once there
/// are many.
pub open spec fn pruned(tiles: TileMap, frame: u64) -> TileMap {
    if tiles.order.len() < PRUNE_AT {
        tiles
    } else {
        TileMap {
            order: tiles.order.filter(|k: TileKey| worth_keeping(tiles.get(k), frame)),
            at: tiles.at.restrict(Set::new(|k: TileKey| worth_keeping(tiles.get(k), frame))),
        }
    }
}

/// What is remembered of a tile is what was known of it, and only what is not
/// worth remembering is forgotten.
pub proof fn lemma_pruned_keeps(tiles: TileMap, frame: u64, key: TileKey)
    ensures
        pruned(tiles, frame).get(key) == (if tiles.order.len() < PRUNE_AT || worth_keeping(
            tiles.get(key),
            frame,
        ) {
            tiles.get(key)
        } else {
            unknown_tile()
        }),
{
}

/// How much of an arena is taken.
pub open spec fn pressure_of(free: Seq<u32>, capacity: u32) -> Pressure {
    Pressure {
        used: (capacity - free.len()) as u32,
        capacity: if capacity > 1 {
            capacity
        } else {
            1
        },
    }
}

/// The tree after the pressure on the arenas was measured.
pub open spec fn measured(at: Holdings, slot_count: u32, layer_count: u32) -> TreeView {
    TreeView {
        mesh_pressure: pressure_of(at.slots, slot_count),
        layer_pressure: pressure_of(at.layers, layer_count),
        ..at.tree
    }
}

/// The tree and what is free after what is not used any more was given up.
pub open spec fn settled(at: Holdings, slot_count: u32, layer_count: u32) -> Holdings {
    let tree = measured(at, slot_count, layer_count);
    let calm = retired_all(
        Holdings { tree, ..at },
        tree.tiles.order,
        retire_age(tree),
        tree.tiles.order.len(),
    );
    let tree = measured(calm, slot_count, layer_count);
    Holdings { tree: TreeView { tiles: pruned(tree.tiles, tree.frame), ..tree }, ..calm }
}

/// After everything that came back was taken in, as far as the frame allows.
pub open spec fn integrated(
    intake: Intake,
    inbox: Seq<Incoming>,
    deferred: Seq<Incoming>,
    limit: nat,
    slot_count: u32,
    layer_count: u32,
) -> Intake {
    let (tree, waiting) = looked_through_all(intake.tree, deferred, inbox, inbox.len());
    let placed = placed_all(
        Intake { tree: TreeView { uploaded_bytes: 0, ..tree }, ..intake },
        waiting,
        limit,
        waiting.len(),
    );
    let (tree, leftover) = trimmed(placed.tree, placed.leftover);
    let at = settled(
        Holdings {
            tree: TreeView { deferred_uploads: leftover.len() as usize, ..tree },
            slots: placed.slots,
            layers: placed.layers,
        },
        slot_count,
        layer_count,
    );
    Intake { tree: at.tree, slots: at.slots, layers: at.layers, leftover, ..placed }
}

proof fn lemma_put_keeps_order(tiles: TileMap, key: TileKey, tile: Tile)
    requires
        tiles.wf(),
        tiles.order.contains(key),
    ensures
        tiles.put(key, tile).order == tiles.order,
{
    assert(tiles.at.contains_key(key));
}

proof fn lemma_pruned_accounted(
    tiles: TileMap,
    frame: u64,
    free: Seq<u32>,
    capacity: u32,
    meshes: bool,
)
    requires
        accounted(tiles, free, capacity, meshes, None),
    ensures
        accounted(pruned(tiles, frame), free, capacity, meshes, None),
{
    reveal(accounted);
    let after = pruned(tiles, frame);
    assert forall|k: TileKey| held(#[trigger] after.get(k), meshes) == held(
        tiles.get(k),
        meshes,
    ) by {
        lemma_pruned_keeps(tiles, frame, k);
    }
    assert forall|s: u32|
        #![trigger free.contains(s)]
        s < capacity && !free.contains(s) implies exists|k: TileKey|
        held(#[trigger] after.get(k), meshes) == Some(s) by {
        let k = choose|k: TileKey| held(#[trigger] tiles.get(k), meshes) == Some(s);
        assert(held(after.get(k), meshes) == Some(s));
    }
}

proof fn lemma_pruned_stamps(tiles: TileMap, frame: u64)
    requires
        stamps_past(tiles, frame),
        pruned(tiles, frame).wf(),
    ensures
        stamps_past(pruned(tiles, frame), frame),
{
    reveal(stamps_past);
    assert forall|k: TileKey| stamped_by(#[trigger] pruned(tiles, frame).get(k), frame) by {
        lemma_pruned_keeps(tiles, frame, k);
        assert(stamped_by(tiles.get(k), frame));
    }
}

impl TileTree {
    /// Looks through what came back.
    fn look_through(&mut self, messages: Vec<Incoming>, deferred: &mut Vec<Incoming>)
        requires
            old(self).wf(),
        ensures
            final(self).wf(),
            (final(self)@, final(deferred)@) == looked_through_all(
                old(self)@,
                old(deferred)@,
                messages@,
                messages@.len(),
            ),
            forall|f: Seq<u32>, c: u32, m: bool|
                accounted(old(self)@.tiles, f, c, m, None) ==> #[trigger] accounted(
                    final(self)@.tiles,
                    f,
                    c,
                    m,
                    None,
                ),
    {
        let ghost all = messages@;
        let ghost start = self@;
        let ghost waiting = deferred@;
        for msg in it: messages
            invariant
                it.seq() == all,
                self.wf(),
                (self@, deferred@) == looked_through_all(
                    start,
                    waiting,
                    all,
                    it.index() as nat,
                ),
                forall|f: Seq<u32>, c: u32, m: bool|
                    accounted(start.tiles, f, c, m, None) ==> #[trigger] accounted(
                        self@.tiles,
                        f,
                        c,
                        m,
                        None,
                    ),
        {
            assert(msg == all[it.index() as int]);
            if msg.cancelled {
            } else if msg.kind == JobKind::Model {
                self.models.push(msg);
            } else if msg.kind == JobKind::Icon {
                self.icons.push(msg);
            } else {
                self.set_inbound(msg.key, msg.kind, true);
                deferred.push(msg);
            }
        }
    }

    fn set_inbound(&mut self, key: TileKey, kind: JobKind, waits: bool)
        requires
            old(self).wf(),
        ensures
            final(self).wf(),
            final(self)@ == old(self)@.with(key, inbound(old(self)@.tiles.get(key), kind, waits)),
            forall|f: Seq<u32>, c: u32, m: bool|
                accounted(old(self)@.tiles, f, c, m, None) ==> #[trigger] accounted(
                    final(self)@.tiles,
                    f,
                    c,
                    m,
                    None,
                ),
    {
        let mut tile: Tile = self.tiles.tile(key);
        proof {
            lemma_stamped(self@, key);
        }
        match kind {
            JobKind::Terrain => {
                tile.mesh_inbound = waits;
            },
            JobKind::Imagery => {
                tile.imagery_inbound = waits;
            },
            JobKind::Model | JobKind::Icon => {},
        }
        proof {
            assert forall|f: Seq<u32>, c: u32, m: bool|
                accounted(old(self)@.tiles, f, c, m, None) implies #[trigger] accounted(
                old(self)@.tiles.put(key, tile),
                f,
                c,
                m,
                None,
            ) by {
                lemma_untouched(old(self)@.tiles, f, c, m, None, key, tile);
            }
        }
        self.put(key, tile);
    }

    /// Gives up the last of what waits, for as long as too much waits.
    fn trim(&mut self, leftover: &mut Vec<Incoming>)
        requires
            old(self).wf(),
        ensures
            final(self).wf(),
            (final(self)@, final(leftover)@) == trimmed(old(self)@, old(leftover)@),
            forall|f: Seq<u32>, c: u32, m: bool|
                accounted(old(self)@.tiles, f, c, m, None) ==> #[trigger] accounted(
                    final(self)@.tiles,
                    f,
                    c,
                    m,
                    None,
                ),
    {
        while leftover.len() > MAX_DEFERRED
            invariant
                self.wf(),
                trimmed(self@, leftover@) == trimmed(old(self)@, old(leftover)@),
                forall|f: Seq<u32>, c: u32, m: bool|
                    accounted(old(self)@.tiles, f, c, m, None) ==> #[trigger] accounted(
                        self@.tiles,
                        f,
                        c,
                        m,
                        None,
                    ),
            decreases leftover@.len(),
        {
            if let Some(msg) = leftover.pop() {
                self.dropped_uploads = count_one_long(self.dropped_uploads);
                self.set_inbound(msg.key, msg.kind, false);
            }
        }
    }

    /// Lets tiles that were not used for long give up what they hold.
    fn retire(&mut self, arena: &mut Arena)
        requires
            old(self).wf(),
            old(arena).serves(old(self)@),
        ensures
            final(self).wf(),
            final(arena).serves(final(self)@),
            final(arena).same_size(old(arena)),
            (Holdings {
                tree: final(self)@,
                slots: final(arena).slots@,
                layers: final(arena).layers@,
            }) == retired_all(
                Holdings {
                    tree: old(self)@,
                    slots: old(arena).slots@,
                    layers: old(arena).layers@,
                },
                old(self)@.tiles.order,
                retire_age(old(self)@),
                old(self)@.tiles.order.len(),
            ),
    {
        let frame: u64 = self.frame;
        let pressed: bool = self.mesh_pressure.trims() || self.layer_pressure.trims();
        let age: u64 = if !pressed {
            RETIRE_AFTER_FRAMES
        } else if self.camera_jumped {
            RETIRE_JUMP_FRAMES
        } else {
            RETIRE_PRESSURE_FRAMES
        };
        let ghost start = Holdings { tree: self@, slots: arena.slots@, layers: arena.layers@ };
        let ghost keys = self@.tiles.order;
        let mut n: usize = 0;
        while n < self.tiles.len()
            invariant
                n <= keys.len(),
                self@.tiles.order == keys,
                self.wf(),
                self.frame == frame,
                age <= RETIRE_AFTER_FRAMES,
                arena.serves(self@),
                arena.same_size(old(arena)),
                (Holdings { tree: self@, slots: arena.slots@, layers: arena.layers@ })
                    == retired_all(start, keys, age, n as nat),
            decreases keys.len() - n,
        {
            let key: TileKey = self.tiles.key_at(n);
            let mut tile: Tile = self.tiles.tile(key);
            proof {
                lemma_stamped(self@, key);
                assert(keys.contains(key));
            }
            if tile.last_used + age <= frame {
                let slot: Option<u32> = held_by(&tile, true);
                let layer: Option<u32> = held_by(&tile, false);
                if slot.is_some() {
                    tile.mesh = None;
                    tile.split = false;
                    self.retired_meshes = count_one_long(self.retired_meshes);
                }
                if layer.is_some() {
                    tile.imagery = None;
                    tile.imagery_at = 0;
                    self.retired_imagery = count_one_long(self.retired_imagery);
                }
                proof {
                    let t = self@.tiles;
                    lemma_put_keeps_order(t, key, tile);
                    if slot is Some {
                        lemma_taken_from(t, arena.slots@, arena.slots.slots(), true, key, tile);
                    } else {
                        lemma_untouched(
                            t,
                            arena.slots@,
                            arena.slots.slots(),
                            true,
                            None,
                            key,
                            tile,
                        );
                    }
                    if layer is Some {
                        lemma_taken_from(t, arena.layers@, arena.layers.slots(), false, key, tile);
                    } else {
                        lemma_untouched(
                            t,
                            arena.layers@,
                            arena.layers.slots(),
                            false,
                            None,
                            key,
                            tile,
                        );
                    }
                }
                self.put(key, tile);
                if let Some(slot) = slot {
                    proof {
                        lemma_given_back(
                            self@.tiles,
                            arena.slots@,
                            arena.slots.slots(),
                            true,
                            slot,
                        );
                    }
                    arena.slots.free(slot);
                }
                if let Some(layer) = layer {
                    proof {
                        lemma_given_back(
                            self@.tiles,
                            arena.layers@,
                            arena.layers.slots(),
                            false,
                            layer,
                        );
                    }
                    arena.layers.free(layer);
                }
            }
            n = n + 1;
        }
    }

    /// Measures the pressure on the arenas.
    fn measure(&mut self, arena: &Arena)
        requires
            old(self).wf(),
            arena.serves(old(self)@),
        ensures
            final(self).wf(),
            final(self)@ == measured(
                Holdings { tree: old(self)@, slots: arena.slots@, layers: arena.layers@ },
                arena.slots.slots(),
                arena.layers.slots(),
            ),
    {
        proof {
            lemma_free_fits(self@.tiles, arena.slots@, arena.slots.slots(), true, None);
            lemma_free_fits(self@.tiles, arena.layers@, arena.layers.slots(), false, None);
        }
        self.mesh_pressure = pressure(&arena.slots);
        self.layer_pressure = pressure(&arena.layers);
    }

    /// Forgets tiles that are not worth remembering, once there are many.
    fn prune(&mut self)
        requires
            old(self).wf(),
        ensures
            final(self).wf(),
            final(self)@ == (TreeView {
                tiles: pruned(old(self)@.tiles, old(self)@.frame),
                ..old(self)@
            }),
    {
        if self.tiles.len() < PRUNE_AT {
            return;
        }
        let frame: u64 = self.frame;
        let ghost tiles = self@.tiles;
        let ghost keep = |k: TileKey| worth_keeping(tiles.get(k), frame);
        let mut kept: TileStore = TileStore::new();
        let mut n: usize = 0;
        proof {
            reveal(Seq::filter);
            lemma_stamped(self@, TileKey { z: 0, x: 0, y: 0 });
            assert(kept@.order =~= tiles.order.take(0).filter(keep));
        }
        while n < self.tiles.len()
            invariant
                n <= tiles.order.len(),
                self@.tiles == tiles,
                tiles.wf(),
                self.wf(),
                self.frame == frame,
                keep == (|k: TileKey| worth_keeping(tiles.get(k), frame)),
                kept.wf(),
                kept@.order == tiles.order.take(n as int).filter(keep),
                forall|k: TileKey| #[trigger]
                    kept@.at.contains_key(k) <==> tiles.order.take(n as int).contains(k)
                        && worth_keeping(tiles.get(k), frame),
                forall|k: TileKey| #[trigger]
                    kept@.at.contains_key(k) ==> kept@.at[k] == tiles.at[k],
            decreases tiles.order.len() - n,
        {
            let key: TileKey = self.tiles.key_at(n);
            let tile: Tile = self.tiles.tile(key);
            let ghost before = kept@;
            proof {
                lemma_stamped(self@, key);
                assert(tiles.order.contains(key));
                reveal(Seq::filter);
                let longer = tiles.order.take(n + 1);
                assert(longer.drop_last() =~= tiles.order.take(n as int));
                assert(longer.last() == key);
                assert forall|k: TileKey| #[trigger] longer.contains(k) <==> tiles.order.take(
                    n as int,
                ).contains(k) || k == key by {
                    if tiles.order.take(n as int).contains(k) {
                        let i = choose|i: int| 0 <= i < n && tiles.order.take(n as int)[i] == k;
                        assert(longer[i] == k);
                    }
                    if k == key {
                        assert(longer[n as int] == k);
                    }
                }
                assert(!tiles.order.take(n as int).contains(key)) by {
                    if tiles.order.take(n as int).contains(key) {
                        let i = choose|i: int| 0 <= i < n && tiles.order.take(n as int)[i] == key;
                        assert(tiles.order[i] == tiles.order[n as int]);
                    }
                }
            }
            if tile.mesh.is_some() || tile.imagery.is_some() || tile.mesh_inbound
                || tile.imagery_inbound || tile.last_used + PRUNE_AFTER_FRAMES > frame {
                kept.put(key, tile);
                assert(kept@.order =~= before.order.push(key));
            }
            n = n + 1;
        }
        proof {
            assert(tiles.order.take(n as int) =~= tiles.order);
            assert(kept@.at =~= pruned(tiles, frame).at);
            assert(kept@ =~= pruned(tiles, frame));
            kept.lemma_listed_once();
            lemma_pruned_stamps(tiles, frame);
        }
        self.tiles = kept;
    }

    /// Takes in what came back, as far as the frame allows, and lets go of what is
    /// not used any more. Tells what goes up to the graphics device.
    pub fn integrate(
        &mut self,
        arena: &mut Arena,
        pool: &mut WorkerPool,
        budget: &mut UploadBudget,
        deferred: &mut Vec<Incoming>,
    ) -> (uploads: Vec<Upload>)
        requires
            old(self).wf(),
            old(pool).wf(),
            old(arena).serves(old(self)@),
        ensures
            final(self).wf(),
            final(pool).wf(),
            final(arena).serves(final(self)@),
            final(arena).same_size(old(arena)),
            final(budget).limit() == old(budget).limit(),
            old(self).frozen ==> {
                &&& final(self)@ == old(self)@
                &&& final(pool)@ == old(pool)@
                &&& final(arena).slots@ == old(arena).slots@
                &&& final(arena).layers@ == old(arena).layers@
                &&& final(budget)@ == old(budget)@
                &&& final(deferred)@ == old(deferred)@
                &&& uploads@.len() == 0
            },
            !old(self).frozen ==> {
                &&& final(pool)@ == (PoolView { inbox: Seq::empty(), ..old(pool)@ })
                &&& (Intake {
                    tree: final(self)@,
                    slots: final(arena).slots@,
                    layers: final(arena).layers@,
                    spent: final(budget)@,
                    leftover: final(deferred)@,
                    uploads: upload_views(uploads@),
                }) == integrated(
                    Intake {
                        tree: old(self)@,
                        slots: old(arena).slots@,
                        layers: old(arena).layers@,
                        spent: old(budget)@,
                        leftover: Seq::empty(),
                        uploads: Seq::empty(),
                    },
                    old(pool)@.inbox,
                    old(deferred)@,
                    old(budget).limit(),
                    old(arena).slots.slots(),
                    old(arena).layers.slots(),
                )
            },
    {
        let mut uploads: Vec<Upload> = Vec::new();
        if self.frozen {
            return uploads;
        }
        let inbox: Vec<Incoming> = pool.drain_inbox();
        self.look_through(inbox, deferred);
        self.uploaded_bytes = 0;
        let mut waiting: Vec<Incoming> = Vec::new();
        std::mem::swap(&mut waiting, deferred);
        let mut leftover: Vec<Incoming> = Vec::new();
        let ghost all = waiting@;
        let ghost limit = budget.limit();
        let ghost start = Intake {
            tree: self@,
            slots: arena.slots@,
            layers: arena.layers@,
            spent: budget@,
            leftover: Seq::empty(),
            uploads: Seq::empty(),
        };
        assert(upload_views(uploads@) =~= Seq::empty());
        for msg in it: waiting
            invariant
                it.seq() == all,
                self.wf(),
                arena.serves(self@),
                arena.same_size(old(arena)),
                budget.limit() == limit,
                self@.uploaded_bytes <= budget@,
                (Intake {
                    tree: self@,
                    slots: arena.slots@,
                    layers: arena.layers@,
                    spent: budget@,
                    leftover: leftover@,
                    uploads: upload_views(uploads@),
                }) == placed_all(start, all, limit, it.index() as nat),
        {
            assert(msg == all[it.index() as int]);
            self.place(arena, budget, msg, &mut leftover, &mut uploads);
        }
        self.trim(&mut leftover);
        self.deferred_uploads = leftover.len();
        *deferred = leftover;
        self.measure(arena);
        self.retire(arena);
        self.measure(arena);
        proof {
            lemma_pruned_accounted(
                self@.tiles,
                self.frame,
                arena.slots@,
                arena.slots.slots(),
                true,
            );
            lemma_pruned_accounted(
                self@.tiles,
                self.frame,
                arena.layers@,
                arena.layers.slots(),
                false,
            );
        }
        self.prune();
        uploads
    }
}

fn pressure(slots: &SlotAllocator) -> (pressure: Pressure)
    requires
        slots@.len() <= slots.slots(),
    ensures
        pressure == pressure_of(slots@, slots.slots()),
{
    let capacity: u32 = slots.capacity();
    Pressure {
        used: slots.used(),
        capacity: if capacity > 1 {
            capacity
        } else {
            1
        },
    }
}

/// After `key` gave up all that it holds.
pub open spec fn emptied_one(at: Holdings, key: TileKey) -> Holdings {
    let tile = at.tree.tiles.get(key);
    Holdings {
        tree: at.tree.with(key, Tile { mesh: None, imagery: None, ..tile }),
        slots: given_back(at.slots, held(tile, true)),
        layers: given_back(at.layers, held(tile, false)),
    }
}

/// After each of the first `n` of `keys` gave up all that it holds.
pub open spec fn emptied_all(at: Holdings, keys: Seq<TileKey>, n: nat) -> Holdings
    decreases n,
{
    if n == 0 {
        at
    } else {
        emptied_one(emptied_all(at, keys, (n - 1) as nat), keys[n - 1])
    }
}

/// After `key` gave up its image, to be asked for afresh.
pub open spec fn unimaged_one(at: Holdings, key: TileKey) -> Holdings {
    let tile = at.tree.tiles.get(key);
    Holdings {
        tree: at.tree.with(
            key,
            Tile { imagery: None, imagery_fails: 0, imagery_retry_at: 0, imagery_at: 0, ..tile },
        ),
        slots: at.slots,
        layers: given_back(at.layers, tile.imagery),
    }
}

/// After each of the first `n` of `keys` gave up its image.
pub open spec fn unimaged_all(at: Holdings, keys: Seq<TileKey>, n: nat) -> Holdings
    decreases n,
{
    if n == 0 {
        at
    } else {
        unimaged_one(unimaged_all(at, keys, (n - 1) as nat), keys[n - 1])
    }
}

proof fn lemma_nothing_held(
    tiles: TileMap,
    free: Seq<u32>,
    capacity: u32,
    meshes: bool,
    after: TileMap,
)
    requires
        accounted(tiles, free, capacity, meshes, None),
        forall|k: TileKey| held(#[trigger] tiles.get(k), meshes) is None,
        forall|k: TileKey| held(#[trigger] after.get(k), meshes) is None,
    ensures
        accounted(after, free, capacity, meshes, None),
        forall|s: u32| s < capacity ==> #[trigger] free.contains(s),
{
    reveal(accounted);
    assert forall|s: u32| s < capacity implies #[trigger] free.contains(s) by {
        if !free.contains(s) {
            let k = choose|k: TileKey| held(#[trigger] tiles.get(k), meshes) == Some(s);
            assert(held(tiles.get(k), meshes) is None);
        }
    }
}

impl TileTree {
    /// Takes what a tile holds away from it.
    fn strip(&mut self, arena: &mut Arena, key: TileKey, bare: Tile)
        requires
            old(self).wf(),
            old(arena).serves(old(self)@),
            stamped_by(bare, old(self).frame),
            bare.imagery is None,
            bare.mesh is None || bare.mesh == old(self)@.tiles.get(key).mesh,
        ensures
            final(self).wf(),
            final(arena).serves(final(self)@),
            final(arena).same_size(old(arena)),
            final(self)@ == old(self)@.with(key, bare),
            final(arena).slots@ == (if bare.mesh is None {
                given_back(old(arena).slots@, held(old(self)@.tiles.get(key), true))
            } else {
                old(arena).slots@
            }),
            final(arena).layers@ == given_back(
                old(arena).layers@,
                held(old(self)@.tiles.get(key), false),
            ),
    {
        let tile: Tile = self.tiles.tile(key);
        let slot: Option<u32> = if bare.mesh.is_none() {
            held_by(&tile, true)
        } else {
            None
        };
        let layer: Option<u32> = held_by(&tile, false);
        proof {
            lemma_stamped(self@, key);
            let t = self@.tiles;
            if slot is Some {
                lemma_taken_from(t, arena.slots@, arena.slots.slots(), true, key, bare);
            } else {
                lemma_untouched(t, arena.slots@, arena.slots.slots(), true, None, key, bare);
            }
            if layer is Some {
                lemma_taken_from(t, arena.layers@, arena.layers.slots(), false, key, bare);
            } else {
                lemma_untouched(t, arena.layers@, arena.layers.slots(), false, None, key, bare);
            }
        }
        self.put(key, bare);
        if let Some(slot) = slot {
            proof {
                lemma_given_back(self@.tiles, arena.slots@, arena.slots.slots(), true, slot);
            }
            arena.slots.free(slot);
        }
        if let Some(layer) = layer {
            proof {
                lemma_given_back(self@.tiles, arena.layers@, arena.layers.slots(), false, layer);
            }
            arena.layers.free(layer);
        }
    }

    /// Forgets every tile. All slots and layers are free after.
    pub fn clear(&mut self, arena: &mut Arena)
        requires
            old(self).wf(),
            old(arena).serves(old(self)@),
        ensures
            final(self).wf(),
            final(arena).serves(final(self)@),
            final(arena).same_size(old(arena)),
            final(self)@ == (TreeView {
                tiles: TileMap { order: Seq::empty(), at: Map::empty() },
                drawn: Seq::empty(),
                ..old(self)@
            }),
            ({
                let at = emptied_all(
                    Holdings {
                        tree: old(self)@,
                        slots: old(arena).slots@,
                        layers: old(arena).layers@,
                    },
                    old(self)@.tiles.order,
                    old(self)@.tiles.order.len(),
                );
                final(arena).slots@ == at.slots && final(arena).layers@ == at.layers
            }),
            forall|s: u32|
                s < final(arena).slots.slots() ==> #[trigger] final(arena).slots@.contains(s),
            forall|s: u32|
                s < final(arena).layers.slots() ==> #[trigger] final(arena).layers@.contains(s),
    {
        let ghost start = Holdings { tree: self@, slots: arena.slots@, layers: arena.layers@ };
        let ghost keys = self@.tiles.order;
        let mut n: usize = 0;
        proof {
            lemma_stamped(self@, TileKey { z: 0, x: 0, y: 0 });
        }
        while n < self.tiles.len()
            invariant
                n <= keys.len(),
                self@.tiles.order == keys,
                self@.tiles.wf(),
                self.wf(),
                self@ == (TreeView { tiles: self@.tiles, ..start.tree }),
                arena.serves(self@),
                arena.same_size(old(arena)),
                forall|i: int|
                    0 <= i < n ==> self@.tiles.get(#[trigger] keys[i]).mesh is None
                        && self@.tiles.get(keys[i]).imagery is None,
                (Holdings { tree: self@, slots: arena.slots@, layers: arena.layers@ })
                    == emptied_all(start, keys, n as nat),
            decreases keys.len() - n,
        {
            let key: TileKey = self.tiles.key_at(n);
            let mut tile: Tile = self.tiles.tile(key);
            let ghost before = self@.tiles;
            proof {
                lemma_stamped(self@, key);
                assert(keys.contains(key));
            }
            tile.mesh = None;
            tile.imagery = None;
            self.strip(arena, key, tile);
            proof {
                lemma_put_keeps_order(before, key, tile);
                assert forall|i: int| 0 <= i < n + 1 implies self@.tiles.get(
                    #[trigger] keys[i],
                ).mesh is None && self@.tiles.get(keys[i]).imagery is None by {
                    lemma_put_get(before, key, tile, keys[i]);
                }
                lemma_put_get(before, key, tile, key);
            }
            n = n + 1;
        }
        let ghost tiles = self@.tiles;
        self.tiles.clear();
        self.drawn = Vec::new();
        proof {
            assert forall|k: TileKey|
                (#[trigger] tiles.get(k)).mesh is None && tiles.get(k).imagery is None by {
                if tiles.at.contains_key(k) {
                    assert(tiles.order.contains(k));
                    let i = choose|i: int| 0 <= i < keys.len() && keys[i] == k;
                    assert(tiles.get(keys[i]).mesh is None);
                }
            }
            lemma_nothing_held(
                tiles,
                arena.slots@,
                arena.slots.slots(),
                true,
                self@.tiles,
            );
            lemma_nothing_held(
                tiles,
                arena.layers@,
                arena.layers.slots(),
                false,
                self@.tiles,
            );
            reveal(stamps_past);
            reveal(crate::quadtree::ground_once);
        }
    }

    /// Lets every tile give up its image, to be asked for afresh.
    pub fn clear_imagery(&mut self, arena: &mut Arena)
        requires
            old(self).wf(),
            old(arena).serves(old(self)@),
        ensures
            final(self).wf(),
            final(arena).serves(final(self)@),
            final(arena).same_size(old(arena)),
            (Holdings {
                tree: final(self)@,
                slots: final(arena).slots@,
                layers: final(arena).layers@,
            }) == unimaged_all(
                Holdings {
                    tree: old(self)@,
                    slots: old(arena).slots@,
                    layers: old(arena).layers@,
                },
                old(self)@.tiles.order,
                old(self)@.tiles.order.len(),
            ),
    {
        let ghost start = Holdings { tree: self@, slots: arena.slots@, layers: arena.layers@ };
        let ghost keys = self@.tiles.order;
        let mut n: usize = 0;
        while n < self.tiles.len()
            invariant
                n <= keys.len(),
                self@.tiles.order == keys,
                self.wf(),
                arena.serves(self@),
                arena.same_size(old(arena)),
                (Holdings { tree: self@, slots: arena.slots@, layers: arena.layers@ })
                    == unimaged_all(start, keys, n as nat),
            decreases keys.len() - n,
        {
            let key: TileKey = self.tiles.key_at(n);
            let mut tile: Tile = self.tiles.tile(key);
            proof {
                lemma_stamped(self@, key);
                assert(keys.contains(key));
                lemma_put_keeps_order(
                    self@.tiles,
                    key,
                    Tile {
                        imagery: None,
                        imagery_fails: 0,
                        imagery_retry_at: 0,
                        imagery_at: 0,
                        ..tile
                    },
                );
            }
            tile.imagery = None;
            tile.imagery_fails = 0;
            tile.imagery_retry_at = 0;
            tile.imagery_at = 0;
            self.strip(arena, key, tile);
            n = n + 1;
        }
    }
}

proof fn lemma_unimaged_each(at: Holdings, keys: Seq<TileKey>, n: nat, key: TileKey)
    requires
        at.tree.tiles.wf(),
        n <= keys.len(),
        forall|i: int| 0 <= i < keys.len() ==> at.tree.tiles.order.contains(#[trigger] keys[i]),
    ensures
        unimaged_all(at, keys, n).tree.tiles.wf(),
        unimaged_all(at, keys, n).tree.tiles.order == at.tree.tiles.order,
        unimaged_all(at, keys, n).tree.tiles.get(key).mesh == at.tree.tiles.get(key).mesh,
        keys.take(n as int).contains(key) ==> unimaged_all(at, keys, n).tree.tiles.get(
            key,
        ).imagery is None,
    decreases n,
{
    if n > 0 {
        let m = (n - 1) as nat;
        lemma_unimaged_each(at, keys, m, key);
        let before = unimaged_all(at, keys, m);
        let last = keys[n - 1];
        lemma_unimaged_each(at, keys, m, last);
        let tile = before.tree.tiles.get(last);
        let bare = Tile {
            imagery: None,
            imagery_fails: 0,
            imagery_retry_at: 0,
            imagery_at: 0,
            ..tile
        };
        lemma_put_get(before.tree.tiles, last, bare, key);
        lemma_put_keeps_order(before.tree.tiles, last, bare);
        if key != last && keys.take(n as int).contains(key) {
            let i = choose|i: int| 0 <= i < n && keys.take(n as int)[i] == key;
            assert(keys.take(m as int)[i] == key);
        }
    }
}

/// Giving up the images leaves every mesh, and no image.
pub proof fn lemma_clear_imagery_leaves_meshes(at: Holdings, key: TileKey)
    requires
        at.tree.tiles.wf(),
    ensures
        ({
            let keys = at.tree.tiles.order;
            let after = unimaged_all(at, keys, keys.len()).tree.tiles.get(key);
            after.imagery is None && after.mesh == at.tree.tiles.get(key).mesh
        }),
{
    let keys = at.tree.tiles.order;
    assert forall|i: int| 0 <= i < keys.len() implies at.tree.tiles.order.contains(
        #[trigger] keys[i],
    ) by {}
    lemma_unimaged_each(at, keys, keys.len(), key);
    assert(keys.take(keys.len() as int) =~= keys);
    let after = unimaged_all(at, keys, keys.len()).tree.tiles;
    if !keys.contains(key) {
        assert(!after.at.contains_key(key));
    }
}

/// Whether every tile holds in `b` what it holds in `a`.
#[verifier::opaque]
pub open spec fn same_held(a: TileMap, b: TileMap) -> bool {
    &&& a.wf()
    &&& b.wf()
    &&& forall|k: TileKey|
        #![trigger b.get(k)]
        b.get(k).mesh == a.get(k).mesh && b.get(k).imagery == a.get(k).imagery
}

proof fn lemma_same_held_put(a: TileMap, b: TileMap, key: TileKey, tile: Tile)
    requires
        same_held(a, b),
        tile.mesh == b.get(key).mesh,
        tile.imagery == b.get(key).imagery,
    ensures
        same_held(a, b.put(key, tile)),
{
    reveal(same_held);
    let after = b.put(key, tile);
    assert forall|k: TileKey|
        #![trigger after.get(k)]
        after.get(k).mesh == a.get(k).mesh && after.get(k).imagery == a.get(k).imagery by {
        lemma_put_get(b, key, tile, k);
        assert(b.get(k).mesh == a.get(k).mesh && b.get(k).imagery == a.get(k).imagery);
        assert(b.get(key).mesh == a.get(key).mesh);
    }
    lemma_put_get(b, key, tile, key);
}

/// Where every tile holds what it held, each slot is still accounted for.
pub proof fn lemma_same_held_accounted(
    a: TileMap,
    b: TileMap,
    free: Seq<u32>,
    capacity: u32,
    meshes: bool,
)
    requires
        same_held(a, b),
        accounted(a, free, capacity, meshes, None),
    ensures
        accounted(b, free, capacity, meshes, None),
{
    reveal(same_held);
    reveal(accounted);
    assert forall|k: TileKey| held(#[trigger] b.get(k), meshes) == held(a.get(k), meshes) by {}
    assert forall|s: u32|
        #![trigger free.contains(s)]
        s < capacity && !free.contains(s) implies exists|k: TileKey|
        held(#[trigger] b.get(k), meshes) == Some(s) by {
        let k = choose|k: TileKey| held(#[trigger] a.get(k), meshes) == Some(s);
        assert(held(b.get(k), meshes) == Some(s));
    }
}

proof fn lemma_mesh_asked_held(
    a: TileMap,
    pass: Pass,
    sources: &Sources,
    key: TileKey,
    rank: u64,
)
    requires
        same_held(a, pass.tree.tiles),
    ensures
        same_held(a, mesh_asked(pass, sources, key, rank).tree.tiles),
{
    let tile = pass.tree.tiles.get(key);
    lemma_same_held_put(
        a,
        pass.tree.tiles,
        key,
        Tile { last_used: pass.tree.frame, ..tile },
    );
}

proof fn lemma_imagery_asked_held(
    a: TileMap,
    pass: Pass,
    sources: &Sources,
    key: TileKey,
    rank: u64,
)
    requires
        same_held(a, pass.tree.tiles),
    ensures
        same_held(a, imagery_asked(pass, sources, key, rank).tree.tiles),
{
    lemma_same_held_put(a, pass.tree.tiles, key, pass.tree.tiles.get(key));
}

proof fn lemma_quarters_asked_held(
    a: TileMap,
    pass: Pass,
    sources: &Sources,
    key: TileKey,
    which: Seq<bool>,
    rank: u64,
    n: nat,
)
    requires
        same_held(a, pass.tree.tiles),
    ensures
        same_held(a, quarters_asked(pass, sources, key, which, rank, n).tree.tiles),
    decreases n,
{
    if n > 0 {
        let m = (n - 1) as nat;
        lemma_quarters_asked_held(a, pass, sources, key, which, rank, m);
        lemma_mesh_asked_held(
            a,
            quarters_asked(pass, sources, key, which, rank, m),
            sources,
            crate::tiling::child_of(key, m),
            rank,
        );
    }
}

proof fn lemma_found_held(a: TileMap, tree: TreeView, key: TileKey, from: nat)
    requires
        same_held(a, tree.tiles),
    ensures
        same_held(a, found(tree, key, from).0.tiles),
{
    match crate::quadtree::image_level(tree.tiles, key, from) {
        Some(l) => {
            let above = crate::tiling::ancestor_of(key, l);
            let tile = tree.tiles.get(above);
            lemma_same_held_put(
                a,
                tree.tiles,
                above,
                Tile { last_used: tree.frame, last_drawn: tree.frame, ..tile },
            );
        },
        None => {},
    }
}

proof fn lemma_drawn_tile_held(
    a: TileMap,
    pass: Pass,
    sources: &Sources,
    key: TileKey,
    sight: Sight,
    was_split: bool,
    prev_drawn: u64,
)
    requires
        same_held(a, pass.tree.tiles),
    ensures
        same_held(
            a,
            drawn_tile(pass, sources, key, sight, was_split, prev_drawn).tree.tiles,
        ),
{
    reveal(drawn_tile);
    let frame = pass.tree.frame;
    let tile = pass.tree.tiles.get(key);
    lemma_same_held_put(a, pass.tree.tiles, key, Tile { last_used: frame, ..tile });
    let shown = drawn_at(tile, frame, was_split, prev_drawn);
    lemma_same_held_put(a, pass.tree.tiles, key, shown);
    let rank = crate::stream::seen_rank(sight.at);
    let start = Pass { tree: pass.tree.with(key, shown), ..pass };
    lemma_imagery_asked_held(a, start, sources, key, rank);
    let asked = imagery_asked(start, sources, key, rank);
    lemma_found_held(a, asked.tree, key, 0);
    lemma_found_held(a, found(asked.tree, key, 0).0, key, 1);
}

/// Looking at a tile takes nothing from any tile and gives it nothing: what is
/// free, and who holds what, stays.
pub proof fn lemma_looking_keeps_holdings(pass: Pass, sources: &Sources, outlook: Outlook)
    requires
        pass.tree.tiles.wf(),
    ensures
        same_held(pass.tree.tiles, looked_at(pass, sources, outlook).tree.tiles),
{
    let a = pass.tree.tiles;
    reveal(same_held);
    assert(same_held(a, a));
    if let Some(sight) = outlook.sight {
        reveal(split_up);
        reveal(starved);
        let key = pass.tree.pending.last();
        let quarters = outlook.quarters@;
        let rest = TreeView { pending: pass.tree.pending.drop_last(), ..pass.tree };
        let seen = Pass {
            tree: TreeView { visited: crate::stream::one_more(rest.visited), ..rest },
            ..pass
        };
        let frame = seen.tree.frame;
        let tile = seen.tree.tiles.get(key);
        let marked = Tile { split: true, last_used: frame, last_drawn: frame, ..tile };
        lemma_same_held_put(a, a, key, marked);
        let split_start = Pass {
            tree: TreeView {
                splits: crate::stream::one_more(seen.tree.splits),
                ..seen.tree
            }.with(key, marked),
            ..seen
        };
        lemma_quarters_asked_held(
            a,
            split_start,
            sources,
            key,
            seq![true, true, true, true],
            crate::stream::seen_rank(sight.far),
            4,
        );
        let hungry = Pass {
            tree: TreeView {
                starved_splits: crate::stream::one_more(seen.tree.starved_splits),
                ..seen.tree
            },
            ..seen
        };
        lemma_quarters_asked_held(
            a,
            hungry,
            sources,
            key,
            quarters,
            crate::stream::seen_rank(sight.near),
            4,
        );
        let waits = starved(seen, sources, key, sight, quarters);
        assert(same_held(a, waits.tree.tiles));
        lemma_whole_tile_held(a, waits, sources, key, sight, tile);
        lemma_whole_tile_held(a, seen, sources, key, sight, tile);
    }
}

proof fn lemma_whole_tile_held(
    a: TileMap,
    waiting: Pass,
    sources: &Sources,
    key: TileKey,
    sight: Sight,
    was: Tile,
)
    requires
        same_held(a, waiting.tree.tiles),
    ensures
        ({
            let whole = Pass {
                tree: waiting.tree.with(key, Tile { split: false, ..waiting.tree.tiles.get(key) }),
                ..waiting
            };
            same_held(
                a,
                drawn_tile(
                    mesh_asked(whole, sources, key, crate::stream::seen_rank(sight.at)),
                    sources,
                    key,
                    sight,
                    was.split,
                    was.last_drawn,
                ).tree.tiles,
            )
        }),
{
    let tile = Tile { split: false, ..waiting.tree.tiles.get(key) };
    let whole = Pass { tree: waiting.tree.with(key, tile), ..waiting };
    let rank = crate::stream::seen_rank(sight.at);
    lemma_same_held_put(a, waiting.tree.tiles, key, tile);
    lemma_mesh_asked_held(a, whole, sources, key, rank);
    lemma_drawn_tile_held(
        a,
        mesh_asked(whole, sources, key, rank),
        sources,
        key,
        sight,
        was.split,
        was.last_drawn,
    );
}

proof fn lemma_block_asked_held(a: TileMap, pass: Pass, sources: &Sources, key: TileKey, n: nat)
    requires
        same_held(a, pass.tree.tiles),
    ensures
        same_held(a, block_asked(pass, sources, key, n).tree.tiles),
    decreases n,
{
    if n > 0 {
        let m = (n - 1) as nat;
        lemma_block_asked_held(a, pass, sources, key, m);
        let before = block_asked(pass, sources, key, m);
        let rank = crate::stream::focus_rank(key.z);
        match neighbour_of(key, n - 1) {
            Some(near) => {
                lemma_mesh_asked_held(a, before, sources, near, rank);
                lemma_imagery_asked_held(
                    a,
                    mesh_asked(before, sources, near, rank),
                    sources,
                    near,
                    rank,
                );
            },
            None => {},
        }
    }
}

proof fn lemma_focus_asked_held(
    a: TileMap,
    pass: Pass,
    sources: &Sources,
    keys: Seq<TileKey>,
    n: nat,
)
    requires
        same_held(a, pass.tree.tiles),
    ensures
        same_held(a, focus_asked(pass, sources, keys, n).tree.tiles),
    decreases n,
{
    if n > 0 {
        let m = (n - 1) as nat;
        lemma_focus_asked_held(a, pass, sources, keys, m);
        lemma_block_asked_held(a, focus_asked(pass, sources, keys, m), sources, keys[n - 1], 9);
    }
}

/// Starting a frame takes nothing from any tile and gives it nothing.
pub proof fn lemma_selecting_keeps_holdings(
    pass: Pass,
    sources: &Sources,
    jumped: bool,
    focus: Seq<TileKey>,
)
    requires
        pass.tree.tiles.wf(),
    ensures
        same_held(pass.tree.tiles, selecting(pass, sources, jumped, focus).tree.tiles),
{
    let a = pass.tree.tiles;
    reveal(same_held);
    assert(same_held(a, a));
    lemma_focus_asked_held(
        a,
        Pass { tree: fresh_frame(pass.tree, jumped), ..pass },
        sources,
        focus,
        focus.len(),
    );
}

proof fn lemma_retired_each(at: Holdings, keys: Seq<TileKey>, age: u64, n: nat, key: TileKey)
    requires
        at.tree.tiles.wf(),
        n <= keys.len(),
        keys.no_duplicates(),
    ensures
        ({
            let after = retired_all(at, keys, age, n);
            let tile = at.tree.tiles.get(key);
            &&& after.tree.tiles.wf()
            &&& after.tree.frame == at.tree.frame
            &&& !keys.take(n as int).contains(key) || tile.last_used + age > at.tree.frame
                ==> after.tree.tiles.get(key) == tile
            &&& keys.take(n as int).contains(key) && tile.last_used + age <= at.tree.frame ==> {
                let bare = after.tree.tiles.get(key);
                bare.mesh is None && bare.imagery is None && bare.last_used == tile.last_used
            }
        }),
    decreases n,
{
    if n > 0 {
        let m = (n - 1) as nat;
        lemma_retired_each(at, keys, age, m, key);
        let before = retired_all(at, keys, age, m);
        let last = keys[n - 1];
        lemma_retired_each(at, keys, age, m, last);
        let tile = before.tree.tiles.get(last);
        let after = retired_one(before, last, age).tree.tiles;
        lemma_put_get(before.tree.tiles, last, after.get(last), key);
        assert(keys.take(n as int)[m as int] == last);
        assert forall|k: TileKey| #[trigger] keys.take(n as int).contains(k) <==> keys.take(
            m as int,
        ).contains(k) || k == last by {
            if keys.take(m as int).contains(k) {
                let i = choose|i: int| 0 <= i < m && keys.take(m as int)[i] == k;
                assert(keys.take(n as int)[i] == k);
            }
            if keys.take(n as int).contains(k) && k != last {
                let i = choose|i: int| 0 <= i < n && keys.take(n as int)[i] == k;
                assert(keys.take(m as int)[i] == k);
            }
        }
        assert(!keys.take(m as int).contains(last)) by {
            if keys.take(m as int).contains(last) {
                let i = choose|i: int| 0 <= i < m && keys.take(m as int)[i] == last;
                assert(keys[i] == keys[n - 1]);
            }
        }
        if tile.last_used + age <= before.tree.frame {
            let bare = if tile.mesh is Some {
                given_up(tile, true)
            } else {
                tile
            };
            let bare = if tile.imagery is Some {
                given_up(bare, false)
            } else {
                bare
            };
            lemma_put_get(before.tree.tiles, last, bare, key);
        }
    }
}

/// A tile that was not used for long holds nothing after the others retired, and
/// one that was is as it was.
pub proof fn lemma_retiring_spares_used(at: Holdings, age: u64, key: TileKey)
    requires
        at.tree.tiles.wf(),
    ensures
        ({
            let keys = at.tree.tiles.order;
            let tile = at.tree.tiles.get(key);
            let after = retired_all(at, keys, age, keys.len()).tree.tiles.get(key);
            if tile.last_used + age > at.tree.frame {
                after == tile
            } else {
                after.mesh is None && after.imagery is None
            }
        }),
{
    let keys = at.tree.tiles.order;
    lemma_retired_each(at, keys, age, keys.len(), key);
    assert(keys.take(keys.len() as int) =~= keys);
}

impl Arena {
    /// An arena of which nothing is taken: it serves a tree that holds nothing.
    pub fn new(slots: u32, layers: u32) -> (arena: Self)
        ensures
            arena.slots.slots() == slots,
            arena.layers.slots() == layers,
            arena.slots@ == crate::gpu::all_slots(slots),
            arena.layers@ == crate::gpu::all_slots(layers),
            forall|tree: TreeView|
                tree.tiles.at.dom().is_empty() ==> #[trigger] arena.serves(tree),
    {
        let arena = Arena { slots: SlotAllocator::new(slots), layers: SlotAllocator::new(layers) };
        proof {
            assert forall|tree: TreeView|
                tree.tiles.at.dom().is_empty() implies #[trigger] arena.serves(tree) by {
                lemma_fresh_accounted(tree.tiles, slots, true);
                lemma_fresh_accounted(tree.tiles, layers, false);
            }
        }
        arena
    }
}

proof fn lemma_fresh_accounted(tiles: TileMap, capacity: u32, meshes: bool)
    requires
        tiles.at.dom().is_empty(),
    ensures
        accounted(tiles, crate::gpu::all_slots(capacity), capacity, meshes, None),
{
    reveal(accounted);
    let free = crate::gpu::all_slots(capacity);
    assert forall|k: TileKey| held(#[trigger] tiles.get(k), meshes) is None by {
        assert(!tiles.at.contains_key(k));
    }
    assert forall|s: u32| s < capacity implies #[trigger] free.contains(s) by {
        assert(free[capacity - 1 - s] == s);
    }
}

/// A filter keeps what it is to keep, each once where each was listed once.
proof fn lemma_filtered_once(keys: Seq<TileKey>, keep: spec_fn(TileKey) -> bool)
    requires
        keys.no_duplicates(),
    ensures
        keys.filter(keep).no_duplicates(),
        forall|k: TileKey| #[trigger]
            keys.filter(keep).contains(k) <==> keys.contains(k) && keep(k),
    decreases keys.len(),
{
    reveal(Seq::filter);
    if keys.len() > 0 {
        let rest = keys.drop_last();
        let last = keys.last();
        lemma_filtered_once(rest, keep);
        let kept = rest.filter(keep);
        let all = keys.filter(keep);
        assert(!rest.contains(last)) by {
            if rest.contains(last) {
                let i = choose|i: int| 0 <= i < rest.len() && rest[i] == last;
                assert(keys[i] == keys[keys.len() - 1]);
            }
        }
        assert(!kept.contains(last));
        assert forall|k: TileKey| #[trigger] all.contains(k) <==> keys.contains(k) && keep(k) by {
            if keys.contains(k) && keep(k) {
                if k == last {
                    assert(all[all.len() - 1] == k);
                } else {
                    let i = choose|i: int| 0 <= i < keys.len() && keys[i] == k;
                    assert(rest[i] == k);
                    assert(kept.contains(k));
                    let j = choose|j: int| 0 <= j < kept.len() && kept[j] == k;
                    assert(all[j] == k);
                }
            }
            if all.contains(k) {
                let j = choose|j: int| 0 <= j < all.len() && all[j] == k;
                if j < kept.len() {
                    assert(kept.contains(kept[j]));
                    assert(rest.contains(k));
                    let i = choose|i: int| 0 <= i < rest.len() && rest[i] == k;
                    assert(keys[i] == k);
                } else {
                    assert(keys[keys.len() - 1] == k);
                }
            }
        }
        assert forall|i: int, j: int| 0 <= i < all.len() && 0 <= j < all.len() && i != j implies all[i]
            != all[j] by {
            if i < kept.len() && j < kept.len() {
                assert(kept[i] != kept[j]);
            } else if i < kept.len() {
                assert(kept.contains(kept[i]));
            } else if j < kept.len() {
                assert(kept.contains(kept[j]));
            }
        }
    }
}

/// As many slots are taken as there are tiles with a mesh, and as many layers as
/// there are tiles with an image.
pub proof fn lemma_used_is_resident(tree: TreeView, free: Seq<u32>, capacity: u32, meshes: bool)
    requires
        tree.tiles.wf(),
        accounted(tree.tiles, free, capacity, meshes, None),
    ensures
        capacity - free.len() == count_of(
            tree,
            if meshes {
                Trait::HasMesh
            } else {
                Trait::HasImagery
            },
        ),
{
    reveal(accounted);
    let tiles = tree.tiles;
    let what = if meshes {
        Trait::HasMesh
    } else {
        Trait::HasImagery
    };
    let keep = |k: TileKey| shows(tiles.get(k), what, tree.frame);
    lemma_filtered_once(tiles.order, keep);
    let holders = tiles.order.filter(keep);
    assert forall|k: TileKey| #[trigger] holders.contains(k) <==> held(
        tiles.get(k),
        meshes,
    ) is Some by {
        if held(tiles.get(k), meshes) is Some {
            assert(tiles.at.contains_key(k));
            assert(tiles.order.contains(k));
            assert(keep(k));
        }
    }
    let taken = Seq::new(holders.len(), |i: int| held(tiles.get(holders[i]), meshes)->0 as int);
    let listed = free.map_values(|s: u32| s as int);
    let both = listed + taken;
    assert forall|i: int, j: int| 0 <= i < both.len() && 0 <= j < both.len() && i != j implies both[i]
        != both[j] by {
        let n = listed.len() as int;
        if i >= n {
            assert(holders.contains(holders[i - n]));
        }
        if j >= n {
            assert(holders.contains(holders[j - n]));
        }
        if i < n && j < n {
            assert(free[i] != free[j]);
        } else if i < n {
            assert(free.contains(free[i]));
        } else if j < n {
            assert(free.contains(free[j]));
        } else {
            assert(holders[i - n] != holders[j - n]);
        }
    }
    both.unique_seq_to_set();
    let all = vstd::set_lib::set_int_range(0, capacity as int);
    vstd::set_lib::lemma_int_range(0, capacity as int);
    assert forall|s: int| #[trigger] both.to_set().contains(s) <==> all.contains(s) by {
        if both.contains(s) {
            let i = choose|i: int| 0 <= i < both.len() && both[i] == s;
            if i < listed.len() {
                assert(free[i] < capacity);
            } else {
                assert(holders.contains(holders[i - listed.len()]));
            }
        }
        if 0 <= s < capacity {
            let slot = s as u32;
            if free.contains(slot) {
                let i = choose|i: int| 0 <= i < free.len() && free[i] == slot;
                assert(both[i] == s);
            } else {
                let k = choose|k: TileKey| held(#[trigger] tiles.get(k), meshes) == Some(slot);
                assert(holders.contains(k));
                let i = choose|i: int| 0 <= i < holders.len() && holders[i] == k;
                assert(both[listed.len() + i] == s);
            }
        }
    }
    assert(both.to_set() =~= all);
}

/// The bytes of all that goes up.
pub open spec fn bytes_of(uploads: Seq<UploadView>) -> nat
    decreases uploads.len(),
{
    if uploads.len() == 0 {
        0
    } else {
        bytes_of(uploads.drop_last()) + uploads.last().bytes.len()
    }
}

proof fn lemma_bytes_pushed(uploads: Seq<UploadView>, upload: UploadView)
    ensures
        bytes_of(uploads.push(upload)) == bytes_of(uploads) + upload.bytes.len(),
{
    assert(uploads.push(upload).drop_last() =~= uploads);
}

/// What is spent on the answers taken in is what goes up, and is counted as long as
/// it can be.
proof fn lemma_placed_bytes(intake: Intake, messages: Seq<Incoming>, limit: nat, n: nat)
    ensures
        ({
            let after = placed_all(intake, messages, limit, n);
            let spent = after.spent - intake.spent;
            &&& spent >= 0
            &&& bytes_of(after.uploads) == bytes_of(intake.uploads) + spent
            &&& intake.tree.uploaded_bytes + spent <= usize::MAX ==> after.tree.uploaded_bytes
                == intake.tree.uploaded_bytes + spent
        }),
    decreases n,
{
    if n > 0 {
        let m = (n - 1) as nat;
        lemma_placed_bytes(intake, messages, limit, m);
        let before = placed_all(intake, messages, limit, m);
        let msg = messages[m as int];
        let after = placed(before, msg, limit);
        if after.uploads != before.uploads {
            lemma_bytes_pushed(before.uploads, after.uploads.last());
            assert(after.uploads =~= before.uploads.push(after.uploads.last()));
        }
    }
}

proof fn lemma_trimmed_bytes(tree: TreeView, leftover: Seq<Incoming>)
    ensures
        trimmed(tree, leftover).0.uploaded_bytes == tree.uploaded_bytes,
    decreases leftover.len(),
{
    if leftover.len() > MAX_DEFERRED {
        let msg = leftover.last();
        let counted = TreeView { dropped_uploads: one_more_long(tree.dropped_uploads), ..tree };
        lemma_trimmed_bytes(
            counted.with(msg.key, inbound(tree.tiles.get(msg.key), msg.kind, false)),
            leftover.drop_last(),
        );
    }
}

proof fn lemma_retired_bytes(at: Holdings, keys: Seq<TileKey>, age: u64, n: nat)
    ensures
        retired_all(at, keys, age, n).tree.uploaded_bytes == at.tree.uploaded_bytes,
    decreases n,
{
    if n > 0 {
        lemma_retired_bytes(at, keys, age, (n - 1) as nat);
    }
}

/// The bytes that a call counts as uploaded are those that it took from the budget,
/// and those that it hands out to go up.
pub proof fn lemma_uploaded_is_spent(
    intake: Intake,
    inbox: Seq<Incoming>,
    deferred: Seq<Incoming>,
    limit: nat,
    slot_count: u32,
    layer_count: u32,
)
    requires
        intake.uploads.len() == 0,
        integrated(intake, inbox, deferred, limit, slot_count, layer_count).spent <= usize::MAX,
    ensures
        ({
            let after = integrated(intake, inbox, deferred, limit, slot_count, layer_count);
            &&& after.tree.uploaded_bytes == after.spent - intake.spent
            &&& after.tree.uploaded_bytes == bytes_of(after.uploads)
        }),
{
    let (tree, waiting) = looked_through_all(intake.tree, deferred, inbox, inbox.len());
    let start = Intake { tree: TreeView { uploaded_bytes: 0, ..tree }, ..intake };
    lemma_placed_bytes(start, waiting, limit, waiting.len());
    let placed = placed_all(start, waiting, limit, waiting.len());
    lemma_trimmed_bytes(placed.tree, placed.leftover);
    let (tree, leftover) = trimmed(placed.tree, placed.leftover);
    let at = Holdings {
        tree: TreeView { deferred_uploads: leftover.len() as usize, ..tree },
        slots: placed.slots,
        layers: placed.layers,
    };
    let tree = measured(at, slot_count, layer_count);
    lemma_retired_bytes(
        Holdings { tree, ..at },
        tree.tiles.order,
        retire_age(tree),
        tree.tiles.order.len(),
    );
}

} // verus!
