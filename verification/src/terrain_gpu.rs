//! Where meshes, images and instances of terrain lie on the graphics device.
use crate::quadtree::MAX_DRAWN_TILES;
use crate::terrain_mesh::SLOT_SIZE;
#[allow(unused_imports)]
use crate::terrain_mesh::{TOTAL_VERTS, VERTEX_SIZE};
use vstd::prelude::*;

verus! {

/// How many meshes fit on the device.
pub const TERRAIN_SLOTS: u32 = 1400;

/// How many images fit on the device, where it takes that many.
pub const IMAGERY_LAYERS: u32 = 768;

/// The pixels of a side of an image.
pub const IMAGERY_SIZE: u32 = 256;

/// The bytes of what is told of a tile that is drawn.
pub const INSTANCE_SIZE: u64 = 88;

/// How many images fit on a device that takes `limit` layers.
pub fn layer_cap(limit: u32) -> (layers: u32)
    ensures
        layers == (if limit < IMAGERY_LAYERS {
            limit
        } else {
            IMAGERY_LAYERS
        }),
{
    if limit < IMAGERY_LAYERS {
        limit
    } else {
        IMAGERY_LAYERS
    }
}

/// Where the mesh in a slot starts.
pub open spec fn mesh_start(slot: int) -> int {
    slot * SLOT_SIZE
}

/// Where the `i`-th instance starts.
pub open spec fn instance_start(i: int) -> int {
    i * INSTANCE_SIZE
}

/// The bytes of the arena that a slot takes.
pub fn mesh_range(slot: u32) -> (range: (u64, u64))
    requires
        slot < TERRAIN_SLOTS,
    ensures
        range.0 == mesh_start(slot as int),
        range.1 == mesh_start(slot + 1),
        range.1 <= SLOT_SIZE * TERRAIN_SLOTS,
{
    let size: u64 = SLOT_SIZE as u64;
    assert(slot * size == slot * 39168) by (nonlinear_arith)
        requires
            size == 39168,
    ;
    let start: u64 = slot as u64 * size;
    (start, start + size)
}

/// The bytes that the `i`-th instance takes.
pub fn instance_range(i: u32) -> (range: (u64, u64))
    requires
        i < MAX_DRAWN_TILES,
    ensures
        range.0 == instance_start(i as int),
        range.1 == instance_start(i + 1),
        range.1 <= INSTANCE_SIZE * MAX_DRAWN_TILES,
{
    let start: u64 = i as u64 * INSTANCE_SIZE;
    (start, start + INSTANCE_SIZE)
}

/// A mesh fits its slot, and no two slots overlap.
pub proof fn lemma_slots_apart(a: int, b: int)
    requires
        0 <= a,
        0 <= b,
        a != b,
    ensures
        mesh_start(a) + TOTAL_VERTS * VERTEX_SIZE <= mesh_start(a + 1),
        mesh_start(a + 1) <= mesh_start(b) || mesh_start(b + 1) <= mesh_start(a),
{
}

} // verus!
