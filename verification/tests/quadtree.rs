use worldrenderer::gpu::UploadBudget;
use worldrenderer::quadtree::{
    ramp, Outlook, Pressure, Sight, Tint, TileTree, EVICT_PROTECT_FRAMES, MAX_DEFERRED,
    RETIRE_AFTER_FRAMES, RETRY_DELAY_FRAMES,
};
use worldrenderer::residency::Arena;
use worldrenderer::stream::{Incoming, JobKind, Point, WorkerPool};
use worldrenderer::census::Trait;
use worldrenderer::tiling::{default_sources, Sources, TileKey};

fn key(z: u8, x: u32, y: u32) -> TileKey {
    TileKey { z, x, y }
}

struct World {
    tree: TileTree,
    pool: WorkerPool,
    arena: Arena,
    budget: UploadBudget,
    deferred: Vec<Incoming>,
    sources: Sources,
    seen: TileKey,
}

fn world(slots: u32, layers: u32) -> World {
    let mut pool = WorkerPool::new(1, 1000);
    pool.worker_ready(0);
    World {
        tree: TileTree::new(),
        pool,
        arena: Arena::new(slots, layers),
        budget: UploadBudget::new(1_000_000),
        deferred: vec![],
        sources: default_sources(),
        seen: key(3, 2, 2),
    }
}

fn message(kind: JobKind, key: TileKey, payload: Option<Vec<u8>>) -> Incoming {
    Incoming {
        kind,
        key,
        cancelled: false,
        center: Point { x: 1, y: 2, z: 3 },
        min_height: 10.0f32.to_bits(),
        max_height: 90.0f32.to_bits(),
        payload,
    }
}

fn covers(a: TileKey, b: TileKey) -> bool {
    a.z <= b.z && b.ancestor(b.z - a.z) == a
}

impl World {
    /// A frame in which only the tile looked at is seen, from far away or near.
    fn frame(&mut self, near: bool) {
        self.tree.select(false, &vec![], &mut self.pool, &self.sources);
        while let Some(k) = self.tree.upcoming() {
            let seen = covers(k, self.seen) || covers(self.seen, k);
            let sight = Sight {
                splits: near && k.z < 4,
                stays_split: near && k.z < 4,
                near: 1.0f32.to_bits(),
                at: 2.0f32.to_bits(),
                far: 3.0f32.to_bits(),
            };
            let outlook = Outlook {
                sight: if seen { Some(sight) } else { None },
                quarters: [true, true, false, false],
            };
            self.tree.visit(outlook, &mut self.pool, &self.sources);
        }
        self.tree.end_select();
    }

    fn send(&mut self) -> Vec<(JobKind, TileKey)> {
        let mut out = vec![];
        let mut round = self.pool.dispatch();
        while let Some(w) = self.pool.next_to_send(&round) {
            let r = round.request();
            out.push((r.kind, r.key));
            self.pool.posted(&mut round, w, true, 0);
        }
        self.pool.end_dispatch(round);
        out
    }

    fn answer(&mut self, kind: JobKind, key: TileKey, payload: Option<Vec<u8>>) {
        let ok = payload.is_some();
        self.pool.receive(0, message(kind, key, payload), false, ok);
    }

    fn integrate(&mut self) -> Vec<(bool, u32)> {
        self.budget.reset();
        let ups = self.tree.integrate(
            &mut self.arena,
            &mut self.pool,
            &mut self.budget,
            &mut self.deferred,
        );
        ups.iter().map(|u| (u.mesh, u.slot)).collect()
    }
}

#[test]
fn pressures_are_told_apart() {
    let p = |used: u32| Pressure { used, capacity: 100 };
    assert_eq!((p(84).trims(), p(86).trims()), (false, true));
    assert!(p(0).roomy());
    assert!(!p(100).bearable());
}

#[test]
fn ramps_end() {
    assert_eq!(ramp(10, 10), 0);
    assert_eq!(ramp(10, 14), 4);
}

#[test]
fn a_seen_tile_is_asked_for_and_then_drawn() {
    let mut w = world(8, 8);
    w.frame(false);
    assert_eq!(w.tree.drawn.len(), 0);
    assert_eq!((w.tree.visited, w.tree.culled), (1, 63));
    let sent = w.send();
    assert!(sent.contains(&(JobKind::Terrain, w.seen)));
    w.answer(JobKind::Terrain, w.seen, Some(vec![0; 10]));
    assert_eq!(w.integrate(), [(true, 0)]);
    assert!(w.tree.renderable(w.seen));
    assert_eq!(w.tree.uploaded_bytes, 10);
    w.frame(false);
    assert_eq!(w.tree.drawn.len(), 1);
    assert_eq!(w.tree.drawn[0].key, w.seen);
    assert_eq!(w.tree.drawn[0].slot, 0);
    assert!(w.tree.drawn[0].shading.own.is_none());
    assert_eq!((w.tree.min_level_drawn, w.tree.max_level_drawn), (3, 3));
    assert!(w.send().contains(&(JobKind::Imagery, w.seen)));
    w.answer(JobKind::Imagery, w.seen, Some(vec![0; 4]));
    assert_eq!(w.integrate(), [(false, 0)]);
    w.frame(false);
    let own = w.tree.drawn[0].shading.own.unwrap();
    assert_eq!((own.layer, own.window.span), (0, 1));
    assert_eq!(w.tree.image_level(w.seen.child(0), 0), Some(1));
    assert_eq!(w.tree.image_level(w.seen.child(0), 2), None);
    assert_eq!(w.tree.imagery_depth(w.seen.child(1).child(0)), Some(2));
    assert_eq!(
        w.tree.height_range(w.seen.child(0)),
        Some((10.0f32.to_bits(), 90.0f32.to_bits()))
    );
    assert_eq!(w.tree.ground_height(&vec![w.seen.child(0), w.seen]), Some(90.0f32.to_bits()));
    assert_eq!(w.tree.ground_height(&vec![key(3, 0, 0)]), None);
}

#[test]
fn a_tile_splits_once_its_children_can_be_drawn() {
    let mut w = world(8, 8);
    w.frame(true);
    w.send();
    w.answer(JobKind::Terrain, w.seen, Some(vec![0; 10]));
    w.integrate();
    w.frame(true);
    assert_eq!(w.tree.drawn.len(), 1);
    assert_eq!(w.tree.starved_splits, 1);
    let quarters = [w.seen.child(0), w.seen.child(1)];
    let sent = w.send();
    for q in quarters {
        assert!(w.pool.active.iter().any(|j| j.kind == JobKind::Terrain && j.key == q));
    }
    assert!(!sent.contains(&(JobKind::Terrain, w.seen.child(2))));
    for q in quarters {
        w.answer(JobKind::Terrain, q, Some(vec![0; 10]));
    }
    assert_eq!(w.integrate().len(), 2);
    w.frame(true);
    assert_eq!(w.tree.splits, 1);
    let mut drawn: Vec<TileKey> = w.tree.drawn.iter().map(|d| d.key).collect();
    drawn.sort();
    assert_eq!(drawn, quarters);
    for a in 0..drawn.len() {
        for b in 0..drawn.len() {
            assert_eq!(covers(drawn[a], drawn[b]), a == b);
        }
    }
    w.frame(false);
    assert_eq!(w.tree.drawn.len(), 1);
    assert_eq!(w.tree.drawn[0].key, w.seen);
}

#[test]
fn a_frozen_tree_asks_nothing_and_takes_nothing() {
    let mut w = world(8, 8);
    w.tree.frozen = true;
    w.frame(true);
    assert_eq!(w.tree.frame, 0);
    assert_eq!(w.pool.queue.len(), 0);
    w.answer(JobKind::Terrain, w.seen, Some(vec![0; 10]));
    assert_eq!(w.integrate().len(), 0);
    assert_eq!(w.pool.inbox_len(), 1);
    w.tree.frozen = false;
    assert_eq!(w.integrate().len(), 1);
}

#[test]
fn a_failed_tile_is_tried_again_and_then_no_more() {
    let mut w = world(8, 8);
    for round in 0..3 {
        w.frame(false);
        assert!(w.send().contains(&(JobKind::Terrain, w.seen)), "round {}", round);
        w.answer(JobKind::Terrain, w.seen, None);
        w.integrate();
        w.frame(false);
        assert_eq!(w.send().len(), 0);
        for _ in 0..RETRY_DELAY_FRAMES * 8 {
            w.frame(false);
            if w.pool.queue.len() > 0 {
                break;
            }
        }
    }
    assert!(w.tree.exhausted(w.seen));
    assert_eq!(w.pool.queue.len(), 0);
    assert_eq!(w.tree.count(Trait::MeshFailed), 1);
}

#[test]
fn the_tile_unused_for_longest_makes_room() {
    let mut w = world(2, 8);
    for x in 0..2 {
        w.seen = key(3, x, 0);
        w.frame(false);
        w.send();
        w.answer(JobKind::Terrain, w.seen, Some(vec![0; 10]));
        w.integrate();
        w.frame(false);
    }
    w.seen = key(3, 2, 0);
    for _ in 0..EVICT_PROTECT_FRAMES {
        w.frame(false);
    }
    assert_eq!(w.tree.victim(true), Some(key(3, 0, 0)));
    assert_eq!(w.tree.victim(false), None);
    w.send();
    w.answer(JobKind::Terrain, w.seen, Some(vec![0; 10]));
    assert_eq!(w.integrate(), [(true, 0)]);
    assert_eq!(w.tree.mesh_evictions, 1);
    assert!(!w.tree.renderable(key(3, 0, 0)));
    assert!(w.tree.renderable(key(3, 1, 0)));
    assert_eq!(w.arena.slots.used(), 2);
}

#[test]
fn what_finds_no_room_waits() {
    let mut w = world(1, 8);
    w.frame(false);
    w.send();
    w.answer(JobKind::Terrain, w.seen, Some(vec![0; 10]));
    w.answer(JobKind::Terrain, key(3, 7, 7), Some(vec![0; 10]));
    assert_eq!(w.integrate(), [(true, 0)]);
    assert_eq!((w.tree.upload_stalls, w.tree.deferred_uploads), (1, 1));
    assert_eq!(w.deferred.len(), 1);
    assert_eq!(w.tree.count(Trait::MeshInbound), 1);
}

#[test]
fn what_exceeds_the_budget_waits_for_the_next_frame() {
    let mut w = world(8, 8);
    w.budget = UploadBudget::new(15);
    for x in 0..3 {
        w.answer(JobKind::Terrain, key(3, x, 0), Some(vec![0; 10]));
    }
    assert_eq!(w.integrate().len(), 1);
    assert_eq!(w.deferred.len(), 2);
    assert_eq!(w.integrate().len(), 1);
    assert_eq!(w.integrate().len(), 1);
    assert_eq!(w.deferred.len(), 0);
}

#[test]
fn not_more_than_so_many_uploads_wait() {
    let mut w = world(4, 4);
    w.budget = UploadBudget::new(1);
    for x in 0..520 {
        w.answer(JobKind::Imagery, key(12, x, 0), Some(vec![0; 2]));
    }
    assert_eq!(w.integrate().len(), 1);
    assert_eq!(w.deferred.len(), MAX_DEFERRED);
    assert_eq!(w.tree.dropped_uploads, 519 - MAX_DEFERRED as u64);
    assert_eq!(w.tree.count(Trait::ImageryInbound), MAX_DEFERRED);
}

#[test]
fn cancelled_replies_and_assets_do_not_become_tiles() {
    let mut w = world(4, 4);
    let mut late = message(JobKind::Terrain, key(3, 0, 0), Some(vec![1]));
    late.cancelled = true;
    w.pool.receive(0, late, false, true);
    w.answer(JobKind::Model, key(0, 5, 0), Some(vec![1]));
    w.answer(JobKind::Icon, key(0, 0, 0), None);
    assert_eq!(w.integrate().len(), 0);
    assert_eq!((w.tree.models.len(), w.tree.icons.len()), (1, 1));
    assert_eq!(w.tree.tiles.len(), 0);
}

#[test]
fn tiles_out_of_use_are_retired() {
    let mut w = world(20, 20);
    w.answer(JobKind::Terrain, key(6, 0, 0), Some(vec![0; 10]));
    w.integrate();
    assert_eq!(w.arena.slots.used(), 1);
    for _ in 0..RETIRE_AFTER_FRAMES + 2 {
        w.frame(false);
        w.integrate();
    }
    assert_eq!(w.arena.slots.used(), 0);
    assert_eq!(w.tree.retired_meshes, 1);
    assert_eq!(w.tree.count(Trait::HasMesh), 0);
}

#[test]
fn clearing_gives_everything_back() {
    let mut w = world(8, 8);
    w.answer(JobKind::Terrain, w.seen, Some(vec![0; 10]));
    w.answer(JobKind::Imagery, w.seen, Some(vec![0; 10]));
    w.integrate();
    assert_eq!((w.arena.slots.used(), w.arena.layers.used()), (1, 1));
    w.tree.clear_imagery(&mut w.arena);
    assert_eq!((w.arena.slots.used(), w.arena.layers.used()), (1, 0));
    assert!(w.tree.renderable(w.seen));
    assert_eq!(w.tree.resident_imagery(), 0);
    w.tree.clear(&mut w.arena);
    assert_eq!((w.arena.slots.used(), w.arena.layers.used()), (0, 0));
    assert_eq!(w.tree.resident_tiles(), 0);
}

#[test]
fn focus_is_fetched_ahead() {
    let mut w = world(8, 8);
    let focus = vec![key(4, 3, 3), key(5, 6, 6)];
    w.tree.select(true, &focus, &mut w.pool, &w.sources);
    assert!(w.tree.camera_jumped);
    let asked: Vec<(JobKind, TileKey)> = w.pool.queue.iter().map(|r| (r.kind, r.key)).collect();
    for k in focus {
        assert!(asked.contains(&(JobKind::Terrain, k)));
        assert!(asked.contains(&(JobKind::Imagery, k)));
    }
}

#[test]
fn debug_colors_tell_what_a_tile_has() {
    let mut w = world(8, 8);
    let k = w.seen;
    assert!(w.tree.debug_color(k, 0) == Tint::Plain);
    w.tree.set_debug_mode(1);
    assert!(w.tree.debug_color(k, 0) == Tint::Level(3));
    assert!(w.tree.debug_color(key(14, 0, 0), 0) == Tint::Level(2));
    w.tree.set_debug_mode(2);
    assert!(w.tree.debug_color(k, 0) == Tint::Waiting);
    w.tree.set_debug_mode(3);
    assert!(w.tree.debug_color(k, 0) == Tint::NoImage);
    w.answer(JobKind::Imagery, k, Some(vec![0; 4]));
    w.integrate();
    assert!(w.tree.debug_color(k, 0) == Tint::Depth(0));
    assert!(w.tree.debug_color(k.child(2), 0) == Tint::Depth(1));
    w.tree.set_debug_mode(2);
    assert!(w.tree.debug_color(k, 0) == Tint::OwnImage);
    w.tree.set_debug_mode(4);
    let hash = 3u32.wrapping_mul(2_654_435_761);
    let color = Tint::Slot((hash >> 16) as u8, (hash >> 8) as u8, hash as u8);
    assert!(w.tree.debug_color(k, 3) == color);
    w.tree.set_debug_mode(99);
    assert_eq!(w.tree.debug_mode, 5);
    assert!(w.tree.debug_color(k, 3) == Tint::Plain);
}

#[test]
fn the_census_counts_levels() {
    let mut w = world(8, 8);
    w.answer(JobKind::Terrain, key(3, 0, 0), Some(vec![0; 10]));
    w.answer(JobKind::Terrain, key(4, 0, 0), Some(vec![0; 10]));
    w.answer(JobKind::Imagery, key(4, 0, 0), Some(vec![0; 10]));
    w.integrate();
    let d = w.tree.debug();
    assert_eq!((d.tiles, d.meshes, d.imagery), (2, 2, 1));
    assert_eq!(d.protected + d.evictable_mesh, 2);
    let level: Vec<(u8, u32, u32)> =
        d.levels.iter().map(|(z, l)| (*z, l.meshes, l.imagery)).collect();
    assert_eq!(level, [(3, 1, 0), (4, 1, 1)]);
    assert_eq!(w.tree.level_count(Trait::HasMesh, 4), 1);
}

#[test]
fn what_is_taken_is_what_is_resident() {
    let mut w = world(4, 2);
    w.frame(true);
    let k = w.seen;
    w.answer(JobKind::Terrain, k, Some(vec![1; 7]));
    w.answer(JobKind::Imagery, k, Some(vec![2; 5]));
    w.answer(JobKind::Terrain, k.child(0), Some(vec![3; 11]));
    w.answer(JobKind::Terrain, k.child(1), None);
    assert_eq!(w.integrate().len(), 3);
    assert_eq!(w.arena.slots.used() as usize, w.tree.resident_tiles());
    assert_eq!(w.arena.layers.used() as usize, w.tree.resident_imagery());
    assert_eq!((w.tree.resident_tiles(), w.tree.resident_imagery()), (2, 1));
    assert_eq!(w.tree.uploaded_bytes, w.budget.spent());
    assert_eq!(w.tree.uploaded_bytes, 23);
}

#[test]
fn levels_drawn_are_the_extremes() {
    let mut w = world(8, 8);
    w.frame(true);
    assert_eq!((w.tree.min_level_drawn, w.tree.max_level_drawn), (0, 0));
    let k = w.seen;
    w.answer(JobKind::Terrain, k, Some(vec![1; 7]));
    w.integrate();
    w.frame(false);
    assert_eq!((w.tree.min_level_drawn, w.tree.max_level_drawn), (3, 3));
    w.answer(JobKind::Terrain, k.child(0), Some(vec![1; 7]));
    w.answer(JobKind::Terrain, k.child(1), Some(vec![1; 7]));
    w.integrate();
    w.frame(true);
    let levels: Vec<u8> = w.tree.drawn.iter().map(|d| d.key.z).collect();
    assert_eq!(levels, [4, 4]);
    assert_eq!((w.tree.min_level_drawn, w.tree.max_level_drawn), (4, 4));
}
