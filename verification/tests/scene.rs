use worldrenderer::model::{encode, Bits2, Bits3, ModelData, ModelVertex};
use worldrenderer::scene::{
    padded_row, part_of, picture, picture_size, picture_wait, rand_bits, stress_color, stress_icon, stress_legs,
    stress_sides, DebugView, Scene, Wait,
};
use worldrenderer::stream::{Incoming, JobKind, Point, WorkerPool};
use worldrenderer::tiling::TileKey;
use worldrenderer::vector::VectorRenderer;
use worldrenderer::worker::icon_blob;

fn message(kind: JobKind, x: u32, payload: Option<Vec<u8>>) -> Incoming {
    Incoming {
        kind,
        key: TileKey { z: 0, x, y: 0 },
        cancelled: false,
        center: Point { x: 0, y: 0, z: 0 },
        min_height: 0,
        max_height: 0,
        payload,
    }
}

fn model() -> ModelData {
    let v = ModelVertex {
        pos: Bits3 { x: 1, y: 2, z: 3 },
        nrm: Bits3 { x: 4, y: 5, z: 6 },
        uv: Bits2 { x: 7, y: 8 },
    };
    ModelData { vertices: vec![v], indices: vec![0, 0, 0], texture: None }
}

#[test]
fn models_are_fetched_until_they_are_there() {
    let mut s = Scene::new();
    let mut pool = WorkerPool::new(1, 4);
    assert_eq!(s.add_model("a".to_string()), 0);
    assert_eq!(s.add_model("b".to_string()), 1);
    s.request_models(&mut pool);
    let asked: Vec<(u32, String)> = pool.queue.iter().map(|r| (r.key.x, r.url.clone())).collect();
    assert_eq!(asked, [(0, "a".to_string()), (1, "b".to_string())]);
    let (slot, data) = s.take_model(&message(JobKind::Model, 1, Some(encode(&model())))).unwrap();
    assert_eq!((slot, data.indices.len()), (1, 3));
    assert!(s.ready(1) && !s.ready(0));
    assert_eq!(s.models_ready(), 1);
    let mut again = WorkerPool::new(1, 4);
    s.request_models(&mut again);
    assert_eq!(again.queue.len(), 1);
    assert!(s.take_model(&message(JobKind::Model, 0, None)).is_none());
    assert!(s.take_model(&message(JobKind::Model, 0, Some(vec![1]))).is_none());
    assert!(!s.ready(0));
}

#[test]
fn icons_are_fetched_until_they_are_there() {
    let mut s = Scene::new();
    let mut v = VectorRenderer::new();
    let mut pool = WorkerPool::new(1, 4);
    s.request_icons(&v, &mut pool);
    assert_eq!(pool.queue.len(), 0);
    s.load_icons("i".to_string(), 2, 0);
    s.request_icons(&v, &mut pool);
    assert_eq!(pool.queue.len(), 1);
    let short = message(JobKind::Icon, 0, Some(icon_blob(1, 1, &vec![0; 3])));
    assert!(s.take_icons(&short, &mut v).is_none());
    let whole = message(JobKind::Icon, 0, Some(icon_blob(1, 1, &vec![9; 4])));
    assert_eq!(s.take_icons(&whole, &mut v), Some((1, 1, vec![9; 4])));
    assert_eq!((v.icon_cols, v.icon_rows), (2, 1));
    let mut again = WorkerPool::new(1, 4);
    s.request_icons(&v, &mut again);
    assert_eq!(again.queue.len(), 0);
}

#[test]
fn flights_go_round_their_way() {
    let mut s = Scene::new();
    assert!(s.add_flight(0, 9).is_none());
    s.add_model("a".to_string());
    s.upload(0, 3);
    assert!(s.add_flight(0, 5).is_none());
    assert_eq!(s.add_flight(0, 9), Some((0, 0)));
    assert_eq!(s.add_flight(0, 6), Some((1, 1)));
    assert_eq!((s.model_instances(0), s.model_instances(7)), (2, 0));
    assert_eq!(s.total_instances(), 2);
    assert_eq!(s.leg_ends(0), (0, 1));
    s.next_leg(0);
    s.next_leg(0);
    assert_eq!(s.leg_ends(0), (2, 0));
    s.next_leg(0);
    assert_eq!(s.leg_ends(0), (0, 1));
    s.clear_flights();
    assert_eq!((s.flights.len(), s.total_instances()), (0, 0));
}

#[test]
fn a_model_flies_so_often_at_most() {
    let mut s = Scene::new();
    s.upload(0, 3);
    for _ in 0..4096 {
        assert!(s.add_flight(0, 6).is_some());
    }
    assert!(s.add_flight(0, 6).is_none());
}

/// As wrapping arithmetic has it.
fn scatter(seed: u32) -> u32 {
    let a = seed.wrapping_mul(747_796_405).wrapping_add(2_891_336_453);
    let b = ((a >> ((a >> 28) + 4)) ^ a).wrapping_mul(277_803_737);
    ((b >> 22) ^ b) >> 8
}

#[test]
fn numbers_are_scattered() {
    for seed in [0, 1, 2, 0x9e37, u32::MAX] {
        assert_eq!(rand_bits(seed), scatter(seed));
    }
    assert_eq!(part_of(0xff_ffff, 175), 174);
    assert_eq!(part_of(0x80_0000, 4), 2);
    let channel = |seed: u32| 80 + ((scatter(seed) as u64 * 175) >> 24) as u32;
    let expected = channel(7) << 24 | channel(7 ^ 0x9e37) << 16 | channel(7 ^ 0x85eb) << 8 | 0x40;
    assert_eq!(stress_color(7, 0x40), expected);
    assert_eq!(stress_color(7, 0x140), expected | 0x100);
    assert_eq!(stress_sides(3), 4 + ((scatter(3 ^ 0x51) as u64 * 5) >> 24) as u32);
    assert_eq!(stress_legs(3), 3 + ((scatter(3 ^ 0x88) as u64 * 3) >> 24) as u32);
}

#[test]
fn pictures_are_unpadded_and_opaque() {
    assert_eq!((picture_size(1), picture_size(64), picture_size(9999)), (16, 64, 1024));
    assert_eq!((padded_row(16), padded_row(64), padded_row(65)), (256, 256, 512));
    let mut copied: Vec<u8> = vec![0; 256 * 16];
    copied[256..260].copy_from_slice(&[1, 2, 3, 4]);
    let out = picture(&copied, 16);
    assert_eq!(out.len(), 16 * 16 * 4);
    assert_eq!(&out[64..68], [3, 2, 1, 255]);
    assert_eq!(&out[..4], [0, 0, 0, 255]);
}

#[test]
fn debug_views_change_when_they_change() {
    let mut d = DebugView::new();
    assert!(!d.draws_frustum());
    assert!(!d.freeze(false));
    assert!(d.freeze(true));
    assert!(!d.freeze(true));
    assert!(d.draws_frustum());
    d.frustum = false;
    assert!(!d.draws_frustum());
    assert!(d.freeze(false));
}

#[test]
fn stress_icons_come_in_turn() {
    assert_eq!((stress_icon(5, 2, 2), stress_icon(3, 2, 2)), (1, 3));
    assert_eq!(stress_icon(u32::MAX, u32::MAX, u32::MAX), u32::MAX);
    assert_eq!(stress_icon(9, 1, 1), 0);
}

#[test]
fn only_loaded_models_with_instances_are_drawn() {
    let mut s = Scene::new();
    assert!(s.draws().is_empty());
    s.upload(0, 6);
    s.upload(2, 9);
    s.upload(3, 12);
    assert!(s.draws().is_empty());
    s.add_flight(3, 6).unwrap();
    s.add_flight(1, 6).unwrap();
    s.add_flight(0, 6).unwrap();
    s.add_flight(3, 6).unwrap();
    assert_eq!(s.draws(), [(0, 6, 1), (3, 12, 2)]);
    s.upload(1, 3);
    assert_eq!(s.draws(), [(0, 6, 1), (1, 3, 1), (3, 12, 2)]);
    s.clear_flights();
    assert!(s.draws().is_empty());
}

#[test]
fn pictures_are_waited_for_so_long() {
    assert_eq!(picture_wait(true, 0), Wait::Over);
    assert_eq!(picture_wait(false, 0), Wait::Again);
    assert_eq!(picture_wait(false, 19_999), Wait::Again);
    assert_eq!(picture_wait(false, 20_000), Wait::Lost);
    assert_eq!(picture_wait(true, 20_000), Wait::Over);
}

#[test]
fn models_without_a_texture_are_white() {
    let mut m = model();
    assert_eq!(m.shown_texture(), (1, 1, vec![255, 255, 255, 255]));
    m.texture = Some((1, 2, vec![7; 8]));
    assert_eq!(m.shown_texture(), (1, 2, vec![7; 8]));
}
