use worldrenderer::stream::{
    job_kinds, kind_of_word, message_topic, rank_of_distance, rank_of_focus, worker_count, Incoming,
    JobKind, Point, Topic, WorkerPool, ASSET_RANK,
};
use worldrenderer::tiling::{uv_window, TileKey, UvWindow};

fn key(z: u8, x: u32, y: u32) -> TileKey {
    TileKey { z, x, y }
}

fn whole() -> UvWindow {
    uv_window(key(0, 0, 0), 0)
}

fn reply(kind: JobKind, key: TileKey, cancelled: bool) -> Incoming {
    Incoming {
        kind,
        key,
        cancelled,
        center: Point { x: 0, y: 0, z: 0 },
        min_height: 0,
        max_height: 0,
        payload: None,
    }
}

fn pool(workers: usize, most: u32) -> WorkerPool {
    let mut p = WorkerPool::new(workers, most);
    for w in 0..workers {
        p.worker_ready(w);
    }
    p
}

fn send_all(p: &mut WorkerPool) -> Vec<(usize, TileKey)> {
    let mut out = vec![];
    let mut round = p.dispatch();
    while let Some(w) = p.next_to_send(&round) {
        out.push((w, round.request().key));
        p.posted(&mut round, w, true, 5);
    }
    p.end_dispatch(round);
    out
}

#[test]
fn kinds_have_words() {
    for (i, k) in job_kinds().iter().enumerate() {
        assert_eq!(k.index(), i);
        assert!(kind_of_word(k.tag()) == Some(*k));
        assert!(message_topic(k.tag()) == Topic::Reply(*k));
    }
    assert!(kind_of_word("tile") == None);
    assert!(message_topic("ready") == Topic::Ready);
    assert!(message_topic("tile") == Topic::Unknown);
}

#[test]
fn ranks_put_assets_before_focus_before_what_is_seen() {
    assert!(ASSET_RANK < rank_of_focus(0));
    assert!(rank_of_focus(3) < rank_of_focus(4));
    assert!(rank_of_focus(255) < rank_of_distance(0));
    let (near, far) = (10.0f32.to_bits(), 11.5f32.to_bits());
    assert!(rank_of_distance(near) < rank_of_distance(far));
}

#[test]
fn the_same_job_is_asked_for_once() {
    let mut p = pool(1, 4);
    let k = key(3, 1, 1);
    p.request(JobKind::Terrain, k, "a".to_string(), whole(), 7);
    p.request(JobKind::Terrain, k, "b".to_string(), whole(), 1);
    p.request(JobKind::Imagery, k, "c".to_string(), whole(), 1);
    assert_eq!(p.queue.len(), 2);
    assert_eq!(send_all(&mut p).len(), 2);
    p.request(JobKind::Terrain, k, "a".to_string(), whole(), 7);
    assert_eq!(p.queue.len(), 0);
    assert_eq!(p.active_kinds(), (1, 1, 0));
}

#[test]
fn jobs_go_out_by_rank_then_by_age_to_the_idlest_worker() {
    let mut p = pool(2, 8);
    p.request(JobKind::Terrain, key(5, 0, 0), "".to_string(), whole(), 9);
    p.request(JobKind::Terrain, key(5, 1, 0), "".to_string(), whole(), 3);
    p.request(JobKind::Terrain, key(5, 2, 0), "".to_string(), whole(), 9);
    p.request_with(JobKind::Model, key(0, 4, 0), "".to_string(), "x".to_string(), whole(), 0);
    let sent = send_all(&mut p);
    let keys: Vec<TileKey> = sent.iter().map(|s| s.1).collect();
    assert_eq!(keys, [key(0, 4, 0), key(5, 1, 0), key(5, 0, 0), key(5, 2, 0)]);
    let workers: Vec<usize> = sent.iter().map(|s| s.0).collect();
    assert_eq!(workers.iter().filter(|w| **w == 0).count(), 2);
    assert_eq!(p.worker_load(), [(true, 2), (true, 2)]);
    assert_eq!(p.dispatched, 4);
    assert_eq!((p.queue_depth, p.sent_last, p.dropped), (4, 4, 0));
}

#[test]
fn what_finds_no_worker_is_dropped() {
    let mut p = pool(1, 2);
    for x in 0..5 {
        p.request(JobKind::Imagery, key(6, x, 0), "".to_string(), whole(), 1);
    }
    assert_eq!(send_all(&mut p).len(), 2);
    assert_eq!(p.dropped, 3);
    assert_eq!(p.queue.len(), 0);
    p.request(JobKind::Imagery, key(6, 4, 0), "".to_string(), whole(), 1);
    assert_eq!(p.queue.len(), 1);
    assert_eq!(send_all(&mut p).len(), 0);
}

#[test]
fn no_worker_is_used_before_it_is_ready() {
    let mut p = WorkerPool::new(2, 4);
    assert_eq!(p.pick_worker(), None);
    p.worker_ready(1);
    assert_eq!(p.pick_worker(), Some(1));
}

#[test]
fn a_job_that_was_not_accepted_is_not_in_hand() {
    let mut p = pool(1, 4);
    p.request(JobKind::Icon, key(0, 0, 0), "".to_string(), whole(), 0);
    let mut round = p.dispatch();
    let w = p.next_to_send(&round).unwrap();
    p.posted(&mut round, w, false, 5);
    assert_eq!(p.next_to_send(&round), None);
    p.end_dispatch(round);
    assert_eq!(p.active_count(), 0);
    assert_eq!(p.worker_load(), [(true, 0)]);
}

#[test]
fn replies_end_jobs_and_are_counted() {
    let mut p = pool(1, 4);
    let k = key(3, 1, 1);
    p.request(JobKind::Terrain, k, "".to_string(), whole(), 7);
    send_all(&mut p);
    assert_eq!(p.receive(0, reply(JobKind::Terrain, k, false), true, false), Some(5));
    assert_eq!(p.receive(0, reply(JobKind::Terrain, k, false), true, true), None);
    let stats = p.load_stats();
    assert_eq!((stats[0].n, stats[0].failed, stats[0].hits), (1, 1, 1));
    assert_eq!(stats[1].n, 0);
    assert_eq!((p.active_count(), p.inbox_len()), (0, 2));
    assert_eq!(p.drain_inbox().len(), 2);
    assert_eq!(p.inbox_len(), 0);
    assert_eq!(p.max_in_flight(), 4);
}

#[test]
fn a_jump_cancels_tiles_alone() {
    let mut p = pool(1, 8);
    assert_eq!(p.cancel_stale(), None);
    p.request(JobKind::Terrain, key(3, 1, 1), "".to_string(), whole(), 7);
    p.request(JobKind::Imagery, key(3, 1, 1), "".to_string(), whole(), 7);
    p.request(JobKind::Model, key(0, 0, 0), "".to_string(), whole(), 0);
    send_all(&mut p);
    assert_eq!(p.cancel_stale(), Some(1));
    assert_eq!(p.active_kinds(), (0, 0, 1));
    assert_eq!((p.cancelled, p.epoch), (2, 1));
    assert_eq!(p.cancel_stale(), None);
    assert_eq!(p.receive(0, reply(JobKind::Terrain, key(3, 1, 1), true), false, false), None);
    assert_eq!(p.load_stats()[0].n, 0);
}

#[test]
fn all_cores_but_one_work() {
    assert_eq!([0, 2, 3, 9, 10, 64].map(worker_count), [2, 2, 2, 8, 8, 8]);
    assert_eq!(worker_count(6), 5);
}

#[test]
fn answers_hold_pixels_or_vertices() {
    assert_eq!(JobKind::Imagery.payload_name(), "pixels");
    assert_eq!(JobKind::Terrain.payload_name(), "verts");
    assert_eq!(JobKind::Model.payload_name(), "verts");
    assert_eq!(JobKind::Icon.payload_name(), "verts");
}
