//! What holds of a frame's answers, and of what gives way to them.
#[allow(unused_imports)]
use crate::quadtree::{Pressure, TreeView};
#[allow(unused_imports)]
use crate::residency::{
    acquired, inbound, integrated, lemma_pruned_keeps, lemma_victim_goes_first, looked_through_all,
    measured, placed, placed_all, retire_age, retired_all, settled, trimmed, unimaged_all,
    victim_of, Holdings, Intake, UploadView,
};
#[allow(unused_imports)]
use crate::stream::{one_more_long, Incoming, JobKind};
#[allow(unused_imports)]
use crate::tiles::{lemma_put_get, unknown_tile, Tile, TileMap};
#[allow(unused_imports)]
use crate::tiling::TileKey;
use vstd::prelude::*;

verus! {

/// Whether a tile may be made to give up its mesh or its image: it has one, it was not used
/// in this frame, and it was not drawn in the last thirty.
pub open spec fn may_give_up(tile: Tile, frame: u64, meshes: bool) -> bool {
    &&& meshes ==> tile.mesh is Some
    &&& !meshes ==> tile.imagery is Some
    &&& tile.last_used < frame
    &&& tile.last_drawn + 30 <= frame
}

/// What gives way is what was drawn longest ago. Of what was drawn at the same time, it is
/// what was used longest ago, and of that the deepest. Something gives way if anything may.
pub proof fn lemma_longest_unseen_gives_way(
    tiles: TileMap,
    frame: u64,
    meshes: bool,
    other: TileKey,
)
    requires
        tiles.wf(),
    ensures
        victim_of(tiles, frame, meshes) is None ==> !may_give_up(
            tiles.get(other),
            frame,
            meshes,
        ),
        victim_of(tiles, frame, meshes) is Some ==> may_give_up(
            tiles.get(victim_of(tiles, frame, meshes)->0),
            frame,
            meshes,
        ),
        victim_of(tiles, frame, meshes) is Some && may_give_up(tiles.get(other), frame, meshes)
            ==> {
            let key = victim_of(tiles, frame, meshes)->0;
            let first = tiles.get(key);
            let then = tiles.get(other);
            &&& first.last_drawn <= then.last_drawn
            &&& first.last_drawn == then.last_drawn ==> first.last_used <= then.last_used
            &&& first.last_drawn == then.last_drawn && first.last_used == then.last_used ==> key.z
                >= other.z
        },
{
    lemma_victim_goes_first(tiles, frame, meshes, other);
}

/// A job that failed is noted with its tile: one more failure, and two seconds' worth of
/// frames to wait. Nothing else changes.
pub proof fn lemma_failure_noted(intake: Intake, msg: Incoming, limit: nat, other: TileKey)
    requires
        intake.tree.tiles.wf(),
        msg.kind == JobKind::Terrain || msg.kind == JobKind::Imagery,
        msg.payload is None,
    ensures
        ({
            let was = intake.tree.tiles.get(msg.key);
            let after = placed(intake, msg, limit);
            let now = after.tree.tiles.get(msg.key);
            &&& after == (Intake {
                tree: TreeView { tiles: after.tree.tiles, ..intake.tree },
                ..intake
            })
            &&& other != msg.key ==> after.tree.tiles.get(other) == intake.tree.tiles.get(other)
            &&& msg.kind == JobKind::Terrain ==> {
                &&& now == (Tile {
                    mesh_inbound: false,
                    mesh_fails: now.mesh_fails,
                    mesh_retry_at: now.mesh_retry_at,
                    ..was
                })
                &&& was.mesh_fails < 255 ==> now.mesh_fails == was.mesh_fails + 1
                &&& was.mesh_fails == 255 ==> now.mesh_fails == 255
                &&& intake.tree.frame + 120 <= u64::MAX ==> now.mesh_retry_at
                    == intake.tree.frame + 120
            }
            &&& msg.kind == JobKind::Imagery ==> {
                &&& now == (Tile {
                    imagery_inbound: false,
                    imagery_fails: now.imagery_fails,
                    imagery_retry_at: now.imagery_retry_at,
                    ..was
                })
                &&& was.imagery_fails < 255 ==> now.imagery_fails == was.imagery_fails + 1
                &&& was.imagery_fails == 255 ==> now.imagery_fails == 255
                &&& intake.tree.frame + 120 <= u64::MAX ==> now.imagery_retry_at
                    == intake.tree.frame + 120
            }
        }),
{
    let after = placed(intake, msg, limit).tree.tiles;
    lemma_put_get(intake.tree.tiles, msg.key, after.get(msg.key), other);
    lemma_put_get(intake.tree.tiles, msg.key, after.get(msg.key), msg.key);
}

/// Whether an answer went up: its tile holds it, in a slot to which its bytes go.
pub open spec fn went_up(before: Intake, msg: Incoming, after: Intake) -> bool {
    let upload = after.uploads.last();
    let was = before.tree.tiles.get(msg.key);
    let now = after.tree.tiles.get(msg.key);
    &&& after.leftover == before.leftover
    &&& after.spent == before.spent + msg.payload->0@.len()
    &&& after.uploads.len() == before.uploads.len() + 1
    &&& after.uploads.drop_last() == before.uploads
    &&& upload.bytes == msg.payload->0@
    &&& upload.mesh == (msg.kind == JobKind::Terrain)
    &&& msg.kind == JobKind::Terrain ==> {
        &&& now.mesh matches Some(mesh) && mesh.slot == upload.slot && mesh.center == msg.center
            && mesh.min_height == msg.min_height && mesh.max_height == msg.max_height
        &&& now.mesh_fails == 0 && !now.mesh_inbound
        &&& now == (Tile {
            mesh: now.mesh,
            mesh_fails: now.mesh_fails,
            mesh_inbound: now.mesh_inbound,
            split: now.split,
            ..was
        })
        &&& after.layers == before.layers
    }
    &&& msg.kind == JobKind::Imagery ==> {
        &&& now.imagery == Some(upload.slot)
        &&& now.imagery_fails == 0 && !now.imagery_inbound
        &&& now.imagery_at == before.tree.frame
        &&& now == (Tile {
            imagery: now.imagery,
            imagery_fails: now.imagery_fails,
            imagery_inbound: now.imagery_inbound,
            imagery_at: now.imagery_at,
            ..was
        })
        &&& after.slots == before.slots
    }
}

/// What became of an answer that brought something. It goes up unless that is more than the
/// frame allows, or nothing is free and nothing may give way; then it waits as the last. The
/// first of a frame is never too much. To make room for it, at most one other tile gives up
/// what it has, and only where nothing is free.
pub proof fn lemma_answer_goes_up_or_waits(
    intake: Intake,
    msg: Incoming,
    limit: nat,
    other: TileKey,
)
    requires
        intake.tree.tiles.wf(),
        msg.kind == JobKind::Terrain || msg.kind == JobKind::Imagery,
        msg.payload is Some,
    ensures
        ({
            let meshes = msg.kind == JobKind::Terrain;
            let free = if meshes {
                intake.slots
            } else {
                intake.layers
            };
            let after = placed(intake, msg, limit);
            let was = intake.tree.tiles.get(other);
            let now = after.tree.tiles.get(other);
            let size = msg.payload->0@.len();
            if intake.spent > 0 && intake.spent + size > limit {
                after == (Intake { leftover: intake.leftover.push(msg), ..intake })
            } else {
                let stalled = after == (Intake {
                    tree: TreeView { upload_stalls: after.tree.upload_stalls, ..intake.tree },
                    leftover: intake.leftover.push(msg),
                    ..intake
                }) && (intake.tree.upload_stalls < u64::MAX ==> after.tree.upload_stalls
                    == intake.tree.upload_stalls + 1);
                &&& free.len() > 0 ==> went_up(intake, msg, after) && after.uploads.last().slot
                    == free.last() && (other != msg.key ==> now == was)
                &&& free.len() == 0 && may_give_up(was, intake.tree.frame, meshes) ==> went_up(
                    intake,
                    msg,
                    after,
                )
                &&& went_up(intake, msg, after) || stalled
                &&& other != msg.key && now != was ==> {
                    &&& went_up(intake, msg, after)
                    &&& may_give_up(was, intake.tree.frame, meshes)
                    &&& meshes ==> was.mesh->0.slot == after.uploads.last().slot && now == (Tile {
                        mesh: None,
                        split: false,
                        ..was
                    })
                    &&& !meshes ==> was.imagery->0 == after.uploads.last().slot && now == (Tile {
                        imagery: None,
                        imagery_at: 0,
                        ..was
                    })
                }
            }
        }),
{
    let meshes = msg.kind == JobKind::Terrain;
    let tree = intake.tree;
    let free = if meshes {
        intake.slots
    } else {
        intake.layers
    };
    let after = placed(intake, msg, limit);
    lemma_longest_unseen_gives_way(tree.tiles, tree.frame, meshes, other);
    if intake.spent == 0 || intake.spent + msg.size() <= limit {
        if let Some((mid, rest, slot)) = acquired(tree, free, meshes) {
            assert(after.uploads.drop_last() =~= intake.uploads);
            let tile = crate::residency::installed(
                mid.tiles.get(msg.key),
                msg,
                slot,
                mid.frame,
            );
            if free.len() == 0 {
                let key = victim_of(tree.tiles, tree.frame, meshes)->0;
                let bare = crate::residency::given_up(tree.tiles.get(key), meshes);
                lemma_put_get(tree.tiles, key, bare, other);
                lemma_put_get(tree.tiles, key, bare, msg.key);
                lemma_put_get(tree.tiles, key, bare, key);
            }
            lemma_put_get(mid.tiles, msg.key, tile, other);
            lemma_put_get(mid.tiles, msg.key, tile, msg.key);
        }
    }
}

/// Whether what goes up and what waits in `a` still does so in `b`, in the same order.
spec fn goes_on(a: Intake, b: Intake) -> bool {
    &&& b.tree.tiles.wf()
    &&& a.uploads.is_prefix_of(b.uploads)
    &&& a.leftover.is_prefix_of(b.leftover)
}

/// Whether a message is among those that go up or those that wait.
pub open spec fn kept(msg: Incoming, uploads: Seq<UploadView>, leftover: Seq<Incoming>) -> bool {
    ||| leftover.contains(msg)
    ||| exists|i: int|
        0 <= i < uploads.len() && (#[trigger] uploads[i]).bytes == msg.payload->0@
            && uploads[i].mesh == (msg.kind == JobKind::Terrain)
}

/// Whether a message brought something for a tile.
pub open spec fn brings(msg: Incoming) -> bool {
    (msg.kind == JobKind::Terrain || msg.kind == JobKind::Imagery) && msg.payload is Some
}

proof fn lemma_kept_stays(msg: Incoming, a: Intake, b: Intake)
    requires
        goes_on(a, b),
        kept(msg, a.uploads, a.leftover),
    ensures
        kept(msg, b.uploads, b.leftover),
{
    if a.leftover.contains(msg) {
        let i = choose|i: int| 0 <= i < a.leftover.len() && a.leftover[i] == msg;
        assert(b.leftover[i] == msg);
    } else {
        let i = choose|i: int|
            0 <= i < a.uploads.len() && (#[trigger] a.uploads[i]).bytes == msg.payload->0@
                && a.uploads[i].mesh == (msg.kind == JobKind::Terrain);
        assert(b.uploads[i] == a.uploads[i]);
    }
}

/// How many of the first `n` of `messages` brought something.
spec fn brought(messages: Seq<Incoming>, n: nat) -> nat
    decreases n,
{
    if n == 0 {
        0
    } else {
        brought(messages, (n - 1) as nat) + (if brings(messages[n - 1]) {
            1nat
        } else {
            0
        })
    }
}

proof fn lemma_placed_all(intake: Intake, messages: Seq<Incoming>, limit: nat, n: nat, i: int)
    requires
        intake.tree.tiles.wf(),
        n <= messages.len(),
    ensures
        goes_on(intake, placed_all(intake, messages, limit, n)),
        ({
            let after = placed_all(intake, messages, limit, n);
            &&& after.uploads.len() + after.leftover.len() == intake.uploads.len()
                + intake.leftover.len() + brought(messages, n)
            &&& after.tree == (TreeView {
                tiles: after.tree.tiles,
                uploaded_bytes: after.tree.uploaded_bytes,
                mesh_evictions: after.tree.mesh_evictions,
                imagery_evictions: after.tree.imagery_evictions,
                upload_stalls: after.tree.upload_stalls,
                ..intake.tree
            })
            &&& 0 <= i < n && brings(messages[i]) ==> kept(
                messages[i],
                after.uploads,
                after.leftover,
            )
        }),
    decreases n,
{
    if n > 0 {
        let m = (n - 1) as nat;
        lemma_placed_all(intake, messages, limit, m, i);
        let before = placed_all(intake, messages, limit, m);
        let msg = messages[m as int];
        let after = placed(before, msg, limit);
        if brings(msg) {
            lemma_answer_goes_up_or_waits(before, msg, limit, msg.key);
            lemma_answer_keeps_wf(before, msg, limit);
            if after.leftover.len() > before.leftover.len() {
                assert(after.leftover.last() == msg);
                assert(after.leftover[after.leftover.len() - 1] == msg);
            } else {
                assert(after.uploads[after.uploads.len() - 1] == after.uploads.last());
                assert(before.uploads =~= after.uploads.take(before.uploads.len() as int));
            }
        } else {
            if msg.kind == JobKind::Terrain || msg.kind == JobKind::Imagery {
                lemma_failure_noted(before, msg, limit, msg.key);
                lemma_answer_keeps_wf(before, msg, limit);
            }
        }
        assert(goes_on(before, after));
        if 0 <= i < m && brings(messages[i]) {
            lemma_kept_stays(messages[i], before, after);
        }
    }
}

proof fn lemma_answer_keeps_wf(intake: Intake, msg: Incoming, limit: nat)
    requires
        intake.tree.tiles.wf(),
    ensures
        placed(intake, msg, limit).tree.tiles.wf(),
{
    let meshes = msg.kind == JobKind::Terrain;
    let tree = intake.tree;
    let free = if meshes {
        intake.slots
    } else {
        intake.layers
    };
    let failed = crate::residency::failed(tree.tiles.get(msg.key), meshes, tree.frame);
    lemma_put_get(tree.tiles, msg.key, failed, msg.key);
    if let Some((mid, rest, slot)) = acquired(tree, free, meshes) {
        if free.len() == 0 {
            let key = victim_of(tree.tiles, tree.frame, meshes)->0;
            let bare = crate::residency::given_up(tree.tiles.get(key), meshes);
            lemma_put_get(tree.tiles, key, bare, key);
        }
        let tile = crate::residency::installed(mid.tiles.get(msg.key), msg, slot, mid.frame);
        lemma_put_get(mid.tiles, msg.key, tile, msg.key);
    }
}

/// The answers of a kind that were not cancelled, in their order.
pub open spec fn of_kind(messages: Seq<Incoming>, kind: JobKind) -> Seq<Incoming> {
    messages.filter(|msg: Incoming| !msg.cancelled && msg.kind == kind)
}

/// The answers for tiles that were not cancelled, in their order.
pub open spec fn for_tiles(messages: Seq<Incoming>) -> Seq<Incoming> {
    messages.filter(
        |msg: Incoming|
            !msg.cancelled && (msg.kind == JobKind::Terrain || msg.kind == JobKind::Imagery),
    )
}

/// Whether an answer of a kind for a tile is among some, and was not cancelled.
pub open spec fn answers(messages: Seq<Incoming>, kind: JobKind, key: TileKey) -> bool {
    exists|i: int|
        0 <= i < messages.len() && !(#[trigger] messages[i]).cancelled && messages[i].kind == kind
            && messages[i].key == key
}

proof fn lemma_one_more_answer(messages: Seq<Incoming>, msg: Incoming, kind: JobKind, key: TileKey)
    ensures
        answers(messages.push(msg), kind, key) == (answers(messages, kind, key) || (!msg.cancelled
            && msg.kind == kind && msg.key == key)),
{
    let longer = messages.push(msg);
    if answers(messages, kind, key) {
        let i = choose|i: int|
            0 <= i < messages.len() && !(#[trigger] messages[i]).cancelled && messages[i].kind
                == kind && messages[i].key == key;
        assert(longer[i] == messages[i]);
    }
    assert(longer[messages.len() as int] == msg);
    if answers(longer, kind, key) {
        let i = choose|i: int|
            0 <= i < longer.len() && !(#[trigger] longer[i]).cancelled && longer[i].kind == kind
                && longer[i].key == key;
        if i < messages.len() {
            assert(messages[i] == longer[i]);
        }
    }
}

proof fn lemma_looked_through(
    tree: TreeView,
    deferred: Seq<Incoming>,
    messages: Seq<Incoming>,
    n: nat,
    key: TileKey,
)
    requires
        tree.tiles.wf(),
        n <= messages.len(),
    ensures
        ({
            let (after, waiting) = looked_through_all(tree, deferred, messages, n);
            let part = messages.take(n as int);
            &&& after.tiles.wf()
            &&& after == (TreeView {
                tiles: after.tiles,
                models: tree.models + of_kind(part, JobKind::Model),
                icons: tree.icons + of_kind(part, JobKind::Icon),
                ..tree
            })
            &&& waiting == deferred + for_tiles(part)
            &&& after.tiles.get(key) == (Tile {
                mesh_inbound: tree.tiles.get(key).mesh_inbound || answers(
                    part,
                    JobKind::Terrain,
                    key,
                ),
                imagery_inbound: tree.tiles.get(key).imagery_inbound || answers(
                    part,
                    JobKind::Imagery,
                    key,
                ),
                ..tree.tiles.get(key)
            })
        }),
    decreases n,
{
    reveal(Seq::filter);
    let part = messages.take(n as int);
    if n > 0 {
        let m = (n - 1) as nat;
        let msg = messages[m as int];
        lemma_looked_through(tree, deferred, messages, m, key);
        let less = messages.take(m as int);
        assert(part =~= less.push(msg));
        assert(part.drop_last() =~= less);
        lemma_one_more_answer(less, msg, JobKind::Terrain, key);
        lemma_one_more_answer(less, msg, JobKind::Imagery, key);
        let (before, waiting) = looked_through_all(tree, deferred, messages, m);
        let tile = inbound(before.tiles.get(msg.key), msg.kind, true);
        lemma_put_get(before.tiles, msg.key, tile, key);
        let (after, now_waiting) = looked_through_all(tree, deferred, messages, n);
        if msg.cancelled {
        } else if msg.kind == JobKind::Model {
            assert(after.models =~= tree.models + of_kind(part, JobKind::Model));
        } else if msg.kind == JobKind::Icon {
            assert(after.icons =~= tree.icons + of_kind(part, JobKind::Icon));
        } else {
            assert(now_waiting =~= deferred + for_tiles(part));
        }
    } else {
        assert(part =~= Seq::empty());
        assert(tree.models + of_kind(part, JobKind::Model) =~= tree.models);
        assert(tree.icons + of_kind(part, JobKind::Icon) =~= tree.icons);
        assert(deferred + for_tiles(part) =~= deferred);
        assert(!answers(part, JobKind::Terrain, key));
        assert(!answers(part, JobKind::Imagery, key));
    }
}

/// What came back is sorted by what it is for: models and icons are put aside in their
/// order, what is for tiles waits behind what waited, and its tiles know it. What was
/// cancelled leaves no trace.
pub proof fn lemma_answers_sorted(
    tree: TreeView,
    deferred: Seq<Incoming>,
    messages: Seq<Incoming>,
    key: TileKey,
)
    requires
        tree.tiles.wf(),
    ensures
        ({
            let (after, waiting) = looked_through_all(tree, deferred, messages, messages.len());
            let tile = tree.tiles.get(key);
            &&& after == (TreeView {
                tiles: after.tiles,
                models: tree.models + of_kind(messages, JobKind::Model),
                icons: tree.icons + of_kind(messages, JobKind::Icon),
                ..tree
            })
            &&& waiting == deferred + for_tiles(messages)
            &&& after.tiles.get(key) == (Tile {
                mesh_inbound: tile.mesh_inbound || answers(messages, JobKind::Terrain, key),
                imagery_inbound: tile.imagery_inbound || answers(messages, JobKind::Imagery, key),
                ..tile
            })
        }),
{
    lemma_looked_through(tree, deferred, messages, messages.len(), key);
    assert(messages.take(messages.len() as int) =~= messages);
}

/// Whether a message of a kind for a tile is among some.
pub open spec fn among(messages: Seq<Incoming>, kind: JobKind, key: TileKey) -> bool {
    exists|i: int|
        0 <= i < messages.len() && (#[trigger] messages[i]).kind == kind && messages[i].key == key
}

/// Of what waits, the first five hundred and twelve go on waiting. The rest is dropped, which
/// is counted, and its tiles wait for it no more.
pub proof fn lemma_first_go_on_waiting(tree: TreeView, leftover: Seq<Incoming>, key: TileKey)
    requires
        tree.tiles.wf(),
    ensures
        ({
            let (after, waiting) = trimmed(tree, leftover);
            let tile = tree.tiles.get(key);
            let dropped = leftover.skip(waiting.len() as int);
            &&& after.tiles.wf()
            &&& waiting == leftover.take(
                if leftover.len() <= 512 {
                    leftover.len() as int
                } else {
                    512
                },
            )
            &&& after == (TreeView {
                tiles: after.tiles,
                dropped_uploads: after.dropped_uploads,
                ..tree
            })
            &&& tree.dropped_uploads + dropped.len() <= u64::MAX ==> after.dropped_uploads
                == tree.dropped_uploads + dropped.len()
            &&& after.tiles.get(key) == (Tile {
                mesh_inbound: tile.mesh_inbound && !among(dropped, JobKind::Terrain, key),
                imagery_inbound: tile.imagery_inbound && !among(dropped, JobKind::Imagery, key),
                ..tile
            })
        }),
    decreases leftover.len(),
{
    if leftover.len() <= 512 {
        assert(leftover.take(leftover.len() as int) =~= leftover);
        assert(leftover.skip(leftover.len() as int) =~= Seq::empty());
    } else {
        let msg = leftover.last();
        let rest = leftover.drop_last();
        let tile = inbound(tree.tiles.get(msg.key), msg.kind, false);
        let counted = TreeView { dropped_uploads: one_more_long(tree.dropped_uploads), ..tree };
        lemma_put_get(tree.tiles, msg.key, tile, key);
        let next = counted.with(msg.key, tile);
        lemma_first_go_on_waiting(next, rest, key);
        let (after, waiting) = trimmed(tree, leftover);
        assert(rest.take(512) =~= leftover.take(512));
        let dropped = leftover.skip(512);
        let fewer = rest.skip(512);
        assert(dropped =~= fewer.push(msg));
        assert forall|kind: JobKind| among(dropped, kind, key) == (#[trigger] among(fewer, kind, key)
            || (msg.kind == kind && msg.key == key)) by {
            if among(fewer, kind, key) {
                let i = choose|i: int|
                    0 <= i < fewer.len() && (#[trigger] fewer[i]).kind == kind && fewer[i].key
                        == key;
                assert(dropped[i] == fewer[i]);
            }
            assert(dropped[fewer.len() as int] == msg);
            if among(dropped, kind, key) {
                let i = choose|i: int|
                    0 <= i < dropped.len() && (#[trigger] dropped[i]).kind == kind
                        && dropped[i].key == key;
                if i < fewer.len() {
                    assert(fewer[i] == dropped[i]);
                }
            }
        }
        assert(among(fewer, JobKind::Terrain, key) || !among(fewer, JobKind::Terrain, key));
        assert(among(fewer, JobKind::Imagery, key) || !among(fewer, JobKind::Imagery, key));
    }
}

/// Nothing that came for a tile is lost: it goes up, or it goes on waiting, unless five
/// hundred and twelve others do. Models and icons are put aside.
pub proof fn lemma_no_answer_lost(
    intake: Intake,
    inbox: Seq<Incoming>,
    deferred: Seq<Incoming>,
    limit: nat,
    slot_count: u32,
    layer_count: u32,
    msg: Incoming,
)
    requires
        intake.tree.tiles.wf(),
        deferred.contains(msg) || (inbox.contains(msg) && !msg.cancelled),
        msg.kind == JobKind::Terrain || msg.kind == JobKind::Imagery,
        msg.payload is Some,
    ensures
        ({
            let after = integrated(intake, inbox, deferred, limit, slot_count, layer_count);
            &&& after.leftover.len() <= 512
            &&& after.leftover.len() < 512 ==> kept(msg, after.uploads, after.leftover)
            &&& after.tree.deferred_uploads == after.leftover.len()
            &&& after.tree.models == intake.tree.models + of_kind(inbox, JobKind::Model)
            &&& after.tree.icons == intake.tree.icons + of_kind(inbox, JobKind::Icon)
        }),
{
    let (tree, waiting) = looked_through_all(intake.tree, deferred, inbox, inbox.len());
    lemma_looked_through(intake.tree, deferred, inbox, inbox.len(), msg.key);
    assert(inbox.take(inbox.len() as int) =~= inbox);
    let keep = |m: Incoming|
        !m.cancelled && (m.kind == JobKind::Terrain || m.kind == JobKind::Imagery);
    let i = if deferred.contains(msg) {
        let j = choose|j: int| 0 <= j < deferred.len() && deferred[j] == msg;
        assert(waiting[j] == msg);
        j
    } else {
        let k = choose|k: int| 0 <= k < inbox.len() && inbox[k] == msg;
        inbox.lemma_filter_contains(keep, k);
        let j = choose|j: int| 0 <= j < for_tiles(inbox).len() && for_tiles(inbox)[j] == msg;
        assert(waiting[deferred.len() + j] == msg);
        deferred.len() + j
    };
    let start = Intake { tree: TreeView { uploaded_bytes: 0, ..tree }, ..intake };
    lemma_placed_all(start, waiting, limit, waiting.len(), i);
    let placed = placed_all(start, waiting, limit, waiting.len());
    lemma_first_go_on_waiting(placed.tree, placed.leftover, msg.key);
    let (tree, leftover) = trimmed(placed.tree, placed.leftover);
    if leftover.len() < 512 {
        assert(leftover =~= placed.leftover);
    }
    let at = Holdings {
        tree: TreeView { deferred_uploads: leftover.len() as usize, ..tree },
        slots: placed.slots,
        layers: placed.layers,
    };
    lemma_settled_rest(at, slot_count, layer_count);
}

proof fn lemma_retired_rest(at: Holdings, keys: Seq<TileKey>, age: u64, n: nat)
    ensures
        ({
            let after = retired_all(at, keys, age, n).tree;
            after == (TreeView {
                tiles: after.tiles,
                retired_meshes: after.retired_meshes,
                retired_imagery: after.retired_imagery,
                ..at.tree
            })
        }),
    decreases n,
{
    if n > 0 {
        lemma_retired_rest(at, keys, age, (n - 1) as nat);
    }
}

proof fn lemma_settled_rest(at: Holdings, slot_count: u32, layer_count: u32)
    ensures
        ({
            let after = settled(at, slot_count, layer_count).tree;
            after == (TreeView {
                tiles: after.tiles,
                retired_meshes: after.retired_meshes,
                retired_imagery: after.retired_imagery,
                mesh_pressure: after.mesh_pressure,
                layer_pressure: after.layer_pressure,
                ..at.tree
            })
        }),
{
    let tree = measured(at, slot_count, layer_count);
    lemma_retired_rest(
        Holdings { tree, ..at },
        tree.tiles.order,
        retire_age(tree),
        tree.tiles.order.len(),
    );
}

/// A tile that holds nothing any more.
spec fn bare_of(tile: Tile) -> Tile {
    Tile {
        mesh: None,
        imagery: None,
        split: tile.split && tile.mesh is None,
        imagery_at: if tile.imagery is Some {
            0
        } else {
            tile.imagery_at
        },
        ..tile
    }
}

proof fn lemma_taken_so_far(keys: Seq<TileKey>, n: nat, key: TileKey)
    requires
        0 < n <= keys.len(),
        keys.no_duplicates(),
    ensures
        keys.take(n as int).contains(key) == (keys.take(n - 1).contains(key) || key == keys[n
            - 1]),
        !keys.take(n - 1).contains(keys[n - 1]),
{
    let more = keys.take(n as int);
    let less = keys.take(n - 1);
    assert(more[n - 1] == keys[n - 1]);
    if less.contains(key) {
        let i = choose|i: int| 0 <= i < less.len() && less[i] == key;
        assert(more[i] == key);
    }
    if more.contains(key) && key != keys[n - 1] {
        let i = choose|i: int| 0 <= i < more.len() && more[i] == key;
        assert(less[i] == key);
    }
    if less.contains(keys[n - 1]) {
        let i = choose|i: int| 0 <= i < less.len() && less[i] == keys[n - 1];
        assert(keys[i] == keys[n - 1]);
    }
}

proof fn lemma_retired_exactly(at: Holdings, keys: Seq<TileKey>, age: u64, n: nat, key: TileKey)
    requires
        at.tree.tiles.wf(),
        n <= keys.len(),
        keys.no_duplicates(),
        forall|i: int| 0 <= i < keys.len() ==> at.tree.tiles.order.contains(#[trigger] keys[i]),
    ensures
        ({
            let after = retired_all(at, keys, age, n).tree.tiles;
            let tile = at.tree.tiles.get(key);
            &&& after.wf()
            &&& after.order == at.tree.tiles.order
            &&& after.get(key) == (if keys.take(n as int).contains(key) && tile.last_used + age
                <= at.tree.frame {
                bare_of(tile)
            } else {
                tile
            })
        }),
    decreases n,
{
    if n > 0 {
        let m = (n - 1) as nat;
        let last = keys[n - 1];
        lemma_retired_exactly(at, keys, age, m, key);
        lemma_retired_exactly(at, keys, age, m, last);
        lemma_retired_rest(at, keys, age, m);
        lemma_taken_so_far(keys, n, key);
        let before = retired_all(at, keys, age, m).tree.tiles;
        let tile = before.get(last);
        lemma_put_get(before, last, bare_of(tile), key);
        lemma_put_get(before, last, bare_of(tile), last);
        assert(before.at.contains_key(last));
    }
}

/// What a frame leaves of a tile. A tile that was used lately is as it was. How late is
/// told by how much is taken: two hundred and forty frames, but sixty where more than 85
/// percent of the meshes or of the images are taken, and fifteen where the camera jumped
/// besides. All other tiles hold nothing. Only where there are eight thousand of them is one
/// forgotten, and only one that holds nothing, waits for nothing and was not used in six
/// hundred frames.
pub proof fn lemma_unused_gives_up(
    at: Holdings,
    slot_count: u32,
    layer_count: u32,
    key: TileKey,
)
    requires
        at.tree.tiles.wf(),
        at.slots.len() <= slot_count,
        at.layers.len() <= layer_count,
        slot_count > 0,
        layer_count > 0,
    ensures
        ({
            let pressed = 100 * (slot_count - at.slots.len()) > 85 * slot_count || 100 * (
            layer_count - at.layers.len()) > 85 * layer_count;
            let age: int = if !pressed {
                240
            } else if at.tree.camera_jumped {
                15
            } else {
                60
            };
            let was = at.tree.tiles.get(key);
            let after = settled(at, slot_count, layer_count);
            let now = after.tree.tiles.get(key);
            let stays = if was.last_used + age > at.tree.frame {
                was
            } else {
                Tile {
                    mesh: None,
                    imagery: None,
                    split: was.split && was.mesh is None,
                    imagery_at: if was.imagery is Some {
                        0
                    } else {
                        was.imagery_at
                    },
                    ..was
                }
            };
            let forgotten = at.tree.tiles.order.len() >= 8000 && stays.mesh is None
                && stays.imagery is None && !was.mesh_inbound && !was.imagery_inbound
                && was.last_used + 600 <= at.tree.frame;
            &&& !forgotten ==> now == stays
            &&& forgotten ==> now == unknown_tile()
            &&& after.tree.frame == at.tree.frame
            &&& after.slots.len() <= slot_count ==> after.tree.mesh_pressure == (Pressure {
                used: (slot_count - after.slots.len()) as u32,
                capacity: slot_count,
            })
            &&& after.layers.len() <= layer_count ==> after.tree.layer_pressure == (Pressure {
                used: (layer_count - after.layers.len()) as u32,
                capacity: layer_count,
            })
        }),
{
    let tree = measured(at, slot_count, layer_count);
    let keys = tree.tiles.order;
    let age = retire_age(tree);
    let start = Holdings { tree, ..at };
    assert forall|i: int| 0 <= i < keys.len() implies tree.tiles.order.contains(
        #[trigger] keys[i],
    ) by {}
    lemma_retired_exactly(start, keys, age, keys.len(), key);
    lemma_retired_rest(start, keys, age, keys.len());
    assert(keys.take(keys.len() as int) =~= keys);
    let calm = retired_all(start, keys, age, keys.len());
    lemma_pruned_keeps(calm.tree.tiles, calm.tree.frame, key);
    if !keys.contains(key) {
        assert(!at.tree.tiles.at.contains_key(key));
        assert(bare_of(unknown_tile()) == unknown_tile());
    }
}

proof fn lemma_unimaged_exactly(at: Holdings, keys: Seq<TileKey>, n: nat, key: TileKey)
    requires
        at.tree.tiles.wf(),
        n <= keys.len(),
        keys.no_duplicates(),
    ensures
        ({
            let after = unimaged_all(at, keys, n);
            let tile = at.tree.tiles.get(key);
            &&& after.tree.tiles.wf()
            &&& after.tree == (TreeView { tiles: after.tree.tiles, ..at.tree })
            &&& after.slots == at.slots
            &&& after.tree.tiles.get(key) == (if keys.take(n as int).contains(key) {
                Tile {
                    imagery: None,
                    imagery_fails: 0,
                    imagery_retry_at: 0,
                    imagery_at: 0,
                    ..tile
                }
            } else {
                tile
            })
        }),
    decreases n,
{
    if n > 0 {
        let m = (n - 1) as nat;
        let last = keys[n - 1];
        lemma_unimaged_exactly(at, keys, m, key);
        lemma_taken_so_far(keys, n, key);
        let before = unimaged_all(at, keys, m).tree.tiles;
        let bare = Tile {
            imagery: None,
            imagery_fails: 0,
            imagery_retry_at: 0,
            imagery_at: 0,
            ..before.get(last)
        };
        lemma_put_get(before, last, bare, key);
        lemma_put_get(before, last, bare, last);
    }
}

/// After the images were given up, every one can be asked for at once, however often it
/// failed. Nothing else changes of any tile.
pub proof fn lemma_images_asked_afresh(at: Holdings, key: TileKey)
    requires
        at.tree.tiles.wf(),
    ensures
        ({
            let keys = at.tree.tiles.order;
            let after = unimaged_all(at, keys, keys.len());
            &&& after.tree == (TreeView { tiles: after.tree.tiles, ..at.tree })
            &&& after.slots == at.slots
            &&& after.tree.tiles.get(key) == (Tile {
                imagery: None,
                imagery_fails: 0,
                imagery_retry_at: 0,
                imagery_at: 0,
                ..at.tree.tiles.get(key)
            })
        }),
{
    let keys = at.tree.tiles.order;
    lemma_unimaged_exactly(at, keys, keys.len(), key);
    assert(keys.take(keys.len() as int) =~= keys);
    if !keys.contains(key) {
        assert(!at.tree.tiles.at.contains_key(key));
    }
}

/// What is counted of an answer that brought something: the bytes that went up, and the mesh
/// or the image that gave way to it where nothing was free.
pub proof fn lemma_giving_way_counted(intake: Intake, msg: Incoming, limit: nat)
    requires
        intake.tree.tiles.wf(),
        msg.kind == JobKind::Terrain || msg.kind == JobKind::Imagery,
        msg.payload is Some,
    ensures
        ({
            let meshes = msg.kind == JobKind::Terrain;
            let was = intake.tree;
            let after = placed(intake, msg, limit);
            let now = after.tree;
            let up = after.uploads.len() > intake.uploads.len();
            let none_free = if meshes {
                intake.slots.len() == 0
            } else {
                intake.layers.len() == 0
            };
            &&& now == (TreeView {
                tiles: now.tiles,
                uploaded_bytes: now.uploaded_bytes,
                mesh_evictions: now.mesh_evictions,
                imagery_evictions: now.imagery_evictions,
                upload_stalls: now.upload_stalls,
                ..was
            })
            &&& up && was.uploaded_bytes + msg.payload->0@.len() <= usize::MAX
                ==> now.uploaded_bytes == was.uploaded_bytes + msg.payload->0@.len()
            &&& !up ==> now.uploaded_bytes == was.uploaded_bytes
            &&& up && none_free && meshes && was.mesh_evictions < u64::MAX ==> now.mesh_evictions
                == was.mesh_evictions + 1
            &&& !(up && none_free && meshes) ==> now.mesh_evictions == was.mesh_evictions
            &&& up && none_free && !meshes && was.imagery_evictions < u64::MAX
                ==> now.imagery_evictions == was.imagery_evictions + 1
            &&& !(up && none_free && !meshes) ==> now.imagery_evictions == was.imagery_evictions
        }),
{
}

/// Whether a tile gives up its mesh or its image for having been idle.
pub open spec fn retires(tile: Tile, age: u64, frame: u64, meshes: bool) -> bool {
    &&& tile.last_used + age <= frame
    &&& meshes ==> tile.mesh is Some
    &&& !meshes ==> tile.imagery is Some
}

proof fn lemma_retired_counted(at: Holdings, keys: Seq<TileKey>, age: u64, n: nat)
    requires
        at.tree.tiles.wf(),
        n <= keys.len(),
        keys.no_duplicates(),
        forall|i: int| 0 <= i < keys.len() ==> at.tree.tiles.order.contains(#[trigger] keys[i]),
    ensures
        ({
            let after = retired_all(at, keys, age, n).tree;
            let tiles = at.tree.tiles;
            let frame = at.tree.frame;
            let meshes = keys.take(n as int).filter(
                |k: TileKey| retires(tiles.get(k), age, frame, true),
            ).len();
            let images = keys.take(n as int).filter(
                |k: TileKey| retires(tiles.get(k), age, frame, false),
            ).len();
            &&& at.tree.retired_meshes + meshes <= u64::MAX ==> after.retired_meshes
                == at.tree.retired_meshes + meshes
            &&& at.tree.retired_imagery + images <= u64::MAX ==> after.retired_imagery
                == at.tree.retired_imagery + images
        }),
    decreases n,
{
    reveal(Seq::filter);
    if n > 0 {
        let m = (n - 1) as nat;
        let last = keys[n - 1];
        lemma_retired_counted(at, keys, age, m);
        lemma_retired_exactly(at, keys, age, m, last);
        lemma_retired_rest(at, keys, age, m);
        lemma_taken_so_far(keys, n, last);
        assert(keys.take(n as int).drop_last() =~= keys.take(m as int));
        assert(keys.take(n as int).last() == last);
    }
}

/// Every mesh and every image that a tile gives up for having been idle is counted.
pub proof fn lemma_idle_counted(at: Holdings, age: u64)
    requires
        at.tree.tiles.wf(),
    ensures
        ({
            let keys = at.tree.tiles.order;
            let after = retired_all(at, keys, age, keys.len()).tree;
            let tiles = at.tree.tiles;
            let frame = at.tree.frame;
            let meshes = keys.filter(|k: TileKey| retires(tiles.get(k), age, frame, true)).len();
            let images = keys.filter(|k: TileKey| retires(tiles.get(k), age, frame, false)).len();
            &&& at.tree.retired_meshes + meshes <= u64::MAX ==> after.retired_meshes
                == at.tree.retired_meshes + meshes
            &&& at.tree.retired_imagery + images <= u64::MAX ==> after.retired_imagery
                == at.tree.retired_imagery + images
        }),
{
    let keys = at.tree.tiles.order;
    assert forall|i: int| 0 <= i < keys.len() implies at.tree.tiles.order.contains(
        #[trigger] keys[i],
    ) by {}
    lemma_retired_counted(at, keys, age, keys.len());
    assert(keys.take(keys.len() as int) =~= keys);
}

/// After a frame's answers were taken in, whatever holds a mesh or an image was used in the
/// last two hundred and forty frames, and how much is taken is what is not free.
pub proof fn lemma_holders_were_used(
    intake: Intake,
    inbox: Seq<Incoming>,
    deferred: Seq<Incoming>,
    limit: nat,
    slot_count: u32,
    layer_count: u32,
    key: TileKey,
)
    requires
        intake.tree.tiles.wf(),
        slot_count > 0,
        layer_count > 0,
    ensures
        ({
            let after = integrated(intake, inbox, deferred, limit, slot_count, layer_count);
            let tile = after.tree.tiles.get(key);
            &&& after.tree.frame == intake.tree.frame
            &&& tile.mesh is Some || tile.imagery is Some ==> tile.last_used + 240
                > after.tree.frame
            &&& after.slots.len() <= slot_count ==> after.tree.mesh_pressure == (Pressure {
                used: (slot_count - after.slots.len()) as u32,
                capacity: slot_count,
            })
            &&& after.layers.len() <= layer_count ==> after.tree.layer_pressure == (Pressure {
                used: (layer_count - after.layers.len()) as u32,
                capacity: layer_count,
            })
        }),
{
    let (tree, waiting) = looked_through_all(intake.tree, deferred, inbox, inbox.len());
    lemma_looked_through(intake.tree, deferred, inbox, inbox.len(), key);
    let start = Intake { tree: TreeView { uploaded_bytes: 0, ..tree }, ..intake };
    lemma_placed_all(start, waiting, limit, waiting.len(), 0);
    let placed = placed_all(start, waiting, limit, waiting.len());
    lemma_first_go_on_waiting(placed.tree, placed.leftover, key);
    let (tree, leftover) = trimmed(placed.tree, placed.leftover);
    let at = Holdings {
        tree: TreeView { deferred_uploads: leftover.len() as usize, ..tree },
        slots: placed.slots,
        layers: placed.layers,
    };
    let tree = measured(at, slot_count, layer_count);
    let keys = tree.tiles.order;
    let age = retire_age(tree);
    let begin = Holdings { tree, ..at };
    assert forall|i: int| 0 <= i < keys.len() implies tree.tiles.order.contains(
        #[trigger] keys[i],
    ) by {}
    lemma_retired_exactly(begin, keys, age, keys.len(), key);
    lemma_retired_rest(begin, keys, age, keys.len());
    assert(keys.take(keys.len() as int) =~= keys);
    let calm = retired_all(begin, keys, age, keys.len());
    lemma_pruned_keeps(calm.tree.tiles, calm.tree.frame, key);
    if !keys.contains(key) {
        assert(!tree.tiles.at.contains_key(key));
    }
}

} // verus!
