//! What the renderer tells of itself: one line to read, and objects to plot.
use crate::census::{LevelStat, TreeDebug};
#[allow(unused_imports)]
use crate::census::{count_of, levels_of, Trait};
use crate::gpu::UploadBudget;
use crate::quadtree::{TileTree, MAX_DRAWN_TILES};
#[allow(unused_imports)]
use crate::quadtree::{TreeView, MAX_LEVELS};
use crate::residency::Arena;
use crate::scene::Scene;
#[allow(unused_imports)]
use crate::scene::{live_total, ready_count};
use crate::stream::{job_kinds, JobKind, LoadStat, WorkerPool};
#[allow(unused_imports)]
use crate::stream::{fetches_tiles, kind_number, kind_word, ActiveJob, PoolView};
use crate::text::{array, decimal_text, field, object, quoted, truth_text, Field};
#[allow(unused_imports)]
use crate::text::{
    decimal, field_views, json_array, json_object, lemma_decimal_spells, quoted_of, spelled, truth,
    views,
};
use crate::vector::VectorRenderer;
#[allow(unused_imports)]
use crate::vector::{at_most_u32, count_kind, sum_over, Batch, BatchKind, VectorView};
use vstd::prelude::*;

verus! {

/// An object under construction.
pub struct Report {
    pub fields: Vec<Field>,
}

impl View for Report {
    type V = Seq<(Seq<char>, Seq<char>)>;

    open spec fn view(&self) -> Seq<(Seq<char>, Seq<char>)> {
        field_views(self.fields@)
    }
}

impl Report {
    pub fn new() -> (report: Self)
        ensures
            report@ == Seq::<(Seq<char>, Seq<char>)>::empty(),
    {
        let report = Report { fields: Vec::new() };
        assert(report@ =~= Seq::<(Seq<char>, Seq<char>)>::empty());
        report
    }

    /// Adds a value as it is written.
    pub fn text(&mut self, name: &'static str, value: String)
        ensures
            final(self)@ == old(self)@.push((name@, value@)),
    {
        let ghost before = self@;
        let ghost added = (name@, value@);
        self.fields.push(field(name, value));
        assert(self@ =~= before.push(added));
    }

    /// Adds a number.
    pub fn number(&mut self, name: &'static str, value: u64)
        ensures
            final(self)@ == old(self)@.push((name@, decimal(value as nat))),
    {
        self.text(name, decimal_text(value));
    }

    /// Adds a truth value.
    pub fn flag(&mut self, name: &'static str, value: bool)
        ensures
            final(self)@ == old(self)@.push((name@, truth(value))),
    {
        self.text(name, truth_text(value));
    }

    /// The object.
    pub fn written(&self) -> (out: String)
        ensures
            out@ == json_object(self@),
    {
        object(&self.fields)
    }
}

/// What is told of what is drawn.
pub open spec fn draw_fields(tree: TreeView) -> Seq<(Seq<char>, Seq<char>)> {
    seq![
        ("drawn"@, decimal(tree.drawn.len())),
        ("instances"@, decimal(tree.drawn.len())),
        ("minLevel"@, decimal(tree.min_level_drawn as nat)),
        ("maxLevel"@, decimal(tree.max_level_drawn as nat)),
        ("splits"@, decimal(tree.splits as nat)),
        ("starvedSplits"@, decimal(tree.starved_splits as nat)),
        ("blockedSplits"@, decimal(tree.blocked_splits as nat)),
        ("visited"@, decimal(tree.visited as nat)),
        ("culled"@, decimal(tree.culled as nat)),
        ("maxDrawn"@, decimal(MAX_DRAWN_TILES as nat)),
    ]
}

fn draw_json(tree: &TileTree) -> (out: String)
    ensures
        out@ == json_object(draw_fields(tree@)),
{
    let mut r: Report = Report::new();
    r.number("drawn", tree.drawn.len() as u64);
    r.number("instances", tree.drawn.len() as u64);
    r.number("minLevel", tree.min_level_drawn as u64);
    r.number("maxLevel", tree.max_level_drawn as u64);
    r.number("splits", tree.splits as u64);
    r.number("starvedSplits", tree.starved_splits as u64);
    r.number("blockedSplits", tree.blocked_splits as u64);
    r.number("visited", tree.visited as u64);
    r.number("culled", tree.culled as u64);
    r.number("maxDrawn", MAX_DRAWN_TILES as u64);
    assert(r@ =~= draw_fields(tree@));
    r.written()
}

/// What is told of the tree.
pub open spec fn tree_fields(tree: TreeView) -> Seq<(Seq<char>, Seq<char>)> {
    seq![
        ("tiles"@, decimal(tree.tiles.order.len())),
        ("meshes"@, decimal(count_of(tree, Trait::HasMesh))),
        ("imagery"@, decimal(count_of(tree, Trait::HasImagery))),
        ("meshInbound"@, decimal(count_of(tree, Trait::MeshInbound))),
        ("imageryInbound"@, decimal(count_of(tree, Trait::ImageryInbound))),
        ("meshFailed"@, decimal(count_of(tree, Trait::MeshFailed))),
        ("imageryFailed"@, decimal(count_of(tree, Trait::ImageryFailed))),
        ("split"@, decimal(count_of(tree, Trait::Split))),
        ("protected"@, decimal(count_of(tree, Trait::Protected))),
        ("evictableMesh"@, decimal(count_of(tree, Trait::EvictableMesh))),
        ("evictableImagery"@, decimal(count_of(tree, Trait::EvictableImagery))),
    ]
}

/// What is told of a level.
pub open spec fn level_fields(level: (u8, LevelStat)) -> Seq<(Seq<char>, Seq<char>)> {
    seq![
        ("z"@, decimal(level.0 as nat)),
        ("meshes"@, decimal(level.1.meshes as nat)),
        ("imagery"@, decimal(level.1.imagery as nat)),
        ("drawn"@, decimal(level.1.drawn as nat)),
        ("pending"@, decimal(level.1.pending as nat)),
    ]
}

fn level_json(level: &(u8, LevelStat)) -> (out: String)
    ensures
        out@ == json_object(level_fields(*level)),
{
    let mut r: Report = Report::new();
    r.number("z", level.0 as u64);
    r.number("meshes", level.1.meshes as u64);
    r.number("imagery", level.1.imagery as u64);
    r.number("drawn", level.1.drawn as u64);
    r.number("pending", level.1.pending as u64);
    assert(r@ =~= level_fields(*level));
    r.written()
}

/// The levels, each as an object.
pub open spec fn level_items(levels: Seq<(u8, LevelStat)>) -> Seq<Seq<char>> {
    levels.map_values(|l: (u8, LevelStat)| json_object(level_fields(l)))
}

fn levels_json(levels: &Vec<(u8, LevelStat)>) -> (out: String)
    ensures
        out@ == json_array(level_items(levels@)),
{
    let ghost all = level_items(levels@);
    let mut items: Vec<String> = Vec::new();
    let mut i: usize = 0;
    while i < levels.len()
        invariant
            i <= levels@.len(),
            all == level_items(levels@),
            views(items@) == all.take(i as int),
        decreases levels@.len() - i,
    {
        let ghost before = views(items@);
        let item: String = level_json(&levels[i]);
        let ghost spelled = item@;
        items.push(item);
        i = i + 1;
        assert(views(items@) =~= before.push(spelled));
        assert(views(items@) =~= all.take(i as int));
    }
    assert(all.take(i as int) =~= all);
    array(&items)
}

fn tree_json(d: &TreeDebug, Ghost(tree): Ghost<TreeView>) -> (out: String)
    requires
        d.tiles == tree.tiles.order.len(),
        d.meshes == count_of(tree, Trait::HasMesh),
        d.imagery == count_of(tree, Trait::HasImagery),
        d.mesh_inbound == count_of(tree, Trait::MeshInbound),
        d.imagery_inbound == count_of(tree, Trait::ImageryInbound),
        d.mesh_failed == count_of(tree, Trait::MeshFailed),
        d.imagery_failed == count_of(tree, Trait::ImageryFailed),
        d.split == count_of(tree, Trait::Split),
        d.protected == count_of(tree, Trait::Protected),
        d.evictable_mesh == count_of(tree, Trait::EvictableMesh),
        d.evictable_imagery == count_of(tree, Trait::EvictableImagery),
    ensures
        out@ == json_object(tree_fields(tree)),
{
    let mut r: Report = Report::new();
    r.number("tiles", d.tiles as u64);
    r.number("meshes", d.meshes as u64);
    r.number("imagery", d.imagery as u64);
    r.number("meshInbound", d.mesh_inbound as u64);
    r.number("imageryInbound", d.imagery_inbound as u64);
    r.number("meshFailed", d.mesh_failed as u64);
    r.number("imageryFailed", d.imagery_failed as u64);
    r.number("split", d.split as u64);
    r.number("protected", d.protected as u64);
    r.number("evictableMesh", d.evictable_mesh as u64);
    r.number("evictableImagery", d.evictable_imagery as u64);
    assert(r@ =~= tree_fields(tree));
    r.written()
}

/// What is told of the arenas.
pub open spec fn arena_fields(arena: &Arena) -> Seq<(Seq<char>, Seq<char>)> {
    seq![
        ("meshUsed"@, decimal((arena.slots.slots() - arena.slots@.len()) as nat)),
        ("meshCap"@, decimal(arena.slots.slots() as nat)),
        ("layerUsed"@, decimal((arena.layers.slots() - arena.layers@.len()) as nat)),
        ("layerCap"@, decimal(arena.layers.slots() as nat)),
    ]
}

fn arena_json(arena: &Arena) -> (out: String)
    requires
        arena.slots@.len() <= arena.slots.slots(),
        arena.layers@.len() <= arena.layers.slots(),
    ensures
        out@ == json_object(arena_fields(arena)),
{
    let mut r: Report = Report::new();
    r.number("meshUsed", arena.slots.used() as u64);
    r.number("meshCap", arena.slots.capacity() as u64);
    r.number("layerUsed", arena.layers.used() as u64);
    r.number("layerCap", arena.layers.capacity() as u64);
    assert(r@ =~= arena_fields(arena));
    r.written()
}

/// What is told of the uploads.
pub open spec fn upload_fields(tree: TreeView, limit: nat, spent: nat) -> Seq<
    (Seq<char>, Seq<char>),
> {
    seq![
        ("bytes"@, decimal(tree.uploaded_bytes as nat)),
        ("budget"@, decimal(limit)),
        ("spent"@, decimal(spent)),
        ("deferred"@, decimal(tree.deferred_uploads as nat)),
        ("stalls"@, decimal(tree.upload_stalls as nat)),
        ("dropped"@, decimal(tree.dropped_uploads as nat)),
        ("meshEvictions"@, decimal(tree.mesh_evictions as nat)),
        ("imageryEvictions"@, decimal(tree.imagery_evictions as nat)),
        ("retiredMeshes"@, decimal(tree.retired_meshes as nat)),
        ("retiredImagery"@, decimal(tree.retired_imagery as nat)),
        ("cameraJumped"@, truth(tree.camera_jumped)),
    ]
}

fn upload_json(tree: &TileTree, budget: &UploadBudget) -> (out: String)
    ensures
        out@ == json_object(upload_fields(tree@, budget.limit(), budget@)),
{
    let mut r: Report = Report::new();
    r.number("bytes", tree.uploaded_bytes as u64);
    r.number("budget", budget.bytes_per_frame() as u64);
    r.number("spent", budget.spent() as u64);
    r.number("deferred", tree.deferred_uploads as u64);
    r.number("stalls", tree.upload_stalls);
    r.number("dropped", tree.dropped_uploads);
    r.number("meshEvictions", tree.mesh_evictions);
    r.number("imageryEvictions", tree.imagery_evictions);
    r.number("retiredMeshes", tree.retired_meshes);
    r.number("retiredImagery", tree.retired_imagery);
    r.flag("cameraJumped", tree.camera_jumped);
    assert(r@ =~= upload_fields(tree@, budget.limit(), budget@));
    r.written()
}

/// What is told of the pool.
pub open spec fn pool_fields(pool: PoolView) -> Seq<(Seq<char>, Seq<char>)> {
    seq![
        ("active"@, decimal(pool.active.len())),
        (
            "terrain"@,
            decimal(pool.active.filter(|j: ActiveJob| j.kind == JobKind::Terrain).len()),
        ),
        (
            "imagery"@,
            decimal(pool.active.filter(|j: ActiveJob| j.kind == JobKind::Imagery).len()),
        ),
        (
            "model"@,
            decimal(pool.active.filter(|j: ActiveJob| !fetches_tiles(j.kind)).len()),
        ),
        ("queueDepth"@, decimal(pool.queue_depth as nat)),
        ("sent"@, decimal(pool.sent_last as nat)),
        ("dropped"@, decimal(pool.dropped as nat)),
        ("dispatched"@, decimal(pool.dispatched as nat)),
        ("inbox"@, decimal(pool.inbox.len())),
        ("cancelled"@, decimal(pool.cancelled as nat)),
        ("maxInFlight"@, decimal(pool.max_in_flight as nat)),
    ]
}

fn pool_json(pool: &WorkerPool) -> (out: String)
    ensures
        out@ == json_object(pool_fields(pool@)),
{
    let (terrain, imagery, other) = pool.active_kinds();
    let mut r: Report = Report::new();
    r.number("active", pool.active_count() as u64);
    r.number("terrain", terrain as u64);
    r.number("imagery", imagery as u64);
    r.number("model", other as u64);
    r.number("queueDepth", pool.queue_depth as u64);
    r.number("sent", pool.sent_last as u64);
    r.number("dropped", pool.dropped as u64);
    r.number("dispatched", pool.dispatched as u64);
    r.number("inbox", pool.inbox_len() as u64);
    r.number("cancelled", pool.cancelled as u64);
    r.number("maxInFlight", pool.max_in_flight() as u64);
    assert(r@ =~= pool_fields(pool@));
    r.written()
}

/// What is told of what stands on the globe.
pub open spec fn scene_fields(vectors: VectorView, scene: &Scene) -> Seq<(Seq<char>, Seq<char>)> {
    let batches = vectors.batches;
    let live = live_total(scene.models@);
    seq![
        (
            "polygons"@,
            decimal(at_most_u32(count_kind(batches, |k: BatchKind| k is Polygon)) as nat),
        ),
        ("tubes"@, decimal(at_most_u32(count_kind(batches, |k: BatchKind| k is Tube)) as nat)),
        ("lines"@, decimal(at_most_u32(count_kind(batches, |k: BatchKind| k is Line)) as nat)),
        ("icons"@, decimal(at_most_u32(count_kind(batches, |k: BatchKind| k is Icon)) as nat)),
        ("vectorVerts"@, decimal(at_most_u32(sum_over(batches, |b: Batch| b.vertices)) as nat)),
        ("vectorTris"@, decimal(at_most_u32(sum_over(batches, |b: Batch| b.triangles)) as nat)),
        ("vectorBatches"@, decimal(batches.len())),
        ("iconSheet"@, truth(vectors.icon_sheet_loaded)),
        ("models"@, decimal(scene.models@.len())),
        ("modelsReady"@, decimal(ready_count(scene.models@, scene.model_urls@.len()))),
        (
            "modelInstances"@,
            decimal(
                if live <= u64::MAX {
                    live
                } else {
                    u64::MAX as nat
                },
            ),
        ),
        ("flights"@, decimal(scene.flights@.len())),
    ]
}

fn scene_json(vectors: &VectorRenderer, scene: &Scene) -> (out: String)
    ensures
        out@ == json_object(scene_fields(vectors@, scene)),
{
    let totals: (u32, u32, u32, u32, u32, u32) = vectors.totals();
    let mut r: Report = Report::new();
    r.number("polygons", totals.0 as u64);
    r.number("tubes", totals.1 as u64);
    r.number("lines", totals.2 as u64);
    r.number("icons", totals.3 as u64);
    r.number("vectorVerts", totals.4 as u64);
    r.number("vectorTris", totals.5 as u64);
    r.number("vectorBatches", vectors.batches.len() as u64);
    r.flag("iconSheet", vectors.icon_sheet_loaded);
    r.number("models", scene.models.len() as u64);
    r.number("modelsReady", scene.models_ready() as u64);
    r.number("modelInstances", scene.total_instances());
    r.number("flights", scene.flights.len() as u64);
    assert(r@ =~= scene_fields(vectors@, scene));
    r.written()
}

/// The workers, each as an object.
pub open spec fn worker_items(pool: PoolView) -> Seq<Seq<char>> {
    Seq::new(
        pool.ready.len(),
        |w: int|
            json_object(
                seq![
                    ("ready"@, truth(pool.ready[w])),
                    ("inFlight"@, decimal(pool.in_flight[w] as nat)),
                ],
            ),
    )
}

fn workers_json(pool: &WorkerPool) -> (out: String)
    requires
        pool.wf(),
    ensures
        out@ == json_array(worker_items(pool@)),
{
    let ghost all = worker_items(pool@);
    let load: Vec<(bool, u32)> = pool.worker_load();
    let mut items: Vec<String> = Vec::new();
    let mut i: usize = 0;
    assert(views(items@) =~= all.take(0));
    while i < load.len()
        invariant
            pool.wf(),
            load@ == Seq::new(
                pool@.ready.len(),
                |w: int| (pool@.ready[w], pool@.in_flight[w]),
            ),
            i <= load@.len(),
            all == worker_items(pool@),
            views(items@) == all.take(i as int),
        decreases load@.len() - i,
    {
        let ghost before = views(items@);
        let mut r: Report = Report::new();
        r.flag("ready", load[i].0);
        r.number("inFlight", load[i].1 as u64);
        assert(r@ =~= seq![
            ("ready"@, truth(pool@.ready[i as int])),
            ("inFlight"@, decimal(pool@.in_flight[i as int] as nat)),
        ]);
        let item: String = r.written();
        let ghost spelled = item@;
        items.push(item);
        i = i + 1;
        assert(views(items@) =~= before.push(spelled));
        assert(views(items@) =~= all.take(i as int));
    }
    assert(all.take(i as int) =~= all);
    array(&items)
}

/// The times of the jobs of a kind, each as it is written.
pub struct LoadTimes {
    pub hit_pct: String,
    pub last_ms: String,
    pub avg_ms: String,
    pub max_ms: String,
    pub fetch_ms: String,
    pub work_ms: String,
    pub queue_ms: String,
}

/// What is told of the jobs of a kind.
pub open spec fn load_fields(kind: JobKind, stat: LoadStat, times: LoadTimes) -> Seq<
    (Seq<char>, Seq<char>),
> {
    seq![
        ("kind"@, quoted_of(kind_word(kind))),
        ("n"@, decimal(stat.n as nat)),
        ("failed"@, decimal(stat.failed as nat)),
        ("hitPct"@, times.hit_pct@),
        ("lastMs"@, times.last_ms@),
        ("avgMs"@, times.avg_ms@),
        ("maxMs"@, times.max_ms@),
        ("fetchMs"@, times.fetch_ms@),
        ("workMs"@, times.work_ms@),
        ("queueMs"@, times.queue_ms@),
    ]
}

fn owned(text: &String) -> (out: String)
    ensures
        out@ == text@,
{
    text.as_str().to_owned()
}

fn load_json(kind: JobKind, stat: LoadStat, times: &LoadTimes) -> (out: String)
    ensures
        out@ == json_object(load_fields(kind, stat, *times)),
{
    let mut r: Report = Report::new();
    r.text("kind", quoted(kind.label()));
    r.number("n", stat.n as u64);
    r.number("failed", stat.failed as u64);
    r.text("hitPct", owned(&times.hit_pct));
    r.text("lastMs", owned(&times.last_ms));
    r.text("avgMs", owned(&times.avg_ms));
    r.text("maxMs", owned(&times.max_ms));
    r.text("fetchMs", owned(&times.fetch_ms));
    r.text("workMs", owned(&times.work_ms));
    r.text("queueMs", owned(&times.queue_ms));
    assert(r@ =~= load_fields(kind, stat, *times));
    r.written()
}

/// The kind of a number.
pub open spec fn numbered_kind(n: int) -> JobKind {
    if n == 0 {
        JobKind::Terrain
    } else if n == 1 {
        JobKind::Imagery
    } else if n == 2 {
        JobKind::Model
    } else {
        JobKind::Icon
    }
}

/// Those of the first `n` kinds of which a job came back, each as an object.
pub open spec fn load_items(loads: Seq<LoadStat>, times: Seq<LoadTimes>, n: nat) -> Seq<Seq<char>>
    decreases n,
{
    if n == 0 {
        Seq::empty()
    } else {
        let before = load_items(loads, times, (n - 1) as nat);
        if loads[n - 1].n > 0 {
            before.push(
                json_object(load_fields(numbered_kind(n - 1), loads[n - 1], times[n - 1])),
            )
        } else {
            before
        }
    }
}

fn loads_json(pool: &WorkerPool, times: &Vec<LoadTimes>) -> (out: String)
    requires
        pool.wf(),
        times@.len() == 4,
    ensures
        out@ == json_array(load_items(pool@.loads, times@, 4)),
{
    let kinds: [JobKind; 4] = job_kinds();
    let loads: Vec<LoadStat> = pool.load_stats();
    let mut items: Vec<String> = Vec::new();
    let mut i: usize = 0;
    assert(views(items@) =~= load_items(pool@.loads, times@, 0));
    while i < 4
        invariant
            i <= 4,
            times@.len() == 4,
            loads@.len() == 4,
            loads@ == pool@.loads,
            forall|k: int| 0 <= k < 4 ==> kind_number(#[trigger] kinds@[k]) == k,
            views(items@) == load_items(pool@.loads, times@, i as nat),
        decreases 4 - i,
    {
        if loads[i].n > 0 {
            let ghost before = views(items@);
            assert(kind_number(kinds@[i as int]) == i);
            assert(kinds@[i as int] == numbered_kind(i as int));
            let item: String = load_json(kinds[i], loads[i], &times[i]);
            let ghost spelled = item@;
            items.push(item);
            assert(views(items@) =~= before.push(spelled));
        }
        i = i + 1;
    }
    array(&items)
}

/// What is told of the frame and the camera, each number as it is written.
pub struct FrameFacts {
    pub fps: String,
    pub ms: String,
    pub ms_avg: String,
    pub uncapped_fps: String,
    pub uncapped: bool,
    pub width: u32,
    pub height: u32,
    pub scale: String,
    pub dpr: String,
    pub lon: String,
    pub lat: String,
    pub alt: String,
    pub distance: String,
    pub heading: String,
    pub tilt: String,
    pub clearance: String,
}

/// What is told of the frame.
pub open spec fn frame_fields(f: FrameFacts) -> Seq<(Seq<char>, Seq<char>)> {
    seq![
        ("fps"@, f.fps@),
        ("ms"@, f.ms@),
        ("msAvg"@, f.ms_avg@),
        ("uncappedFps"@, f.uncapped_fps@),
        ("uncapped"@, truth(f.uncapped)),
        ("width"@, decimal(f.width as nat)),
        ("height"@, decimal(f.height as nat)),
        ("scale"@, f.scale@),
        ("dpr"@, f.dpr@),
    ]
}

fn frame_json(f: &FrameFacts) -> (out: String)
    ensures
        out@ == json_object(frame_fields(*f)),
{
    let mut r: Report = Report::new();
    r.text("fps", owned(&f.fps));
    r.text("ms", owned(&f.ms));
    r.text("msAvg", owned(&f.ms_avg));
    r.text("uncappedFps", owned(&f.uncapped_fps));
    r.flag("uncapped", f.uncapped);
    r.number("width", f.width as u64);
    r.number("height", f.height as u64);
    r.text("scale", owned(&f.scale));
    r.text("dpr", owned(&f.dpr));
    assert(r@ =~= frame_fields(*f));
    r.written()
}

/// What is told of the camera.
pub open spec fn camera_fields(f: FrameFacts) -> Seq<(Seq<char>, Seq<char>)> {
    seq![
        ("lon"@, f.lon@),
        ("lat"@, f.lat@),
        ("alt"@, f.alt@),
        ("distance"@, f.distance@),
        ("heading"@, f.heading@),
        ("tilt"@, f.tilt@),
        ("clearance"@, f.clearance@),
    ]
}

fn camera_json(f: &FrameFacts) -> (out: String)
    ensures
        out@ == json_object(camera_fields(*f)),
{
    let mut r: Report = Report::new();
    r.text("lon", owned(&f.lon));
    r.text("lat", owned(&f.lat));
    r.text("alt", owned(&f.alt));
    r.text("distance", owned(&f.distance));
    r.text("heading", owned(&f.heading));
    r.text("tilt", owned(&f.tilt));
    r.text("clearance", owned(&f.clearance));
    assert(r@ =~= camera_fields(*f));
    r.written()
}

/// Everything that is told.
pub open spec fn debug_fields(
    f: FrameFacts,
    tree: TreeView,
    arena: &Arena,
    limit: nat,
    spent: nat,
    pool: PoolView,
    vectors: VectorView,
    scene: &Scene,
    times: Seq<LoadTimes>,
) -> Seq<(Seq<char>, Seq<char>)> {
    seq![
        ("frame"@, json_object(frame_fields(f))),
        ("camera"@, json_object(camera_fields(f))),
        ("draw"@, json_object(draw_fields(tree))),
        ("tree"@, json_object(tree_fields(tree))),
        ("arena"@, json_object(arena_fields(arena))),
        ("upload"@, json_object(upload_fields(tree, limit, spent))),
        ("pool"@, json_object(pool_fields(pool))),
        ("scene"@, json_object(scene_fields(vectors, scene))),
        ("levels"@, json_array(level_items(levels_of(tree, MAX_LEVELS as nat)))),
        ("workers"@, json_array(worker_items(pool))),
        ("loads"@, json_array(load_items(pool.loads, times, 4))),
    ]
}

/// Everything that is told, as an object of objects.
pub fn debug_json(
    f: &FrameFacts,
    tree: &TileTree,
    arena: &Arena,
    budget: &UploadBudget,
    pool: &WorkerPool,
    vectors: &VectorRenderer,
    scene: &Scene,
    times: &Vec<LoadTimes>,
) -> (out: String)
    requires
        tree.wf(),
        pool.wf(),
        arena.slots@.len() <= arena.slots.slots(),
        arena.layers@.len() <= arena.layers.slots(),
        times@.len() == 4,
    ensures
        out@ == json_object(
            debug_fields(
                *f,
                tree@,
                arena,
                budget.limit(),
                budget@,
                pool@,
                vectors@,
                scene,
                times@,
            ),
        ),
{
    let d: TreeDebug = tree.debug();
    let mut r: Report = Report::new();
    r.text("frame", frame_json(f));
    r.text("camera", camera_json(f));
    r.text("draw", draw_json(tree));
    r.text("tree", tree_json(&d, Ghost(tree@)));
    r.text("arena", arena_json(arena));
    r.text("upload", upload_json(tree, budget));
    r.text("pool", pool_json(pool));
    r.text("scene", scene_json(vectors, scene));
    r.text("levels", levels_json(&d.levels));
    r.text("workers", workers_json(pool));
    r.text("loads", loads_json(pool, times));
    assert(r@ =~= debug_fields(
        *f,
        tree@,
        arena,
        budget.limit(),
        budget@,
        pool@,
        vectors@,
        scene,
        times@,
    ));
    r.written()
}

/// What a plot needs.
pub open spec fn stats_fields(
    f: FrameFacts,
    tree: TreeView,
    arena: &Arena,
    pool: PoolView,
    ground: Seq<char>,
) -> Seq<(Seq<char>, Seq<char>)> {
    seq![
        ("fps"@, f.fps@),
        ("frameMs"@, f.ms@),
        ("drawn"@, decimal(tree.drawn.len())),
        ("maxLevel"@, decimal(tree.max_level_drawn as nat)),
        ("meshes"@, decimal(count_of(tree, Trait::HasMesh))),
        ("imagery"@, decimal(count_of(tree, Trait::HasImagery))),
        ("meshSlots"@, decimal((arena.slots.slots() - arena.slots@.len()) as nat)),
        ("meshSlotCap"@, decimal(arena.slots.slots() as nat)),
        ("imageryLayers"@, decimal((arena.layers.slots() - arena.layers@.len()) as nat)),
        ("imageryLayerCap"@, decimal(arena.layers.slots() as nat)),
        ("inFlight"@, decimal(pool.active.len())),
        ("dispatched"@, decimal(pool.dispatched as nat)),
        ("dropped"@, decimal(pool.dropped as nat)),
        ("uploadedBytes"@, decimal(tree.uploaded_bytes as nat)),
        ("deferredUploads"@, decimal(tree.deferred_uploads as nat)),
        ("groundHeight"@, ground),
        ("width"@, decimal(f.width as nat)),
        ("height"@, decimal(f.height as nat)),
    ]
}

/// What a plot needs, as an object.
pub fn stats_json(
    f: &FrameFacts,
    tree: &TileTree,
    arena: &Arena,
    pool: &WorkerPool,
    ground: &str,
) -> (out: String)
    requires
        tree.wf(),
        arena.slots@.len() <= arena.slots.slots(),
        arena.layers@.len() <= arena.layers.slots(),
    ensures
        out@ == json_object(stats_fields(*f, tree@, arena, pool@, ground@)),
{
    let mut r: Report = Report::new();
    r.text("fps", owned(&f.fps));
    r.text("frameMs", owned(&f.ms));
    r.number("drawn", tree.drawn.len() as u64);
    r.number("maxLevel", tree.max_level_drawn as u64);
    r.number("meshes", tree.resident_tiles() as u64);
    r.number("imagery", tree.resident_imagery() as u64);
    r.number("meshSlots", arena.slots.used() as u64);
    r.number("meshSlotCap", arena.slots.capacity() as u64);
    r.number("imageryLayers", arena.layers.used() as u64);
    r.number("imageryLayerCap", arena.layers.capacity() as u64);
    r.number("inFlight", pool.active_count() as u64);
    r.number("dispatched", pool.dispatched as u64);
    r.number("dropped", pool.dropped as u64);
    r.number("uploadedBytes", tree.uploaded_bytes as u64);
    r.number("deferredUploads", tree.deferred_uploads as u64);
    r.text("groundHeight", ground.to_owned());
    r.number("width", f.width as u64);
    r.number("height", f.height as u64);
    assert(r@ =~= stats_fields(*f, tree@, arena, pool@, ground@));
    r.written()
}

/// A line to read.
pub open spec fn stats_line(
    fps: Seq<char>,
    ms: Seq<char>,
    tree: TreeView,
    pool: PoolView,
    tile_ms: Seq<char>,
    hit_pct: Seq<char>,
) -> Seq<char> {
    fps + " fps | "@ + ms + " ms | z"@ + decimal(tree.max_level_drawn as nat) + " | "@ + decimal(
        tree.drawn.len(),
    ) + " drawn | "@ + decimal(count_of(tree, Trait::HasMesh)) + " meshes | "@ + decimal(
        count_of(tree, Trait::HasImagery),
    ) + " imagery | "@ + decimal(pool.active.len()) + " in flight | tile "@ + tile_ms + " ms ("@
        + hit_pct + "% cached)"@
}

/// A line to read.
pub fn stats(
    fps: &str,
    ms: &str,
    tree: &TileTree,
    pool: &WorkerPool,
    tile_ms: &str,
    hit_pct: &str,
) -> (out: String)
    requires
        tree.wf(),
    ensures
        out@ == stats_line(fps@, ms@, tree@, pool@, tile_ms@, hit_pct@),
{
    let mut out: String = fps.to_owned();
    out.append(" fps | ");
    out.append(ms);
    out.append(" ms | z");
    out.append(decimal_text(tree.max_level_drawn as u64).as_str());
    out.append(" | ");
    out.append(decimal_text(tree.drawn.len() as u64).as_str());
    out.append(" drawn | ");
    out.append(decimal_text(tree.resident_tiles() as u64).as_str());
    out.append(" meshes | ");
    out.append(decimal_text(tree.resident_imagery() as u64).as_str());
    out.append(" imagery | ");
    out.append(decimal_text(pool.active_count() as u64).as_str());
    out.append(" in flight | tile ");
    out.append(tile_ms);
    out.append(" ms (");
    out.append(hit_pct);
    out.append("% cached)");
    out
}

/// How many jobs came back in all, and how many of those the disk served.
pub fn load_totals(pool: &WorkerPool) -> (totals: (u64, u64))
    requires
        pool.wf(),
    ensures
        totals.0 == pool@.loads[0].n + pool@.loads[1].n + pool@.loads[2].n + pool@.loads[3].n,
        totals.1 == pool@.loads[0].hits + pool@.loads[1].hits + pool@.loads[2].hits
            + pool@.loads[3].hits,
{
    let loads: Vec<LoadStat> = pool.load_stats();
    (
        loads[0].n as u64 + loads[1].n as u64 + loads[2].n as u64 + loads[3].n as u64,
        loads[0].hits as u64 + loads[1].hits as u64 + loads[2].hits as u64 + loads[3].hits as u64,
    )
}

/// What is told of the debug view.
pub struct ViewFacts {
    pub frozen: bool,
    pub frustum: bool,
    pub bounds: bool,
    pub lon: String,
    pub lat: String,
    pub alt: String,
    pub distance: String,
}

/// What is told of the debug view.
pub open spec fn debug_view_fields(f: ViewFacts, tree: TreeView) -> Seq<(Seq<char>, Seq<char>)> {
    seq![
        ("frozen"@, truth(f.frozen)),
        ("frozenWork"@, truth(tree.frozen)),
        ("mode"@, decimal(tree.debug_mode as nat)),
        ("frustum"@, truth(f.frustum)),
        ("bounds"@, truth(f.bounds)),
        ("frozenLon"@, f.lon@),
        ("frozenLat"@, f.lat@),
        ("frozenAlt"@, f.alt@),
        ("frozenDistance"@, f.distance@),
    ]
}

/// What is told of the debug view, as an object.
pub fn debug_view_json(f: &ViewFacts, tree: &TileTree) -> (out: String)
    ensures
        out@ == json_object(debug_view_fields(*f, tree@)),
{
    let mut r: Report = Report::new();
    r.flag("frozen", f.frozen);
    r.flag("frozenWork", tree.frozen);
    r.number("mode", tree.debug_mode as u64);
    r.flag("frustum", f.frustum);
    r.flag("bounds", f.bounds);
    r.text("frozenLon", owned(&f.lon));
    r.text("frozenLat", owned(&f.lat));
    r.text("frozenAlt", owned(&f.alt));
    r.text("frozenDistance", owned(&f.distance));
    assert(r@ =~= debug_view_fields(*f, tree@));
    r.written()
}

/// Whether an object tells a number under a name.
pub open spec fn tells(fields: Seq<(Seq<char>, Seq<char>)>, name: Seq<char>, n: int) -> bool {
    exists|i: int|
        0 <= i < fields.len() && (#[trigger] fields[i]).0 == name && spelled(fields[i].1) == n
}

proof fn lemma_tells(fields: Seq<(Seq<char>, Seq<char>)>, i: int, n: nat)
    requires
        0 <= i < fields.len(),
        fields[i].1 == decimal(n),
    ensures
        tells(fields, fields[i].0, n as int),
{
    lemma_decimal_spells(n);
}

/// What is told of a frame is how many tiles it draws, of which levels, and how many it
/// looked at, culled and split.
pub proof fn lemma_drawing_told(tree: TreeView)
    ensures
        ({
            let fields = draw_fields(tree);
            &&& tells(fields, "drawn"@, tree.drawn.len() as int)
            &&& tells(fields, "instances"@, tree.drawn.len() as int)
            &&& tells(fields, "minLevel"@, tree.min_level_drawn as int)
            &&& tells(fields, "maxLevel"@, tree.max_level_drawn as int)
            &&& tells(fields, "splits"@, tree.splits as int)
            &&& tells(fields, "starvedSplits"@, tree.starved_splits as int)
            &&& tells(fields, "blockedSplits"@, tree.blocked_splits as int)
            &&& tells(fields, "visited"@, tree.visited as int)
            &&& tells(fields, "culled"@, tree.culled as int)
        }),
{
    let fields = draw_fields(tree);
    lemma_tells(fields, 0, (tree.drawn.len()) as nat);
    lemma_tells(fields, 1, (tree.drawn.len()) as nat);
    lemma_tells(fields, 2, (tree.min_level_drawn) as nat);
    lemma_tells(fields, 3, (tree.max_level_drawn) as nat);
    lemma_tells(fields, 4, (tree.splits) as nat);
    lemma_tells(fields, 5, (tree.starved_splits) as nat);
    lemma_tells(fields, 6, (tree.blocked_splits) as nat);
    lemma_tells(fields, 7, (tree.visited) as nat);
    lemma_tells(fields, 8, (tree.culled) as nat);
}

/// What is told of the tree is how many tiles it knows, and of how many of them something
/// can be said.
pub proof fn lemma_stock_told(tree: TreeView)
    ensures
        ({
            let fields = tree_fields(tree);
            &&& tells(fields, "tiles"@, tree.tiles.order.len() as int)
            &&& tells(fields, "meshes"@, count_of(tree, Trait::HasMesh) as int)
            &&& tells(fields, "imagery"@, count_of(tree, Trait::HasImagery) as int)
            &&& tells(fields, "meshInbound"@, count_of(tree, Trait::MeshInbound) as int)
            &&& tells(fields, "imageryInbound"@, count_of(tree, Trait::ImageryInbound) as int)
            &&& tells(fields, "meshFailed"@, count_of(tree, Trait::MeshFailed) as int)
            &&& tells(fields, "imageryFailed"@, count_of(tree, Trait::ImageryFailed) as int)
            &&& tells(fields, "split"@, count_of(tree, Trait::Split) as int)
            &&& tells(fields, "protected"@, count_of(tree, Trait::Protected) as int)
            &&& tells(fields, "evictableMesh"@, count_of(tree, Trait::EvictableMesh) as int)
            &&& tells(fields, "evictableImagery"@, count_of(tree, Trait::EvictableImagery) as int)
        }),
{
    let fields = tree_fields(tree);
    lemma_tells(fields, 0, (tree.tiles.order.len()) as nat);
    lemma_tells(fields, 1, (count_of(tree, Trait::HasMesh)) as nat);
    lemma_tells(fields, 2, (count_of(tree, Trait::HasImagery)) as nat);
    lemma_tells(fields, 3, (count_of(tree, Trait::MeshInbound)) as nat);
    lemma_tells(fields, 4, (count_of(tree, Trait::ImageryInbound)) as nat);
    lemma_tells(fields, 5, (count_of(tree, Trait::MeshFailed)) as nat);
    lemma_tells(fields, 6, (count_of(tree, Trait::ImageryFailed)) as nat);
    lemma_tells(fields, 7, (count_of(tree, Trait::Split)) as nat);
    lemma_tells(fields, 8, (count_of(tree, Trait::Protected)) as nat);
    lemma_tells(fields, 9, (count_of(tree, Trait::EvictableMesh)) as nat);
    lemma_tells(fields, 10, (count_of(tree, Trait::EvictableImagery)) as nat);
}

/// What is told of the arenas is how much of each is taken, and how much there is.
pub proof fn lemma_arena_told(arena: &Arena)
    requires
        arena.slots@.len() <= arena.slots.slots(),
        arena.layers@.len() <= arena.layers.slots(),
    ensures
        ({
            let fields = arena_fields(arena);
            &&& tells(fields, "meshUsed"@, (arena.slots.slots() - arena.slots@.len()) as int)
            &&& tells(fields, "meshCap"@, arena.slots.slots() as int)
            &&& tells(fields, "layerUsed"@, (arena.layers.slots() - arena.layers@.len()) as int)
            &&& tells(fields, "layerCap"@, arena.layers.slots() as int)
        }),
{
    let fields = arena_fields(arena);
    lemma_tells(fields, 0, ((arena.slots.slots() - arena.slots@.len())) as nat);
    lemma_tells(fields, 1, (arena.slots.slots()) as nat);
    lemma_tells(fields, 2, ((arena.layers.slots() - arena.layers@.len())) as nat);
    lemma_tells(fields, 3, (arena.layers.slots()) as nat);
}

/// What is told of the uploads is what went up, what may, what waits, and what was given up
/// for it.
pub proof fn lemma_uploads_told(tree: TreeView, limit: nat, spent: nat)
    ensures
        ({
            let fields = upload_fields(tree, limit, spent);
            &&& tells(fields, "bytes"@, tree.uploaded_bytes as int)
            &&& tells(fields, "budget"@, limit as int)
            &&& tells(fields, "spent"@, spent as int)
            &&& tells(fields, "deferred"@, tree.deferred_uploads as int)
            &&& tells(fields, "stalls"@, tree.upload_stalls as int)
            &&& tells(fields, "dropped"@, tree.dropped_uploads as int)
            &&& tells(fields, "meshEvictions"@, tree.mesh_evictions as int)
            &&& tells(fields, "imageryEvictions"@, tree.imagery_evictions as int)
            &&& tells(fields, "retiredMeshes"@, tree.retired_meshes as int)
            &&& tells(fields, "retiredImagery"@, tree.retired_imagery as int)
        }),
{
    let fields = upload_fields(tree, limit, spent);
    lemma_tells(fields, 0, (tree.uploaded_bytes) as nat);
    lemma_tells(fields, 1, (limit) as nat);
    lemma_tells(fields, 2, (spent) as nat);
    lemma_tells(fields, 3, (tree.deferred_uploads) as nat);
    lemma_tells(fields, 4, (tree.upload_stalls) as nat);
    lemma_tells(fields, 5, (tree.dropped_uploads) as nat);
    lemma_tells(fields, 6, (tree.mesh_evictions) as nat);
    lemma_tells(fields, 7, (tree.imagery_evictions) as nat);
    lemma_tells(fields, 8, (tree.retired_meshes) as nat);
    lemma_tells(fields, 9, (tree.retired_imagery) as nat);
}

/// What is told of the workers is what they have in hand, by kinds, what was sent to them, and
/// what came back.
pub proof fn lemma_pool_told(pool: PoolView)
    ensures
        ({
            let fields = pool_fields(pool);
            &&& tells(fields, "active"@, pool.active.len() as int)
            &&& tells(fields, "queueDepth"@, pool.queue_depth as int)
            &&& tells(fields, "sent"@, pool.sent_last as int)
            &&& tells(fields, "dropped"@, pool.dropped as int)
            &&& tells(fields, "dispatched"@, pool.dispatched as int)
            &&& tells(fields, "inbox"@, pool.inbox.len() as int)
            &&& tells(fields, "cancelled"@, pool.cancelled as int)
            &&& tells(fields, "maxInFlight"@, pool.max_in_flight as int)
            &&& tells(fields, "terrain"@, pool.active.filter(|j: ActiveJob| j.kind == JobKind::Terrain).len() as int)
            &&& tells(fields, "imagery"@, pool.active.filter(|j: ActiveJob| j.kind == JobKind::Imagery).len() as int)
        }),
{
    let fields = pool_fields(pool);
    lemma_tells(fields, 0, (pool.active.len()) as nat);
    lemma_tells(fields, 4, (pool.queue_depth) as nat);
    lemma_tells(fields, 5, (pool.sent_last) as nat);
    lemma_tells(fields, 6, (pool.dropped) as nat);
    lemma_tells(fields, 7, (pool.dispatched) as nat);
    lemma_tells(fields, 8, (pool.inbox.len()) as nat);
    lemma_tells(fields, 9, (pool.cancelled) as nat);
    lemma_tells(fields, 10, (pool.max_in_flight) as nat);
    lemma_tells(fields, 1, (pool.active.filter(|j: ActiveJob| j.kind == JobKind::Terrain).len()) as nat);
    lemma_tells(fields, 2, (pool.active.filter(|j: ActiveJob| j.kind == JobKind::Imagery).len()) as nat);
}

/// What a plot is told is what the frame draws, what is on the device, and what is on its way.
pub proof fn lemma_plot_told(f: FrameFacts, tree: TreeView, arena: &Arena, pool: PoolView, ground: Seq<char>)
    requires
        arena.slots@.len() <= arena.slots.slots(),
        arena.layers@.len() <= arena.layers.slots(),
    ensures
        ({
            let fields = stats_fields(f, tree, arena, pool, ground);
            &&& tells(fields, "drawn"@, tree.drawn.len() as int)
            &&& tells(fields, "maxLevel"@, tree.max_level_drawn as int)
            &&& tells(fields, "meshes"@, count_of(tree, Trait::HasMesh) as int)
            &&& tells(fields, "imagery"@, count_of(tree, Trait::HasImagery) as int)
            &&& tells(fields, "meshSlots"@, (arena.slots.slots() - arena.slots@.len()) as int)
            &&& tells(fields, "meshSlotCap"@, arena.slots.slots() as int)
            &&& tells(fields, "imageryLayers"@, (arena.layers.slots() - arena.layers@.len()) as int)
            &&& tells(fields, "imageryLayerCap"@, arena.layers.slots() as int)
            &&& tells(fields, "inFlight"@, pool.active.len() as int)
            &&& tells(fields, "dispatched"@, pool.dispatched as int)
            &&& tells(fields, "dropped"@, pool.dropped as int)
            &&& tells(fields, "uploadedBytes"@, tree.uploaded_bytes as int)
            &&& tells(fields, "deferredUploads"@, tree.deferred_uploads as int)
            &&& tells(fields, "width"@, f.width as int)
            &&& tells(fields, "height"@, f.height as int)
        }),
{
    let fields = stats_fields(f, tree, arena, pool, ground);
    lemma_tells(fields, 2, (tree.drawn.len()) as nat);
    lemma_tells(fields, 3, (tree.max_level_drawn) as nat);
    lemma_tells(fields, 4, (count_of(tree, Trait::HasMesh)) as nat);
    lemma_tells(fields, 5, (count_of(tree, Trait::HasImagery)) as nat);
    lemma_tells(fields, 6, ((arena.slots.slots() - arena.slots@.len())) as nat);
    lemma_tells(fields, 7, (arena.slots.slots()) as nat);
    lemma_tells(fields, 8, ((arena.layers.slots() - arena.layers@.len())) as nat);
    lemma_tells(fields, 9, (arena.layers.slots()) as nat);
    lemma_tells(fields, 10, (pool.active.len()) as nat);
    lemma_tells(fields, 11, (pool.dispatched) as nat);
    lemma_tells(fields, 12, (pool.dropped) as nat);
    lemma_tells(fields, 13, (tree.uploaded_bytes) as nat);
    lemma_tells(fields, 14, (tree.deferred_uploads) as nat);
    lemma_tells(fields, 16, (f.width) as nat);
    lemma_tells(fields, 17, (f.height) as nat);
}

/// What is told of a level is which it is, and how much of it is there and on its way.
pub proof fn lemma_level_told(level: (u8, LevelStat))
    ensures
        ({
            let fields = level_fields(level);
            &&& tells(fields, "z"@, level.0 as int)
            &&& tells(fields, "meshes"@, level.1.meshes as int)
            &&& tells(fields, "imagery"@, level.1.imagery as int)
            &&& tells(fields, "drawn"@, level.1.drawn as int)
            &&& tells(fields, "pending"@, level.1.pending as int)
        }),
{
    let fields = level_fields(level);
    lemma_tells(fields, 0, (level.0) as nat);
    lemma_tells(fields, 1, (level.1.meshes) as nat);
    lemma_tells(fields, 2, (level.1.imagery) as nat);
    lemma_tells(fields, 3, (level.1.drawn) as nat);
    lemma_tells(fields, 4, (level.1.pending) as nat);
}

/// Every level and every worker has an object of its own, in order.
pub proof fn lemma_each_told(levels: Seq<(u8, LevelStat)>, pool: PoolView, i: int)
    ensures
        level_items(levels).len() == levels.len(),
        0 <= i < levels.len() ==> level_items(levels)[i] == json_object(level_fields(levels[i])),
        worker_items(pool).len() == pool.ready.len(),
        0 <= i < pool.ready.len() ==> exists|fields: Seq<(Seq<char>, Seq<char>)>| #[trigger]
            json_object(fields) == worker_items(pool)[i] && fields.len() == 2 && fields[0] == (
                "ready"@,
                truth(pool.ready[i]),
            ) && tells(fields, "inFlight"@, pool.in_flight[i] as int),
{
    if 0 <= i < pool.ready.len() {
        let fields = seq![
            ("ready"@, truth(pool.ready[i])),
            ("inFlight"@, decimal(pool.in_flight[i] as nat)),
        ];
        lemma_tells(fields, 1, pool.in_flight[i] as nat);
        assert(json_object(fields) == worker_items(pool)[i]);
    }
}

/// Every kind of which a job came back is told of once, with its own counts and times, and no
/// other is.
pub proof fn lemma_loads_told(loads: Seq<LoadStat>, times: Seq<LoadTimes>, n: nat, k: int)
    requires
        n <= 4,
        0 <= k < n,
    ensures
        ({
            let kind = if k == 0 {
                JobKind::Terrain
            } else if k == 1 {
                JobKind::Imagery
            } else if k == 2 {
                JobKind::Model
            } else {
                JobKind::Icon
            };
            &&& loads[k].n > 0 ==> load_items(loads, times, n).contains(
                json_object(load_fields(kind, loads[k], times[k])),
            )
            &&& load_items(loads, times, n).len() <= n
            &&& (forall|j: int| 0 <= j < n ==> (#[trigger] loads[j]).n > 0) ==> load_items(
                loads,
                times,
                n,
            ).len() == n
            &&& (forall|j: int| 0 <= j < n ==> (#[trigger] loads[j]).n == 0) ==> load_items(
                loads,
                times,
                n,
            ).len() == 0
        }),
    decreases n,
{
    let m = (n - 1) as nat;
    let before = load_items(loads, times, m);
    let after = load_items(loads, times, n);
    if m > 0 {
        lemma_loads_told(
            loads,
            times,
            m,
            if k < m {
                k
            } else {
                0
            },
        );
    }
    assert(loads[m as int].n > 0 || loads[m as int].n == 0);
    if loads[k].n > 0 {
        if k == m {
            assert(after[after.len() - 1] == json_object(
                load_fields(numbered_kind(k), loads[k], times[k]),
            ));
        } else {
            let item = json_object(load_fields(numbered_kind(k), loads[k], times[k]));
            assert(before.contains(item));
            let j = choose|j: int| 0 <= j < before.len() && before[j] == item;
            assert(after[j] == item);
        }
    }
}

} // verus!
