//! The pool of background workers: what is asked of them, in which order it goes
//! out, and what comes back.
use crate::text::same_text;
use crate::tiling::{TileKey, UvWindow};
use std::collections::HashSet;
use vstd::prelude::*;

verus! {

broadcast use vstd::std_specs::hash::group_hash_axioms;

/// What a job fetches.
#[derive(Copy, Clone, PartialEq, Eq, Hash, Debug, Structural)]
pub enum JobKind {
    Terrain,
    Imagery,
    Model,
    Icon,
}

/// The word that stands for a kind in messages and reports.
pub open spec fn kind_word(kind: JobKind) -> Seq<char> {
    match kind {
        JobKind::Terrain => "terrain"@,
        JobKind::Imagery => "imagery"@,
        JobKind::Model => "model"@,
        JobKind::Icon => "icon"@,
    }
}

/// The number of a kind.
pub open spec fn kind_number(kind: JobKind) -> nat {
    match kind {
        JobKind::Terrain => 0,
        JobKind::Imagery => 1,
        JobKind::Model => 2,
        JobKind::Icon => 3,
    }
}

/// Whether jobs of this kind fetch tiles, which a camera jump makes stale.
pub open spec fn fetches_tiles(kind: JobKind) -> bool {
    kind == JobKind::Terrain || kind == JobKind::Imagery
}

/// The four kinds, in the order of their numbers.
pub fn job_kinds() -> (kinds: [JobKind; 4])
    ensures
        forall|i: int| 0 <= i < 4 ==> kind_number(#[trigger] kinds@[i]) == i,
{
    [JobKind::Terrain, JobKind::Imagery, JobKind::Model, JobKind::Icon]
}

impl JobKind {
    /// The word that stands for this kind in messages.
    pub fn tag(&self) -> (word: &'static str)
        ensures
            word@ == kind_word(*self),
    {
        match self {
            JobKind::Terrain => "terrain",
            JobKind::Imagery => "imagery",
            JobKind::Model => "model",
            JobKind::Icon => "icon",
        }
    }

    /// The field of an answer that holds what was fetched.
    pub fn payload_name(&self) -> (word: &'static str)
        ensures
            word@ == payload_word(*self),
    {
        match self {
            JobKind::Imagery => "pixels",
            _ => "verts",
        }
    }

    /// The word that stands for this kind in reports.
    pub fn label(&self) -> (word: &'static str)
        ensures
            word@ == kind_word(*self),
    {
        self.tag()
    }

    pub fn index(&self) -> (number: usize)
        ensures
            number == kind_number(*self),
            number < 4,
    {
        match self {
            JobKind::Terrain => 0,
            JobKind::Imagery => 1,
            JobKind::Model => 2,
            JobKind::Icon => 3,
        }
    }
}

/// The field of an answer that holds what was fetched for a job of this kind.
pub open spec fn payload_word(kind: JobKind) -> Seq<char> {
    if kind == JobKind::Imagery {
        "pixels"@
    } else {
        "verts"@
    }
}

/// No two kinds share a word, and none has the word by which a worker says that
/// it is ready.
pub proof fn lemma_kind_words_differ(a: JobKind, b: JobKind)
    ensures
        kind_word(a) == kind_word(b) <==> a == b,
        kind_word(a) != "ready"@,
{
    reveal_strlit("terrain");
    reveal_strlit("imagery");
    reveal_strlit("model");
    reveal_strlit("icon");
    reveal_strlit("ready");
    let t = "terrain"@;
    let i = "imagery"@;
    let m = "model"@;
    let r = "ready"@;
    assert(t.len() == 7 && i.len() == 7 && m.len() == 5 && "icon"@.len() == 4 && r.len() == 5);
    assert(t[0] == 't' && i[0] == 'i' && m[0] == 'm' && r[0] == 'r');
    assert(a != b ==> kind_word(a) != kind_word(b));
}

/// The kind that a word stands for.
pub fn kind_of_word(word: &str) -> (kind: Option<JobKind>)
    ensures
        kind matches Some(k) ==> kind_word(k) == word@,
        kind is None ==> forall|k: JobKind| kind_word(k) != word@,
        forall|k: JobKind| kind_word(k) == word@ ==> kind == Some(k),
{
    proof {
        assert forall|k: JobKind, l: JobKind| kind_word(k) == kind_word(l) implies k == l by {
            lemma_kind_words_differ(k, l);
        }
    }
    if same_text(word, "terrain") {
        assert(kind_word(JobKind::Terrain) == word@);
        Some(JobKind::Terrain)
    } else if same_text(word, "imagery") {
        assert(kind_word(JobKind::Imagery) == word@);
        Some(JobKind::Imagery)
    } else if same_text(word, "model") {
        assert(kind_word(JobKind::Model) == word@);
        Some(JobKind::Model)
    } else if same_text(word, "icon") {
        assert(kind_word(JobKind::Icon) == word@);
        Some(JobKind::Icon)
    } else {
        None
    }
}

/// What a worker's message is about.
#[derive(Copy, Clone, PartialEq, Eq, Debug, Structural)]
pub enum Topic {
    Ready,
    Reply(JobKind),
    Unknown,
}

/// What a message with this word is about.
pub open spec fn topic_of(word: Seq<char>) -> Topic {
    if word == "ready"@ {
        Topic::Ready
    } else if exists|k: JobKind| kind_word(k) == word {
        Topic::Reply(choose|k: JobKind| kind_word(k) == word)
    } else {
        Topic::Unknown
    }
}

/// What a worker's message with this word is about.
pub fn message_topic(word: &str) -> (topic: Topic)
    ensures
        topic == topic_of(word@),
{
    if same_text(word, "ready") {
        return Topic::Ready;
    }
    match kind_of_word(word) {
        Some(k) => {
            assert(kind_word(k) == word@);
            Topic::Reply(k)
        },
        None => Topic::Unknown,
    }
}

/// The number of a job: one for each kind and tile.
pub open spec fn job_number(kind: JobKind, key: TileKey) -> int {
    kind_number(kind) * 0x100_0000_0000_0000_0000 + key.z * 0x1_0000_0000_0000_0000 + key.x
        * 0x1_0000_0000 + key.y
}

/// Jobs of different kinds or tiles have different numbers.
pub proof fn lemma_job_numbers_differ(k1: JobKind, t1: TileKey, k2: JobKind, t2: TileKey)
    ensures
        job_number(k1, t1) == job_number(k2, t2) <==> k1 == k2 && t1 == t2,
        job_number(k1, t1) <= u128::MAX,
{
}

fn job_id(kind: JobKind, key: TileKey) -> (id: u128)
    ensures
        id == job_number(kind, key),
{
    kind.index() as u128 * 0x100_0000_0000_0000_0000 + key.z as u128 * 0x1_0000_0000_0000_0000
        + key.x as u128 * 0x1_0000_0000 + key.y as u128
}

/// A position, each coordinate as the bits of a double.
#[derive(Copy, Clone, PartialEq, Eq, Debug, Structural)]
pub struct Point {
    pub x: u64,
    pub y: u64,
    pub z: u64,
}

/// What came back of a job. A job that failed has no payload.
pub struct Incoming {
    pub kind: JobKind,
    pub key: TileKey,
    pub cancelled: bool,
    /// The middle of a terrain mesh.
    pub center: Point,
    /// The lowest and the highest ground of a terrain mesh, as the bits of floats.
    pub min_height: u32,
    pub max_height: u32,
    pub payload: Option<Vec<u8>>,
}

impl Incoming {
    /// The size of the payload.
    pub open spec fn size(&self) -> nat {
        match self.payload {
            Some(bytes) => bytes@.len(),
            None => 0,
        }
    }

    /// The size of the payload.
    pub fn bytes(&self) -> (bytes: usize)
        ensures
            bytes == self.size(),
    {
        match &self.payload {
            Some(bytes) => bytes.len(),
            None => 0,
        }
    }
}

/// A job that waits to be sent. The lowest rank goes out first.
pub struct Request {
    pub kind: JobKind,
    pub key: TileKey,
    pub url: String,
    pub extra_url: String,
    pub uv: UvWindow,
    pub rank: u64,
}

pub struct RequestView {
    pub kind: JobKind,
    pub key: TileKey,
    pub url: Seq<char>,
    pub extra_url: Seq<char>,
    pub uv: UvWindow,
    pub rank: u64,
}

impl View for Request {
    type V = RequestView;

    open spec fn view(&self) -> RequestView {
        RequestView {
            kind: self.kind,
            key: self.key,
            url: self.url@,
            extra_url: self.extra_url@,
            uv: self.uv,
            rank: self.rank,
        }
    }
}

/// The rank of models and icons, before every tile.
pub const ASSET_RANK: u64 = 0;

/// The rank of the tiles around the point looked at, before every tile that is
/// merely seen: coarse ones first.
pub open spec fn focus_rank(z: u8) -> u64 {
    (0x1_0000_0000 + z) as u64
}

/// The rank of a tile that is seen at a distance, given as the bits of a positive
/// float: near ones first.
pub open spec fn seen_rank(distance: u32) -> u64 {
    (0x2_0000_0000 + distance) as u64
}

/// The rank of the tiles around the point looked at.
pub fn rank_of_focus(z: u8) -> (rank: u64)
    ensures
        rank == focus_rank(z),
{
    0x1_0000_0000 + z as u64
}

/// The rank of a tile that is seen at a distance.
pub fn rank_of_distance(distance: u32) -> (rank: u64)
    ensures
        rank == seen_rank(distance),
{
    0x2_0000_0000 + distance as u64
}

/// Assets go out before the focus, the focus before what is seen, and within each
/// the coarse and the near before the fine and the far.
pub proof fn lemma_ranks_ordered(z1: u8, z2: u8, d1: u32, d2: u32)
    ensures
        ASSET_RANK < focus_rank(z1) < seen_rank(d1),
        focus_rank(z1) < focus_rank(z2) <==> z1 < z2,
        seen_rank(d1) < seen_rank(d2) <==> d1 < d2,
{
}

/// A job that a worker has in hand, and the time at which it was sent.
#[derive(Copy, Clone, PartialEq, Eq, Debug, Structural)]
pub struct ActiveJob {
    pub kind: JobKind,
    pub key: TileKey,
    pub started: u64,
}

/// How many workers so many processor cores are given: all but one, though two at
/// least and eight at most.
pub fn worker_count(cores: usize) -> (count: usize)
    ensures
        count == (if cores < 3 {
            2
        } else if cores > 9 {
            8
        } else {
            cores - 1
        }),
{
    if cores < 3 {
        2
    } else if cores > 9 {
        8
    } else {
        cores - 1
    }
}

/// How many jobs of one kind came back, failed, and were served from the disk.
#[derive(Copy, Clone, PartialEq, Eq, Debug, Structural)]
pub struct LoadStat {
    pub n: u32,
    pub failed: u32,
    pub hits: u32,
}

/// One more, as far as the type counts.
pub open spec fn one_more(n: u32) -> u32 {
    if n < u32::MAX {
        (n + 1) as u32
    } else {
        n
    }
}

/// One more, as far as the type counts.
pub fn count_one(n: u32) -> (more: u32)
    ensures
        more == one_more(n),
{
    n.saturating_add(1)
}

/// One more, as far as the type counts.
pub open spec fn one_more_long(n: u64) -> u64 {
    if n < u64::MAX {
        (n + 1) as u64
    } else {
        n
    }
}

/// One more, as far as the type counts.
pub fn count_one_long(n: u64) -> (more: u64)
    ensures
        more == one_more_long(n),
{
    n.saturating_add(1)
}

/// The count after one more job came back.
pub open spec fn load_recorded(stat: LoadStat, hit: bool, ok: bool) -> LoadStat {
    LoadStat {
        n: one_more(stat.n),
        failed: if ok {
            stat.failed
        } else {
            one_more(stat.failed)
        },
        hits: if hit {
            one_more(stat.hits)
        } else {
            stat.hits
        },
    }
}

impl LoadStat {
    /// Counts a job that came back.
    pub fn record(&mut self, hit: bool, ok: bool)
        ensures
            *final(self) == load_recorded(*old(self), hit, ok),
    {
        self.n = count_one(self.n);
        if !ok {
            self.failed = count_one(self.failed);
        }
        if hit {
            self.hits = count_one(self.hits);
        }
    }
}

/// The workers, what they have in hand, and what waits for them.
pub struct WorkerPool {
    pub ready: Vec<bool>,
    pub in_flight: Vec<u32>,
    pub active: Vec<ActiveJob>,
    pub loads: Vec<LoadStat>,
    pub inbox: Vec<Incoming>,
    pub queue: Vec<Request>,
    pub queued: HashSet<u128>,
    pub max_in_flight: u32,
    pub epoch: u32,
    pub dispatched: u32,
    pub dropped: u32,
    pub queue_depth: u32,
    pub sent_last: u32,
    pub cancelled: u32,
}

#[verifier::ext_equal]
pub struct PoolView {
    pub ready: Seq<bool>,
    pub in_flight: Seq<u32>,
    pub active: Seq<ActiveJob>,
    pub loads: Seq<LoadStat>,
    pub inbox: Seq<Incoming>,
    pub queue: Seq<RequestView>,
    pub max_in_flight: u32,
    pub epoch: u32,
    pub dispatched: u32,
    pub dropped: u32,
    pub queue_depth: u32,
    pub sent_last: u32,
    pub cancelled: u32,
}

impl View for WorkerPool {
    type V = PoolView;

    open spec fn view(&self) -> PoolView {
        PoolView {
            ready: self.ready@,
            in_flight: self.in_flight@,
            active: self.active@,
            loads: self.loads@,
            inbox: self.inbox@,
            queue: request_views(self.queue@),
            max_in_flight: self.max_in_flight,
            epoch: self.epoch,
            dispatched: self.dispatched,
            dropped: self.dropped,
            queue_depth: self.queue_depth,
            sent_last: self.sent_last,
            cancelled: self.cancelled,
        }
    }
}

pub open spec fn request_views(queue: Seq<Request>) -> Seq<RequestView> {
    queue.map_values(|r: Request| r@)
}

/// Whether a job waits in `queue`.
pub open spec fn is_queued(queue: Seq<RequestView>, kind: JobKind, key: TileKey) -> bool {
    exists|i: int|
        0 <= i < queue.len() && (#[trigger] queue[i]).kind == kind && queue[i].key == key
}

/// Whether a worker has a job in hand.
pub open spec fn is_active(active: Seq<ActiveJob>, kind: JobKind, key: TileKey) -> bool {
    exists|i: int|
        0 <= i < active.len() && (#[trigger] active[i]).kind == kind && active[i].key == key
}

/// The pool after `request` was asked for: a job that waits or is in hand already
/// is not asked for twice.
pub open spec fn requested(pool: PoolView, request: RequestView) -> PoolView {
    if is_queued(pool.queue, request.kind, request.key) || is_active(
        pool.active,
        request.kind,
        request.key,
    ) {
        pool
    } else {
        PoolView { queue: pool.queue.push(request), ..pool }
    }
}

/// Asking for a job again changes nothing.
pub proof fn lemma_requests_are_merged(pool: PoolView, a: RequestView, b: RequestView)
    requires
        a.kind == b.kind,
        a.key == b.key,
    ensures
        requested(requested(pool, a), b) == requested(pool, a),
{
    let after = requested(pool, a);
    if !is_queued(pool.queue, a.kind, a.key) && !is_active(pool.active, a.kind, a.key) {
        assert(after.queue[after.queue.len() - 1] == a);
        assert(is_queued(after.queue, b.kind, b.key));
    }
}

impl PoolView {
    /// Whether every worker is within its limit, no job waits or is in hand twice,
    /// and none does both.
    pub open spec fn wf(self) -> bool {
        &&& self.ready.len() == self.in_flight.len()
        &&& forall|w: int|
            0 <= w < self.in_flight.len() ==> #[trigger] self.in_flight[w] <= self.max_in_flight
        &&& self.loads.len() == 4
        &&& forall|i: int, j: int|
            #![trigger self.queue[i], self.queue[j]]
            0 <= i < j < self.queue.len() ==> self.queue[i].kind != self.queue[j].kind
                || self.queue[i].key != self.queue[j].key
        &&& forall|i: int, j: int|
            #![trigger self.active[i], self.active[j]]
            0 <= i < j < self.active.len() ==> self.active[i].kind != self.active[j].kind
                || self.active[i].key != self.active[j].key
        &&& forall|i: int|
            0 <= i < self.queue.len() ==> !is_active(
                self.active,
                (#[trigger] self.queue[i]).kind,
                self.queue[i].key,
            )
    }

    /// Whether worker `w` can take another job.
    pub open spec fn can_take(self, w: int) -> bool {
        0 <= w < self.ready.len() && self.ready[w] && self.in_flight[w] < self.max_in_flight
    }
}

impl WorkerPool {
    pub open spec fn wf(&self) -> bool {
        &&& self@.wf()
        &&& forall|id: u128| #[trigger]
            self.queued@.contains(id) <==> exists|i: int|
                0 <= i < self.queue@.len() && id == job_number(
                    (#[trigger] self.queue@[i]).kind,
                    self.queue@[i].key,
                )
    }

    /// A pool of `count` workers, none of them ready, of which each takes up to
    /// `max_in_flight` jobs at a time.
    pub fn new(count: usize, max_in_flight: u32) -> (pool: Self)
        ensures
            pool.wf(),
            pool@ == (PoolView {
                ready: Seq::new(count as nat, |i: int| false),
                in_flight: Seq::new(count as nat, |i: int| 0u32),
                active: Seq::empty(),
                loads: Seq::new(4, |i: int| LoadStat { n: 0, failed: 0, hits: 0 }),
                inbox: Seq::empty(),
                queue: Seq::empty(),
                max_in_flight,
                epoch: 0,
                dispatched: 0,
                dropped: 0,
                queue_depth: 0,
                sent_last: 0,
                cancelled: 0,
            }),
    {
        let mut ready: Vec<bool> = Vec::new();
        let mut in_flight: Vec<u32> = Vec::new();
        let mut i: usize = 0;
        while i < count
            invariant
                i <= count,
                ready@ == Seq::new(i as nat, |i: int| false),
                in_flight@ == Seq::new(i as nat, |i: int| 0u32),
            decreases count - i,
        {
            ready.push(false);
            in_flight.push(0);
            i = i + 1;
            assert(ready@ =~= Seq::new(i as nat, |i: int| false));
            assert(in_flight@ =~= Seq::new(i as nat, |i: int| 0u32));
        }
        let none: LoadStat = LoadStat { n: 0, failed: 0, hits: 0 };
        let pool = WorkerPool {
            ready,
            in_flight,
            active: Vec::new(),
            loads: vec![none, none, none, none],
            inbox: Vec::new(),
            queue: Vec::new(),
            queued: HashSet::new(),
            max_in_flight,
            epoch: 0,
            dispatched: 0,
            dropped: 0,
            queue_depth: 0,
            sent_last: 0,
            cancelled: 0,
        };
        assert(pool.loads@ =~= Seq::new(4, |i: int| LoadStat { n: 0, failed: 0, hits: 0 }));
        assert(pool@.queue =~= Seq::empty());
        pool
    }

    fn in_hand(&self, kind: JobKind, key: TileKey) -> (found: Option<usize>)
        ensures
            found is Some <==> is_active(self.active@, kind, key),
            found matches Some(i) ==> i < self.active@.len() && self.active@[i as int].kind == kind
                && self.active@[i as int].key == key,
    {
        let mut i: usize = 0;
        while i < self.active.len()
            invariant
                i <= self.active@.len(),
                forall|j: int|
                    0 <= j < i ==> (#[trigger] self.active@[j]).kind != kind || self.active@[j].key
                        != key,
            decreases self.active@.len() - i,
        {
            if self.active[i].kind == kind && self.active[i].key == key {
                return Some(i);
            }
            i = i + 1;
        }
        None
    }

    /// Asks for a job with a single URL.
    pub fn request(&mut self, kind: JobKind, key: TileKey, url: String, uv: UvWindow, rank: u64)
        requires
            old(self).wf(),
        ensures
            final(self).wf(),
            final(self)@ == requested(
                old(self)@,
                (RequestView { kind, key, url: url@, extra_url: Seq::empty(), uv, rank }),
            ),
    {
        self.request_with(kind, key, url, String::new(), uv, rank);
    }

    /// Asks for a job, unless it waits or is in hand already.
    pub fn request_with(
        &mut self,
        kind: JobKind,
        key: TileKey,
        url: String,
        extra_url: String,
        uv: UvWindow,
        rank: u64,
    )
        requires
            old(self).wf(),
        ensures
            final(self).wf(),
            final(self)@ == requested(
                old(self)@,
                (RequestView { kind, key, url: url@, extra_url: extra_url@, uv, rank }),
            ),
    {
        let id: u128 = job_id(kind, key);
        proof {
            self.lemma_queued_exact(kind, key);
        }
        if self.queued.contains(&id) || self.in_hand(kind, key).is_some() {
            return;
        }
        self.queued.insert(id);
        self.queue.push(Request { kind, key, url, extra_url, uv, rank });
        proof {
            let added = RequestView { kind, key, url: url@, extra_url: extra_url@, uv, rank };
            assert(self@.queue =~= old(self)@.queue.push(added));
            assert forall|other: u128| #[trigger] self.queued@.contains(other) <==> exists|i: int|
                0 <= i < self.queue@.len() && other == job_number(
                    (#[trigger] self.queue@[i]).kind,
                    self.queue@[i].key,
                ) by {
                if old(self).queued@.contains(other) {
                    let i = choose|i: int|
                        0 <= i < old(self).queue@.len() && other == job_number(
                            (#[trigger] old(self).queue@[i]).kind,
                            old(self).queue@[i].key,
                        );
                    assert(self.queue@[i] == old(self).queue@[i]);
                }
                if other == id {
                    assert(self.queue@[self.queue@.len() - 1].kind == kind);
                }
                if exists|i: int|
                    0 <= i < self.queue@.len() && other == job_number(
                        (#[trigger] self.queue@[i]).kind,
                        self.queue@[i].key,
                    ) {
                    let i = choose|i: int|
                        0 <= i < self.queue@.len() && other == job_number(
                            (#[trigger] self.queue@[i]).kind,
                            self.queue@[i].key,
                        );
                    if i < old(self).queue@.len() {
                        assert(self.queue@[i] == old(self).queue@[i]);
                    }
                }
            }
            assert forall|i: int, j: int|
                #![trigger self@.queue[i], self@.queue[j]]
                0 <= i < j < self@.queue.len() implies self@.queue[i].kind != self@.queue[j].kind
                || self@.queue[i].key != self@.queue[j].key by {
                assert(self@.queue[i] == old(self)@.queue[i]);
                if j < old(self)@.queue.len() {
                    assert(self@.queue[j] == old(self)@.queue[j]);
                }
            }
        }
    }

    proof fn lemma_queued_exact(&self, kind: JobKind, key: TileKey)
        requires
            self.wf(),
        ensures
            self.queued@.contains(job_number(kind, key) as u128) <==> is_queued(
                self@.queue,
                kind,
                key,
            ),
    {
        let id = job_number(kind, key) as u128;
        lemma_job_numbers_differ(kind, key, kind, key);
        if self.queued@.contains(id) {
            let i = choose|i: int|
                0 <= i < self.queue@.len() && id == job_number(
                    (#[trigger] self.queue@[i]).kind,
                    self.queue@[i].key,
                );
            lemma_job_numbers_differ(kind, key, self.queue@[i].kind, self.queue@[i].key);
            assert(self@.queue[i].kind == kind);
        }
        if is_queued(self@.queue, kind, key) {
            let i = choose|i: int|
                0 <= i < self@.queue.len() && (#[trigger] self@.queue[i]).kind == kind
                    && self@.queue[i].key == key;
            assert(self.queue@[i].kind == kind);
        }
    }
}

/// When a job that is in hand was sent.
pub open spec fn started_at(active: Seq<ActiveJob>, kind: JobKind, key: TileKey) -> Option<u64> {
    if is_active(active, kind, key) {
        Some(
            active[choose|i: int|
                0 <= i < active.len() && (#[trigger] active[i]).kind == kind && active[i].key
                    == key].started,
        )
    } else {
        None
    }
}

/// The jobs in hand but for one.
pub open spec fn put_down(active: Seq<ActiveJob>, kind: JobKind, key: TileKey) -> Seq<ActiveJob> {
    active.filter(|j: ActiveJob| !(j.kind == kind && j.key == key))
}

/// The pool after `worker` answered with `msg`. The count of the kind goes up
/// unless the job was cancelled or is not known to be in hand.
pub open spec fn received(
    pool: PoolView,
    worker: int,
    msg: Incoming,
    hit: bool,
    ok: bool,
) -> PoolView {
    let n = kind_number(msg.kind) as int;
    PoolView {
        in_flight: pool.in_flight.update(
            worker,
            if pool.in_flight[worker] > 0 {
                (pool.in_flight[worker] - 1) as u32
            } else {
                0
            },
        ),
        active: put_down(pool.active, msg.kind, msg.key),
        loads: if is_active(pool.active, msg.kind, msg.key) && !msg.cancelled {
            pool.loads.update(n, load_recorded(pool.loads[n], hit, ok))
        } else {
            pool.loads
        },
        inbox: pool.inbox.push(msg),
        ..pool
    }
}

/// A filter keeps the order of what it keeps, and keeps nothing else.
proof fn lemma_put_down(active: Seq<ActiveJob>, keep: spec_fn(ActiveJob) -> bool)
    ensures
        active.filter(keep).len() <= active.len(),
        forall|i: int|
            0 <= i < active.filter(keep).len() ==> keep(#[trigger] active.filter(keep)[i])
                && active.contains(active.filter(keep)[i]),
        forall|k: JobKind, t: TileKey|
            is_active(active.filter(keep), k, t) ==> is_active(active, k, t),
        (forall|i: int, j: int|
            #![trigger active[i], active[j]]
            0 <= i < j < active.len() ==> active[i].kind != active[j].kind || active[i].key
                != active[j].key) ==> (forall|i: int, j: int|
            #![trigger active.filter(keep)[i], active.filter(keep)[j]]
            0 <= i < j < active.filter(keep).len() ==> active.filter(keep)[i].kind
                != active.filter(keep)[j].kind || active.filter(keep)[i].key != active.filter(
                keep,
            )[j].key),
    decreases active.len(),
{
    reveal(Seq::filter);
    if active.len() > 0 {
        let rest = active.drop_last();
        lemma_put_down(rest, keep);
        let kept = rest.filter(keep);
        let all = active.filter(keep);
        assert forall|i: int| 0 <= i < all.len() implies keep(#[trigger] all[i])
            && active.contains(all[i]) by {
            if i < kept.len() {
                assert(rest.contains(kept[i]));
                let j = choose|j: int| 0 <= j < rest.len() && rest[j] == kept[i];
                assert(active[j] == all[i]);
            } else {
                assert(active[active.len() - 1] == all[i]);
            }
        }
        assert forall|k: JobKind, t: TileKey| is_active(all, k, t) implies is_active(
            active,
            k,
            t,
        ) by {
            let i = choose|i: int|
                0 <= i < all.len() && (#[trigger] all[i]).kind == k && all[i].key == t;
            assert(active.contains(all[i]));
            let j = choose|j: int| 0 <= j < active.len() && active[j] == all[i];
            assert(active[j].kind == k);
        }
        if forall|i: int, j: int|
            #![trigger active[i], active[j]]
            0 <= i < j < active.len() ==> active[i].kind != active[j].kind || active[i].key
                != active[j].key {
            assert forall|i: int, j: int|
                #![trigger rest[i], rest[j]]
                0 <= i < j < rest.len() implies rest[i].kind != rest[j].kind || rest[i].key
                != rest[j].key by {
                assert(rest[i] == active[i] && rest[j] == active[j]);
            }
            assert forall|i: int, j: int|
                #![trigger all[i], all[j]]
                0 <= i < j < all.len() implies all[i].kind != all[j].kind || all[i].key
                != all[j].key by {
                assert(all[i] == kept[i]);
                if j < kept.len() {
                    assert(all[j] == kept[j]);
                } else {
                    assert(rest.contains(kept[i]));
                    let m = choose|m: int| 0 <= m < rest.len() && rest[m] == kept[i];
                    assert(active[m] == all[i]);
                    assert(active[active.len() - 1] == all[j]);
                }
            }
        }
    }
}

impl WorkerPool {
    pub fn active_count(&self) -> (count: usize)
        ensures
            count == self@.active.len(),
    {
        self.active.len()
    }

    pub fn inbox_len(&self) -> (count: usize)
        ensures
            count == self@.inbox.len(),
    {
        self.inbox.len()
    }

    pub fn max_in_flight(&self) -> (count: u32)
        ensures
            count == self@.max_in_flight,
    {
        self.max_in_flight
    }

    /// Of each worker, whether it is ready and how many jobs it has.
    pub fn worker_load(&self) -> (load: Vec<(bool, u32)>)
        requires
            self.wf(),
        ensures
            load@ == Seq::new(
                self@.ready.len(),
                |w: int| (self@.ready[w], self@.in_flight[w]),
            ),
    {
        let mut load: Vec<(bool, u32)> = Vec::new();
        let mut w: usize = 0;
        while w < self.ready.len()
            invariant
                self.wf(),
                w <= self.ready@.len(),
                load@.len() == w,
                forall|v: int|
                    0 <= v < w ==> #[trigger] load@[v] == (self.ready@[v], self.in_flight@[v]),
            decreases self.ready@.len() - w,
        {
            load.push((self.ready[w], self.in_flight[w]));
            w = w + 1;
        }
        assert(load@ =~= Seq::new(
            self@.ready.len(),
            |w: int| (self@.ready[w], self@.in_flight[w]),
        ));
        load
    }

    /// How many jobs in hand fetch terrain, imagery, and anything else.
    pub fn active_kinds(&self) -> (counts: (usize, usize, usize))
        ensures
            counts.0 == self@.active.filter(|j: ActiveJob| j.kind == JobKind::Terrain).len(),
            counts.1 == self@.active.filter(|j: ActiveJob| j.kind == JobKind::Imagery).len(),
            counts.2 == self@.active.filter(|j: ActiveJob| !fetches_tiles(j.kind)).len(),
    {
        let mut terrain: usize = 0;
        let mut imagery: usize = 0;
        let mut other: usize = 0;
        let mut i: usize = 0;
        proof {
            reveal(Seq::filter);
        }
        while i < self.active.len()
            invariant
                i <= self.active@.len(),
                terrain + imagery + other == i,
                terrain == self.active@.take(i as int).filter(
                    |j: ActiveJob| j.kind == JobKind::Terrain,
                ).len(),
                imagery == self.active@.take(i as int).filter(
                    |j: ActiveJob| j.kind == JobKind::Imagery,
                ).len(),
                other == self.active@.take(i as int).filter(
                    |j: ActiveJob| !fetches_tiles(j.kind),
                ).len(),
            decreases self.active@.len() - i,
        {
            proof {
                reveal(Seq::filter);
                assert(self.active@.take(i + 1).drop_last() =~= self.active@.take(i as int));
            }
            match self.active[i].kind {
                JobKind::Terrain => {
                    terrain = terrain + 1;
                },
                JobKind::Imagery => {
                    imagery = imagery + 1;
                },
                JobKind::Model | JobKind::Icon => {
                    other = other + 1;
                },
            }
            i = i + 1;
        }
        assert(self.active@.take(i as int) =~= self.active@);
        (terrain, imagery, other)
    }

    pub fn load_stats(&self) -> (stats: Vec<LoadStat>)
        ensures
            stats@ == self@.loads,
    {
        let mut stats: Vec<LoadStat> = Vec::new();
        let mut i: usize = 0;
        while i < self.loads.len()
            invariant
                i <= self.loads@.len(),
                stats@ == self.loads@.take(i as int),
            decreases self.loads@.len() - i,
        {
            stats.push(self.loads[i]);
            i = i + 1;
            assert(stats@ =~= self.loads@.take(i as int));
        }
        assert(self.loads@.take(i as int) =~= self.loads@);
        stats
    }

    /// A worker said that it is ready.
    pub fn worker_ready(&mut self, worker: usize)
        requires
            old(self).wf(),
            worker < old(self)@.ready.len(),
        ensures
            final(self).wf(),
            final(self)@ == (PoolView {
                ready: old(self)@.ready.update(worker as int, true),
                ..old(self)@
            }),
    {
        self.ready.set(worker, true);
        assert(self@ =~= (PoolView {
            ready: old(self)@.ready.update(worker as int, true),
            ..old(self)@
        }));
    }

    /// A worker answered. `ok` is what it says of itself; `hit` whether the disk
    /// served it. Tells when the job was sent, if it is known to be in hand.
    pub fn receive(&mut self, worker: usize, msg: Incoming, hit: bool, ok: bool) -> (started: Option<
        u64,
    >)
        requires
            old(self).wf(),
            worker < old(self)@.ready.len(),
        ensures
            final(self).wf(),
            started == started_at(old(self)@.active, msg.kind, msg.key),
            final(self)@ == received(old(self)@, worker as int, msg, hit, ok),
    {
        let ghost before = self@;
        let kind: JobKind = msg.kind;
        let key: TileKey = msg.key;
        let cancelled: bool = msg.cancelled;
        let flight: u32 = self.in_flight[worker].saturating_sub(1);
        self.in_flight.set(worker, flight);
        let found: Option<usize> = self.in_hand(kind, key);
        let started: Option<u64> = match found {
            Some(i) => {
                proof {
                    let c = choose|c: int|
                        0 <= c < before.active.len() && (#[trigger] before.active[c]).kind == kind
                            && before.active[c].key == key;
                    assert(before.active[i as int].kind == kind);
                    assert(c == i) by {
                        if c < i {
                            assert(before.active[c].kind != before.active[i as int].kind
                                || before.active[c].key != before.active[i as int].key);
                        }
                        if i < c {
                            assert(before.active[i as int].kind != before.active[c].kind
                                || before.active[i as int].key != before.active[c].key);
                        }
                    }
                }
                Some(self.active[i].started)
            },
            None => None,
        };
        self.drop_active(kind, key);
        if found.is_some() && !cancelled {
            let n: usize = kind.index();
            let mut stat: LoadStat = self.loads[n];
            stat.record(hit, ok);
            self.loads.set(n, stat);
        }
        self.inbox.push(msg);
        proof {
            lemma_put_down(before.active, |j: ActiveJob| !(j.kind == kind && j.key == key));
            assert(self@ =~= received(before, worker as int, msg, hit, ok));
        }
        started
    }

    fn drop_active(&mut self, kind: JobKind, key: TileKey)
        ensures
            final(self)@ == (PoolView {
                active: put_down(old(self)@.active, kind, key),
                ..old(self)@
            }),
            final(self).queue == old(self).queue,
            final(self).queued == old(self).queued,
    {
        let ghost keep = |j: ActiveJob| !(j.kind == kind && j.key == key);
        let mut kept: Vec<ActiveJob> = Vec::new();
        let mut i: usize = 0;
        proof {
            reveal(Seq::filter);
        }
        while i < self.active.len()
            invariant
                i <= self.active@.len(),
                keep == (|j: ActiveJob| !(j.kind == kind && j.key == key)),
                kept@ == self.active@.take(i as int).filter(keep),
            decreases self.active@.len() - i,
        {
            proof {
                reveal(Seq::filter);
                assert(self.active@.take(i + 1).drop_last() =~= self.active@.take(i as int));
            }
            let job: ActiveJob = self.active[i];
            if !(job.kind == kind && job.key == key) {
                kept.push(job);
            }
            i = i + 1;
        }
        assert(self.active@.take(i as int) =~= self.active@);
        self.active = kept;
    }

    /// Gives up the tile jobs in hand, if there are any: tells the new epoch, before
    /// which the workers are to stop.
    pub fn cancel_stale(&mut self) -> (epoch: Option<u32>)
        requires
            old(self).wf(),
            old(self)@.active.filter(|j: ActiveJob| fetches_tiles(j.kind)).len() > 0 ==> old(
                self,
            )@.epoch < u32::MAX,
        ensures
            final(self).wf(),
            ({
                let before = old(self)@;
                let live = before.active.filter(|j: ActiveJob| fetches_tiles(j.kind)).len();
                if live == 0 {
                    epoch is None && final(self)@ == before
                } else {
                    &&& epoch == Some((before.epoch + 1) as u32)
                    &&& final(self)@ == (PoolView {
                        epoch: (before.epoch + 1) as u32,
                        active: before.active.filter(|j: ActiveJob| !fetches_tiles(j.kind)),
                        cancelled: if before.cancelled + live <= u32::MAX {
                            (before.cancelled + live) as u32
                        } else {
                            u32::MAX
                        },
                        ..before
                    })
                }
            }),
    {
        let ghost before = self@;
        let ghost stale = |j: ActiveJob| fetches_tiles(j.kind);
        let ghost keep = |j: ActiveJob| !fetches_tiles(j.kind);
        let mut kept: Vec<ActiveJob> = Vec::new();
        let mut live: u32 = 0;
        let mut i: usize = 0;
        proof {
            reveal(Seq::filter);
        }
        while i < self.active.len()
            invariant
                i <= self.active@.len(),
                stale == (|j: ActiveJob| fetches_tiles(j.kind)),
                keep == (|j: ActiveJob| !fetches_tiles(j.kind)),
                kept@ == self.active@.take(i as int).filter(keep),
                live == (if self.active@.take(i as int).filter(stale).len() <= u32::MAX {
                    self.active@.take(i as int).filter(stale).len()
                } else {
                    u32::MAX as nat
                }),
            decreases self.active@.len() - i,
        {
            proof {
                reveal(Seq::filter);
                assert(self.active@.take(i + 1).drop_last() =~= self.active@.take(i as int));
            }
            let job: ActiveJob = self.active[i];
            match job.kind {
                JobKind::Terrain | JobKind::Imagery => {
                    live = count_one(live);
                },
                JobKind::Model | JobKind::Icon => {
                    kept.push(job);
                },
            }
            i = i + 1;
        }
        assert(self.active@.take(i as int) =~= self.active@);
        if live == 0 {
            return None;
        }
        self.epoch = self.epoch + 1;
        self.active = kept;
        self.cancelled = self.cancelled.saturating_add(live);
        proof {
            lemma_put_down(before.active, keep);
        }
        Some(self.epoch)
    }

    /// Takes what came back since it was last taken.
    pub fn drain_inbox(&mut self) -> (messages: Vec<Incoming>)
        requires
            old(self).wf(),
        ensures
            final(self).wf(),
            messages@ == old(self)@.inbox,
            final(self)@ == (PoolView { inbox: Seq::empty(), ..old(self)@ }),
    {
        let mut messages: Vec<Incoming> = Vec::new();
        std::mem::swap(&mut messages, &mut self.inbox);
        messages
    }
}

/// Whether request `i` goes out before request `j`: by rank, and among equals in
/// the order in which they were asked for.
pub open spec fn goes_before(queue: Seq<RequestView>, i: int, j: int) -> bool {
    queue[i].rank < queue[j].rank || (queue[i].rank == queue[j].rank && i < j)
}

/// Whether `order` lists requests so that each goes out before all that follow it.
pub open spec fn in_order(queue: Seq<RequestView>, order: Seq<usize>) -> bool {
    forall|a: int, b: int|
        #![trigger order[a], order[b]]
        0 <= a < b < order.len() ==> goes_before(queue, order[a] as int, order[b] as int)
}

/// Whether `order` is the order in which the requests of `queue` go out: it lists
/// each of them once.
pub open spec fn send_order(queue: Seq<RequestView>, order: Seq<usize>) -> bool {
    &&& order.len() == queue.len()
    &&& in_order(queue, order)
    &&& forall|k: usize| #[trigger] order.contains(k) <==> k < queue.len()
}

/// A queue goes out in one order only.
pub proof fn lemma_send_order_unique(queue: Seq<RequestView>, a: Seq<usize>, b: Seq<usize>)
    requires
        send_order(queue, a),
        send_order(queue, b),
    ensures
        a == b,
{
    lemma_orders_agree(queue, a, b, a.len());
    assert(a =~= b);
}

proof fn lemma_orders_agree(queue: Seq<RequestView>, a: Seq<usize>, b: Seq<usize>, n: nat)
    requires
        send_order(queue, a),
        send_order(queue, b),
        n <= a.len(),
    ensures
        forall|m: int| 0 <= m < n ==> #[trigger] a[m] == b[m],
    decreases n,
{
    if n > 0 {
        let last = n - 1;
        lemma_orders_agree(queue, a, b, last as nat);
        assert(a.contains(a[last]));
        assert(b.contains(a[last]));
        let i = choose|i: int| 0 <= i < b.len() && b[i] == a[last];
        assert(i >= last) by {
            if i < last {
                assert(a[i] == b[i]);
                assert(goes_before(queue, a[i] as int, a[last] as int));
            }
        }
        assert(b.contains(b[last]));
        assert(a.contains(b[last]));
        let j = choose|j: int| 0 <= j < a.len() && a[j] == b[last];
        assert(j >= last) by {
            if j < last {
                assert(b[j] == a[j]);
                assert(goes_before(queue, b[j] as int, b[last] as int));
            }
        }
        if i > last && j > last {
            assert(goes_before(queue, b[last] as int, b[i] as int));
            assert(goes_before(queue, a[last] as int, a[j] as int));
        }
    }
}

/// The requests `lo..hi` in the order in which they go out.
fn sorted_requests(queue: &Vec<Request>, lo: usize, hi: usize) -> (order: Vec<usize>)
    requires
        lo <= hi <= queue@.len(),
    ensures
        order@.len() == hi - lo,
        in_order(request_views(queue@), order@),
        forall|k: usize| #[trigger] order@.contains(k) <==> lo <= k < hi,
    decreases hi - lo,
{
    let mut order: Vec<usize> = Vec::new();
    if hi - lo == 0 {
        return order;
    }
    if hi - lo == 1 {
        order.push(lo);
        assert(order@[0] == lo);
        assert forall|k: usize| #[trigger] order@.contains(k) <==> lo <= k < hi by {
            if lo <= k < hi {
                assert(order@[0] == k);
            }
        }
        return order;
    }
    let mid: usize = lo + (hi - lo) / 2;
    let left: Vec<usize> = sorted_requests(queue, lo, mid);
    let right: Vec<usize> = sorted_requests(queue, mid, hi);
    merge_requests(queue, &left, &right, Ghost(lo), Ghost(mid), Ghost(hi))
}

/// Merges two ordered halves.
fn merge_requests(
    queue: &Vec<Request>,
    left: &Vec<usize>,
    right: &Vec<usize>,
    Ghost(lo): Ghost<usize>,
    Ghost(mid): Ghost<usize>,
    Ghost(hi): Ghost<usize>,
) -> (order: Vec<usize>)
    requires
        lo <= mid <= hi <= queue@.len(),
        left@.len() == mid - lo,
        right@.len() == hi - mid,
        in_order(request_views(queue@), left@),
        in_order(request_views(queue@), right@),
        forall|k: usize| #[trigger] left@.contains(k) <==> lo <= k < mid,
        forall|k: usize| #[trigger] right@.contains(k) <==> mid <= k < hi,
    ensures
        order@.len() == hi - lo,
        in_order(request_views(queue@), order@),
        forall|k: usize| #[trigger] order@.contains(k) <==> lo <= k < hi,
{
    let ghost views = request_views(queue@);
    let mut order: Vec<usize> = Vec::new();
    let mut i: usize = 0;
    let mut j: usize = 0;
    assert forall|a: int| 0 <= a < left@.len() implies lo <= #[trigger] left@[a] < mid by {
        assert(left@.contains(left@[a]));
    }
    assert forall|a: int| 0 <= a < right@.len() implies mid <= #[trigger] right@[a] < hi by {
        assert(right@.contains(right@[a]));
    }
    while i < left.len() || j < right.len()
        invariant
            views == request_views(queue@),
            lo <= mid <= hi <= queue@.len(),
            left@.len() == mid - lo,
            right@.len() == hi - mid,
            i <= left@.len(),
            j <= right@.len(),
            in_order(views, left@),
            in_order(views, right@),
            in_order(views, order@),
            order@.len() == i + j,
            forall|a: int| 0 <= a < left@.len() ==> lo <= #[trigger] left@[a] < mid,
            forall|a: int| 0 <= a < right@.len() ==> mid <= #[trigger] right@[a] < hi,
            forall|a: int, b: int|
                #![trigger order@[a], left@[b]]
                0 <= a < order@.len() && i <= b < left@.len() ==> goes_before(
                    views,
                    order@[a] as int,
                    left@[b] as int,
                ),
            forall|a: int, b: int|
                #![trigger order@[a], right@[b]]
                0 <= a < order@.len() && j <= b < right@.len() ==> goes_before(
                    views,
                    order@[a] as int,
                    right@[b] as int,
                ),
            forall|a: int| 0 <= a < order@.len() ==> lo <= #[trigger] order@[a] < hi,
            forall|a: int| 0 <= a < i ==> order@.contains(#[trigger] left@[a]),
            forall|a: int| 0 <= a < j ==> order@.contains(#[trigger] right@[a]),
        decreases left@.len() - i + right@.len() - j,
    {
        let ghost before = order@;
        let take_left: bool = if i == left.len() {
            false
        } else if j == right.len() {
            true
        } else {
            queue[left[i]].rank <= queue[right[j]].rank
        };
        proof {
            if i < left@.len() && j < right@.len() {
                assert(views[left@[i as int] as int].rank == queue@[left@[i as int] as int].rank);
                assert(views[right@[j as int] as int].rank == queue@[right@[j as int] as int].rank);
            }
        }
        if take_left {
            order.push(left[i]);
            proof {
                assert forall|b: int| j <= b < right@.len() implies goes_before(
                    views,
                    left@[i as int] as int,
                    #[trigger] right@[b] as int,
                ) by {
                    if b > j {
                        assert(goes_before(views, right@[j as int] as int, right@[b] as int));
                    }
                }
            }
            i = i + 1;
        } else {
            order.push(right[j]);
            proof {
                assert forall|b: int| i <= b < left@.len() implies goes_before(
                    views,
                    right@[j as int] as int,
                    #[trigger] left@[b] as int,
                ) by {
                    if b > i {
                        assert(goes_before(views, left@[i as int] as int, left@[b] as int));
                    }
                }
            }
            j = j + 1;
        }
        proof {
            let n = before.len() as int;
            assert forall|k: usize| before.contains(k) implies order@.contains(k) by {
                let a = choose|a: int| 0 <= a < before.len() && before[a] == k;
                assert(order@[a] == k);
            }
            assert(order@[n] == order@.last());
            assert(order@.contains(order@[n]));
        }
    }
    assert forall|k: usize| #[trigger] order@.contains(k) <==> lo <= k < hi by {
        if lo <= k < mid {
            assert(left@.contains(k));
            let a = choose|a: int| 0 <= a < left@.len() && left@[a] == k;
            assert(order@.contains(left@[a]));
        }
        if mid <= k < hi {
            assert(right@.contains(k));
            let a = choose|a: int| 0 <= a < right@.len() && right@[a] == k;
            assert(order@.contains(right@[a]));
        }
    }
    order
}

/// A round of sending: the requests that go out, the order in which they do, how
/// many were tried and how many a worker took.
pub struct Dispatch {
    pub requests: Vec<Request>,
    pub order: Vec<usize>,
    pub next: usize,
    pub sent: usize,
}

impl Dispatch {
    /// The requests of this round, in the order in which they were asked for.
    pub open spec fn queue(&self) -> Seq<RequestView> {
        request_views(self.requests@)
    }

    /// The request that comes `n`-th in this round.
    pub open spec fn nth(&self, n: int) -> RequestView {
        self.requests@[self.order@[n] as int]@
    }

    /// Whether what is left of this round can be taken up by `pool`, of which
    /// nothing else was asked since the round began.
    pub open spec fn wf(&self, pool: PoolView) -> bool {
        &&& pool.queue.len() == 0
        &&& send_order(self.queue(), self.order@)
        &&& self.sent <= self.next <= self.order@.len()
        &&& forall|i: int, j: int|
            #![trigger self.nth(i), self.nth(j)]
            0 <= i < j < self.order@.len() ==> self.nth(i).kind != self.nth(j).kind || self.nth(
                i,
            ).key != self.nth(j).key
        &&& forall|i: int|
            self.next <= i < self.order@.len() ==> !is_active(
                pool.active,
                (#[trigger] self.nth(i)).kind,
                self.nth(i).key,
            )
    }

    /// The request whose turn it is.
    pub fn request(&self) -> (request: &Request)
        requires
            send_order(self.queue(), self.order@),
            self.next < self.order@.len(),
        ensures
            request@ == self.nth(self.next as int),
            request@ == self.queue()[self.order@[self.next as int] as int],
    {
        assert(self.order@.contains(self.order@[self.next as int]));
        &self.requests[self.order[self.next]]
    }
}

/// The pool after a worker took the request whose turn it is, at time `now`.
pub open spec fn sent(pool: PoolView, request: RequestView, worker: int, now: u64) -> PoolView {
    PoolView {
        in_flight: pool.in_flight.update(worker, (pool.in_flight[worker] + 1) as u32),
        active: pool.active.push(
            ActiveJob { kind: request.kind, key: request.key, started: now },
        ),
        dispatched: one_more(pool.dispatched),
        ..pool
    }
}

impl WorkerPool {
    /// The least busy of the workers that can take a job, the first among equals.
    pub fn pick_worker(&self) -> (worker: Option<usize>)
        requires
            self.wf(),
        ensures
            worker is None <==> forall|w: int| !self@.can_take(w),
            worker is None ==> forall|w: int|
                #![trigger self@.ready[w]]
                0 <= w < self@.ready.len() && self@.ready[w] ==> self@.in_flight[w]
                    >= self@.max_in_flight,
            worker matches Some(b) ==> b < self@.ready.len() && self@.ready[b as int]
                && self@.in_flight[b as int] < self@.max_in_flight,
            worker matches Some(b) ==> {
                &&& self@.can_take(b as int)
                &&& forall|w: int| #[trigger]
                    self@.can_take(w) ==> self@.in_flight[b as int] <= self@.in_flight[w]
                &&& forall|w: int|
                    #![trigger self@.can_take(w)]
                    self@.can_take(w) && w < b ==> self@.in_flight[b as int] < self@.in_flight[w]
            },
    {
        let mut best: Option<usize> = None;
        let mut w: usize = 0;
        while w < self.ready.len()
            invariant
                self.wf(),
                w <= self.ready@.len(),
                best is None ==> forall|v: int| v < w ==> !#[trigger] self@.can_take(v),
                best matches Some(b) ==> {
                    &&& b < w
                    &&& self@.can_take(b as int)
                    &&& forall|v: int|
                        #![trigger self@.can_take(v)]
                        self@.can_take(v) && v < w ==> self@.in_flight[b as int]
                            <= self@.in_flight[v]
                    &&& forall|v: int|
                        #![trigger self@.can_take(v)]
                        self@.can_take(v) && v < b ==> self@.in_flight[b as int]
                            < self@.in_flight[v]
                },
            decreases self.ready@.len() - w,
        {
            if self.ready[w] && self.in_flight[w] < self.max_in_flight {
                assert(self@.can_take(w as int));
                match best {
                    Some(b) => {
                        if self.in_flight[w] < self.in_flight[b] {
                            best = Some(w);
                        }
                    },
                    None => {
                        best = Some(w);
                    },
                }
            } else {
                assert(!self@.can_take(w as int));
            }
            w = w + 1;
        }
        proof {
            if best is None {
                assert forall|v: int|
                    #![trigger self@.ready[v]]
                    0 <= v < self@.ready.len() && self@.ready[v] implies self@.in_flight[v]
                    >= self@.max_in_flight by {
                    assert(!self@.can_take(v));
                }
            }
        }
        best
    }

    /// Starts a round of sending: takes what waits, and puts it in order.
    pub fn dispatch(&mut self) -> (round: Dispatch)
        requires
            old(self).wf(),
        ensures
            final(self).wf(),
            final(self)@ == (PoolView {
                queue: Seq::empty(),
                queue_depth: old(self)@.queue.len() as u32,
                ..old(self)@
            }),
            round.wf(final(self)@),
            round.queue() == old(self)@.queue,
            round.next == 0,
            round.sent == 0,
    {
        let ghost before = self@;
        self.queue_depth = self.queue.len() as u32;
        let order: Vec<usize> = sorted_requests(&self.queue, 0, self.queue.len());
        let mut requests: Vec<Request> = Vec::new();
        std::mem::swap(&mut requests, &mut self.queue);
        self.queued = HashSet::new();
        assert(self@.queue =~= Seq::empty());
        let round = Dispatch { requests, order, next: 0, sent: 0 };
        proof {
            assert(round.queue() == before.queue);
            assert forall|i: int| 0 <= i < order@.len() implies 0 <= #[trigger] order@[i]
                < before.queue.len() && round.nth(i) == before.queue[order@[i] as int] by {
                assert(order@.contains(order@[i]));
            }
            assert forall|i: int, j: int|
                #![trigger round.nth(i), round.nth(j)]
                0 <= i < j < order@.len() implies round.nth(i).kind != round.nth(j).kind
                || round.nth(i).key != round.nth(j).key by {
                let a = order@[i] as int;
                let b = order@[j] as int;
                assert(goes_before(before.queue, a, b));
                assert(before.queue[a].kind != before.queue[b].kind || before.queue[a].key
                    != before.queue[b].key);
            }
        }
        round
    }

    /// The worker that the next request of the round goes to: none when the round
    /// is over or no worker can take a job.
    pub fn next_to_send(&self, round: &Dispatch) -> (worker: Option<usize>)
        requires
            self.wf(),
            round.wf(self@),
        ensures
            worker is Some <==> round.next < round.order@.len() && exists|w: int| self@.can_take(w),
            worker matches Some(b) ==> {
                &&& self@.can_take(b as int)
                &&& forall|w: int| #[trigger]
                    self@.can_take(w) ==> self@.in_flight[b as int] <= self@.in_flight[w]
                &&& forall|w: int|
                    #![trigger self@.can_take(w)]
                    self@.can_take(w) && w < b ==> self@.in_flight[b as int] < self@.in_flight[w]
            },
    {
        if round.next >= round.order.len() {
            return None;
        }
        self.pick_worker()
    }

    /// The next request of the round was posted to a worker at time `now`, which
    /// may have refused it.
    pub fn posted(&mut self, round: &mut Dispatch, worker: usize, accepted: bool, now: u64)
        requires
            old(self).wf(),
            old(round).wf(old(self)@),
            old(round).next < old(round).order@.len(),
            old(self)@.can_take(worker as int),
        ensures
            final(self).wf(),
            final(round).wf(final(self)@),
            final(round).requests == old(round).requests,
            final(round).order == old(round).order,
            final(round).next == old(round).next + 1,
            final(round).sent == old(round).sent + (if accepted {
                1int
            } else {
                0
            }),
            final(self)@ == (if accepted {
                sent(old(self)@, old(round).nth(old(round).next as int), worker as int, now)
            } else {
                old(self)@
            }),
    {
        let ghost before = self@;
        let ghost turn = round.nth(round.next as int);
        let ghost start = *round;
        assert(round.next < round.order.len());
        if accepted {
            let (kind, key) = {
                let request: &Request = round.request();
                (request.kind, request.key)
            };
            self.in_flight.set(worker, self.in_flight[worker] + 1);
            self.active.push(ActiveJob { kind, key, started: now });
            self.dispatched = count_one(self.dispatched);
            round.sent = round.sent + 1;
            assert(!is_active(before.active, turn.kind, turn.key));
            assert(self@ =~= sent(before, turn, worker as int, now));
        }
        round.next = round.next + 1;
        proof {
            assert forall|i: int| start.nth(i) == #[trigger] round.nth(i) by {}
            if accepted {
                assert forall|k: JobKind, t: TileKey| #[trigger]
                    is_active(self@.active, k, t) implies is_active(before.active, k, t) || (k
                    == turn.kind && t == turn.key) by {
                    let i = choose|i: int|
                        0 <= i < self@.active.len() && (#[trigger] self@.active[i]).kind == k
                            && self@.active[i].key == t;
                    if i < before.active.len() {
                        assert(before.active[i].kind == k);
                    }
                }
                assert forall|i: int, j: int|
                    #![trigger self@.active[i], self@.active[j]]
                    0 <= i < j < self@.active.len() implies self@.active[i].kind
                    != self@.active[j].kind || self@.active[i].key != self@.active[j].key by {
                    assert(self@.active[i] == before.active[i]);
                    if j < before.active.len() {
                        assert(self@.active[j] == before.active[j]);
                    }
                }
            }
            assert forall|i: int| round.next <= i < round.order@.len() implies !is_active(
                self@.active,
                (#[trigger] round.nth(i)).kind,
                round.nth(i).key,
            ) by {
                assert(start.nth(start.next as int) == turn);
                assert(start.nth(i) == round.nth(i));
            }
        }
    }

    /// Ends a round of sending. What was not sent is dropped.
    pub fn end_dispatch(&mut self, round: Dispatch)
        requires
            old(self).wf(),
            round.wf(old(self)@),
        ensures
            final(self).wf(),
            final(self)@ == (PoolView {
                sent_last: round.sent as u32,
                dropped: (round.queue().len() - round.sent) as u32,
                ..old(self)@
            }),
    {
        self.sent_last = round.sent as u32;
        self.dropped = (round.requests.len() - round.sent) as u32;
    }
}

/// A job waits at the end of the queue after it was asked for, unless it waited already or a
/// worker has it in hand. Nothing else changes.
pub proof fn lemma_request_waits_last(pool: PoolView, request: RequestView)
    ensures
        ({
            let known = (exists|i: int|
                0 <= i < pool.queue.len() && (#[trigger] pool.queue[i]).kind == request.kind
                    && pool.queue[i].key == request.key) || (exists|i: int|
                0 <= i < pool.active.len() && (#[trigger] pool.active[i]).kind == request.kind
                    && pool.active[i].key == request.key);
            &&& known ==> requested(pool, request) == pool
            &&& !known ==> requested(pool, request) == (PoolView {
                queue: pool.queue + seq![request],
                ..pool
            })
        }),
{
    assert(pool.queue + seq![request] =~= pool.queue.push(request));
}

/// An answer frees its worker, and its job is in hand no more. All other jobs in hand stay,
/// and what came waits to be taken. It is counted with its kind, unless it was cancelled or
/// nobody had it in hand: as failed if it did, and as served from the disk if it was.
pub proof fn lemma_answer_frees_worker(
    pool: PoolView,
    worker: int,
    msg: Incoming,
    hit: bool,
    ok: bool,
    other: int,
    job: ActiveJob,
    kind: int,
)
    requires
        0 <= worker < pool.in_flight.len(),
        0 <= other < pool.in_flight.len(),
        pool.loads.len() == 4,
        0 <= kind < 4,
    ensures
        ({
            let after = received(pool, worker, msg, hit, ok);
            let mine = msg.kind == (if kind == 0 {
                JobKind::Terrain
            } else if kind == 1 {
                JobKind::Imagery
            } else if kind == 2 {
                JobKind::Model
            } else {
                JobKind::Icon
            });
            let counts = mine && !msg.cancelled && exists|i: int|
                0 <= i < pool.active.len() && (#[trigger] pool.active[i]).kind == msg.kind
                    && pool.active[i].key == msg.key;
            let was = pool.loads[kind];
            let now = after.loads[kind];
            &&& after.in_flight.len() == pool.in_flight.len()
            &&& other != worker ==> after.in_flight[other] == pool.in_flight[other]
            &&& pool.in_flight[worker] > 0 ==> after.in_flight[worker] == pool.in_flight[worker]
                - 1
            &&& pool.in_flight[worker] == 0 ==> after.in_flight[worker] == 0
            &&& after.active.contains(job) <==> pool.active.contains(job) && (job.kind != msg.kind
                || job.key != msg.key)
            &&& after.inbox == pool.inbox + seq![msg]
            &&& after.loads.len() == 4
            &&& !counts ==> now == was
            &&& counts ==> {
                &&& was.n < u32::MAX ==> now.n == was.n + 1
                &&& ok ==> now.failed == was.failed
                &&& !ok && was.failed < u32::MAX ==> now.failed == was.failed + 1
                &&& !hit ==> now.hits == was.hits
                &&& hit && was.hits < u32::MAX ==> now.hits == was.hits + 1
            }
            &&& after == (PoolView {
                in_flight: after.in_flight,
                active: after.active,
                inbox: after.inbox,
                loads: after.loads,
                ..pool
            })
        }),
{
    let keep = |j: ActiveJob| !(j.kind == msg.kind && j.key == msg.key);
    let after = received(pool, worker, msg, hit, ok);
    assert(pool.inbox + seq![msg] =~= pool.inbox.push(msg));
    lemma_put_down(pool.active, keep);
    if pool.active.contains(job) && keep(job) {
        let i = choose|i: int| 0 <= i < pool.active.len() && pool.active[i] == job;
        pool.active.lemma_filter_contains(keep, i);
    }
    if after.active.contains(job) {
        let i = choose|i: int| 0 <= i < after.active.len() && after.active[i] == job;
        assert(keep(after.active[i]));
    }
}

/// What is told of the start of a job is when it was sent.
pub proof fn lemma_start_is_told(active: Seq<ActiveJob>, i: int, kind: JobKind, key: TileKey)
    requires
        0 <= i < active.len(),
        forall|a: int, b: int|
            #![trigger active[a], active[b]]
            0 <= a < b < active.len() ==> active[a].kind != active[b].kind || active[a].key
                != active[b].key,
    ensures
        started_at(active, active[i].kind, active[i].key) == Some(active[i].started),
        (forall|j: int|
            0 <= j < active.len() ==> (#[trigger] active[j]).kind != kind || active[j].key != key)
            ==> started_at(active, kind, key) is None,
{
    let c = choose|c: int|
        0 <= c < active.len() && (#[trigger] active[c]).kind == active[i].kind && active[c].key
            == active[i].key;
    assert(active[i].kind == active[i].kind && active[i].key == active[i].key);
    assert(c == i) by {
        if c < i {
            assert(active[c].kind != active[i].kind || active[c].key != active[i].key);
        }
        if i < c {
            assert(active[i].kind != active[c].kind || active[i].key != active[c].key);
        }
    }
}

/// In the order in which requests go out, none has a lower rank than one before it, and those
/// of the same rank go out as they were asked for. Every request is there once.
pub proof fn lemma_lowest_rank_first(
    queue: Seq<RequestView>,
    order: Seq<usize>,
    a: int,
    b: int,
    k: usize,
)
    requires
        send_order(queue, order),
        0 <= a < b < order.len(),
        k < queue.len(),
    ensures
        queue[order[a] as int].rank <= queue[order[b] as int].rank,
        queue[order[a] as int].rank == queue[order[b] as int].rank ==> order[a] < order[b],
        order[a] < queue.len(),
        exists|i: int| 0 <= i < order.len() && #[trigger] order[i] == k,
        order.len() == queue.len(),
{
    assert(goes_before(queue, order[a] as int, order[b] as int));
    assert(order.contains(order[a]));
    assert(order.contains(k));
}

/// A job that was sent is in hand, since it was sent, and its worker has one more. No other
/// worker and no other job is touched.
pub proof fn lemma_sent_is_in_hand(
    pool: PoolView,
    request: RequestView,
    worker: int,
    now: u64,
    other: int,
)
    requires
        0 <= worker < pool.in_flight.len(),
        0 <= other < pool.in_flight.len(),
        pool.in_flight[worker] < u32::MAX,
    ensures
        ({
            let after = sent(pool, request, worker, now);
            &&& after.in_flight.len() == pool.in_flight.len()
            &&& after.in_flight[worker] == pool.in_flight[worker] + 1
            &&& other != worker ==> after.in_flight[other] == pool.in_flight[other]
            &&& after.active == pool.active + seq![
                ActiveJob { kind: request.kind, key: request.key, started: now },
            ]
            &&& pool.dispatched < u32::MAX ==> after.dispatched == pool.dispatched + 1
            &&& after == (PoolView {
                in_flight: after.in_flight,
                active: after.active,
                dispatched: after.dispatched,
                ..pool
            })
        }),
{
    let job = ActiveJob { kind: request.kind, key: request.key, started: now };
    assert(pool.active + seq![job] =~= pool.active.push(job));
}

/// What is given up as stale are the jobs for terrain and imagery. Models and icons are for
/// no one view.
pub proof fn lemma_tiles_go_stale(active: Seq<ActiveJob>, i: int)
    requires
        0 <= i < active.len(),
    ensures
        ({
            let kept = active.filter(|j: ActiveJob| !fetches_tiles(j.kind));
            let stale = active.filter(|j: ActiveJob| fetches_tiles(j.kind));
            &&& active[i].kind == JobKind::Model || active[i].kind == JobKind::Icon
                ==> kept.contains(active[i]) && !stale.contains(active[i])
            &&& active[i].kind == JobKind::Terrain || active[i].kind == JobKind::Imagery
                ==> stale.contains(active[i]) && !kept.contains(active[i])
        }),
{
    let keep = |j: ActiveJob| !fetches_tiles(j.kind);
    let gone = |j: ActiveJob| fetches_tiles(j.kind);
    let kept = active.filter(keep);
    let stale = active.filter(gone);
    lemma_put_down(active, keep);
    lemma_put_down(active, gone);
    if keep(active[i]) {
        active.lemma_filter_contains(keep, i);
    } else {
        active.lemma_filter_contains(gone, i);
    }
    if kept.contains(active[i]) {
        let k = choose|k: int| 0 <= k < kept.len() && kept[k] == active[i];
        assert(keep(kept[k]));
    }
    if stale.contains(active[i]) {
        let k = choose|k: int| 0 <= k < stale.len() && stale[k] == active[i];
        assert(gone(stale[k]));
    }
}

/// Of a round of sending, no request has a lower rank than one whose turn comes before, and
/// those of the same rank have their turns as they were asked for.
pub proof fn lemma_turns_by_rank(round: &Dispatch, pool: PoolView, a: int, b: int)
    requires
        round.wf(pool),
        0 <= a < b < round.order@.len(),
    ensures
        round.nth(a).rank <= round.nth(b).rank,
        round.nth(a).rank == round.nth(b).rank ==> round.order@[a] < round.order@[b],
        round.nth(a) == round.requests@[round.order@[a] as int]@,
        round.order@.len() == round.requests@.len(),
{
    let queue = round.queue();
    lemma_lowest_rank_first(queue, round.order@, a, b, 0);
    assert(round.order@.contains(round.order@[b]));
    assert(queue[round.order@[a] as int] == round.nth(a));
    assert(queue[round.order@[b] as int] == round.nth(b));
}

} // verus!
