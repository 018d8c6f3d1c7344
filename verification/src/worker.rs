//! What a background worker keeps track of: which fetches are still wanted, which
//! terrain it has at hand, and when its disk cache is swept.
use crate::bytes::{copy_bytes, push_bytes, push_word, read_word};
#[allow(unused_imports)]
use crate::bytes::{lemma_words_read_back, word_at, words_bytes};
#[allow(unused_imports)]
use crate::imaging::{jpeg_image, jpeg_whole, png_image, png_whole};
use crate::imaging::{
    decode_jpeg_rgba, decode_png_rgba, try_decode_jpeg_rgba, try_decode_png_rgba,
};
use crate::stream::{kind_of_word, JobKind};
#[allow(unused_imports)]
use crate::stream::{kind_word, lemma_kind_words_differ};
use crate::terrain_mesh::Heightmap;
use crate::text::same_text;
use std::collections::VecDeque;
use vstd::prelude::*;

verus! {

/// How many terrain images a worker has at hand.
pub const HEIGHT_CACHE_LIMIT: usize = 24;

/// After how many images that were put there the disk cache is swept.
pub const SWEEP_EVERY: u32 = 64;

/// A fetch that is under way, and the epoch that it is for.
#[derive(Copy, Clone, PartialEq, Eq, Debug, Structural)]
pub struct Fetch {
    pub id: u32,
    pub epoch: u32,
}

/// The fetches that are under way. What is for an epoch before the current one is
/// not wanted any more.
pub struct Fetches {
    pub epoch: u32,
    pub next_id: u32,
    pub pending: Vec<Fetch>,
}

/// The number after the last is the first.
pub open spec fn next_number(n: u32) -> u32 {
    if n == u32::MAX {
        0
    } else {
        (n + 1) as u32
    }
}

/// The fetches but for those of a number.
pub open spec fn unregistered(pending: Seq<Fetch>, id: u32) -> Seq<Fetch> {
    pending.filter(|f: Fetch| f.id != id)
}

/// The fetches for an epoch or a later one.
pub open spec fn wanted_since(pending: Seq<Fetch>, epoch: u32) -> Seq<Fetch> {
    pending.filter(|f: Fetch| f.epoch >= epoch)
}

/// The fetches for an epoch before another.
pub open spec fn wanted_before(pending: Seq<Fetch>, epoch: u32) -> Seq<Fetch> {
    pending.filter(|f: Fetch| f.epoch < epoch)
}

proof fn lemma_filtered(pending: Seq<Fetch>, keep: spec_fn(Fetch) -> bool)
    ensures
        forall|i: int|
            0 <= i < pending.filter(keep).len() ==> keep(#[trigger] pending.filter(keep)[i])
                && pending.contains(pending.filter(keep)[i]),
        forall|f: Fetch| pending.contains(f) && keep(f) ==> #[trigger] pending.filter(
            keep,
        ).contains(f),
    decreases pending.len(),
{
    reveal(Seq::filter);
    if pending.len() > 0 {
        let rest = pending.drop_last();
        lemma_filtered(rest, keep);
        let kept = rest.filter(keep);
        let all = pending.filter(keep);
        assert forall|i: int| 0 <= i < all.len() implies keep(#[trigger] all[i])
            && pending.contains(all[i]) by {
            if i < kept.len() {
                let j = choose|j: int| 0 <= j < rest.len() && rest[j] == kept[i];
                assert(pending[j] == all[i]);
            } else {
                assert(pending[pending.len() - 1] == all[i]);
            }
        }
        assert forall|f: Fetch| pending.contains(f) && keep(f) implies #[trigger] all.contains(
            f,
        ) by {
            let j = choose|j: int| 0 <= j < pending.len() && pending[j] == f;
            if j < rest.len() {
                assert(rest[j] == f);
                assert(kept.contains(f));
                let k = choose|k: int| 0 <= k < kept.len() && kept[k] == f;
                assert(all[k] == f);
            } else {
                assert(all[all.len() - 1] == f);
            }
        }
    }
}

/// After a cancellation nothing is under way that is not wanted, everything that is
/// goes on, and everything that was aborted was not wanted.
pub proof fn lemma_cancel_aborts_unwanted(pending: Seq<Fetch>, epoch: u32, f: Fetch)
    requires
        pending.contains(f),
    ensures
        wanted_since(pending, epoch).contains(f) <==> f.epoch >= epoch,
        wanted_before(pending, epoch).contains(f) <==> f.epoch < epoch,
{
    lemma_filtered(pending, |f: Fetch| f.epoch >= epoch);
    lemma_filtered(pending, |f: Fetch| f.epoch < epoch);
}

impl Fetches {
    pub fn new() -> (fetches: Self)
        ensures
            fetches.epoch == 0,
            fetches.next_id == 0,
            fetches.pending@.len() == 0,
    {
        Fetches { epoch: 0, next_id: 0, pending: Vec::new() }
    }

    /// Whether what is for `epoch` is not wanted any more.
    pub fn stale(&self, epoch: u32) -> (stale: bool)
        ensures
            stale == (self.epoch > epoch),
    {
        self.epoch > epoch
    }

    /// Notes a fetch for `epoch`, and gives it a number.
    pub fn register(&mut self, epoch: u32) -> (id: u32)
        ensures
            id == old(self).next_id,
            final(self).epoch == old(self).epoch,
            final(self).next_id == next_number(id),
            id < u32::MAX ==> final(self).next_id == id + 1,
            id == u32::MAX ==> final(self).next_id == 0,
            final(self).pending@ == old(self).pending@.push(Fetch { id, epoch }),
    {
        let id: u32 = self.next_id;
        self.next_id = if id == u32::MAX {
            0
        } else {
            id + 1
        };
        self.pending.push(Fetch { id, epoch });
        id
    }

    /// Notes that a fetch is over.
    pub fn unregister(&mut self, id: u32)
        ensures
            final(self).epoch == old(self).epoch,
            final(self).next_id == old(self).next_id,
            final(self).pending@ == unregistered(old(self).pending@, id),
    {
        let ghost all = self.pending@;
        let ghost keep = |f: Fetch| f.id != id;
        let mut kept: Vec<Fetch> = Vec::new();
        let mut i: usize = 0;
        proof {
            reveal(Seq::filter);
        }
        while i < self.pending.len()
            invariant
                all == self.pending@,
                i <= all.len(),
                keep == (|f: Fetch| f.id != id),
                kept@ == all.take(i as int).filter(keep),
            decreases all.len() - i,
        {
            proof {
                reveal(Seq::filter);
                assert(all.take(i + 1).drop_last() =~= all.take(i as int));
            }
            let fetch: Fetch = self.pending[i];
            if fetch.id != id {
                kept.push(fetch);
            }
            i = i + 1;
        }
        assert(all.take(i as int) =~= all);
        self.pending = kept;
    }

    /// What is for an epoch before `epoch` is not wanted any more: tells which
    /// fetches are to be aborted.
    pub fn cancel(&mut self, epoch: u32) -> (aborted: Vec<Fetch>)
        ensures
            final(self).epoch == epoch,
            final(self).next_id == old(self).next_id,
            final(self).pending@ == wanted_since(old(self).pending@, epoch),
            aborted@ == wanted_before(old(self).pending@, epoch),
    {
        self.epoch = epoch;
        let ghost all = self.pending@;
        let ghost since = |f: Fetch| f.epoch >= epoch;
        let ghost before = |f: Fetch| f.epoch < epoch;
        let mut kept: Vec<Fetch> = Vec::new();
        let mut aborted: Vec<Fetch> = Vec::new();
        let mut i: usize = 0;
        proof {
            reveal(Seq::filter);
        }
        while i < self.pending.len()
            invariant
                all == self.pending@,
                i <= all.len(),
                since == (|f: Fetch| f.epoch >= epoch),
                before == (|f: Fetch| f.epoch < epoch),
                kept@ == all.take(i as int).filter(since),
                aborted@ == all.take(i as int).filter(before),
            decreases all.len() - i,
        {
            proof {
                reveal(Seq::filter);
                assert(all.take(i + 1).drop_last() =~= all.take(i as int));
            }
            let fetch: Fetch = self.pending[i];
            if fetch.epoch < epoch {
                aborted.push(fetch);
            } else {
                kept.push(fetch);
            }
            i = i + 1;
        }
        assert(all.take(i as int) =~= all);
        self.pending = kept;
        aborted
    }
}

/// The terrain images at hand, the one that goes first at the front.
pub struct HeightCache {
    pub entries: VecDeque<(String, Heightmap)>,
}

impl HeightCache {
    pub open spec fn wf(&self) -> bool {
        self.entries@.len() <= HEIGHT_CACHE_LIMIT
    }

    pub fn new() -> (cache: Self)
        ensures
            cache.wf(),
            cache.entries@.len() == 0,
    {
        HeightCache { entries: VecDeque::new() }
    }

    /// The first place at which the image of a URL is at hand.
    pub fn find(&self, url: &str) -> (place: Option<usize>)
        ensures
            match place {
                Some(i) => i < self.entries@.len() && self.entries@[i as int].0@ == url@
                    && forall|j: int|
                    0 <= j < i ==> (#[trigger] self.entries@[j]).0@ != url@,
                None => forall|j: int|
                    0 <= j < self.entries@.len() ==> (#[trigger] self.entries@[j]).0@ != url@,
            },
    {
        let mut i: usize = 0;
        while i < self.entries.len()
            invariant
                i <= self.entries@.len(),
                forall|j: int| 0 <= j < i ==> (#[trigger] self.entries@[j]).0@ != url@,
            decreases self.entries@.len() - i,
        {
            if same_text(self.entries[i].0.as_str(), url) {
                return Some(i);
            }
            i = i + 1;
        }
        None
    }

    /// The image at a place.
    pub fn get(&self, place: usize) -> (map: &Heightmap)
        requires
            place < self.entries@.len(),
        ensures
            *map == self.entries@[place as int].1,
    {
        &self.entries[place].1
    }

    /// Keeps an image at hand: the oldest goes where there are too many. Tells the
    /// place of the new one.
    pub fn store(&mut self, url: &str, map: Heightmap) -> (place: usize)
        requires
            old(self).wf(),
        ensures
            final(self).wf(),
            place == final(self).entries@.len() - 1,
            final(self).entries@.last().0@ == url@,
            final(self).entries@.last().1 == map,
            final(self).entries@.drop_last() == (if old(self).entries@.len()
                == HEIGHT_CACHE_LIMIT {
                old(self).entries@.skip(1)
            } else {
                old(self).entries@
            }),
    {
        let ghost before = self.entries@;
        self.entries.push_back((url.to_owned(), map));
        if self.entries.len() > HEIGHT_CACHE_LIMIT {
            self.entries.pop_front();
            assert(self.entries@.drop_last() =~= before.skip(1));
        } else {
            assert(self.entries@.drop_last() =~= before);
        }
        self.entries.len() - 1
    }
}

/// When the disk cache is swept.
pub struct Sweeper {
    pub puts: u32,
    pub sweeping: bool,
}

impl Sweeper {
    pub fn new() -> (sweeper: Self)
        ensures
            sweeper.puts == 0,
            !sweeper.sweeping,
    {
        Sweeper { puts: 0, sweeping: false }
    }

    /// Something was put in the disk cache: tells whether it is to be swept now. It
    /// is never swept twice at once.
    pub fn put(&mut self) -> (sweep: bool)
        ensures
            final(self).puts == next_number(old(self).puts),
            old(self).puts < u32::MAX ==> final(self).puts == old(self).puts + 1,
            old(self).puts == u32::MAX ==> final(self).puts == 0,
            sweep == (final(self).puts % SWEEP_EVERY == 0 && !old(self).sweeping),
            final(self).sweeping == (old(self).sweeping || sweep),
    {
        self.puts = if self.puts == u32::MAX {
            0
        } else {
            self.puts + 1
        };
        if self.puts % SWEEP_EVERY != 0 || self.sweeping {
            return false;
        }
        self.sweeping = true;
        true
    }

    /// The sweep is over.
    pub fn swept(&mut self)
        ensures
            final(self).puts == old(self).puts,
            !final(self).sweeping,
    {
        self.sweeping = false;
    }
}

/// What a worker is told.
#[derive(Copy, Clone, PartialEq, Eq, Debug, Structural)]
pub enum Order {
    /// How large its disk cache may grow.
    CacheLimit,
    /// Which epoch is the current one.
    Cancel,
    /// Something to fetch.
    Job(JobKind),
    Unknown,
}

/// What a worker is told by a message with this word.
pub open spec fn order_of(word: Seq<char>) -> Order {
    if word == "cachelimit"@ {
        Order::CacheLimit
    } else if word == "cancel"@ {
        Order::Cancel
    } else if exists|k: JobKind| kind_word(k) == word {
        Order::Job(choose|k: JobKind| kind_word(k) == word)
    } else {
        Order::Unknown
    }
}

/// What the page writes for a job, a worker understands as that job.
pub proof fn lemma_jobs_are_understood(kind: JobKind)
    ensures
        order_of(kind_word(kind)) == Order::Job(kind),
{
    reveal_strlit("terrain");
    reveal_strlit("imagery");
    reveal_strlit("model");
    reveal_strlit("icon");
    reveal_strlit("cachelimit");
    reveal_strlit("cancel");
    assert("cachelimit"@.len() == 10 && "cancel"@.len() == 6);
    assert(kind_word(kind).len() != 10 && kind_word(kind).len() != 6);
    let told = choose|k: JobKind| kind_word(k) == kind_word(kind);
    lemma_kind_words_differ(told, kind);
}

/// What a worker is told by a message with this word.
pub fn order(word: &str) -> (order: Order)
    ensures
        order == order_of(word@),
{
    if same_text(word, "cachelimit") {
        return Order::CacheLimit;
    }
    if same_text(word, "cancel") {
        return Order::Cancel;
    }
    match kind_of_word(word) {
        Some(k) => {
            assert(kind_word(k) == word@);
            Order::Job(k)
        },
        None => Order::Unknown,
    }
}

/// How a job for terrain starts.
#[derive(Copy, Clone, PartialEq, Eq, Debug, Structural)]
pub enum Start {
    /// It is not wanted any more.
    Cancelled,
    /// Its image is at hand, at this place.
    AtHand(usize),
    Fetch,
}

/// How a job for terrain starts: not at all where it is not wanted any more, and
/// without a fetch where its image is at hand.
pub fn start_terrain(fetches: &Fetches, cache: &HeightCache, url: &str, epoch: u32) -> (start: Start)
    ensures
        fetches.epoch > epoch <==> start is Cancelled,
        start matches Start::AtHand(i) ==> i < cache.entries@.len()
            && cache.entries@[i as int].0@ == url@ && forall|j: int|
            0 <= j < i ==> (#[trigger] cache.entries@[j]).0@ != url@,
        start is Fetch ==> forall|j: int|
            0 <= j < cache.entries@.len() ==> (#[trigger] cache.entries@[j]).0@ != url@,
{
    if fetches.stale(epoch) {
        return Start::Cancelled;
    }
    match cache.find(url) {
        Some(place) => Start::AtHand(place),
        None => Start::Fetch,
    }
}

/// How a job for imagery starts.
pub fn start_imagery(fetches: &Fetches, epoch: u32) -> (start: Start)
    ensures
        start == (if fetches.epoch > epoch {
            Start::Cancelled
        } else {
            Start::Fetch
        }),
{
    if fetches.stale(epoch) {
        Start::Cancelled
    } else {
        Start::Fetch
    }
}

/// What a fetch that failed is reported as: cancelled, where it was not wanted any
/// more.
pub fn ended(fetches: &Fetches, epoch: u32) -> (cancelled: bool)
    ensures
        cancelled == (fetches.epoch > epoch),
{
    fetches.stale(epoch)
}

/// An icon sheet as a worker hands it over: width, height and pixels.
pub open spec fn icon_blob_of(width: u32, height: u32, pixels: Seq<u8>) -> Seq<u8> {
    words_bytes(seq![width, height]) + pixels
}

/// The width, height and pixels of an icon sheet that was handed over.
pub open spec fn icon_parts_of(blob: Seq<u8>) -> Option<(u32, u32, Seq<u8>)> {
    if blob.len() < 8 {
        None
    } else {
        Some((word_at(blob, 0), word_at(blob, 4), blob.skip(8)))
    }
}

/// An icon sheet that was handed over is what it was.
pub proof fn lemma_icon_blob_read_back(width: u32, height: u32, pixels: Seq<u8>)
    ensures
        icon_parts_of(icon_blob_of(width, height, pixels)) == Some((width, height, pixels)),
{
    let head = seq![width, height];
    let blob = icon_blob_of(width, height, pixels);
    assert(words_bytes(head).len() == 8);
    assert(blob.subrange(0, 8) =~= words_bytes(head));
    lemma_words_read_back(head, blob, 0, 0);
    lemma_words_read_back(head, blob, 0, 1);
    assert(blob.skip(8) =~= pixels);
}

/// An icon sheet as a worker hands it over.
pub fn icon_blob(width: u32, height: u32, pixels: &Vec<u8>) -> (blob: Vec<u8>)
    ensures
        blob@ == icon_blob_of(width, height, pixels@),
{
    let mut blob: Vec<u8> = Vec::new();
    push_word(&mut blob, width);
    push_word(&mut blob, height);
    assert(blob@ =~= words_bytes(seq![width, height]));
    push_bytes(&mut blob, pixels);
    blob
}

/// The width, height and pixels of an icon sheet that was handed over.
pub fn icon_parts(blob: &[u8]) -> (parts: Option<(u32, u32, Vec<u8>)>)
    ensures
        match parts {
            Some((w, h, pixels)) => icon_parts_of(blob@) == Some((w, h, pixels@)),
            None => icon_parts_of(blob@) is None,
        },
{
    if blob.len() < 8 {
        return None;
    }
    let pixels: Vec<u8> = copy_bytes(blob, 8, blob.len() - 8);
    assert(pixels@ =~= blob@.skip(8));
    Some((read_word(blob, 0), read_word(blob, 4), pixels))
}

/// The image of a file that is a PNG or else a JPEG.
pub open spec fn icon_image(file: Seq<u8>) -> Result<(u32, u32, Seq<u8>), Seq<char>> {
    match png_image(file) {
        Ok(image) => Ok(image),
        Err(_) => jpeg_image(file),
    }
}

/// Whether a file can be decoded or refused, and laid out as far as it can be shown.
pub open spec fn icon_sound(file: Seq<u8>) -> bool {
    png_whole(file) && (png_image(file) is Err ==> jpeg_whole(file))
}

/// The icon sheet of a file, as a worker hands it over: none where the file is
/// neither a PNG nor a JPEG that can be shown.
pub fn icon_of(file: &[u8]) -> (blob: Option<Vec<u8>>)
    requires
        icon_sound(file@),
    ensures
        match icon_image(file@) {
            Ok(image) => blob is Some && blob->0@ == icon_blob_of(image.0, image.1, image.2),
            Err(_) => blob is None,
        },
{
    let image: Result<(u32, u32, Vec<u8>), String> = match decode_png_rgba(file) {
        Ok(image) => Ok(image),
        Err(_) => decode_jpeg_rgba(file),
    };
    match image {
        Ok((w, h, pixels)) => Some(icon_blob(w, h, &pixels)),
        Err(_) => None,
    }
}

/// The icon sheet of a file, unless the file cannot be laid out.
pub fn try_icon_of(file: &[u8]) -> (blob: Option<Option<Vec<u8>>>)
    ensures
        blob is None <==> !icon_sound(file@),
        blob matches Some(b) ==> match icon_image(file@) {
            Ok(image) => b is Some && b->0@ == icon_blob_of(image.0, image.1, image.2),
            Err(_) => b is None,
        },
{
    match try_decode_png_rgba(file) {
        Some(Ok((w, h, pixels))) => Some(Some(icon_blob(w, h, &pixels))),
        Some(Err(_)) => match try_decode_jpeg_rgba(file) {
            Some(Ok((w, h, pixels))) => Some(Some(icon_blob(w, h, &pixels))),
            Some(Err(_)) => Some(None),
            None => None,
        },
        None => None,
    }
}

/// A fetch that is over is under way no more, and all others are.
pub proof fn lemma_others_go_on(pending: Seq<Fetch>, id: u32, f: Fetch)
    ensures
        unregistered(pending, id).contains(f) <==> pending.contains(f) && f.id != id,
{
    let keep = |f: Fetch| f.id != id;
    lemma_filtered(pending, keep);
    let kept = unregistered(pending, id);
    if kept.contains(f) {
        let i = choose|i: int| 0 <= i < kept.len() && kept[i] == f;
        assert(keep(kept[i]) && pending.contains(kept[i]));
    }
}

/// An icon sheet that is handed over starts with two words for its width and its height, and
/// goes on with its pixels.
pub proof fn lemma_icon_blob_layout(width: u32, height: u32, pixels: Seq<u8>, i: int)
    ensures
        ({
            let blob = icon_blob_of(width, height, pixels);
            &&& blob.len() == 8 + pixels.len()
            &&& word_at(blob, 0) == width
            &&& word_at(blob, 4) == height
            &&& 0 <= i < pixels.len() ==> blob[8 + i] == pixels[i]
        }),
{
    lemma_icon_blob_read_back(width, height, pixels);
    assert(words_bytes(seq![width, height]).len() == 8);
}

/// A worker is told of its cache and of the current epoch by their words alone, and
/// understands nothing that is neither of these nor the word of a kind.
pub proof fn lemma_orders_told_apart(word: Seq<char>)
    ensures
        order_of(word) is CacheLimit <==> word == "cachelimit"@,
        order_of(word) is Cancel <==> word == "cancel"@,
        order_of(word) is Unknown ==> word != "terrain"@ && word != "imagery"@ && word != "model"@
            && word != "icon"@,
{
    reveal_strlit("cachelimit");
    reveal_strlit("cancel");
    assert("cachelimit"@.len() == 10 && "cancel"@.len() == 6);
    lemma_jobs_are_understood(JobKind::Terrain);
    lemma_jobs_are_understood(JobKind::Imagery);
    lemma_jobs_are_understood(JobKind::Model);
    lemma_jobs_are_understood(JobKind::Icon);
}

} // verus!
