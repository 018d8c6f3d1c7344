//! What stands on the globe besides terrain: models and their flights, icon sheets,
//! and the made-up shapes of a stress test.
use crate::model::{decode, ModelData};
#[allow(unused_imports)]
use crate::model::decoded;
use crate::stream::{Incoming, JobKind, WorkerPool, ASSET_RANK};
#[allow(unused_imports)]
use crate::stream::{requested, PoolView, RequestView};
use crate::tiling::{TileKey, UvWindow};
#[allow(unused_imports)]
use crate::vector::VectorView;
use crate::vector::VectorRenderer;
use crate::worker::icon_parts;
#[allow(unused_imports)]
use crate::worker::icon_parts_of;
use vstd::prelude::*;

verus! {

/// How many instances of a model are drawn at the most.
pub const MAX_INSTANCES: u64 = 4096;

/// The bytes that go up in a frame.
pub const UPLOAD_BYTES_PER_FRAME: usize = 3_145_728;

/// A model: how many indices it has, none before it is loaded, and how many
/// instances of it there are.
#[derive(Copy, Clone, PartialEq, Eq, Debug, Structural)]
pub struct ModelSlot {
    pub index_count: u32,
    pub live: usize,
}

/// An instance of a model that flies round: how many waypoints it has, and the one
/// that it flies from.
#[derive(Copy, Clone, PartialEq, Eq, Debug, Structural)]
pub struct Flight {
    pub model: usize,
    pub instance: usize,
    pub waypoints: usize,
    pub leg: usize,
}

/// The sheet that icons are cut from: its URL, columns and rows.
pub struct IconSheet {
    pub url: String,
    pub cols: u32,
    pub rows: u32,
}

/// The models, their flights and the icon sheet.
pub struct Scene {
    pub model_urls: Vec<String>,
    pub icon_sheet: Option<IconSheet>,
    pub models: Vec<ModelSlot>,
    pub flights: Vec<Flight>,
}

/// A model that is not loaded.
pub open spec fn empty_model() -> ModelSlot {
    ModelSlot { index_count: 0, live: 0 }
}

/// The models after one was loaded to `slot`: there are as many as it takes, and
/// those in flight go on.
pub open spec fn models_uploaded(models: Seq<ModelSlot>, slot: nat, index_count: u32) -> Seq<
    ModelSlot,
> {
    let len = if models.len() > slot {
        models.len()
    } else {
        slot + 1
    };
    Seq::new(
        len,
        |i: int|
            {
                let before = if i < models.len() {
                    models[i]
                } else {
                    empty_model()
                };
                if i == slot {
                    ModelSlot { index_count, ..before }
                } else {
                    before
                }
            },
    )
}

/// Whether a model is loaded.
pub open spec fn model_ready(models: Seq<ModelSlot>, slot: int) -> bool {
    0 <= slot < models.len() && models[slot].index_count > 0
}

/// The job that fetches a model.
pub open spec fn model_request(slot: int, url: Seq<char>) -> RequestView {
    RequestView {
        kind: JobKind::Model,
        key: TileKey { z: 255, x: slot as u32, y: 0 },
        url,
        extra_url: Seq::empty(),
        uv: UvWindow { span: 1, du: 0, dv: 0 },
        rank: ASSET_RANK,
    }
}

/// The job that fetches the icon sheet.
pub open spec fn icon_request(url: Seq<char>) -> RequestView {
    RequestView {
        kind: JobKind::Icon,
        key: TileKey { z: 254, x: 0, y: 0 },
        url,
        extra_url: Seq::empty(),
        uv: UvWindow { span: 1, du: 0, dv: 0 },
        rank: ASSET_RANK,
    }
}

/// The pool after those of the first `n` models that are not loaded were asked for.
pub open spec fn models_asked(
    pool: PoolView,
    urls: Seq<String>,
    models: Seq<ModelSlot>,
    n: nat,
) -> PoolView
    decreases n,
{
    if n == 0 {
        pool
    } else {
        let before = models_asked(pool, urls, models, (n - 1) as nat);
        if model_ready(models, n - 1) {
            before
        } else {
            requested(before, model_request(n - 1, urls[n - 1]@))
        }
    }
}

/// Whether a flight has somewhere to fly, with a model that has that instance.
pub open spec fn flight_sound(flight: Flight, models: Seq<ModelSlot>) -> bool {
    &&& flight.model < models.len()
    &&& flight.instance < models[flight.model as int].live
    &&& flight.leg < flight.waypoints
    &&& 2 <= flight.waypoints
}

impl Scene {
    /// Whether every flight moves an instance of its own.
    pub open spec fn wf(&self) -> bool {
        &&& forall|i: int|
            0 <= i < self.flights@.len() ==> flight_sound(
                #[trigger] self.flights@[i],
                self.models@,
            )
        &&& forall|i: int, j: int|
            #![trigger self.flights@[i], self.flights@[j]]
            0 <= i < j < self.flights@.len() ==> self.flights@[i].model != self.flights@[j].model
                || self.flights@[i].instance != self.flights@[j].instance
        &&& forall|m: int|
            0 <= m < self.models@.len() ==> (#[trigger] self.models@[m]).live <= MAX_INSTANCES
    }

    pub fn new() -> (scene: Self)
        ensures
            scene.wf(),
            scene.model_urls@.len() == 0,
            scene.icon_sheet is None,
            scene.models@.len() == 0,
            scene.flights@.len() == 0,
    {
        Scene {
            model_urls: Vec::new(),
            icon_sheet: None,
            models: Vec::new(),
            flights: Vec::new(),
        }
    }

    /// Loads a model from now on: tells its slot.
    pub fn add_model(&mut self, url: String) -> (slot: usize)
        requires
            old(self).wf(),
        ensures
            final(self).wf(),
            slot == old(self).model_urls@.len(),
            final(self).model_urls@ == old(self).model_urls@.push(url),
            final(self).icon_sheet == old(self).icon_sheet,
            final(self).models == old(self).models,
            final(self).flights == old(self).flights,
    {
        let slot: usize = self.model_urls.len();
        self.model_urls.push(url);
        slot
    }

    /// Cuts icons from a sheet from now on: it has a column and a row at the least.
    pub fn load_icons(&mut self, url: String, cols: u32, rows: u32)
        requires
            old(self).wf(),
        ensures
            final(self).wf(),
            final(self).icon_sheet == Some(
                (IconSheet {
                    url,
                    cols: if cols > 0 {
                        cols
                    } else {
                        1
                    },
                    rows: if rows > 0 {
                        rows
                    } else {
                        1
                    },
                }),
            ),
            final(self).model_urls == old(self).model_urls,
            final(self).models == old(self).models,
            final(self).flights == old(self).flights,
    {
        self.icon_sheet = Some(
            IconSheet {
                url,
                cols: if cols > 0 {
                    cols
                } else {
                    1
                },
                rows: if rows > 0 {
                    rows
                } else {
                    1
                },
            },
        );
    }

    /// Whether a model is loaded.
    pub fn ready(&self, slot: usize) -> (ready: bool)
        ensures
            ready == model_ready(self.models@, slot as int),
    {
        slot < self.models.len() && self.models[slot].index_count > 0
    }

    /// How many instances of a model there are.
    pub fn model_instances(&self, slot: usize) -> (count: usize)
        ensures
            count == (if slot < self.models@.len() {
                self.models@[slot as int].live
            } else {
                0
            }),
    {
        if slot < self.models.len() {
            self.models[slot].live
        } else {
            0
        }
    }

    /// How many of the models are loaded.
    pub fn models_ready(&self) -> (count: usize)
        ensures
            count == ready_count(self.models@, self.model_urls@.len()),
    {
        let mut count: usize = 0;
        let mut i: usize = 0;
        while i < self.model_urls.len()
            invariant
                i <= self.model_urls@.len(),
                count <= i,
                count == ready_count(self.models@, i as nat),
            decreases self.model_urls@.len() - i,
        {
            if self.ready(i) {
                count = count + 1;
            }
            i = i + 1;
        }
        count
    }

    /// Asks for the models that are not loaded.
    pub fn request_models(&self, pool: &mut WorkerPool)
        requires
            old(pool).wf(),
        ensures
            final(pool).wf(),
            final(pool)@ == models_asked(
                old(pool)@,
                self.model_urls@,
                self.models@,
                self.model_urls@.len(),
            ),
    {
        let ghost start = pool@;
        let mut i: usize = 0;
        while i < self.model_urls.len()
            invariant
                i <= self.model_urls@.len(),
                pool.wf(),
                pool@ == models_asked(start, self.model_urls@, self.models@, i as nat),
            decreases self.model_urls@.len() - i,
        {
            if !self.ready(i) {
                pool.request(
                    JobKind::Model,
                    TileKey { z: 255, x: i as u32, y: 0 },
                    self.model_urls[i].as_str().to_owned(),
                    UvWindow { span: 1, du: 0, dv: 0 },
                    ASSET_RANK,
                );
            }
            i = i + 1;
        }
    }

    /// Asks for the icon sheet, where there is one that is not loaded.
    pub fn request_icons(&self, vectors: &VectorRenderer, pool: &mut WorkerPool)
        requires
            old(pool).wf(),
        ensures
            final(pool).wf(),
            final(pool)@ == (match self.icon_sheet {
                Some(sheet) => if vectors@.icon_sheet_loaded {
                    old(pool)@
                } else {
                    requested(old(pool)@, icon_request(sheet.url@))
                },
                None => old(pool)@,
            }),
    {
        if let Some(sheet) = &self.icon_sheet {
            if !vectors.icon_sheet_loaded {
                pool.request(
                    JobKind::Icon,
                    TileKey { z: 254, x: 0, y: 0 },
                    sheet.url.as_str().to_owned(),
                    UvWindow { span: 1, du: 0, dv: 0 },
                    ASSET_RANK,
                );
            }
        }
    }

    /// Notes that a model with `index_count` indices was loaded to `slot`.
    pub fn upload(&mut self, slot: usize, index_count: u32)
        requires
            old(self).wf(),
            slot < usize::MAX,
        ensures
            final(self).wf(),
            final(self).models@ == models_uploaded(old(self).models@, slot as nat, index_count),
            final(self).model_urls == old(self).model_urls,
            final(self).icon_sheet == old(self).icon_sheet,
            final(self).flights == old(self).flights,
    {
        let ghost before = self.models@;
        while self.models.len() <= slot
            invariant
                slot < usize::MAX,
                before.len() <= self.models@.len(),
                before.len() <= slot + 1 ==> self.models@.len() <= slot + 1,
                before.len() > slot ==> self.models@.len() == before.len(),
                forall|i: int|
                    0 <= i < self.models@.len() ==> #[trigger] self.models@[i] == (if i
                        < before.len() {
                        before[i]
                    } else {
                        empty_model()
                    }),
                self.model_urls == old(self).model_urls,
                self.icon_sheet == old(self).icon_sheet,
                self.flights == old(self).flights,
            decreases slot + 1 - self.models@.len(),
        {
            self.models.push(ModelSlot { index_count: 0, live: 0 });
        }
        let live: usize = self.models[slot].live;
        self.models.set(slot, ModelSlot { index_count, live });
        proof {
            assert(self.models@ =~= models_uploaded(before, slot as nat, index_count));
            assert forall|i: int| 0 <= i < self.flights@.len() implies flight_sound(
                #[trigger] self.flights@[i],
                self.models@,
            ) by {
                assert(flight_sound(old(self).flights@[i], before));
            }
        }
    }

    /// Takes in a model that came back: tells its slot and what it is made of. One
    /// that failed, or is not whole, is left aside.
    pub fn take_model(&mut self, msg: &Incoming) -> (taken: Option<(usize, ModelData)>)
        requires
            old(self).wf(),
            msg.key.x < usize::MAX,
        ensures
            final(self).wf(),
            final(self).model_urls == old(self).model_urls,
            final(self).icon_sheet == old(self).icon_sheet,
            final(self).flights == old(self).flights,
            ({
                let whole = msg.payload is Some && decoded(msg.payload->0@) is Some;
                &&& taken is Some <==> whole
                &&& taken matches Some(t) ==> {
                    &&& t.0 == msg.key.x
                    &&& decoded(msg.payload->0@) == Some(t.1@)
                    &&& final(self).models@ == models_uploaded(
                        old(self).models@,
                        msg.key.x as nat,
                        t.1@.indices.len() as u32,
                    )
                }
                &&& taken is None ==> final(self).models == old(self).models
            }),
    {
        let slot: usize = msg.key.x as usize;
        match &msg.payload {
            Some(bytes) => match decode(bytes.as_slice()) {
                Some(data) => {
                    self.upload(slot, data.indices.len() as u32);
                    Some((slot, data))
                },
                None => None,
            },
            None => None,
        }
    }

    /// Takes in an icon sheet that came back: tells its width, height and pixels,
    /// where there is to be one and it is whole.
    pub fn take_icons(&self, msg: &Incoming, vectors: &mut VectorRenderer) -> (taken: Option<
        (u32, u32, Vec<u8>),
    >)
        requires
            old(vectors)@.wf(),
        ensures
            final(vectors)@.wf(),
            ({
                let parts = if msg.payload is Some {
                    icon_parts_of(msg.payload->0@)
                } else {
                    None
                };
                let whole = parts matches Some((w, h, pixels)) && w > 0 && h > 0 && pixels.len()
                    >= w * h * 4;
                &&& taken is Some <==> self.icon_sheet is Some && whole
                &&& taken matches Some(t) ==> {
                    &&& parts == Some((t.0, t.1, t.2@))
                    &&& final(vectors)@ == (VectorView {
                        icon_cols: if self.icon_sheet->0.cols > 0 {
                            self.icon_sheet->0.cols
                        } else {
                            1
                        },
                        icon_rows: if self.icon_sheet->0.rows > 0 {
                            self.icon_sheet->0.rows
                        } else {
                            1
                        },
                        icon_sheet_loaded: true,
                        ..old(vectors)@
                    })
                }
                &&& taken is None ==> final(vectors)@ == old(vectors)@
            }),
    {
        let (cols, rows) = match &self.icon_sheet {
            Some(sheet) => (sheet.cols, sheet.rows),
            None => {
                return None;
            },
        };
        match &msg.payload {
            Some(bytes) => match icon_parts(bytes.as_slice()) {
                Some((w, h, pixels)) => {
                    if vectors.set_icon_sheet(w, h, pixels.len(), cols, rows) {
                        Some((w, h, pixels))
                    } else {
                        None
                    }
                },
                None => None,
            },
            None => None,
        }
    }

    /// Lets another instance of a model fly along `coords / 3` waypoints: tells the
    /// number of the flight and of the instance. There is no flight without two
    /// waypoints, of a model that is not there, or of one with as many instances as
    /// there may be.
    pub fn add_flight(&mut self, model: usize, coords: usize) -> (added: Option<(usize, usize)>)
        requires
            old(self).wf(),
        ensures
            final(self).wf(),
            final(self).model_urls == old(self).model_urls,
            final(self).icon_sheet == old(self).icon_sheet,
            added is Some <==> coords >= 6 && model < old(self).models@.len()
                && old(self).models@[model as int].live < MAX_INSTANCES,
            match added {
                Some((flight, instance)) => {
                    let slot = old(self).models@[model as int];
                    &&& flight == old(self).flights@.len()
                    &&& instance == slot.live
                    &&& final(self).models@ == old(self).models@.update(
                        model as int,
                        ModelSlot { live: (slot.live + 1) as usize, ..slot },
                    )
                    &&& final(self).flights@ == old(self).flights@.push(
                        Flight { model, instance, waypoints: coords / 3, leg: 0 },
                    )
                },
                None => final(self).models == old(self).models && final(self).flights == old(
                    self).flights,
            },
    {
        if coords < 6 || self.models.len() <= model {
            return None;
        }
        let slot: ModelSlot = self.models[model];
        if slot.live as u64 >= MAX_INSTANCES {
            return None;
        }
        let instance: usize = slot.live;
        let ghost before = *self;
        self.models.set(model, ModelSlot { index_count: slot.index_count, live: slot.live + 1 });
        let flight: usize = self.flights.len();
        self.flights.push(Flight { model, instance, waypoints: coords / 3, leg: 0 });
        proof {
            assert forall|i: int| 0 <= i < self.flights@.len() implies flight_sound(
                #[trigger] self.flights@[i],
                self.models@,
            ) by {
                if i < before.flights@.len() {
                    assert(flight_sound(before.flights@[i], before.models@));
                }
            }
            assert forall|i: int, j: int|
                #![trigger self.flights@[i], self.flights@[j]]
                0 <= i < j < self.flights@.len() implies self.flights@[i].model
                != self.flights@[j].model || self.flights@[i].instance
                != self.flights@[j].instance by {
                assert(flight_sound(before.flights@[i], before.models@));
                if j < before.flights@.len() {
                    assert(self.flights@[j] == before.flights@[j]);
                }
            }
        }
        Some((flight, instance))
    }

    /// The waypoints that a flight flies between: after the last comes the first.
    pub fn leg_ends(&self, flight: usize) -> (ends: (usize, usize))
        requires
            self.wf(),
            flight < self.flights@.len(),
        ensures
            ({
                let f = self.flights@[flight as int];
                &&& ends.0 == f.leg
                &&& ends.1 == (if f.leg + 1 < f.waypoints {
                    f.leg + 1
                } else {
                    0
                })
                &&& ends.0 < f.waypoints && ends.1 < f.waypoints
            }),
    {
        let f: Flight = self.flights[flight];
        assert(flight_sound(self.flights@[flight as int], self.models@));
        (
            f.leg,
            if f.leg + 1 < f.waypoints {
                f.leg + 1
            } else {
                0
            },
        )
    }

    /// A flight came to the end of a leg, and starts the next.
    pub fn next_leg(&mut self, flight: usize)
        requires
            old(self).wf(),
            flight < old(self).flights@.len(),
        ensures
            final(self).wf(),
            final(self).model_urls == old(self).model_urls,
            final(self).icon_sheet == old(self).icon_sheet,
            final(self).models == old(self).models,
            ({
                let f = old(self).flights@[flight as int];
                final(self).flights@ == old(self).flights@.update(
                    flight as int,
                    Flight {
                        leg: if f.leg + 1 < f.waypoints {
                            (f.leg + 1) as usize
                        } else {
                            0
                        },
                        ..f
                    },
                )
            }),
    {
        let ghost before = *self;
        let f: Flight = self.flights[flight];
        let (_, next) = self.leg_ends(flight);
        assert(flight_sound(self.flights@[flight as int], self.models@));
        self.flights.set(
            flight,
            Flight { model: f.model, instance: f.instance, waypoints: f.waypoints, leg: next },
        );
        proof {
            assert forall|i: int| 0 <= i < self.flights@.len() implies flight_sound(
                #[trigger] self.flights@[i],
                self.models@,
            ) by {
                assert(flight_sound(before.flights@[i], before.models@));
            }
            assert forall|i: int, j: int|
                #![trigger self.flights@[i], self.flights@[j]]
                0 <= i < j < self.flights@.len() implies self.flights@[i].model
                != self.flights@[j].model || self.flights@[i].instance
                != self.flights@[j].instance by {
                assert(before.flights@[i].model != before.flights@[j].model
                    || before.flights@[i].instance != before.flights@[j].instance);
            }
        }
    }

    /// Ends every flight, and takes every instance away.
    pub fn clear_flights(&mut self)
        requires
            old(self).wf(),
        ensures
            final(self).wf(),
            final(self).model_urls == old(self).model_urls,
            final(self).icon_sheet == old(self).icon_sheet,
            final(self).flights@.len() == 0,
            final(self).models@ == old(self).models@.map_values(
                |m: ModelSlot| ModelSlot { live: 0, ..m },
            ),
    {
        let ghost before = self.models@;
        let ghost after = before.map_values(|m: ModelSlot| ModelSlot { live: 0, ..m });
        self.flights = Vec::new();
        let mut models: Vec<ModelSlot> = Vec::new();
        let mut i: usize = 0;
        while i < self.models.len()
            invariant
                before == self.models@,
                after == before.map_values(|m: ModelSlot| ModelSlot { live: 0, ..m }),
                i <= before.len(),
                models@ == after.take(i as int),
            decreases before.len() - i,
        {
            models.push(ModelSlot { index_count: self.models[i].index_count, live: 0 });
            i = i + 1;
            assert(models@ =~= after.take(i as int));
        }
        assert(after.take(i as int) =~= after);
        self.models = models;
    }

    /// How many instances of all models there are.
    pub fn total_instances(&self) -> (count: u64)
        ensures
            count == (if live_total(self.models@) <= u64::MAX {
                live_total(self.models@)
            } else {
                u64::MAX as nat
            }),
    {
        let mut count: u64 = 0;
        let mut i: usize = 0;
        while i < self.models.len()
            invariant
                i <= self.models@.len(),
                count == (if live_total(self.models@.take(i as int)) <= u64::MAX {
                    live_total(self.models@.take(i as int))
                } else {
                    u64::MAX as nat
                }),
            decreases self.models@.len() - i,
        {
            assert(self.models@.take(i + 1).drop_last() =~= self.models@.take(i as int));
            count = count.saturating_add(self.models[i].live as u64);
            i = i + 1;
        }
        assert(self.models@.take(i as int) =~= self.models@);
        count
    }

    /// The models that are drawn: slot, indices and instances of each that is loaded
    /// and has an instance, in order.
    pub fn draws(&self) -> (draws: Vec<(usize, u32, usize)>)
        ensures
            draws@ == models_drawn(self.models@, self.models@.len()),
    {
        let mut draws: Vec<(usize, u32, usize)> = Vec::new();
        let mut i: usize = 0;
        while i < self.models.len()
            invariant
                i <= self.models@.len(),
                draws@ == models_drawn(self.models@, i as nat),
            decreases self.models@.len() - i,
        {
            let model: ModelSlot = self.models[i];
            if model.index_count > 0 && model.live > 0 {
                draws.push((i, model.index_count, model.live));
            }
            i = i + 1;
        }
        draws
    }
}

/// Slot, indices and instances of those of the first `n` models that are loaded and
/// have an instance, in order.
pub open spec fn models_drawn(models: Seq<ModelSlot>, n: nat) -> Seq<(usize, u32, usize)>
    decreases n,
{
    if n == 0 {
        Seq::empty()
    } else {
        let before = models_drawn(models, (n - 1) as nat);
        let model = models[n - 1];
        if model.index_count > 0 && model.live > 0 {
            before.push(((n - 1) as usize, model.index_count, model.live))
        } else {
            before
        }
    }
}

/// Exactly the models that are loaded and have an instance are drawn, each once and
/// in order.
pub proof fn lemma_models_drawn_exactly(models: Seq<ModelSlot>, n: nat)
    requires
        n <= models.len() <= usize::MAX,
    ensures
        forall|k: int|
            0 <= k < models_drawn(models, n).len() ==> {
                let drawn = #[trigger] models_drawn(models, n)[k];
                &&& drawn.0 < n
                &&& drawn.1 == models[drawn.0 as int].index_count > 0
                &&& drawn.2 == models[drawn.0 as int].live > 0
            },
        forall|j: int, k: int|
            #![trigger models_drawn(models, n)[j], models_drawn(models, n)[k]]
            0 <= j < k < models_drawn(models, n).len() ==> models_drawn(models, n)[j].0
                < models_drawn(models, n)[k].0,
        forall|i: int|
            0 <= i < n && (#[trigger] models[i]).index_count > 0 && models[i].live > 0
                ==> models_drawn(models, n).contains(
                (i as usize, models[i].index_count, models[i].live),
            ),
    decreases n,
{
    if n > 0 {
        let m = (n - 1) as nat;
        lemma_models_drawn_exactly(models, m);
        let before = models_drawn(models, m);
        let after = models_drawn(models, n);
        assert forall|i: int|
            0 <= i < n && (#[trigger] models[i]).index_count > 0 && models[i].live
                > 0 implies after.contains((i as usize, models[i].index_count, models[i].live)) by {
            let drawn = (i as usize, models[i].index_count, models[i].live);
            if i < m {
                assert(before.contains(drawn));
                let k = choose|k: int| 0 <= k < before.len() && before[k] == drawn;
                assert(after[k] == drawn);
            } else {
                assert(after[after.len() - 1] == drawn);
            }
        }
        assert forall|k: int| 0 <= k < after.len() implies {
            let drawn = #[trigger] after[k];
            &&& drawn.0 < n
            &&& drawn.1 == models[drawn.0 as int].index_count > 0
            &&& drawn.2 == models[drawn.0 as int].live > 0
        } by {
            if k < before.len() {
                assert(after[k] == before[k]);
            }
        }
        assert forall|j: int, k: int|
            #![trigger after[j], after[k]]
            0 <= j < k < after.len() implies after[j].0 < after[k].0 by {
            assert(after[j] == before[j]);
            if k < before.len() {
                assert(after[k] == before[k]);
            }
        }
    }
}

/// How many of the first `n` models are loaded.
pub open spec fn ready_count(models: Seq<ModelSlot>, n: nat) -> nat
    decreases n,
{
    if n == 0 {
        0
    } else {
        ready_count(models, (n - 1) as nat) + (if model_ready(models, n - 1) {
            1nat
        } else {
            0
        })
    }
}

/// How many instances of the models there are.
pub open spec fn live_total(models: Seq<ModelSlot>) -> nat
    decreases models.len(),
{
    if models.len() == 0 {
        0
    } else {
        live_total(models.drop_last()) + models.last().live as nat
    }
}

/// A model that was loaded is ready, and loading it changes no other.
pub proof fn lemma_uploaded_model_ready(
    models: Seq<ModelSlot>,
    slot: nat,
    index_count: u32,
    other: int,
)
    requires
        index_count > 0,
    ensures
        model_ready(models_uploaded(models, slot, index_count), slot as int),
        other != slot ==> model_ready(models_uploaded(models, slot, index_count), other)
            == model_ready(models, other),
{
}

/// A number of 24 bits that depends on the seed in a scattered way.
pub open spec fn scattered(seed: u32) -> u32 {
    let a = ((seed * 747_796_405 + 2_891_336_453) % 0x1_0000_0000) as u32;
    let b = (a >> (((a >> 28u32) + 4) as u32)) ^ a;
    let c = ((b * 277_803_737) % 0x1_0000_0000) as u32;
    (c ^ (c >> 22u32)) >> 8u32
}

/// A number of 24 bits that depends on the seed in a scattered way: divided by 2 to
/// the 24th, one between nought and one.
pub fn rand_bits(seed: u32) -> (bits: u32)
    ensures
        bits == scattered(seed),
        bits < 0x100_0000,
{
    let a: u32 = ((seed as u64 * 747_796_405 + 2_891_336_453) % 0x1_0000_0000) as u32;
    assert((a >> 28u32) <= 15) by (bit_vector);
    let shift: u32 = (a >> 28u32) + 4;
    let b: u32 = (a >> shift) ^ a;
    let c: u32 = ((b as u64 * 277_803_737) % 0x1_0000_0000) as u32;
    let d: u32 = c ^ (c >> 22u32);
    assert((d >> 8u32) < 0x100_0000) by (bit_vector);
    d >> 8u32
}

/// A number of 24 bits as a part of `n`, rounded down.
pub fn part_of(bits: u32, n: u32) -> (part: u32)
    requires
        bits < 0x100_0000,
        n <= 0x100,
    ensures
        part == bits * n / 0x100_0000,
        n > 0 ==> part < n,
{
    assert(bits * n <= 0xff_ffff * n && (n > 0 ==> bits * n < 0x100_0000 * n)) by (nonlinear_arith)
        requires
            bits <= 0xff_ffff,
    ;
    assert(bits * n <= 0xff_ffff * 0x100) by (nonlinear_arith)
        requires
            bits <= 0xff_ffff,
            n <= 0x100,
    ;
    ((bits as u64 * n as u64) / 0x100_0000) as u32
}

/// A channel of a made-up color: between 80 and 254.
pub open spec fn bright(seed: u32) -> int {
    80 + scattered(seed) * 175 / 0x100_0000
}

/// A made-up color, with an alpha of none.
pub open spec fn bare_color(seed: u32) -> u32 {
    (bright(seed) * 0x100_0000 + bright(seed ^ 0x9e37) * 0x1_0000 + bright(seed ^ 0x85eb)
        * 0x100) as u32
}

/// A made-up color with this alpha. The bits of an alpha beyond a byte go into the
/// channels.
pub fn stress_color(seed: u32, alpha: u32) -> (color: u32)
    ensures
        color == bare_color(seed) | alpha,
        alpha <= 0xff ==> color == bright(seed) * 0x100_0000 + bright(seed ^ 0x9e37) * 0x1_0000
            + bright(seed ^ 0x85eb) * 0x100 + alpha,
        80 <= bright(seed) <= 254,
{
    let r: u32 = 80 + part_of(rand_bits(seed), 175);
    let g: u32 = 80 + part_of(rand_bits(seed ^ 0x9e37), 175);
    let b: u32 = 80 + part_of(rand_bits(seed ^ 0x85eb), 175);
    let color: u32 = r * 0x100_0000 + g * 0x1_0000 + b * 0x100;
    assert(color % 0x100 == 0);
    assert(alpha <= 0xff ==> color | alpha == color + alpha) by (bit_vector)
        requires
            color % 0x100 == 0,
    ;
    color | alpha
}

/// How many corners a made-up polygon has: from four to eight.
pub fn stress_sides(i: u32) -> (sides: u32)
    ensures
        sides == 4 + scattered(i ^ 0x51) * 5 / 0x100_0000,
        4 <= sides <= 8,
{
    4 + part_of(rand_bits(i ^ 0x51), 5)
}

/// How many waypoints a made-up flight has: from three to five.
pub fn stress_legs(i: u32) -> (legs: u32)
    ensures
        legs == 3 + scattered(i ^ 0x88) * 3 / 0x100_0000,
        3 <= legs <= 5,
{
    3 + part_of(rand_bits(i ^ 0x88), 3)
}

/// How often a picture that is copied is looked for.
pub const PICTURE_ROUNDS: u32 = 20_000;

/// Whether a picture that is copied is waited for.
#[derive(Copy, Clone, PartialEq, Eq, Debug, Structural)]
pub enum Wait {
    /// It is there.
    Over,
    /// It is looked for again.
    Again,
    /// It is given up.
    Lost,
}

/// How the wait for a picture goes on after `rounds` rounds in vain.
pub fn picture_wait(copied: bool, rounds: u32) -> (wait: Wait)
    ensures
        wait == (if copied {
            Wait::Over
        } else if rounds < PICTURE_ROUNDS {
            Wait::Again
        } else {
            Wait::Lost
        }),
{
    if copied {
        Wait::Over
    } else if rounds < PICTURE_ROUNDS {
        Wait::Again
    } else {
        Wait::Lost
    }
}

/// How many pixels a side of a picture has when so many are asked for.
pub fn picture_size(size: u32) -> (clamped: u32)
    ensures
        clamped == (if size < 16 {
            16
        } else if size > 1024 {
            1024
        } else {
            size
        }),
        16 <= clamped <= 1024,
{
    if size < 16 {
        16
    } else if size > 1024 {
        1024
    } else {
        size
    }
}

/// The bytes of a row of a picture as the device copies it: a multiple of 256.
pub open spec fn padded_row_of(size: int) -> int {
    (size * 4 + 255) / 256 * 256
}

/// The bytes of a row of a picture as the device copies it.
pub fn padded_row(size: u32) -> (bytes: u32)
    requires
        size <= 1024,
    ensures
        bytes == padded_row_of(size as int),
        size * 4 <= bytes < size * 4 + 256,
        bytes % 256 == 0,
{
    (size * 4 + 255) / 256 * 256
}

/// The pixels of a picture: blue and red change places, every pixel is opaque, and
/// what pads the rows is gone.
pub open spec fn picture_of(copied: Seq<u8>, size: nat) -> Seq<u8> {
    Seq::new(
        size * size * 4,
        |i: int|
            {
                let row = i / (size * 4) as int;
                let s = row * padded_row_of(size as int) + i % (size * 4) as int;
                if i % 4 == 0 {
                    copied[s + 2]
                } else if i % 4 == 1 {
                    copied[s]
                } else if i % 4 == 2 {
                    copied[s - 2]
                } else {
                    255u8
                }
            },
    )
}

/// The pixels of a picture that the device copied.
pub fn picture(copied: &Vec<u8>, size: u32) -> (pixels: Vec<u8>)
    requires
        16 <= size <= 1024,
        copied@.len() == padded_row_of(size as int) * size,
    ensures
        pixels@ == picture_of(copied@, size as nat),
{
    let ghost all = picture_of(copied@, size as nat);
    let wide: usize = padded_row(size) as usize;
    let n: usize = size as usize;
    let mut pixels: Vec<u8> = Vec::new();
    let mut row: usize = 0;
    proof {
        assert(n * n * 4 <= 1024 * 1024 * 4) by (nonlinear_arith)
            requires
                n <= 1024,
        ;
        assert(0 * (4 * n) == 0);
        assert(all.take(0) =~= Seq::empty());
    }
    while row < n
        invariant
            16 <= n <= 1024,
            n == size,
            wide == padded_row_of(n as int),
            4 * n <= wide < 4 * n + 256,
            copied.len() == wide * n,
            row <= n,
            all == picture_of(copied@, n as nat),
            pixels@ == all.take(row * (4 * n)),
        decreases n - row,
    {
        let mut col: usize = 0;
        proof {
            lemma_row_fits(row as int, n as int, wide as int);
            assert(pixels@ =~= all.take(row * (4 * n) + 4 * col));
        }
        while col < n
            invariant
                16 <= n <= 1024,
                n == size,
                wide == padded_row_of(n as int),
                4 * n <= wide < 4 * n + 256,
                copied.len() == wide * n,
                row < n,
                col <= n,
                0 <= row * wide,
                row * wide + 4 * n <= wide * n,
                0 <= row * (4 * n),
                row * (4 * n) + 4 * n <= n * n * 4,
                all == picture_of(copied@, n as nat),
                pixels@ == all.take(row * (4 * n) + 4 * col),
            decreases n - col,
        {
            let s: usize = row * wide + 4 * col;
            let ghost at = row * (4 * n) + 4 * col;
            proof {
                assert forall|c: int| 0 <= c < 4 implies (#[trigger] (at + c)) / (4 * n) as int
                    == row && (at + c) % (4 * n) as int == 4 * col + c && (at + c) % 4 == c by {
                    lemma_place_in_rows(row as int, 4 * col + c, 4 * n as int);
                    assert(row * (4 * n) == 4 * (row * n)) by (nonlinear_arith);
                }
                assert(at + 0 == at);
            }
            pixels.push(copied[s + 2]);
            pixels.push(copied[s + 1]);
            pixels.push(copied[s]);
            pixels.push(255);
            proof {
                assert(all[at + 0] == copied@[s + 2]);
                assert(all[at + 1] == copied@[s + 1]);
                assert(all[at + 2] == copied@[s as int]);
                assert(all[at + 3] == 255);
                assert(pixels@ =~= all.take(at + 4));
            }
            col = col + 1;
        }
        proof {
            assert(row * (4 * n) + 4 * n == (row + 1) * (4 * n)) by (nonlinear_arith);
        }
        row = row + 1;
    }
    proof {
        assert(n * (4 * n) == n * n * 4) by (nonlinear_arith);
        assert(all.take(n * (4 * n)) =~= all);
    }
    pixels
}

proof fn lemma_row_fits(row: int, n: int, wide: int)
    by (nonlinear_arith)
    requires
        0 <= row < n,
        4 * n <= wide,
    ensures
        0 <= row * wide,
        row * wide + 4 * n <= wide * n,
        0 <= row * (4 * n),
        row * (4 * n) + 4 * n <= n * n * 4,
{
}

proof fn lemma_place_in_rows(row: int, x: int, stride: int)
    requires
        0 <= x < stride,
        0 <= row,
    ensures
        (row * stride + x) / stride == row,
        (row * stride + x) % stride == x,
{
    vstd::arithmetic::div_mod::lemma_fundamental_div_mod_converse(
        row * stride + x,
        stride,
        row,
        x,
    );
}

/// The icon of the `i`-th batch of a stress test: the cells of the sheet in turn.
pub fn stress_icon(i: u32, cols: u32, rows: u32) -> (icon: u32)
    requires
        cols > 0,
        rows > 0,
    ensures
        icon == i as int % (cols * rows),
{
    assert(0 < cols * rows <= 0xffff_ffff * 0xffff_ffff) by (nonlinear_arith)
        requires
            0 < cols <= 0xffff_ffff,
            0 < rows <= 0xffff_ffff,
    ;
    let cells: u64 = cols as u64 * rows as u64;
    assert(i as int % cells as int <= i) by (nonlinear_arith)
        requires
            cells > 0,
    ;
    (i as u64 % cells) as u32
}

/// What of the debug view is switched on: whether the view that culls stands still,
/// and whether that view and the bounds of the tiles are drawn.
#[derive(Copy, Clone, PartialEq, Eq, Debug, Structural)]
pub struct DebugView {
    pub frozen: bool,
    pub frustum: bool,
    pub bounds: bool,
}

impl DebugView {
    /// Nothing stands still, and the view would be drawn if it did.
    pub fn new() -> (view: Self)
        ensures
            view == (DebugView { frozen: false, frustum: true, bounds: false }),
    {
        DebugView { frozen: false, frustum: true, bounds: false }
    }

    /// Lets the view that culls stand still or go on, and tells whether that is a
    /// change.
    pub fn freeze(&mut self, frozen: bool) -> (changed: bool)
        ensures
            changed == (old(self).frozen != frozen),
            *final(self) == (DebugView { frozen, ..*old(self) }),
    {
        let changed: bool = self.frozen != frozen;
        self.frozen = frozen;
        changed
    }

    /// Whether the view that culls is drawn.
    pub fn draws_frustum(&self) -> (draws: bool)
        ensures
            draws == (self.frozen && self.frustum),
    {
        self.frozen && self.frustum
    }
}

/// Loading a model gives its slot the indices that came, and takes no instance away. There
/// are as many slots as it takes, and no other slot changes.
pub proof fn lemma_loading_keeps_instances(
    models: Seq<ModelSlot>,
    slot: nat,
    index_count: u32,
    other: int,
)
    ensures
        ({
            let after = models_uploaded(models, slot, index_count);
            &&& slot < after.len()
            &&& models.len() <= after.len()
            &&& after.len() == models.len() || after.len() == slot + 1
            &&& after[slot as int].index_count == index_count
            &&& slot < models.len() ==> after[slot as int].live == models[slot as int].live
            &&& slot >= models.len() ==> after[slot as int].live == 0
            &&& 0 <= other < models.len() && other != slot ==> after[other] == models[other]
            &&& models.len() <= other < after.len() && other != slot ==> after[other].index_count
                == 0 && after[other].live == 0
        }),
{
}

/// Every model that is not loaded is asked for under its number, from its URL and before any
/// tile, unless it was already. Nothing else is asked for.
pub proof fn lemma_unloaded_models_asked_for(
    pool: PoolView,
    urls: Seq<String>,
    models: Seq<ModelSlot>,
    n: nat,
    i: int,
    q: int,
)
    requires
        n <= urls.len(),
        n <= u32::MAX,
    ensures
        ({
            let after = models_asked(pool, urls, models, n);
            let key = TileKey { z: 255, x: i as u32, y: 0 };
            let request = after.queue[q];
            &&& after == (PoolView { queue: after.queue, ..pool })
            &&& pool.queue.len() <= after.queue.len()
            &&& after.queue.take(pool.queue.len() as int) == pool.queue
            &&& 0 <= i < n && (i >= models.len() || models[i].index_count == 0) ==> (exists|k: int|
                0 <= k < after.queue.len() && (#[trigger] after.queue[k]).kind == JobKind::Model
                    && after.queue[k].key == key) || (exists|k: int|
                0 <= k < pool.active.len() && (#[trigger] pool.active[k]).kind == JobKind::Model
                    && pool.active[k].key == key)
            &&& pool.queue.len() <= q < after.queue.len() ==> {
                &&& request.kind == JobKind::Model
                &&& request.key.z == 255 && request.key.y == 0
                &&& request.key.x < n
                &&& request.url == urls[request.key.x as int]@
                &&& request.extra_url.len() == 0
                &&& request.rank == 0
                &&& request.key.x >= models.len() || models[request.key.x as int].index_count == 0
            }
        }),
    decreases n,
{
    if n > 0 {
        let m = (n - 1) as nat;
        lemma_unloaded_models_asked_for(pool, urls, models, m, i, q);
        let before = models_asked(pool, urls, models, m);
        let after = models_asked(pool, urls, models, n);
        let request = model_request(n - 1, urls[n - 1]@);
        crate::stream::lemma_request_waits_last(before, request);
        assert(after.queue.take(pool.queue.len() as int) =~= pool.queue) by {
            assert(before.queue.take(pool.queue.len() as int) =~= pool.queue);
            assert forall|k: int| 0 <= k < pool.queue.len() implies after.queue[k]
                == #[trigger] pool.queue[k] by {
                assert(before.queue.take(pool.queue.len() as int)[k] == before.queue[k]);
            }
        }
        let key = TileKey { z: 255, x: i as u32, y: 0 };
        if exists|k: int|
            0 <= k < before.queue.len() && (#[trigger] before.queue[k]).kind == JobKind::Model
                && before.queue[k].key == key {
            let k = choose|k: int|
                0 <= k < before.queue.len() && (#[trigger] before.queue[k]).kind == JobKind::Model
                    && before.queue[k].key == key;
            assert(after.queue[k] == before.queue[k]);
        }
        if after.queue.len() > before.queue.len() {
            assert(after.queue[before.queue.len() as int] == request);
        }
    } else {
        assert(pool.queue.take(pool.queue.len() as int) =~= pool.queue);
    }
}

/// The instances of two lots of models together are those of the one and of the other, and
/// those of a single model are its own.
pub proof fn lemma_instances_add_up(a: Seq<ModelSlot>, b: Seq<ModelSlot>)
    ensures
        live_total(a + b) == live_total(a) + live_total(b),
        a.len() == 1 ==> live_total(a) == a[0].live,
    decreases b.len(),
{
    if b.len() > 0 {
        assert((a + b).drop_last() =~= a + b.drop_last());
        lemma_instances_add_up(a, b.drop_last());
    } else {
        assert(a + b =~= a);
    }
    if a.len() == 1 {
        reveal_with_fuel(live_total, 2);
        assert(a.drop_last() =~= Seq::empty());
    }
}

/// All of the first models are counted as loaded if and only if each of them has indices, and
/// none of them if none has.
pub proof fn lemma_loaded_counted(models: Seq<ModelSlot>, n: nat)
    ensures
        ready_count(models, n) <= n,
        ready_count(models, n) == n <==> forall|i: int|
            0 <= i < n ==> i < models.len() && (#[trigger] models[i]).index_count > 0,
        ready_count(models, n) == 0 <==> forall|i: int|
            0 <= i < n && i < models.len() ==> (#[trigger] models[i]).index_count == 0,
    decreases n,
{
    if n > 0 {
        let m = (n - 1) as nat;
        lemma_loaded_counted(models, m);
        let last = models[m as int];
        if model_ready(models, m as int) {
            assert(last.index_count > 0);
        } else if m < models.len() {
            assert(last.index_count == 0);
        }
    }
}

proof fn lemma_picture_byte(
    copied: Seq<u8>,
    size: nat,
    row: int,
    col: int,
    c: int,
    wide: int,
)
    requires
        0 <= row < size,
        0 <= col < size,
        0 <= c < 4,
        4 * size <= wide < 4 * size + 256,
        wide % 256 == 0,
    ensures
        picture_of(copied, size)[row * (4 * size) + 4 * col + c] == (if c == 3 {
            255
        } else {
            copied[row * wide + 4 * col + 2 - c]
        }),
{
    let i = row * (4 * size) + 4 * col + c;
    lemma_row_fits(row, size as int, wide);
    lemma_place_in_rows(row, 4 * col + c, 4 * size as int);
    assert(row * (4 * size) == 4 * (row * size)) by (nonlinear_arith);
    assert(i % 4 == c);
    assert(padded_row_of(size as int) == wide);
    assert((size * 4) as int == 4 * size as int);
    let s = row * wide + 4 * col + c;
    assert(i / (size * 4) as int * padded_row_of(size as int) + i % (size * 4) as int == s);
}

/// The pixel of a picture at a row and a column is the one that the device copied there, with
/// its red and its blue in each other's place, and opaque.
pub proof fn lemma_picture_pixel(copied: Seq<u8>, size: nat, row: int, col: int, wide: int)
    requires
        0 <= row < size,
        0 <= col < size,
        4 * size <= wide < 4 * size + 256,
        wide % 256 == 0,
    ensures
        ({
            let out = picture_of(copied, size);
            let from = row * wide + 4 * col;
            let at = row * (4 * size) + 4 * col;
            &&& out.len() == size * size * 4
            &&& 0 <= at < out.len() - 3
            &&& out[at] == copied[from + 2]
            &&& out[at + 1] == copied[from + 1]
            &&& out[at + 2] == copied[from]
            &&& out[at + 3] == 255
        }),
{
    lemma_row_fits(row, size as int, wide);
    lemma_picture_byte(copied, size, row, col, 0, wide);
    lemma_picture_byte(copied, size, row, col, 1, wide);
    lemma_picture_byte(copied, size, row, col, 2, wide);
    lemma_picture_byte(copied, size, row, col, 3, wide);
}

/// The icon sheet is asked for from its URL and before any tile, unless it was already.
pub proof fn lemma_icons_asked_for(pool: PoolView, url: Seq<char>)
    ensures
        ({
            let after = requested(pool, icon_request(url));
            let key = TileKey { z: 254, x: 0, y: 0 };
            let known = (exists|k: int|
                0 <= k < pool.queue.len() && (#[trigger] pool.queue[k]).kind == JobKind::Icon
                    && pool.queue[k].key == key) || (exists|k: int|
                0 <= k < pool.active.len() && (#[trigger] pool.active[k]).kind == JobKind::Icon
                    && pool.active[k].key == key);
            &&& known ==> after == pool
            &&& !known ==> {
                let request = after.queue.last();
                &&& after.queue.drop_last() == pool.queue
                &&& request.kind == JobKind::Icon && request.key == key && request.url == url
                &&& request.extra_url.len() == 0 && request.rank == 0
            }
        }),
{
    let request = icon_request(url);
    crate::stream::lemma_request_waits_last(pool, request);
    assert((pool.queue + seq![request]).drop_last() =~= pool.queue);
}

} // verus!
