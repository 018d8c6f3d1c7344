//! Bookkeeping of what the graphics device is given: how many bytes go up per
//! frame, which slots of a fixed arena are taken, and when the surface changes.
use crate::text::{chars_of, join, text_of, trimmed};
#[allow(unused_imports)]
use crate::text::{joined, trimmed_of, views};
use vstd::prelude::*;

verus! {

/// How many bytes may be uploaded within one frame.
pub struct UploadBudget {
    pub bytes_per_frame: usize,
    pub spent: usize,
}

/// Whether an upload of `bytes` may go out when `spent` of `limit` are gone:
/// the first upload of a frame always may.
pub open spec fn upload_fits(limit: nat, spent: nat, bytes: nat) -> bool {
    spent == 0 || spent + bytes <= limit
}

/// What is spent after the uploads `sizes` were offered one by one to a fresh
/// frame, each taken only if it fits.
pub open spec fn spent_after(limit: nat, sizes: Seq<nat>) -> nat
    decreases sizes.len(),
{
    if sizes.len() == 0 {
        0
    } else {
        let before = spent_after(limit, sizes.drop_last());
        if upload_fits(limit, before, sizes.last()) {
            before + sizes.last()
        } else {
            before
        }
    }
}

/// A frame overruns its limit by one upload at the most: whatever is offered,
/// the bytes spent stay within the limit or are those of a single upload.
pub proof fn lemma_frame_overruns_by_one_upload(limit: nat, sizes: Seq<nat>)
    ensures
        spent_after(limit, sizes) <= limit || exists|i: int|
            0 <= i < sizes.len() && #[trigger] sizes[i] == spent_after(limit, sizes),
    decreases sizes.len(),
{
    if sizes.len() > 0 {
        let rest = sizes.drop_last();
        lemma_frame_overruns_by_one_upload(limit, rest);
        let before = spent_after(limit, rest);
        if before > limit {
            let i = choose|i: int| 0 <= i < rest.len() && #[trigger] rest[i] == before;
            assert(sizes[i] == before);
            if before == 0 {
                assert(sizes[sizes.len() - 1] == spent_after(limit, sizes));
            }
        } else if before == 0 {
            assert(sizes[sizes.len() - 1] == spent_after(limit, sizes));
        }
    }
}

impl View for UploadBudget {
    type V = nat;

    open spec fn view(&self) -> nat {
        self.spent as nat
    }
}

impl UploadBudget {
    /// The bytes that a frame may spend.
    pub open spec fn limit(&self) -> nat {
        self.bytes_per_frame as nat
    }

    pub fn new(bytes_per_frame: usize) -> (budget: Self)
        ensures
            budget.limit() == bytes_per_frame,
            budget@ == 0,
    {
        UploadBudget { bytes_per_frame, spent: 0 }
    }

    /// Starts a new frame.
    pub fn reset(&mut self)
        ensures
            final(self).limit() == old(self).limit(),
            final(self)@ == 0,
    {
        self.spent = 0;
    }

    pub fn fits(&self, bytes: usize) -> (fits: bool)
        ensures
            fits == upload_fits(self.limit(), self@, bytes as nat),
            fits == (self.spent == 0 || self.spent + bytes <= self.bytes_per_frame),
    {
        self.spent == 0 || (self.spent <= self.bytes_per_frame && bytes <= self.bytes_per_frame
            - self.spent)
    }

    /// The bytes that a frame may spend.
    pub fn bytes_per_frame(&self) -> (limit: usize)
        ensures
            limit == self.limit(),
    {
        self.bytes_per_frame
    }

    pub fn spent(&self) -> (spent: usize)
        ensures
            spent == self@,
    {
        self.spent
    }

    /// Takes `bytes` out of the budget if they fit, and says whether they did.
    pub fn take(&mut self, bytes: usize) -> (taken: bool)
        ensures
            final(self).limit() == old(self).limit(),
            taken == upload_fits(old(self).limit(), old(self)@, bytes as nat),
            taken == (old(self).spent == 0 || old(self).spent + bytes
                <= old(self).bytes_per_frame),
            final(self)@ == old(self)@ + (if taken {
                bytes as nat
            } else {
                0
            }),
    {
        if !self.fits(bytes) {
            return false;
        }
        self.spent = self.spent + bytes;
        true
    }
}

/// The slots of a fixed arena that are free, the next one to hand out last.
pub struct SlotAllocator {
    free: Vec<u32>,
    capacity: u32,
}

/// The free list of an allocator of `capacity` slots that has handed out none:
/// the lowest slot goes out first.
pub open spec fn all_slots(capacity: u32) -> Seq<u32> {
    Seq::new(capacity as nat, |i: int| (capacity - 1 - i) as u32)
}

/// Whether `free` lists slots of an arena of `capacity` slots, each once.
pub open spec fn slots_listed_once(free: Seq<u32>, capacity: u32) -> bool {
    &&& free.no_duplicates()
    &&& forall|i: int| 0 <= i < free.len() ==> #[trigger] free[i] < capacity
}

/// The free list after `slot` came back: a slot that is listed already is not
/// listed twice.
pub open spec fn slot_returned(free: Seq<u32>, slot: u32) -> Seq<u32> {
    if free.contains(slot) {
        free
    } else {
        free.push(slot)
    }
}

/// Slots below `capacity` that are listed once are at most `capacity` many.
pub proof fn lemma_listed_slots_fit(free: Seq<u32>, capacity: u32)
    requires
        slots_listed_once(free, capacity),
    ensures
        free.len() <= capacity,
{
    let all = vstd::set_lib::set_int_range(0, capacity as int);
    vstd::set_lib::lemma_int_range(0, capacity as int);
    let ints = free.map_values(|s: u32| s as int);
    assert(ints.no_duplicates());
    ints.unique_seq_to_set();
    assert(ints.to_set().subset_of(all));
    vstd::set_lib::lemma_len_subset(ints.to_set(), all);
}

/// A slot that came back is the next to be handed out, and handing it out
/// restores the free list.
pub proof fn lemma_returned_slot_goes_out_next(free: Seq<u32>, slot: u32)
    requires
        !free.contains(slot),
    ensures
        slot_returned(free, slot).last() == slot,
        slot_returned(free, slot).drop_last() =~= free,
{
}

/// A slot that was handed out is not handed out again before it comes back.
pub proof fn lemma_slot_goes_out_once(free: Seq<u32>)
    requires
        free.no_duplicates(),
        free.len() > 0,
    ensures
        !free.drop_last().contains(free.last()),
        free.drop_last().no_duplicates(),
{
}

impl View for SlotAllocator {
    type V = Seq<u32>;

    closed spec fn view(&self) -> Seq<u32> {
        self.free@
    }
}

impl SlotAllocator {
    /// The number of slots of the arena.
    pub closed spec fn slots(&self) -> u32 {
        self.capacity
    }

    /// Whether every free slot is one of the arena, and listed once.
    pub open spec fn wf(&self) -> bool {
        slots_listed_once(self@, self.slots())
    }

    /// An allocator of an arena of which no slot is taken.
    pub fn new(capacity: u32) -> (slots: Self)
        ensures
            slots@ == all_slots(capacity),
            slots.slots() == capacity,
            slots.wf(),
    {
        let mut free: Vec<u32> = Vec::new();
        let mut next: u32 = capacity;
        while next > 0
            invariant
                next <= capacity,
                free@.len() == capacity - next,
                forall|i: int| 0 <= i < free@.len() ==> #[trigger] free@[i] == capacity - 1 - i,
            decreases next,
        {
            next = next - 1;
            free.push(next);
        }
        assert(free@ =~= all_slots(capacity));
        SlotAllocator { free, capacity }
    }

    /// Hands out a slot, if one is free.
    pub fn allocate(&mut self) -> (slot: Option<u32>)
        ensures
            final(self).slots() == old(self).slots(),
            old(self)@.len() == 0 ==> slot is None && final(self)@ == old(self)@,
            old(self)@.len() > 0 ==> slot == Some(old(self)@.last()) && final(self)@
                == old(self)@.drop_last(),
            old(self).wf() ==> final(self).wf(),
    {
        self.free.pop()
    }

    /// Takes `slot` back.
    pub fn free(&mut self, slot: u32)
        ensures
            final(self).slots() == old(self).slots(),
            final(self)@ == slot_returned(old(self)@, slot),
            old(self).wf() && slot < old(self).slots() ==> final(self).wf(),
    {
        let mut i: usize = 0;
        while i < self.free.len()
            invariant
                i <= self.free@.len(),
                self.free@ == old(self)@,
                self.capacity == old(self).slots(),
                forall|j: int| 0 <= j < i ==> self.free@[j] != slot,
            decreases self.free@.len() - i,
        {
            if self.free[i] == slot {
                assert(self.free@.contains(slot));
                return;
            }
            i = i + 1;
        }
        self.free.push(slot);
    }

    pub fn capacity(&self) -> (capacity: u32)
        ensures
            capacity == self.slots(),
    {
        self.capacity
    }

    /// How many slots are taken.
    pub fn used(&self) -> (used: u32)
        requires
            self@.len() <= self.slots(),
        ensures
            used == self.slots() - self@.len(),
    {
        self.capacity - self.free.len() as u32
    }
}

/// The size of the surface that is drawn to.
#[derive(Copy, Clone, PartialEq, Eq, Debug, Structural)]
pub struct SurfaceSize {
    pub width: u32,
    pub height: u32,
}

impl SurfaceSize {
    /// The size of a surface for a canvas: a pixel at the least each way.
    pub fn of_canvas(width: u32, height: u32) -> (size: Self)
        ensures
            size.width == (if width > 0 {
                width
            } else {
                1
            }),
            size.height == (if height > 0 {
                height
            } else {
                1
            }),
    {
        SurfaceSize {
            width: if width > 0 {
                width
            } else {
                1
            },
            height: if height > 0 {
                height
            } else {
                1
            },
        }
    }

    /// Changes to another size, and tells whether there is a change: none to a size
    /// without pixels.
    pub fn resize(&mut self, width: u32, height: u32) -> (changed: bool)
        ensures
            changed == (width > 0 && height > 0 && *old(self) != (SurfaceSize { width, height })),
            *final(self) == (if changed {
                SurfaceSize { width, height }
            } else {
                *old(self)
            }),
    {
        if width == 0 || height == 0 {
            return false;
        }
        if self.width == width && self.height == height {
            return false;
        }
        self.width = width;
        self.height = height;
        true
    }
}

/// A character of a name that stands in quotes: a backslash becomes a space, and a
/// quote an apostrophe.
pub open spec fn plain_char(c: char) -> char {
    if c == '\\' {
        ' '
    } else if c == '"' {
        '\''
    } else {
        c
    }
}

/// The name of an adapter: the first of two that is more than white space, without
/// the white space around it, fit to stand in quotes.
pub open spec fn adapter_label_of(info: Seq<char>, webgpu: Seq<char>) -> Seq<char> {
    let name = if trimmed_of(info).len() > 0 {
        trimmed_of(info)
    } else if trimmed_of(webgpu).len() > 0 {
        trimmed_of(webgpu)
    } else {
        "unnamed"@
    };
    name.map_values(|c: char| plain_char(c))
}

/// The name of an adapter never ends the quotes that it stands in.
pub proof fn lemma_label_fits_quotes(info: Seq<char>, webgpu: Seq<char>)
    ensures
        adapter_label_of(info, webgpu).len() > 0,
        forall|i: int|
            0 <= i < adapter_label_of(info, webgpu).len() ==> #[trigger] adapter_label_of(
                info,
                webgpu,
            )[i] != '"' && adapter_label_of(info, webgpu)[i] != '\\',
{
    reveal_strlit("unnamed");
    assert("unnamed"@.len() == 7);
}

/// The name of an adapter, from what the device and the browser call it.
pub fn adapter_label(info: &str, webgpu: &str) -> (label: String)
    ensures
        label@ == adapter_label_of(info@, webgpu@),
{
    let first: Vec<char> = trimmed(&chars_of(info));
    let second: Vec<char> = trimmed(&chars_of(webgpu));
    let name: Vec<char> = if first.len() > 0 {
        first
    } else if second.len() > 0 {
        second
    } else {
        chars_of("unnamed")
    };
    let ghost all = name@.map_values(|c: char| plain_char(c));
    let mut plain: Vec<char> = Vec::new();
    let mut i: usize = 0;
    while i < name.len()
        invariant
            i <= name@.len(),
            all == name@.map_values(|c: char| plain_char(c)),
            plain@ == all.take(i as int),
        decreases name@.len() - i,
    {
        let c: char = name[i];
        plain.push(
            if c == '\\' {
                ' '
            } else if c == '"' {
                '\''
            } else {
                c
            },
        );
        i = i + 1;
        assert(plain@ =~= all.take(i as int));
    }
    assert(all.take(i as int) =~= all);
    text_of(&plain)
}

/// Those of three texts that say something.
pub open spec fn said(a: Seq<char>, b: Seq<char>, c: Seq<char>) -> Seq<Seq<char>> {
    let none = Seq::<Seq<char>>::empty();
    let first = if a.len() > 0 {
        none.push(a)
    } else {
        none
    };
    let second = if b.len() > 0 {
        first.push(b)
    } else {
        first
    };
    if c.len() > 0 {
        second.push(c)
    } else {
        second
    }
}

/// What the browser calls an adapter: its vendor, architecture and device, as far
/// as they are given.
pub fn adapter_name(vendor: String, architecture: String, device: String) -> (name: String)
    ensures
        name@ == joined(said(vendor@, architecture@, device@), " "@),
{
    let mut parts: Vec<String> = Vec::new();
    assert(views(parts@) =~= Seq::empty());
    let ghost none = views(parts@);
    let vendor_said: bool = chars_of(vendor.as_str()).len() > 0;
    if vendor_said {
        let ghost spelled = vendor@;
        parts.push(vendor);
        assert(views(parts@) =~= none.push(spelled));
    }
    let ghost first = views(parts@);
    let architecture_said: bool = chars_of(architecture.as_str()).len() > 0;
    if architecture_said {
        let ghost spelled = architecture@;
        parts.push(architecture);
        assert(views(parts@) =~= first.push(spelled));
    }
    let ghost second = views(parts@);
    let device_said: bool = chars_of(device.as_str()).len() > 0;
    if device_said {
        let ghost spelled = device@;
        parts.push(device);
        assert(views(parts@) =~= second.push(spelled));
    }
    join(&parts, " ")
}

/// Of an arena of which nothing is taken, the slots go out from the lowest to the highest:
/// after `k` went out, `k` is next.
pub proof fn lemma_slots_go_out_in_order(capacity: u32, k: u32)
    requires
        k < capacity,
    ensures
        all_slots(capacity).len() == capacity,
        all_slots(capacity).take(capacity - k).last() == k,
{
}

/// A slot that is free already is not listed a second time, and all that were free still
/// are.
pub proof fn lemma_slot_comes_back(free: Seq<u32>, slot: u32, other: u32)
    ensures
        free.contains(slot) ==> slot_returned(free, slot) == free,
        slot_returned(free, slot).contains(other) <==> free.contains(other) || other == slot,
        free.no_duplicates() ==> slot_returned(free, slot).no_duplicates(),
{
    let after = slot_returned(free, slot);
    if !free.contains(slot) {
        assert(after[after.len() - 1] == slot);
        if free.contains(other) {
            let i = choose|i: int| 0 <= i < free.len() && free[i] == other;
            assert(after[i] == other);
        }
    }
}

/// The name of an adapter is what the device calls it, else what the browser calls it,
/// character by character but for those that cannot stand in quotes.
pub proof fn lemma_label_is_name(info: Seq<char>, webgpu: Seq<char>, i: int)
    requires
        0 <= i < adapter_label_of(info, webgpu).len(),
    ensures
        ({
            let label = adapter_label_of(info, webgpu);
            let name = if trimmed_of(info).len() > 0 {
                trimmed_of(info)
            } else if trimmed_of(webgpu).len() > 0 {
                trimmed_of(webgpu)
            } else {
                seq!['u', 'n', 'n', 'a', 'm', 'e', 'd']
            };
            &&& label.len() == name.len()
            &&& name[i] != '\\' && name[i] != '"' ==> label[i] == name[i]
            &&& name[i] == '\\' ==> label[i] == ' '
            &&& name[i] == '"' ==> label[i] == '\''
        }),
{
    reveal_strlit("unnamed");
    assert("unnamed"@ =~= seq!['u', 'n', 'n', 'a', 'm', 'e', 'd']);
}

/// What the browser calls an adapter are its vendor, architecture and device in this order,
/// with a space between any two that are given.
pub proof fn lemma_name_says_all(vendor: Seq<char>, architecture: Seq<char>, device: Seq<char>)
    ensures
        joined(said(vendor, architecture, device), " "@) == vendor + (if vendor.len() > 0
            && architecture.len() > 0 {
            seq![' ']
        } else {
            Seq::empty()
        }) + architecture + (if device.len() > 0 && (vendor.len() > 0 || architecture.len() > 0) {
            seq![' ']
        } else {
            Seq::empty()
        }) + device,
{
    reveal_strlit(" ");
    assert(" "@ =~= seq![' ']);
    let sep = seq![' '];
    let all = said(vendor, architecture, device);
    let first = seq![vendor];
    let second = seq![architecture];
    let third = seq![device];
    crate::text::lemma_joined_in_parts(first, second, sep);
    crate::text::lemma_joined_in_parts(first, third, sep);
    crate::text::lemma_joined_in_parts(second, third, sep);
    crate::text::lemma_joined_in_parts(third, third, sep);
    crate::text::lemma_joined_in_parts(first + second, third, sep);
    let spelled = vendor + (if vendor.len() > 0 && architecture.len() > 0 {
        sep
    } else {
        Seq::empty()
    }) + architecture + (if device.len() > 0 && (vendor.len() > 0 || architecture.len() > 0) {
        sep
    } else {
        Seq::empty()
    }) + device;
    if vendor.len() > 0 && architecture.len() > 0 && device.len() > 0 {
        assert(all =~= first + second + third);
    } else if vendor.len() > 0 && architecture.len() > 0 {
        assert(all =~= first + second);
    } else if vendor.len() > 0 && device.len() > 0 {
        assert(all =~= first + third);
    } else if architecture.len() > 0 && device.len() > 0 {
        assert(all =~= second + third);
    } else if vendor.len() > 0 {
        assert(all =~= first);
    } else if architecture.len() > 0 {
        assert(all =~= second);
    } else if device.len() > 0 {
        assert(all =~= third);
    }
    assert(joined(all, sep) =~= spelled);
}

} // verus!
