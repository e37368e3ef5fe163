//! A growable table that holds one value per thread identifier.

use vstd::prelude::*;
use crate::table_model::first_access;
use crate::table_model::grown;
use crate::table_model::id_space;
use crate::table_model::lemma_populated_below;
use crate::table_model::lemma_populated_below_extends;
use crate::table_model::populated;
use crate::table_model::populated_below;
use crate::thread_id::issued_after;
use crate::thread_id::resolved;
use crate::thread_id::IdCounter;
use crate::thread_id::ThreadId;

verus! {

/// The number of slots in one segment of a table.
pub const SEGMENT_SIZE: usize = 32;

/// Whether `slots`, taken as the run of slots that starts at identifier
/// `base`, holds what `view` says of those identifiers.
spec fn mirrors<T>(view: Map<nat, T>, base: nat, slots: Seq<Option<T>>) -> bool {
    forall|i: int|
        0 <= i < slots.len() ==> match #[trigger] slots[i] {
            Some(value) => view.contains_key((base + i) as nat) && view[(base + i) as nat]
                == value,
            None => !view.contains_key((base + i) as nat),
        }
}

/// One value per thread identifier, created when the thread first asks.
///
/// Storage is a directory of segments of `SEGMENT_SIZE` slots each.  A
/// segment is allocated when an identifier that falls into it first appears,
/// and is never moved, shrunk or dropped while the table lives.
pub struct SlotTable<T> {
    segments: Vec<Vec<Option<T>>>,
}

impl<T> SlotTable<T> {
    /// Every segment of the directory has its full size, and the directory
    /// covers no more slots than there are identifiers.
    pub closed spec fn wf(&self) -> bool {
        &&& self.segments@.len() * SEGMENT_SIZE <= id_space()
        &&& forall|s: int|
            0 <= s < self.segments@.len() ==> (#[trigger] self.segments@[s])@.len()
                == SEGMENT_SIZE
    }

    /// The number of segments allocated so far.
    pub closed spec fn segment_count(&self) -> nat {
        self.segments@.len()
    }

    /// The content of the slot that belongs to identifier `id`.
    spec fn slot(&self, id: nat) -> Option<T> {
        let s = id as int / SEGMENT_SIZE as int;
        if s < self.segments@.len() {
            self.segments@[s]@[id as int % SEGMENT_SIZE as int]
        } else {
            None
        }
    }

    /// The populated slots: each identifier that has a value, with that value.
    pub closed spec fn view(&self) -> Map<nat, T> {
        Map::new(|id: nat| self.slot(id) is Some, |id: nat| self.slot(id)->0)
    }

    /// An empty table.
    pub fn new() -> (table: Self)
        ensures
            table.wf(),
            table@ == Map::<nat, T>::empty(),
            table.segment_count() == 0,
    {
        SlotTable { segments: Vec::new() }
    }

    /// The number of segments allocated so far.
    pub fn segments(&self) -> (count: usize)
        ensures
            count == self.segment_count(),
    {
        self.segments.len()
    }

    /// The identifier of every populated slot is a raw value that a
    /// `ThreadId` can have.
    pub proof fn lemma_view_within_id_space(&self)
        requires
            self.wf(),
        ensures
            forall|id: nat| self@.contains_key(id) ==> id < id_space(),
    {
        self.lemma_segments_mirror_view();
    }

    /// The slot of the thread whose cache is `cell`, in a process whose
    /// counter is `counter`.  The thread is given an identifier first if it
    /// has none.  `init` makes the slot's first value; it runs only if this is
    /// the thread's first access to this table.
    pub fn get_or<F: FnOnce() -> T>(
        &mut self,
        cell: &mut ThreadId,
        counter: &mut IdCounter,
        init: F,
    ) -> (slot: &mut T)
        requires
            old(self).wf(),
            !old(cell).is_uninitialized() || !old(counter).is_exhausted(),
            first_access(old(self)@, resolved(old(cell)@, old(counter)@)) ==> init.requires(()),
        ensures
            final(self).wf(),
            final(cell)@ == resolved(old(cell)@, old(counter)@),
            final(counter)@ == issued_after(old(cell)@, old(counter)@),
            first_access(old(self)@, final(cell)@) ==> init.ensures((), *slot),
            !first_access(old(self)@, final(cell)@) ==> *slot == old(self)@[final(cell)@],
            final(self)@ == old(self)@.insert(final(cell)@, *final(slot)),
            final(self).segment_count() == grown(old(self).segment_count(), final(cell)@),
    {
        let id: ThreadId = ThreadId::current(cell, counter);
        self.get_or_for(id, init)
    }

    /// The slot that belongs to identifier `id`.  `init` makes the slot's
    /// first value; it runs only if the slot is empty, and the slot is filled
    /// only once `init` has returned.  Nothing is asked of `init` when the
    /// slot already has a value, so it cannot be called then.  No other slot
    /// changes, whether or not the table has to grow.
    pub fn get_or_for<F: FnOnce() -> T>(&mut self, id: ThreadId, init: F) -> (slot: &mut T)
        requires
            old(self).wf(),
            first_access(old(self)@, id@) ==> init.requires(()),
        ensures
            final(self).wf(),
            first_access(old(self)@, id@) ==> init.ensures((), *slot),
            !first_access(old(self)@, id@) ==> *slot == old(self)@[id@],
            final(self)@ == old(self)@.insert(id@, *final(slot)),
            final(self).segment_count() == grown(old(self).segment_count(), id@),
    {
        let entry: &mut Option<T> = self.entry(id);
        if entry.is_none() {
            let value: T = init();
            entry.insert(value)
        } else {
            entry.as_mut().unwrap()
        }
    }

    /// As `get_or`, with an initializer that may fail.  A failure is handed
    /// to the caller and leaves the slot empty, so that a later access is a
    /// first access again.  The thread keeps the identifier it was given.
    pub fn get_or_try<E, F: FnOnce() -> Result<T, E>>(
        &mut self,
        cell: &mut ThreadId,
        counter: &mut IdCounter,
        init: F,
    ) -> (outcome: Result<&mut T, E>)
        requires
            old(self).wf(),
            !old(cell).is_uninitialized() || !old(counter).is_exhausted(),
            first_access(old(self)@, resolved(old(cell)@, old(counter)@)) ==> init.requires(()),
        ensures
            final(self).wf(),
            final(cell)@ == resolved(old(cell)@, old(counter)@),
            final(counter)@ == issued_after(old(cell)@, old(counter)@),
            final(self).segment_count() == grown(old(self).segment_count(), final(cell)@),
            !first_access(old(self)@, final(cell)@) ==> outcome is Ok,
            match outcome {
                Ok(slot) => {
                    &&& first_access(old(self)@, final(cell)@) ==> init.ensures((), Ok(*slot))
                    &&& !first_access(old(self)@, final(cell)@) ==> *slot
                        == old(self)@[final(cell)@]
                    &&& final(self)@ == old(self)@.insert(final(cell)@, *final(slot))
                },
                Err(error) => {
                    &&& init.ensures((), Err(error))
                    &&& final(self)@ == old(self)@
                },
            },
    {
        let id: ThreadId = ThreadId::current(cell, counter);
        self.get_or_try_for(id, init)
    }

    /// As `get_or_for`, with an initializer that may fail.  A failure is
    /// handed to the caller and leaves every slot as it was.
    pub fn get_or_try_for<E, F: FnOnce() -> Result<T, E>>(
        &mut self,
        id: ThreadId,
        init: F,
    ) -> (outcome: Result<&mut T, E>)
        requires
            old(self).wf(),
            first_access(old(self)@, id@) ==> init.requires(()),
        ensures
            final(self).wf(),
            final(self).segment_count() == grown(old(self).segment_count(), id@),
            !first_access(old(self)@, id@) ==> outcome is Ok,
            match outcome {
                Ok(slot) => {
                    &&& first_access(old(self)@, id@) ==> init.ensures((), Ok(*slot))
                    &&& !first_access(old(self)@, id@) ==> *slot == old(self)@[id@]
                    &&& final(self)@ == old(self)@.insert(id@, *final(slot))
                },
                Err(error) => {
                    &&& init.ensures((), Err(error))
                    &&& final(self)@ == old(self)@
                },
            },
    {
        let entry: &mut Option<T> = self.entry(id);
        if entry.is_none() {
            match init() {
                Ok(value) => Ok(entry.insert(value)),
                Err(error) => Err(error),
            }
        } else {
            Ok(entry.as_mut().unwrap())
        }
    }

    /// The slot that belongs to identifier `id`, after the directory has
    /// grown to hold it.  The other slots stay as they are.
    fn entry(&mut self, id: ThreadId) -> (entry: &mut Option<T>)
        requires
            old(self).wf(),
        ensures
            final(self).wf(),
            final(self).segment_count() == grown(old(self).segment_count(), id@),
            *entry == old(self).slot(id@),
            final(self).slot(id@) == *final(entry),
            forall|other: nat| other != id@ ==> final(self).slot(other) == old(self).slot(other),
    {
        proof {
            id.lemma_view(id);
        }
        let index: usize = id.as_usize();
        let segment: usize = index / SEGMENT_SIZE;
        let offset: usize = index % SEGMENT_SIZE;
        self.grow(segment);
        &mut self.segments[segment][offset]
    }

    /// Extends the directory until segment `wanted` exists.  The new
    /// segments are empty and the old ones stay as they are.
    fn grow(&mut self, wanted: usize)
        requires
            old(self).wf(),
            (wanted + 1) * SEGMENT_SIZE <= id_space(),
        ensures
            final(self).wf(),
            final(self).segments@.len() == if old(self).segments@.len() > wanted {
                old(self).segments@.len()
            } else {
                (wanted + 1) as nat
            },
            forall|id: nat| final(self).slot(id) == old(self).slot(id),
    {
        while self.segments.len() <= wanted
            invariant
                self.wf(),
                (wanted + 1) * SEGMENT_SIZE <= id_space(),
                self.segments@.len() == old(self).segments@.len() || self.segments@.len()
                    <= wanted + 1,
                self.segments@.len() >= old(self).segments@.len(),
                forall|id: nat| self.slot(id) == old(self).slot(id),
            decreases wanted + 1 - self.segments.len(),
        {
            let fresh: Vec<Option<T>> = Self::empty_segment();
            self.segments.push(fresh);
        }
    }

    /// A reference to the value of every populated slot, in ascending order
    /// of identifier.  The table keeps the same populated slots; what is
    /// written through a reference is what its slot holds afterwards.
    pub fn iter_mut(&mut self) -> (slots: Vec<&mut T>)
        requires
            old(self).wf(),
        ensures
            final(self).wf(),
            final(self).segment_count() == old(self).segment_count(),
            final(self)@.dom() == old(self)@.dom(),
            slots@.len() == populated(old(self)@).len(),
            forall|k: int|
                0 <= k < slots@.len() ==> *(#[trigger] slots@[k]) == old(self)@[populated(
                    old(self)@,
                )[k]],
            forall|k: int|
                0 <= k < slots@.len() ==> final(self)@[populated(old(self)@)[k]]
                    == *final(#[trigger] slots@[k]),
    {
        let ghost view = self@;
        let ghost before = self.segments@;
        let ghost end = *final(self);
        proof {
            self.lemma_segments_mirror_view();
        }
        let mut out: Vec<&mut T> = Vec::new();
        let mut rest: &mut [Vec<Option<T>>] = self.segments.as_mut_slice();
        let ghost after = final(rest)@;
        while rest.len() > 0
            invariant
                // The table as it was on entry.
                before.len() * SEGMENT_SIZE <= id_space(),
                forall|s: int|
                    0 <= s < before.len() ==> (#[trigger] before[s])@.len() == SEGMENT_SIZE,
                forall|s: int|
                    0 <= s < before.len() ==> mirrors(
                        view,
                        (s * SEGMENT_SIZE) as nat,
                        (#[trigger] before[s])@,
                    ),
                // `rest` is the segments that are still to be visited.
                rest@.len() <= before.len(),
                forall|j: int|
                    0 <= j < rest@.len() ==> rest@[j] == before[before.len() - rest@.len() + j],
                // `out` lists the populated slots of the segments visited.
                out@.len() == populated_below(
                    view,
                    ((before.len() - rest@.len()) * SEGMENT_SIZE) as nat,
                ).len(),
                forall|k: int|
                    0 <= k < out@.len() ==> *(#[trigger] out@[k]) == view[populated_below(
                        view,
                        ((before.len() - rest@.len()) * SEGMENT_SIZE) as nat,
                    )[k]],
                // What the directory holds in the end: the visited segments
                // with whatever is written through `out`, then what becomes
                // of `rest`.
                after.len() == before.len() - rest@.len() + final(rest)@.len(),
                forall|s: int|
                    0 <= s < before.len() - rest@.len() ==> (#[trigger] after[s])@.len()
                        == SEGMENT_SIZE,
                forall|s: int, i: int|
                    0 <= s < before.len() - rest@.len() && 0 <= i < SEGMENT_SIZE && before[s]@[i]
                        is None ==> (#[trigger] after[s]@[i]) is None,
                forall|k: int|
                    0 <= k < out@.len() ==> (#[trigger] populated_below(
                        view,
                        ((before.len() - rest@.len()) * SEGMENT_SIZE) as nat,
                    )[k]) < (before.len() - rest@.len()) * SEGMENT_SIZE,
                forall|k: int|
                    0 <= k < out@.len() ==> ({
                        let id = populated_below(
                            view,
                            ((before.len() - rest@.len()) * SEGMENT_SIZE) as nat,
                        )[k] as int;
                        after[id / SEGMENT_SIZE as int]@[id % SEGMENT_SIZE as int]
                    }) == Some(*final(#[trigger] out@[k])),
                forall|j: int|
                    0 <= j < final(rest)@.len() ==> after[before.len() - rest@.len() + j]
                        == final(rest)@[j],
            decreases rest.len(),
        {
            let ghost done: nat = (before.len() - rest@.len()) as nat;
            let ghost base: nat = done * SEGMENT_SIZE as nat;
            let ghost rest_after = final(rest)@;
            let (head, tail) = rest.split_at_mut(1);
            let ghost head_after = final(head)@;
            let ghost tail_after = final(tail)@;
            let segment: &mut [Option<T>] = head[0].as_mut_slice();
            Self::collect_segment(segment, &mut out, Ghost(view), Ghost(base));
            proof {
                lemma_populated_below_extends(view, base, base + SEGMENT_SIZE as nat);
            }
            assert(after[done as int] == head_after[0]) by {
                assert(rest_after[0] == head_after[0]);
            }
            rest = tail;
            assert forall|j: int| 0 <= j < final(rest)@.len() implies after[before.len()
                - rest@.len() + j] == final(rest)@[j] by {
                assert(rest_after[j + 1] == tail_after[j]);
            }
        }
        proof {
            let capacity: nat = before.len() * SEGMENT_SIZE as nat;
            let listing = populated_below(view, capacity);
            lemma_populated_below(view, capacity);
            lemma_populated_below_extends(view, capacity, id_space());
            assert forall|id: nat| end@.contains_key(id) <==> view.contains_key(id) by {
                if id < capacity {
                    let s = id as int / SEGMENT_SIZE as int;
                    let i = id as int % SEGMENT_SIZE as int;
                    if before[s]@[i] is Some {
                        let k = choose|k: int| 0 <= k < listing.len() && listing[k] == id;
                        assert(after[s]@[i] == Some(*final(out@[k])));
                    } else {
                        assert(after[s]@[i] is None);
                    }
                }
            }
        }
        out
    }

    /// Each segment holds what the view says of the identifiers it covers,
    /// and the view has no identifier beyond the last segment.
    proof fn lemma_segments_mirror_view(&self)
        requires
            self.wf(),
        ensures
            forall|s: int|
                0 <= s < self.segments@.len() ==> mirrors(
                    self@,
                    (s * SEGMENT_SIZE) as nat,
                    (#[trigger] self.segments@[s])@,
                ),
            forall|id: nat| self@.contains_key(id) ==> id < self.segments@.len() * SEGMENT_SIZE,
    {
    }

    /// Appends to `out` a reference to every value in `slots`, in order.
    /// `slots` is the run of slots that starts at identifier `base` of a
    /// table whose populated slots are `view`, and `out` already lists the
    /// populated slots below `base`.
    fn collect_segment<'a>(
        slots: &'a mut [Option<T>],
        out: &mut Vec<&'a mut T>,
        Ghost(view): Ghost<Map<nat, T>>,
        Ghost(base): Ghost<nat>,
    )
        requires
            mirrors(view, base, old(slots)@),
            old(out)@.len() == populated_below(view, base).len(),
        ensures
            final(slots)@.len() == old(slots)@.len(),
            final(out)@.len() == populated_below(view, base + old(slots)@.len()).len(),
            forall|k: int| 0 <= k < old(out)@.len() ==> #[trigger] final(out)@[k] == old(out)@[k],
            forall|k: int|
                old(out)@.len() <= k < final(out)@.len() ==> *(#[trigger] final(out)@[k])
                    == view[populated_below(view, base + old(slots)@.len())[k]],
            forall|i: int|
                0 <= i < old(slots)@.len() && old(slots)@[i] is None ==> final(slots)@[i] is None,
            forall|k: int|
                old(out)@.len() <= k < final(out)@.len() ==> base <= (#[trigger] populated_below(
                    view,
                    base + old(slots)@.len(),
                )[k]) < base + old(slots)@.len(),
            forall|k: int|
                old(out)@.len() <= k < final(out)@.len() ==> final(slots)@[populated_below(
                    view,
                    base + old(slots)@.len(),
                )[k] - base] == Some(*final(#[trigger] final(out)@[k])),
    {
        let ghost before = slots@;
        let ghost listed = out@;
        let ghost after = final(slots)@;
        let mut rest: &mut [Option<T>] = slots;
        while rest.len() > 0
            invariant
                mirrors(view, base, before),
                listed.len() == populated_below(view, base).len(),
                // `rest` is the slots that are still to be visited.
                rest@.len() <= before.len(),
                forall|j: int|
                    0 <= j < rest@.len() ==> rest@[j] == before[before.len() - rest@.len() + j],
                // `out` is what it was, then the populated slots visited.
                out@.len() == populated_below(
                    view,
                    (base + before.len() - rest@.len()) as nat,
                ).len(),
                listed.len() <= out@.len(),
                forall|k: int| 0 <= k < listed.len() ==> #[trigger] out@[k] == listed[k],
                forall|k: int|
                    listed.len() <= k < out@.len() ==> *(#[trigger] out@[k])
                        == view[populated_below(
                        view,
                        (base + before.len() - rest@.len()) as nat,
                    )[k]],
                // What the segment holds in the end: the visited slots with
                // whatever is written through `out`, then what becomes of
                // `rest`.
                after.len() == before.len() - rest@.len() + final(rest)@.len(),
                forall|i: int|
                    0 <= i < before.len() - rest@.len() && before[i] is None ==> after[i] is None,
                forall|k: int|
                    listed.len() <= k < out@.len() ==> base <= (#[trigger] populated_below(
                        view,
                        (base + before.len() - rest@.len()) as nat,
                    )[k]) < base + before.len() - rest@.len(),
                forall|k: int|
                    listed.len() <= k < out@.len() ==> after[populated_below(
                        view,
                        (base + before.len() - rest@.len()) as nat,
                    )[k] - base] == Some(*final(#[trigger] out@[k])),
                forall|j: int|
                    0 <= j < final(rest)@.len() ==> after[before.len() - rest@.len() + j]
                        == final(rest)@[j],
            decreases rest.len(),
        {
            let ghost done: nat = (before.len() - rest@.len()) as nat;
            let ghost rest_after = final(rest)@;
            let ghost lower = populated_below(view, base + done);
            let (head, tail) = rest.split_at_mut(1);
            let ghost head_after = final(head)@;
            let ghost tail_after = final(tail)@;
            match head[0].as_mut() {
                Some(value) => {
                    out.push(value);
                    assert(after[done as int] == Some(*final(out@[lower.len() as int]))) by {
                        assert(rest_after[0] == head_after[0]);
                    }
                },
                None => {
                    assert(after[done as int] is None) by {
                        assert(rest_after[0] == head_after[0]);
                    }
                },
            }
            rest = tail;
            assert forall|j: int| 0 <= j < final(rest)@.len() implies after[before.len()
                - rest@.len() + j] == final(rest)@[j] by {
                assert(rest_after[j + 1] == tail_after[j]);
            }
        }
    }

    /// A segment in which no slot has a value.
    fn empty_segment() -> (segment: Vec<Option<T>>)
        ensures
            segment@.len() == SEGMENT_SIZE,
            forall|k: int| 0 <= k < SEGMENT_SIZE ==> segment@[k] is None,
    {
        let mut segment: Vec<Option<T>> = Vec::with_capacity(SEGMENT_SIZE);
        let mut filled: usize = 0;
        while filled < SEGMENT_SIZE
            invariant
                filled <= SEGMENT_SIZE,
                segment@.len() == filled,
                forall|k: int| 0 <= k < filled ==> segment@[k] is None,
            decreases SEGMENT_SIZE - filled,
        {
            segment.push(None);
            filled += 1;
        }
        segment
    }
}

} // verus!
