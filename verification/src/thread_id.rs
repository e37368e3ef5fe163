//! Thread identifiers and the counter that hands them out.

use vstd::prelude::*;

verus! {

/// The raw value of a cell to which no identifier has been assigned yet.
/// It is never handed out as an identifier.
pub const UNASSIGNED: u32 = u32::MAX;

/// The identifier that a thread whose cell holds `cell` is known by, when
/// `issued` identifiers have been handed out so far: the cached one, or the
/// next fresh one if the cell is still unassigned.
pub open spec fn resolved(cell: nat, issued: nat) -> nat {
    if cell == UNASSIGNED {
        issued
    } else {
        cell
    }
}

/// How many identifiers have been handed out once a thread whose cell holds
/// `cell` has asked for its identifier.
pub open spec fn issued_after(cell: nat, issued: nat) -> nat {
    if cell == UNASSIGNED {
        issued + 1
    } else {
        issued
    }
}

/// The source of fresh identifiers, shared by all threads of a process.
#[derive(Debug)]
pub struct IdCounter {
    next: u32,
}

impl IdCounter {
    /// The number of identifiers handed out so far.
    pub closed spec fn view(&self) -> nat {
        self.next as nat
    }

    /// Whether every identifier has been handed out.
    pub open spec fn spec_is_exhausted(&self) -> bool {
        self@ >= UNASSIGNED
    }

    /// A counter that has handed out nothing.
    pub fn new() -> (counter: Self)
        ensures
            counter@ == 0,
    {
        IdCounter { next: 0 }
    }

    /// A counter that stands where a new one stands after `issued` calls of
    /// `ThreadId::next`: the next identifier it gives is `issued`.
    pub fn starting_at(issued: u32) -> (counter: Self)
        ensures
            counter@ == issued,
    {
        IdCounter { next: issued }
    }

    /// The number of identifiers handed out so far.
    pub fn issued(&self) -> (count: u32)
        ensures
            count == self@,
    {
        self.next
    }

    /// Whether every identifier has been handed out, so that no thread can
    /// be given a fresh one.
    #[verifier::when_used_as_spec(spec_is_exhausted)]
    pub fn is_exhausted(&self) -> (exhausted: bool)
        ensures
            exhausted == self.spec_is_exhausted(),
    {
        self.next == UNASSIGNED
    }
}

/// A small integer naming one thread of execution, or the marker of a cell
/// that has none yet.
#[derive(Clone, Copy, Debug, PartialEq, Eq, Hash, Structural)]
pub struct ThreadId(u32);

impl ThreadId {
    /// The raw value behind the identifier.
    pub closed spec fn view(&self) -> nat {
        self.0 as nat
    }

    /// Whether this is the marker of an unassigned cell.
    pub open spec fn spec_is_uninitialized(&self) -> bool {
        self@ == UNASSIGNED
    }

    /// Two identifiers with the same raw value are the same identifier, and
    /// a raw value fits in 32 bits.
    pub proof fn lemma_view(self, other: ThreadId)
        ensures
            self@ <= UNASSIGNED,
            self@ == other@ <==> self == other,
    {
    }

    /// The calling thread's identifier, where `cell` is that thread's cache
    /// and `counter` the counter of its process.  The first call assigns a
    /// fresh identifier and stores it in the cell; later calls read the cell
    /// and leave the counter alone.
    pub fn current(cell: &mut ThreadId, counter: &mut IdCounter) -> (id: ThreadId)
        requires
            !old(cell).is_uninitialized() || !old(counter).is_exhausted(),
        ensures
            id@ == resolved(old(cell)@, old(counter)@),
            !old(cell).is_uninitialized() ==> id == *old(cell),
            !id.is_uninitialized(),
            *final(cell) == id,
            final(counter)@ == issued_after(old(cell)@, old(counter)@),
    {
        let mut thread_id: ThreadId = *cell;

        if thread_id.is_uninitialized() {
            thread_id = ThreadId::next(counter);
            *cell = thread_id;
        }

        thread_id
    }

    /// Forgets the identifier cached in `cell`, so that the thread is given
    /// a fresh one when it next asks.  The counter is not involved: the
    /// forgotten identifier is not handed out again.
    pub fn clear(cell: &mut ThreadId)
        ensures
            final(cell).is_uninitialized(),
    {
        *cell = ThreadId::uninitialized();
    }

    /// The identifier as a 32-bit integer.
    pub fn as_u32(&self) -> (raw: u32)
        ensures
            raw == self@,
    {
        self.0
    }

    /// The identifier as an index.
    pub fn as_usize(&self) -> (raw: usize)
        ensures
            raw == self@,
    {
        self.0 as usize
    }

    /// The content of a cell before its thread has asked for an identifier.
    pub fn uninitialized() -> (cell: Self)
        ensures
            cell.is_uninitialized(),
    {
        ThreadId(UNASSIGNED)
    }

    /// Takes the next fresh identifier from `counter`.  Identifiers come out
    /// as 0, 1, 2, and so on, each exactly once.
    pub fn next(counter: &mut IdCounter) -> (id: Self)
        requires
            !old(counter).is_exhausted(),
        ensures
            id@ == old(counter)@,
            final(counter)@ == old(counter)@ + 1,
    {
        let raw: u32 = counter.next;
        counter.next = raw + 1;
        ThreadId(raw)
    }

    /// Whether this is the content of a cell that has no identifier yet.
    #[verifier::when_used_as_spec(spec_is_uninitialized)]
    pub fn is_uninitialized(&self) -> (unassigned: bool)
        ensures
            unassigned == self.spec_is_uninitialized(),
    {
        self.0 == UNASSIGNED
    }
}

} // verus!
