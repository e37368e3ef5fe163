//! The identity state of a whole process, and what holds of it whatever its
//! threads do.
//!
//! A process is its counter together with the cell of every thread.  Threads
//! ask for their identifier and forget it again in any order; each such call
//! is one step, and changes the counter and the caller's cell exactly as
//! `ThreadId::current` and `ThreadId::clear` do.

use vstd::prelude::*;
use crate::table_model::id_space;
use crate::thread_id::UNASSIGNED;
use crate::thread_id::issued_after;
use crate::thread_id::resolved;

verus! {

/// What a thread asks for.
pub enum Request {
    /// Its identifier, as `ThreadId::current` gives it.
    Current,
    /// That its cached identifier be forgotten, as `ThreadId::clear` does.
    Clear,
}

/// One call, made by the thread that is numbered `thread`.
pub struct Call {
    pub thread: nat,
    pub request: Request,
}

/// The counter and the cells of a process, by their raw values.
pub struct Process {
    /// The number of identifiers handed out so far.
    pub issued: nat,
    /// What each thread's cell holds.  The cell of a thread that is not
    /// listed is unassigned.
    pub cells: Map<nat, nat>,
}

impl Process {
    /// A process in which no thread has asked for anything yet.
    pub open spec fn start() -> Process {
        Process { issued: 0, cells: Map::empty() }
    }

    /// What the cell of `thread` holds.
    pub open spec fn cell(self, thread: nat) -> nat {
        if self.cells.contains_key(thread) {
            self.cells[thread]
        } else {
            UNASSIGNED as nat
        }
    }

    /// The identifier that `thread` is given if it asks now.
    pub open spec fn answer(self, thread: nat) -> nat {
        resolved(self.cell(thread), self.issued)
    }

    /// Whether `call` may be made now: a thread without an identifier cannot
    /// ask for one once all have been handed out.
    pub open spec fn permits(self, call: Call) -> bool {
        call.request is Current ==> self.cell(call.thread) != UNASSIGNED || self.issued
            < UNASSIGNED
    }

    /// The process once `call` has been made.
    pub open spec fn after(self, call: Call) -> Process {
        match call.request {
            Request::Current => Process {
                issued: issued_after(self.cell(call.thread), self.issued),
                cells: self.cells.insert(call.thread, self.answer(call.thread)),
            },
            Request::Clear => Process {
                issued: self.issued,
                cells: self.cells.insert(call.thread, UNASSIGNED as nat),
            },
        }
    }

    /// The process once `calls` have been made in turn, from the start.
    pub open spec fn run(calls: Seq<Call>) -> Process
        decreases calls.len(),
    {
        if calls.len() == 0 {
            Process::start()
        } else {
            Process::run(calls.drop_last()).after(calls.last())
        }
    }

    /// Whether each of `calls` may be made when its turn comes.
    pub open spec fn admits(calls: Seq<Call>) -> bool
        decreases calls.len(),
    {
        calls.len() == 0 || (Process::admits(calls.drop_last()) && Process::run(
            calls.drop_last(),
        ).permits(calls.last()))
    }

    /// The identifier given in answer to call number `at` of `calls`.
    pub open spec fn answered(calls: Seq<Call>, at: int) -> nat {
        Process::run(calls.take(at)).answer(calls[at].thread)
    }

    /// The identifiers that `calls` took fresh from the counter, in the
    /// order in which they were taken.
    pub open spec fn handed_out(calls: Seq<Call>) -> Seq<nat>
        decreases calls.len(),
    {
        if calls.len() == 0 {
            Seq::empty()
        } else {
            let earlier = Process::handed_out(calls.drop_last());
            let before = Process::run(calls.drop_last());
            let last = calls.last();
            if last.request is Current && before.cell(last.thread) == UNASSIGNED {
                earlier.push(before.answer(last.thread))
            } else {
                earlier
            }
        }
    }

    /// What holds of every process that can be reached: no more identifiers
    /// are out than exist, every cached identifier has been handed out, and
    /// no two threads cache the same one.
    pub open spec fn sound(self) -> bool {
        &&& self.issued <= UNASSIGNED
        &&& forall|t: nat| #[trigger] self.cell(t) != UNASSIGNED ==> self.cell(t) < self.issued
        &&& forall|a: nat, b: nat|
            a != b && #[trigger] self.cell(a) != UNASSIGNED ==> self.cell(a)
                != #[trigger] self.cell(b)
    }

    /// Identifier `id` has been handed out and no thread but `thread` has it.
    spec fn foreign_to_others(self, thread: nat, id: nat) -> bool {
        &&& id < self.issued
        &&& forall|b: nat| b != thread ==> #[trigger] self.cell(b) != id
    }

    /// Identifier `id` has been handed out, no thread has it, and `thread`
    /// has either nothing or a later identifier.
    spec fn left_behind(self, thread: nat, id: nat) -> bool {
        &&& self.foreign_to_others(thread, id)
        &&& self.cell(thread) == UNASSIGNED || self.cell(thread) > id
    }
}

/// A permitted call keeps a process sound.
pub proof fn lemma_step_keeps_sound(process: Process, call: Call)
    requires
        process.sound(),
        process.permits(call),
    ensures
        process.after(call).sound(),
{
    let next = process.after(call);
    assert forall|t: nat| #[trigger] next.cell(t) != UNASSIGNED implies next.cell(t)
        < next.issued by {
        if t != call.thread {
            assert(next.cell(t) == process.cell(t));
        }
    }
    assert forall|a: nat, b: nat|
        a != b && #[trigger] next.cell(a) != UNASSIGNED implies next.cell(a)
        != #[trigger] next.cell(b) by {
        if a != call.thread {
            assert(next.cell(a) == process.cell(a));
        }
        if b != call.thread {
            assert(next.cell(b) == process.cell(b));
        }
    }
}

/// The calls before call number `at` may be made in turn as well, call
/// number `at` may be made after them, and it is what leads on from there.
pub proof fn lemma_prefix(calls: Seq<Call>, at: int)
    requires
        Process::admits(calls),
        0 <= at <= calls.len(),
    ensures
        Process::admits(calls.take(at)),
        Process::run(calls.take(at)).sound(),
        at < calls.len() ==> Process::run(calls.take(at)).permits(calls[at]),
        at < calls.len() ==> Process::run(calls.take(at + 1)) == Process::run(
            calls.take(at),
        ).after(calls[at]),
    decreases calls.len(),
{
    if at == calls.len() {
        assert(calls.take(at) == calls);
        lemma_run_sound(calls);
    } else {
        let shorter = calls.drop_last();
        assert(shorter.take(at) == calls.take(at));
        lemma_prefix(shorter, at);
        if at + 1 == calls.len() {
            assert(calls.take(at + 1) == calls);
        } else {
            assert(shorter.take(at + 1) == calls.take(at + 1));
        }
    }
}

/// Every process that permitted calls lead to is sound.
pub proof fn lemma_run_sound(calls: Seq<Call>)
    requires
        Process::admits(calls),
    ensures
        Process::run(calls).sound(),
    decreases calls.len(),
{
    if calls.len() > 0 {
        lemma_run_sound(calls.drop_last());
        lemma_step_keeps_sound(Process::run(calls.drop_last()), calls.last());
    }
}

/// Once an identifier is out and only `thread` can have it, that stays so.
proof fn lemma_foreign_persists(calls: Seq<Call>, thread: nat, id: nat, from: int, to: int)
    requires
        Process::admits(calls),
        0 <= from <= to <= calls.len(),
        Process::run(calls.take(from)).foreign_to_others(thread, id),
    ensures
        Process::run(calls.take(to)).foreign_to_others(thread, id),
    decreases to - from,
{
    if from < to {
        lemma_foreign_persists(calls, thread, id, from, to - 1);
        lemma_prefix(calls, to - 1);
        let before = Process::run(calls.take(to - 1));
        let next = Process::run(calls.take(to));
        let call = calls[to - 1];
        assert forall|b: nat| b != thread implies #[trigger] next.cell(b) != id by {
            if b != call.thread {
                assert(next.cell(b) == before.cell(b));
            }
        }
    }
}

/// Once `thread` has left an identifier behind, that stays so.
proof fn lemma_left_behind_persists(calls: Seq<Call>, thread: nat, id: nat, from: int, to: int)
    requires
        Process::admits(calls),
        0 <= from <= to <= calls.len(),
        Process::run(calls.take(from)).left_behind(thread, id),
    ensures
        Process::run(calls.take(to)).left_behind(thread, id),
    decreases to - from,
{
    if from < to {
        lemma_left_behind_persists(calls, thread, id, from, to - 1);
        lemma_foreign_persists(calls, thread, id, from, to);
        lemma_prefix(calls, to - 1);
    }
}

/// A thread's cell keeps its identifier for as long as the thread does not
/// clear it.
proof fn lemma_cell_persists(calls: Seq<Call>, thread: nat, from: int, to: int)
    requires
        Process::admits(calls),
        0 <= from <= to <= calls.len(),
        Process::run(calls.take(from)).cell(thread) != UNASSIGNED,
        forall|k: int|
            from <= k < to ==> !(#[trigger] calls[k].thread == thread && calls[k].request
                is Clear),
    ensures
        Process::run(calls.take(to)).cell(thread) == Process::run(calls.take(from)).cell(thread),
    decreases to - from,
{
    if from < to {
        lemma_cell_persists(calls, thread, from, to - 1);
        lemma_prefix(calls, to - 1);
    }
}

/// Two calls of `current` by different threads never give the same
/// identifier, however far apart they are and whatever was cleared in
/// between.
pub proof fn lemma_threads_never_share_an_identifier(calls: Seq<Call>, first: int, second: int)
    requires
        Process::admits(calls),
        0 <= first < second < calls.len(),
        calls[first].request is Current,
        calls[second].request is Current,
        calls[first].thread != calls[second].thread,
    ensures
        Process::answered(calls, first) != Process::answered(calls, second),
{
    let thread = calls[first].thread;
    let id = Process::answered(calls, first);
    lemma_prefix(calls, first);
    let before = Process::run(calls.take(first));
    let next = Process::run(calls.take(first + 1));
    assert forall|b: nat| b != thread implies #[trigger] next.cell(b) != id by {
        assert(next.cell(b) == before.cell(b));
    }
    lemma_foreign_persists(calls, thread, id, first + 1, second);
}

/// The identifiers that distinct threads hold at any one time make a list
/// without repetition, and each is a value that a slot table can be indexed
/// by.
pub proof fn lemma_threads_hold_distinct_identifiers(calls: Seq<Call>, threads: Seq<nat>)
    requires
        Process::admits(calls),
        threads.no_duplicates(),
        forall|k: int|
            0 <= k < threads.len() ==> Process::run(calls).cell(#[trigger] threads[k])
                != UNASSIGNED,
    ensures
        Seq::new(threads.len(), |k: int| Process::run(calls).cell(threads[k])).no_duplicates(),
        forall|k: int|
            0 <= k < threads.len() ==> Process::run(calls).cell(#[trigger] threads[k])
                < id_space(),
{
    lemma_run_sound(calls);
}

/// A thread that asks again without having cleared its cell is given the
/// identifier that it was given before, whatever other threads did in
/// between.
pub proof fn lemma_current_is_stable(calls: Seq<Call>, first: int, second: int)
    requires
        Process::admits(calls),
        0 <= first < second < calls.len(),
        calls[first].request is Current,
        calls[second].request is Current,
        calls[first].thread == calls[second].thread,
        forall|k: int|
            first < k < second ==> !(#[trigger] calls[k].thread == calls[first].thread
                && calls[k].request is Clear),
    ensures
        Process::answered(calls, first) == Process::answered(calls, second),
{
    lemma_prefix(calls, first);
    lemma_cell_persists(calls, calls[first].thread, first + 1, second);
}

/// The identifiers taken from the counter are 0, 1, 2 and so on without a
/// gap, in the order in which they were taken; the counter stands at their
/// number, and the marker of an unassigned cell is never among them.
pub proof fn lemma_identifiers_are_dense(calls: Seq<Call>)
    requires
        Process::admits(calls),
    ensures
        Process::handed_out(calls).len() == Process::run(calls).issued,
        forall|k: int|
            0 <= k < Process::handed_out(calls).len() ==> Process::handed_out(calls)[k] == k,
        forall|k: int|
            0 <= k < Process::handed_out(calls).len() ==> Process::handed_out(calls)[k]
                != UNASSIGNED,
    decreases calls.len(),
{
    if calls.len() > 0 {
        lemma_identifiers_are_dense(calls.drop_last());
        lemma_run_sound(calls);
    }
}

/// An identifier that its thread has cleared is never given again: not to
/// another thread, and to the thread itself only later ones.
pub proof fn lemma_cleared_identifier_never_returns(calls: Seq<Call>, cleared: int, later: int)
    requires
        Process::admits(calls),
        0 <= cleared < later < calls.len(),
        calls[cleared].request is Clear,
        Process::run(calls.take(cleared)).cell(calls[cleared].thread) != UNASSIGNED,
        calls[later].request is Current,
    ensures
        Process::answered(calls, later) != Process::run(calls.take(cleared)).cell(
            calls[cleared].thread,
        ),
        calls[later].thread == calls[cleared].thread ==> Process::answered(calls, later)
            > Process::run(calls.take(cleared)).cell(calls[cleared].thread),
{
    let thread = calls[cleared].thread;
    lemma_prefix(calls, cleared);
    let before = Process::run(calls.take(cleared));
    let next = Process::run(calls.take(cleared + 1));
    let id = before.cell(thread);
    assert forall|b: nat| b != thread implies #[trigger] next.cell(b) != id by {
        assert(next.cell(b) == before.cell(b));
    }
    lemma_left_behind_persists(calls, thread, id, cleared + 1, later);
}

} // verus!
