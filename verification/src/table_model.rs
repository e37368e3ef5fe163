//! What a slot table is to its users: a map from identifiers to values, the
//! order in which its values are listed, and what accesses do to it.

use vstd::prelude::*;
use vstd::seq_lib::seq_to_set_is_finite;
use crate::slot_table::SEGMENT_SIZE;
use crate::thread_id::UNASSIGNED;

verus! {

/// The number of raw values that a thread identifier can have, the marker of
/// an unassigned cell among them.
pub open spec fn id_space() -> nat {
    (UNASSIGNED + 1) as nat
}

/// The identifiers below `bound` that have a value in `slots`, in ascending
/// order.
pub open spec fn populated_below<T>(slots: Map<nat, T>, bound: nat) -> Seq<nat>
    decreases bound,
{
    if bound == 0 {
        Seq::empty()
    } else {
        let lower = populated_below(slots, (bound - 1) as nat);
        if slots.contains_key((bound - 1) as nat) {
            lower.push((bound - 1) as nat)
        } else {
            lower
        }
    }
}

/// The identifiers that have a value in `slots`, in ascending order.
pub open spec fn populated<T>(slots: Map<nat, T>) -> Seq<nat> {
    populated_below(slots, id_space())
}

/// `populated_below` lists populated identifiers below the bound only, in
/// strictly ascending order, and leaves none of them out.
pub proof fn lemma_populated_below<T>(slots: Map<nat, T>, bound: nat)
    ensures
        forall|k: int|
            0 <= k < populated_below(slots, bound).len() ==> {
                &&& (#[trigger] populated_below(slots, bound)[k]) < bound
                &&& slots.contains_key(populated_below(slots, bound)[k])
            },
        forall|j: int, k: int|
            0 <= j < k < populated_below(slots, bound).len() ==> populated_below(slots, bound)[j]
                < populated_below(slots, bound)[k],
        forall|id: nat|
            id < bound && slots.contains_key(id) ==> populated_below(slots, bound).contains(id),
    decreases bound,
{
    if bound > 0 {
        let lower = populated_below(slots, (bound - 1) as nat);
        lemma_populated_below(slots, (bound - 1) as nat);
        let all = populated_below(slots, bound);
        assert forall|id: nat| id < bound && slots.contains_key(id) implies all.contains(id) by {
            if id == bound - 1 {
                assert(all[all.len() - 1] == id);
            } else {
                let k = choose|k: int| 0 <= k < lower.len() && lower[k] == id;
                assert(all[k] == id);
            }
        }
    }
}

/// Raising the bound only appends: the listing for a lower bound is the
/// start of the listing for a higher one, and what follows it is at or above
/// the lower bound.
pub proof fn lemma_populated_below_extends<T>(slots: Map<nat, T>, lower: nat, upper: nat)
    requires
        lower <= upper,
    ensures
        populated_below(slots, lower).len() <= populated_below(slots, upper).len(),
        forall|k: int|
            0 <= k < populated_below(slots, lower).len() ==> populated_below(slots, upper)[k]
                == populated_below(slots, lower)[k],
        forall|k: int|
            populated_below(slots, lower).len() <= k < populated_below(slots, upper).len()
                ==> lower <= populated_below(slots, upper)[k],
        (forall|id: nat| lower <= id < upper ==> !slots.contains_key(id)) ==> populated_below(
            slots,
            upper,
        ) == populated_below(slots, lower),
    decreases upper - lower,
{
    if lower < upper {
        lemma_populated_below_extends(slots, lower, (upper - 1) as nat);
    }
}

/// Where every populated identifier is a raw value that an identifier can
/// have, the listing holds each of them once and nothing else.
pub proof fn lemma_populated_is_the_domain<T>(slots: Map<nat, T>)
    requires
        forall|id: nat| slots.contains_key(id) ==> id < id_space(),
    ensures
        populated(slots).no_duplicates(),
        populated(slots).to_set() == slots.dom(),
        slots.dom().finite(),
        populated(slots).len() == slots.dom().len(),
{
    let listing = populated(slots);
    lemma_populated_below(slots, id_space());
    listing.unique_seq_to_set();
    seq_to_set_is_finite(listing);
}

/// The number of segments of a table that had `segments` of them, once the
/// slot of `id` has been accessed: as many as before if the slot's segment
/// was there, and otherwise just enough to reach it.
pub open spec fn grown(segments: nat, id: nat) -> nat {
    if id / (SEGMENT_SIZE as nat) < segments {
        segments
    } else {
        id / (SEGMENT_SIZE as nat) + 1
    }
}

/// Whether an access to the slot of `id` is the first one, which runs the
/// initializer.
pub open spec fn first_access<T>(slots: Map<nat, T>, id: nat) -> bool {
    !slots.contains_key(id)
}

/// The populated slots of a table that started as `slots`, once the slot of
/// `ids[k]` has been accessed and left holding `values[k]`, for each `k` in
/// turn.
pub open spec fn accessed<T>(slots: Map<nat, T>, ids: Seq<nat>, values: Seq<T>) -> Map<nat, T>
    decreases ids.len(),
{
    if ids.len() == 0 {
        slots
    } else {
        accessed(slots, ids.drop_last(), values.drop_last()).insert(ids.last(), values.last())
    }
}

/// After a thread's first access has left `kept` in its slot, an access by
/// that thread is no first access, so it runs no initializer, and it finds
/// `kept`.
pub proof fn lemma_second_access_finds_first<T>(slots: Map<nat, T>, id: nat, kept: T)
    ensures
        !first_access(slots.insert(id, kept), id),
        slots.insert(id, kept)[id] == kept,
{
}

/// Accesses to other slots, however many and whether or not they make the
/// table grow, leave a populated slot and its value as they are.
pub proof fn lemma_other_accesses_keep_slot<T>(
    slots: Map<nat, T>,
    ids: Seq<nat>,
    values: Seq<T>,
    id: nat,
)
    requires
        ids.len() == values.len(),
        slots.contains_key(id),
        forall|k: int| 0 <= k < ids.len() ==> ids[k] != id,
    ensures
        accessed(slots, ids, values).contains_key(id),
        accessed(slots, ids, values)[id] == slots[id],
    decreases ids.len(),
{
    if ids.len() > 0 {
        lemma_other_accesses_keep_slot(slots, ids.drop_last(), values.drop_last(), id);
    }
}

/// What accesses by distinct threads leave in an empty table: the slots of
/// exactly those threads, each with the value that its thread left.
proof fn lemma_accessed_from_empty<T>(ids: Seq<nat>, values: Seq<T>)
    requires
        ids.len() == values.len(),
        ids.no_duplicates(),
    ensures
        accessed(Map::<nat, T>::empty(), ids, values).dom() == ids.to_set(),
        forall|k: int|
            0 <= k < ids.len() ==> accessed(Map::<nat, T>::empty(), ids, values)[ids[k]]
                == values[k],
    decreases ids.len(),
{
    let table = accessed(Map::<nat, T>::empty(), ids, values);
    if ids.len() > 0 {
        let earlier = ids.drop_last();
        lemma_accessed_from_empty(earlier, values.drop_last());
        assert forall|id: nat| table.dom().contains(id) <==> ids.to_set().contains(id) by {
            if ids.to_set().contains(id) {
                let k = choose|k: int| 0 <= k < ids.len() && ids[k] == id;
                if k < ids.len() - 1 {
                    assert(earlier[k] == id);
                }
            }
            if earlier.to_set().contains(id) {
                let k = choose|k: int| 0 <= k < earlier.len() && earlier[k] == id;
                assert(ids[k] == id);
            }
        }
        assert forall|k: int| 0 <= k < ids.len() implies table[ids[k]] == values[k] by {
            if k < ids.len() - 1 {
                assert(earlier[k] != ids.last());
                assert(values.drop_last()[k] == values[k]);
            }
        }
    }
}

/// When threads with distinct identifiers have each accessed an empty table
/// and left a value in their slot, the listing that `iter_mut` goes by has
/// one entry for each of those threads and no other, in strictly ascending
/// order of identifier, and each thread's slot holds what that thread left.
pub proof fn lemma_iteration_covers_every_thread<T>(ids: Seq<nat>, values: Seq<T>)
    requires
        ids.len() == values.len(),
        ids.no_duplicates(),
        forall|k: int| 0 <= k < ids.len() ==> ids[k] < id_space(),
    ensures
        populated(accessed(Map::<nat, T>::empty(), ids, values)).len() == ids.len(),
        populated(accessed(Map::<nat, T>::empty(), ids, values)).to_set() == ids.to_set(),
        forall|j: int, k: int|
            0 <= j < k < ids.len() ==> populated(
                accessed(Map::<nat, T>::empty(), ids, values),
            )[j] < populated(accessed(Map::<nat, T>::empty(), ids, values))[k],
        forall|k: int|
            0 <= k < ids.len() ==> accessed(Map::<nat, T>::empty(), ids, values)[ids[k]]
                == values[k],
{
    let table = accessed(Map::<nat, T>::empty(), ids, values);
    lemma_accessed_from_empty(ids, values);
    lemma_populated_is_the_domain(table);
    lemma_populated_below(table, id_space());
    ids.unique_seq_to_set();
}

} // verus!
