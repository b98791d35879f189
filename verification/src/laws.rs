//! The library's stated laws, as public proof functions. Each one is proved
//! from the contracts and invariants of the operations alone; nothing here is
//! assumed.
use vstd::prelude::*;

use crate::event::Event;
use crate::imap::{entries_map, im_entries};
use crate::model::{
    collisions_of, contribution, lemma_swap_involutive, sched_cost, swapped_rows,
};
use crate::schedule::Schedule;

verus! {

/// Cost agreement: a well-formed schedule's `cost` field always equals the
/// reference cost recomputed from `scheme` from scratch. Every public
/// operation ends in a well-formed schedule, so this holds after any sequence
/// of them.
pub proof fn lemma_cost_agreement(s: Schedule)
    requires
        s.wf(),
    ensures
        s.cost == sched_cost(s.rows()),
{
}

/// Collision-map agreement: a well-formed schedule's collision map holds
/// exactly the events with a positive collision contribution, each mapped to
/// that contribution; absent events contribute nothing.
pub proof fn lemma_collision_map_agreement(s: Schedule)
    requires
        s.wf(),
    ensures
        forall|k: (usize, usize)|
            entries_map(im_entries(s.collisions)).contains_key(k) <==> ((k.0 as int)
                < s.rows().len() && (k.1 as int) < s.rows()[k.0 as int].len() && contribution(
                s.rows(),
                k.0 as int,
                k.1 as int,
            ) >= 1),
        forall|k: (usize, usize)|
            entries_map(im_entries(s.collisions)).contains_key(k)
                ==> entries_map(im_entries(s.collisions))[k] == contribution(
                s.rows(),
                k.0 as int,
                k.1 as int,
            ) as usize,
{
    assert(entries_map(im_entries(s.collisions)) == collisions_of(s.rows()));
}

/// Swap is self-inverse: exchanging the same two positions twice restores the
/// grid exactly, and with it the cost and the collision map — both are
/// functions of the grid on any well-formed schedule, so a swap followed by
/// the identical swap leaves `scheme`, `cost` and `collisions` as before.
pub proof fn lemma_swap_self_inverse(v: Seq<Seq<Event>>, line: int, a: int, b: int)
    requires
        0 <= line < v.len(),
        0 <= a < v[line].len(),
        0 <= b < v[line].len(),
    ensures
        swapped_rows(swapped_rows(v, line, a, b), line, a, b) == v,
        sched_cost(swapped_rows(swapped_rows(v, line, a, b), line, a, b)) == sched_cost(v),
        collisions_of(swapped_rows(swapped_rows(v, line, a, b), line, a, b)) == collisions_of(v),
{
    lemma_swap_involutive(v, line, a, b);
}

} // verus!
