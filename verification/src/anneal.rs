//! The simulated-annealing optimizer: proposes in-row swaps (uniformly, or
//! biased towards currently colliding events), accepts by the Metropolis
//! criterion, and stops on a zero cost or an exhausted budget. The Metropolis
//! probability itself involves floating point, so the caller supplies the
//! accept-a-worsening-move decision as a callback; everything proved here
//! holds for every behaviour of that callback.
use vstd::prelude::*;

use crate::event::{event_wf, Event};
use crate::imap::{
    entries_map, has_key, im_entries, im_get_index, im_len, key_index, lemma_key_at,
};
use crate::model::{
    collisions_of, dur, dur_term, lemma_dur_le_total, lemma_dur_push, lemma_dur_remove,
    lemma_multiset_dur, lemma_positive_cost_key, lemma_swap_involutive, lemma_swap_multiset,
    lemma_total_fits, len_term, rows_wf, sched_cost, swapped_rows, total_dur, vv_view,
};
use crate::rng::{sample_below, shuffle_events};
use crate::schedule::{fits, Schedule};
use crate::sums::{lemma_sum_congruence, lemma_sum_le, lemma_sum_term_le, sum_over};

verus! {

broadcast use crate::model::lemma_vv_len, crate::model::lemma_vv_index;

/// Rows of `y` are, row for row, rearrangements of the rows of `x`.
pub open spec fn rows_permuted(x: Seq<Seq<Event>>, y: Seq<Seq<Event>>) -> bool {
    &&& y.len() == x.len()
    &&& forall|r: int|
        0 <= r < x.len() ==> (#[trigger] y[r]).to_multiset() == x[r].to_multiset()
}

/// A row of well-formed events covers at least one column per event.
proof fn lemma_len_le_dur(row: Seq<Event>)
    requires
        forall|i: int| 0 <= i < row.len() ==> (#[trigger] row[i]).len >= 1,
    ensures
        row.len() <= dur(row),
{
    let ones = |i: int| if 0 <= i < row.len() { 1nat } else { 0nat };
    assert forall|i: int| 0 <= i < row.len() implies #[trigger] ones(i) <= len_term(row)(i) by {}
    lemma_sum_le(0, row.len() as int, ones, len_term(row));
    lemma_sum_ones(0, row.len() as int, ones, row.len() as int);
}

proof fn lemma_sum_ones(lo: int, hi: int, ones: spec_fn(int) -> nat, n: int)
    requires
        0 <= lo <= hi <= n,
        forall|i: int| lo <= i < n ==> #[trigger] ones(i) == 1nat,
    ensures
        sum_over(lo, hi, ones) == hi - lo,
    decreases hi - lo,
{
    if lo < hi {
        lemma_sum_ones(lo + 1, hi, ones, n);
    }
}

/// The claim list read as a set of (column, leader) pairs.
pub open spec fn claims_view(s: Seq<(usize, u64)>) -> Set<(int, u64)> {
    Set::new(
        |p: (int, u64)|
            exists|i: int| 0 <= i < s.len() && ((#[trigger] s[i]).0 as int) == p.0 && s[i].1 == p.1,
    )
}

/// Whether an event may be placed at this column: it has no leader, or its
/// leader is not yet claimed there.
pub open spec fn placeable(e: Event, cl: Set<(int, u64)>, time: int) -> bool {
    match e.leader_id {
        Some(id) => !cl.contains((time, id)),
        None => true,
    }
}

/// The claims after placing an event at this column: every column it spans,
/// claimed for its leader.
pub open spec fn claim_event(cl: Set<(int, u64)>, time: int, e: Event) -> Set<(int, u64)> {
    match e.leader_id {
        Some(id) => Set::new(
            |p: (int, u64)| cl.contains(p) || (p.1 == id && time <= p.0 < time + e.len),
        ),
        None => cl,
    }
}

/// The pool position the greedy rule takes: the first placeable event from
/// position `j` on, else the last pool event.
pub open spec fn pick_from(pool: Seq<Event>, cl: Set<(int, u64)>, time: int, j: int) -> int
    decreases pool.len() - j,
{
    if j < 0 || j + 1 >= pool.len() {
        pool.len() - 1
    } else if placeable(pool[j], cl, time) {
        j
    } else {
        pick_from(pool, cl, time, j + 1)
    }
}

/// One greedily rebuilt row, paired with the claims it leaves behind.
pub open spec fn greedy_row(pool: Seq<Event>, cl: Set<(int, u64)>, time: int) -> (
    Seq<Event>,
    Set<(int, u64)>,
)
    decreases pool.len(),
{
    if pool.len() == 0 {
        (Seq::empty(), cl)
    } else {
        let k0 = pick_from(pool, cl, time, 0);
        let k = if 0 <= k0 < pool.len() {
            k0
        } else {
            0
        };
        let rest = greedy_row(pool.remove(k), claim_event(cl, time, pool[k]), time + pool[k].len);
        (seq![pool[k]] + rest.0, rest.1)
    }
}

/// The grid after the greedy warm start: rows rebuilt in order, claims carried
/// from row to row, the column clock restarting at zero for each row.
pub open spec fn greedy_from(v: Seq<Seq<Event>>, r: int, cl: Set<(int, u64)>) -> Seq<Seq<Event>>
    decreases v.len() - r,
{
    if r < 0 || r >= v.len() {
        Seq::empty()
    } else {
        let res = greedy_row(v[r], cl, 0);
        seq![res.0] + greedy_from(v, r + 1, res.1)
    }
}

/// The arrangement the greedy constructor produces, starting with no claims.
pub open spec fn greedy_of(v: Seq<Seq<Event>>) -> Seq<Seq<Event>> {
    greedy_from(v, 0, Set::empty())
}

/// The greedy arrangement has one row per input row.
pub proof fn lemma_greedy_from_len(v: Seq<Seq<Event>>, r: int, cl: Set<(int, u64)>)
    requires
        0 <= r <= v.len(),
    ensures
        greedy_from(v, r, cl).len() == v.len() - r,
    decreases v.len() - r,
{
    if r < v.len() {
        lemma_greedy_from_len(v, r + 1, greedy_row(v[r], cl, 0).1);
    }
}

/// A placeable event preceded only by unplaceable ones is the pick.
proof fn lemma_pick_found(pool: Seq<Event>, cl: Set<(int, u64)>, time: int, j: int)
    requires
        0 <= j < pool.len(),
        placeable(pool[j], cl, time),
        forall|j2: int| 0 <= j2 < j ==> !placeable(pool[j2], cl, time),
    ensures
        pick_from(pool, cl, time, 0) == j,
{
    lemma_pick_found_from(pool, cl, time, 0, j);
}

proof fn lemma_pick_found_from(pool: Seq<Event>, cl: Set<(int, u64)>, time: int, lo: int, j: int)
    requires
        0 <= lo <= j < pool.len(),
        placeable(pool[j], cl, time),
        forall|j2: int| lo <= j2 < j ==> !placeable(pool[j2], cl, time),
    ensures
        pick_from(pool, cl, time, lo) == j,
    decreases j - lo,
{
    if lo < j {
        lemma_pick_found_from(pool, cl, time, lo + 1, j);
    }
}

/// With nothing placeable, the pick falls back to the last pool event.
proof fn lemma_pick_none(pool: Seq<Event>, cl: Set<(int, u64)>, time: int, lo: int)
    requires
        pool.len() > 0,
        0 <= lo,
        forall|j2: int| lo <= j2 < pool.len() ==> !placeable(pool[j2], cl, time),
    ensures
        pick_from(pool, cl, time, lo) == pool.len() - 1,
    decreases pool.len() - lo,
{
    if lo + 1 < pool.len() {
        lemma_pick_none(pool, cl, time, lo + 1);
    }
}

/// Whether the leader `id` has already been claimed at column `col`.
fn claims_contain(claims: &Vec<(usize, u64)>, col: usize, id: u64) -> (r: bool)
    ensures
        r == claims_view(claims@).contains(((col as int), id)),
{
    let mut i: usize = 0;
    while i < claims.len()
        invariant
            i <= claims@.len(),
            forall|j: int|
                0 <= j < i ==> !(((#[trigger] claims@[j]).0 as int) == col as int && claims@[j].1
                    == id),
        decreases claims.len() - i,
    {
        let c = claims[i];
        if c.0 == col && c.1 == id {
            proof {
                assert(claims@[i as int].0 == col && claims@[i as int].1 == id);
            }
            return true;
        }
        i = i + 1;
    }
    proof {
        assert(!claims_view(claims@).contains(((col as int), id)));
    }
    false
}

impl Schedule {
    /// Greedy warm start, exactly the `greedy_of` arrangement: each row is
    /// rebuilt left to right, taking the first still-unplaced event whose
    /// leader is not yet claimed at the current cumulative-time column and
    /// falling back to the last pool event; the placed event claims every
    /// column it spans, and claims carry across rows. Each row ends up a
    /// rearrangement of itself.
    fn greedy_arrange(&mut self)
        requires
            rows_wf(old(self).rows()),
            fits(old(self).rows()),
            old(self).len == total_dur(old(self).rows()),
        ensures
            final(self).rows() == greedy_of(old(self).rows()),
            rows_permuted(old(self).rows(), final(self).rows()),
            rows_wf(final(self).rows()),
            fits(final(self).rows()),
            final(self).len == old(self).len,
            final(self).len == total_dur(final(self).rows()),
    {
        let ghost v0 = old(self).rows();
        proof {
            lemma_total_fits(v0);
            lemma_greedy_from_len(v0, 0, Set::empty());
            assert(claims_view(Seq::<(usize, u64)>::empty()) =~= Set::<(int, u64)>::empty());
            assert(greedy_of(v0).subrange(0, v0.len() as int) =~= greedy_of(v0));
        }
        let mut claims: Vec<(usize, u64)> = Vec::new();
        let mut r: usize = 0;
        while r < self.scheme.len()
            invariant
                r <= v0.len(),
                self.scheme@.len() == v0.len(),
                self.len == old(self).len,
                self.len == total_dur(v0),
                fits(v0),
                rows_wf(v0),
                greedy_of(v0).len() == v0.len(),
                forall|q: int|
                    0 <= q < r ==> #[trigger] vv_view(self.scheme)[q] == greedy_of(v0)[q],
                greedy_from(v0, r as int, claims_view(claims@)) == greedy_of(v0).subrange(
                    r as int,
                    v0.len() as int,
                ),
                forall|q: int|
                    0 <= q < r ==> (#[trigger] vv_view(self.scheme)[q]).to_multiset()
                        == v0[q].to_multiset(),
                forall|q: int| 0 <= q < r ==> dur(#[trigger] vv_view(self.scheme)[q]) == dur(v0[q]),
                forall|q: int| r <= q < v0.len() ==> #[trigger] vv_view(self.scheme)[q] == v0[q],
            decreases self.scheme@.len() - r,
        {
            let ghost pre = vv_view(self.scheme);
            proof {
                assert(pre[r as int] == self.scheme@[r as int]@);
                assert(vv_view(self.scheme)[r as int] == v0[r as int]);
            }
            let mut pool = self.scheme.remove(r);
            let ghost orig = pool@;
            let ghost cl0 = claims_view(claims@);
            proof {
                assert(orig == v0[r as int]);
                lemma_dur_le_total(v0, r as int);
                assert(dur(orig) <= self.len);
            }
            let mut row_new: Vec<Event> = Vec::new();
            let mut time: usize = 0;
            proof {
                broadcast use vstd::seq_lib::group_to_multiset_ensures;

                assert(row_new@.to_multiset().add(pool@.to_multiset())
                    =~= orig.to_multiset());
                assert(row_new@ + greedy_row(pool@, claims_view(claims@), time as int).0
                    =~= greedy_row(orig, cl0, 0).0);
            }
            while pool.len() > 0
                invariant
                    row_new@.to_multiset().add(pool@.to_multiset()) == orig.to_multiset(),
                    time == dur(row_new@),
                    dur(row_new@) + dur(pool@) == dur(orig),
                    dur(orig) <= usize::MAX,
                    greedy_row(orig, cl0, 0).0 == row_new@ + greedy_row(
                        pool@,
                        claims_view(claims@),
                        time as int,
                    ).0,
                    greedy_row(orig, cl0, 0).1 == greedy_row(
                        pool@,
                        claims_view(claims@),
                        time as int,
                    ).1,
                decreases pool@.len(),
            {
                let ghost pool_pre = pool@;
                let ghost row_pre = row_new@;
                let ghost cl_pre = claims_view(claims@);
                let mut use_idx: usize = pool.len() - 1;
                let mut found = false;
                let mut e_i: usize = 0;
                while e_i < pool.len() && !found
                    invariant
                        e_i <= pool@.len(),
                        pool@.len() > 0,
                        pool@ == pool_pre,
                        claims_view(claims@) == cl_pre,
                        use_idx < pool@.len(),
                        !found ==> use_idx == pool@.len() - 1,
                        !found ==> forall|j: int|
                            0 <= j < e_i ==> !placeable(pool@[j], cl_pre, time as int),
                        found ==> ((e_i as int) < pool@.len() && use_idx == e_i && placeable(
                            pool@[e_i as int],
                            cl_pre,
                            time as int,
                        ) && forall|j: int|
                            0 <= j < e_i ==> !placeable(pool@[j], cl_pre, time as int)),
                    decreases pool@.len() - e_i, (if found { 0int } else { 1int }),
                {
                    let ok = match pool[e_i].leader_id {
                        None => true,
                        Some(id) => !claims_contain(&claims, time, id),
                    };
                    if ok {
                        use_idx = e_i;
                        found = true;
                    } else {
                        e_i = e_i + 1;
                    }
                }
                proof {
                    if found {
                        lemma_pick_found(pool_pre, cl_pre, time as int, use_idx as int);
                    } else {
                        lemma_pick_none(pool_pre, cl_pre, time as int, 0);
                    }
                    assert(pick_from(pool_pre, cl_pre, time as int, 0) == use_idx);
                    lemma_sum_term_le(0, pool_pre.len() as int, len_term(pool_pre), use_idx as int);
                    lemma_dur_remove(pool_pre, use_idx as int);
                }
                let e = pool.remove(use_idx);
                let ghost cl_after: Set<(int, u64)> = claim_event(cl_pre, time as int, e);
                if let Some(id) = e.leader_id {
                    let mut addi: usize = 0;
                    while addi < e.len
                        invariant
                            addi <= e.len,
                            time + e.len <= usize::MAX,
                            e.leader_id == Some(id),
                            claims_view(claims@) =~= Set::new(
                                |p: (int, u64)|
                                    cl_pre.contains(p) || (p.1 == id && time <= p.0 < time + addi),
                            ),
                        decreases e.len - addi,
                    {
                        let ghost before = claims@;
                        claims.push((time + addi, id));
                        proof {
                            assert forall|p: (int, u64)| #[trigger] claims_view(claims@).contains(
                                p,
                            ) == (cl_pre.contains(p) || (p.1 == id && time <= p.0 < time + addi
                                + 1)) by {
                                assert(claims@[claims@.len() - 1] == ((time + addi) as usize, id));
                                if claims_view(claims@).contains(p) {
                                    let w = choose|w: int|
                                        0 <= w < claims@.len() && ((#[trigger] claims@[w]).0 as int)
                                            == p.0 && claims@[w].1 == p.1;
                                    if w < before.len() {
                                        assert(before[w] == claims@[w]);
                                        assert(claims_view(before).contains(p));
                                    } else {
                                        assert(p == (((time + addi) as int), id));
                                    }
                                }
                                if cl_pre.contains(p) || (p.1 == id && time <= p.0 < time + addi) {
                                    assert(claims_view(before).contains(p));
                                    let w = choose|w: int|
                                        0 <= w < before.len() && ((#[trigger] before[w]).0 as int)
                                            == p.0 && before[w].1 == p.1;
                                    assert(claims@[w] == before[w]);
                                    assert(claims_view(claims@).contains(p));
                                }
                                if p == (((time + addi) as int), id) {
                                    assert(claims_view(claims@).contains(p));
                                }
                            }
                            assert(claims_view(claims@) =~= Set::new(
                                |p: (int, u64)|
                                    cl_pre.contains(p) || (p.1 == id && time <= p.0 < time + addi
                                        + 1),
                            ));
                        }
                        addi = addi + 1;
                    }
                    proof {
                        assert(claims_view(claims@) =~= cl_after);
                    }
                } else {
                    proof {
                        assert(cl_after == cl_pre);
                    }
                }
                proof {
                    broadcast use vstd::seq_lib::group_to_multiset_ensures;

                    lemma_dur_push(row_pre, e);
                    assert(pool_pre.to_multiset().count(e) > 0) by {
                        assert(pool_pre.contains(e)) by {
                            assert(pool_pre[use_idx as int] == e);
                        }
                    }
                    assert(row_pre.to_multiset().insert(e).add(pool_pre.to_multiset().remove(e))
                        =~= row_pre.to_multiset().add(pool_pre.to_multiset()));
                    // One step of the greedy recursion.
                    let rest = greedy_row(pool_pre.remove(use_idx as int), cl_after, time + e.len);
                    assert(greedy_row(pool_pre, cl_pre, time as int).0 == seq![e] + rest.0);
                    assert(greedy_row(pool_pre, cl_pre, time as int).1 == rest.1);
                    assert(row_pre + (seq![e] + rest.0) =~= row_pre.push(e) + rest.0);
                }
                time = time + e.len;
                row_new.push(e);
            }
            proof {
                broadcast use vstd::seq_lib::group_to_multiset_ensures;

                assert(pool@.to_multiset().len() == 0);
                assert(row_new@.to_multiset().add(pool@.to_multiset()) =~= row_new@.to_multiset());
                assert(greedy_row(pool@, claims_view(claims@), time as int).0
                    =~= Seq::<Event>::empty());
                assert(row_new@ + Seq::<Event>::empty() =~= row_new@);
                assert(greedy_row(orig, cl0, 0).0 == row_new@);
                assert(greedy_row(orig, cl0, 0).1 == claims_view(claims@));
            }
            let ghost built = row_new@;
            self.scheme.insert(r, row_new);
            proof {
                assert forall|q: int| 0 <= q < v0.len() implies #[trigger] vv_view(self.scheme)[q]
                    == (if q == r {
                    built
                } else {
                    pre[q]
                }) by {}
                assert(built.to_multiset() == orig.to_multiset());
                assert(dur(built) == dur(orig));
                // The built row is the one the greedy arrangement prescribes,
                // and the remaining rows follow from the threaded claims.
                let tail = greedy_of(v0).subrange(r as int, v0.len() as int);
                assert(greedy_from(v0, r as int, cl0) == seq![greedy_row(v0[r as int], cl0, 0).0]
                    + greedy_from(v0, r + 1, greedy_row(v0[r as int], cl0, 0).1));
                assert(tail[0] == greedy_of(v0)[r as int]);
                assert(built == greedy_of(v0)[r as int]);
                assert(greedy_from(v0, r + 1, claims_view(claims@)) =~= tail.subrange(
                    1,
                    tail.len() as int,
                ));
                assert(tail.subrange(1, tail.len() as int) =~= greedy_of(v0).subrange(
                    r + 1,
                    v0.len() as int,
                ));
            }
            r = r + 1;
        }
        proof {
            let vf = vv_view(self.scheme);
            assert(rows_permuted(v0, vf));
            assert(vf =~= greedy_of(v0));
            assert forall|q: int, i: int|
                0 <= q < vf.len() && 0 <= i < vf[q].len() implies event_wf(
                #[trigger] vf[q][i]) by {
                lemma_multiset_dur(v0[q], vf[q]);
            }
            assert forall|q: int| 0 <= q < vf.len() implies #[trigger] dur_term(vf)(q) == dur_term(
                v0,
            )(q) by {
                lemma_multiset_dur(v0[q], vf[q]);
            }
            lemma_sum_congruence(0, vf.len() as int, dur_term(vf), dur_term(v0));
            assert(total_dur(vf) == total_dur(v0));
        }
    }

    /// Shuffles each row uniformly at random; each row stays a rearrangement
    /// of itself.
    fn shuffle_rows(&mut self)
        requires
            rows_wf(old(self).rows()),
            fits(old(self).rows()),
            old(self).len == total_dur(old(self).rows()),
        ensures
            rows_permuted(old(self).rows(), final(self).rows()),
            rows_wf(final(self).rows()),
            fits(final(self).rows()),
            final(self).len == old(self).len,
            final(self).len == total_dur(final(self).rows()),
    {
        let ghost v0 = old(self).rows();
        let mut r: usize = 0;
        while r < self.scheme.len()
            invariant
                r <= v0.len(),
                self.scheme@.len() == v0.len(),
                self.len == old(self).len,
                forall|q: int|
                    0 <= q < r ==> (#[trigger] vv_view(self.scheme)[q]).to_multiset()
                        == v0[q].to_multiset(),
                forall|q: int| r <= q < v0.len() ==> #[trigger] vv_view(self.scheme)[q] == v0[q],
            decreases self.scheme@.len() - r,
        {
            let ghost pre = vv_view(self.scheme);
            proof {
                assert(pre[r as int] == self.scheme@[r as int]@);
                assert(vv_view(self.scheme)[r as int] == v0[r as int]);
            }
            let mut row = self.scheme.remove(r);
            shuffle_events(&mut row);
            let ghost built = row@;
            self.scheme.insert(r, row);
            proof {
                assert forall|q: int| 0 <= q < v0.len() implies #[trigger] vv_view(self.scheme)[q]
                    == (if q == r {
                    built
                } else {
                    pre[q]
                }) by {}
                assert(built.to_multiset() == v0[r as int].to_multiset());
            }
            r = r + 1;
        }
        proof {
            let vf = vv_view(self.scheme);
            assert(rows_permuted(v0, vf));
            assert forall|q: int, i: int|
                0 <= q < vf.len() && 0 <= i < vf[q].len() implies event_wf(
                #[trigger] vf[q][i]) by {
                lemma_multiset_dur(v0[q], vf[q]);
            }
            assert forall|q: int| 0 <= q < vf.len() implies #[trigger] dur_term(vf)(q) == dur_term(
                v0,
            )(q) by {
                lemma_multiset_dur(v0[q], vf[q]);
            }
            lemma_sum_congruence(0, vf.len() as int, dur_term(vf), dur_term(v0));
            assert(total_dur(vf) == total_dur(v0));
        }
    }

    /// The annealing loop: optional shuffling and greedy warm starts, then up
    /// to `opt_aging` proposed in-row swaps — sampled from the collision map
    /// when `greedily`, else uniformly — each kept when the cost did not
    /// worsen or when `accept_worse(prev, new, iter)` allows it, and reverted
    /// otherwise (a second identical swap restores the schedule exactly).
    /// `tick_func` runs once per performed iteration. Each iteration runs in
    /// full — propose, swap, accept, tick — and only then tests for a zero
    /// cost and leaves; the one exception is the collision-biased mode, which
    /// must sample the collision map and therefore exits at the top when that
    /// map is empty (exactly when the cost is zero). A final full recompute
    /// reestablishes every derived structure. Returns the number of
    /// iterations performed: zero on an empty grid, at least one in uniform
    /// mode with a positive budget (exactly one when the cost was already
    /// zero and the acceptance callback can only refuse), and with a zero
    /// budget the greedy flag alone yields exactly the `greedy_of`
    /// arrangement.
    ///
    /// The reference acceptance rule draws true with probability
    /// `exp((prev - new) / T)` against a geometrically decaying temperature;
    /// that computation involves floating point and randomness, so it comes
    /// in as the `accept_worse` callback. Everything below holds for every
    /// behaviour of that callback; when it can only refuse (the
    /// zero-temperature limit) and no warm start runs, the final cost never
    /// exceeds the initial one.
    pub fn optimize<FT: Fn(), FA: Fn(u64, u64, usize) -> bool>(
        &mut self,
        opt_aging: usize,
        shuffling: bool,
        greedily: bool,
        tick_func: FT,
        accept_worse: FA,
    ) -> (iters: usize)
        requires
            old(self).wf(),
            tick_func.requires(()),
            forall|x: (u64, u64, usize)| accept_worse.requires(x),
        ensures
            final(self).wf(),
            rows_permuted(old(self).rows(), final(self).rows()),
            final(self).len == old(self).len,
            iters <= opt_aging,
            iters < opt_aging ==> final(self).cost == 0,
            old(self).rows().len() == 0 ==> iters == 0,
            (!greedily && old(self).rows().len() > 0 && opt_aging > 0) ==> iters >= 1,
            (old(self).cost == 0 && !shuffling && !greedily && opt_aging > 0 && old(
                self,
            ).rows().len() > 0 && (forall|x: (u64, u64, usize), ret: bool|
                accept_worse.ensures(x, ret) ==> !ret)) ==> iters == 1,
            (opt_aging == 0 && greedily && !shuffling && old(self).rows().len() > 0)
                ==> final(self).rows() == greedy_of(old(self).rows()),
            (!shuffling && !greedily && (forall|x: (u64, u64, usize), ret: bool|
                accept_worse.ensures(x, ret) ==> !ret)) ==> final(self).cost <= old(self).cost,
    {
        let n = self.scheme.len();
        if n == 0 {
            proof {
                assert(self.rows().len() == 0);
                assert(sched_cost(self.rows()) == 0);
            }
            return 0;
        }
        if shuffling {
            self.shuffle_rows();
            self.update();
        }
        if greedily {
            self.greedy_arrange();
            self.update();
        }
        let ghost entry_cost = self.cost;
        let ghost rows_entry = self.rows();
        let ghost zero_hyp: bool = forall|x: (u64, u64, usize), ret: bool|
            accept_worse.ensures(x, ret) ==> !ret;
        proof {
            if !shuffling && !greedily {
                assert(entry_cost == old(self).cost);
            }
            if greedily && !shuffling {
                assert(rows_entry == greedy_of(old(self).rows()));
            }
        }
        let mut iters: usize = 0;
        let mut done = false;
        while iters < opt_aging && !done
            invariant
                self.wf(),
                rows_permuted(old(self).rows(), self.rows()),
                self.len == old(self).len,
                n == self.rows().len(),
                n >= 1,
                iters <= opt_aging,
                done ==> self.cost == 0,
                iters == 0 ==> self.cost == entry_cost,
                iters == 0 ==> self.rows() == rows_entry,
                greedily && entry_cost == 0 ==> iters == 0,
                !greedily && done ==> iters >= 1,
                zero_hyp && entry_cost == 0 && !greedily ==> iters <= 1 && (iters == 1 ==> done),
                zero_hyp ==> self.cost <= entry_cost,
                zero_hyp == (forall|x: (u64, u64, usize), ret: bool|
                    accept_worse.ensures(x, ret) ==> !ret),
                tick_func.requires(()),
                forall|x: (u64, u64, usize)| accept_worse.requires(x),
            decreases opt_aging - iters, (if done { 0int } else { 1int }),
        {
            if greedily && self.cost == 0 {
                // Collision-biased proposals sample the collision map, which
                // is empty exactly when the cost is zero, so no proposal can
                // be made: the loop exits here instead.
                done = true;
            } else {
                let ghost v_cur = self.rows();
                let mut line: usize = 0;
                let mut a: usize = 0;
                let mut b: usize = 0;
                let mut have = false;
                if greedily {
                    proof {
                        assert(sched_cost(v_cur) > 0);
                        assert forall|q: int| 0 <= q < v_cur.len() implies (#[trigger] v_cur[q]).len()
                            <= usize::MAX by {
                            assert forall|i: int| 0 <= i < v_cur[q].len() implies (
                            #[trigger] v_cur[q][i]).len >= 1 by {
                                assert(event_wf(v_cur[q][i]));
                            }
                            lemma_len_le_dur(v_cur[q]);
                            lemma_dur_le_total(v_cur, q);
                            lemma_total_fits(v_cur);
                        }
                        let k = lemma_positive_cost_key(v_cur);
                        assert(entries_map(im_entries(self.collisions)).contains_key(k));
                        assert(has_key(im_entries(self.collisions), k));
                        let w = key_index(im_entries(self.collisions), k);
                        assert(0 <= w < im_entries(self.collisions).len());
                    }
                    let m_len = im_len(&self.collisions);
                    let pos = sample_below(m_len);
                    let kv = im_get_index(&self.collisions, pos);
                    let key = match kv {
                        Some(p) => p.0,
                        None => {
                            proof {
                                assert(false);
                            }
                            (0, 0)
                        },
                    };
                    proof {
                        lemma_key_at(im_entries(self.collisions), pos as int);
                        assert(collisions_of(v_cur).contains_key(key));
                        assert((key.0 as int) < v_cur.len());
                        assert((key.1 as int) < v_cur[key.0 as int].len());
                    }
                    line = key.0;
                    a = key.1;
                    let row_len = self.scheme[line].len();
                    b = sample_below(row_len);
                    have = true;
                } else {
                    line = sample_below(n);
                    let row_len = self.scheme[line].len();
                    if row_len > 0 {
                        a = sample_below(row_len);
                        b = sample_below(row_len);
                        have = true;
                    }
                }
                if have {
                    let prev_c = self.cost;
                    let ghost v_before = self.rows();
                    self.swap(line, a, b);
                    let new_c = self.cost;
                    if new_c > prev_c {
                        let acc = accept_worse(prev_c, new_c, iters);
                        if !acc {
                            self.swap(line, a, b);
                            proof {
                                lemma_swap_involutive(v_before, line as int, a as int, b as int);
                                assert(self.rows() == v_before);
                            }
                        } else {
                            proof {
                                if zero_hyp {
                                    assert(accept_worse.ensures((prev_c, new_c, iters), true));
                                    assert(false);
                                }
                            }
                        }
                    }
                    proof {
                        let v_now = self.rows();
                        if v_now != v_before {
                            assert(v_now == swapped_rows(
                                v_before,
                                line as int,
                                a as int,
                                b as int,
                            ));
                            lemma_swap_multiset(v_before[line as int], a as int, b as int);
                            assert forall|q: int|
                                0 <= q < old(self).rows().len() implies (#[trigger] v_now[q]).to_multiset()
                                == old(self).rows()[q].to_multiset() by {
                                if q != line {
                                    assert(v_now[q] == v_before[q]);
                                }
                            }
                        }
                    }
                }
                tick_func();
                iters = iters + 1;
                if self.cost == 0 {
                    done = true;
                }
            }
        }
        self.update();
        iters
    }
}

} // verus!
