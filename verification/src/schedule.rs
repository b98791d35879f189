//! The mutable schedule grid: the rows of events together with the derived
//! structures — per-row starting columns, per-column occupant indices, the
//! total cost and the collision map — and the operations that keep them
//! coherent: construction, full recompute, and in-row swap.
use vstd::prelude::*;

use crate::event::Event;
use crate::imap::{
    distinct_keys, entries_map, has_key, im_entries, im_insert, im_swap_remove, im_with_capacity,
    lemma_entries_empty, lemma_entries_push, lemma_entries_swap_remove, lemma_entries_update,
};
use crate::model::{
    cb_term, collisions_of, con_term, contribution, count_before, dur, dur_term, event_at,
    lemma_cost_bound, lemma_dur_le_total, lemma_event_at_bounds, lemma_event_at_congruent,
    lemma_event_at_unique, lemma_rows_wf_swap, lemma_start_congruent, lemma_start_monotone,
    lemma_start_step, lemma_total_dur_swap, lemma_total_fits, leader_of, len_at, match_at, oa_term,
    others_at, rc_term, row_cost, rows_wf, sc_term, sched_cost, start_of, swapped_rows, total_dur,
    vv_view,
};
use crate::delta::{
    dec_l_term, dec_total, inc_l_term, inc_total, lemma_contrib_frame_line,
    lemma_contrib_frame_other, lemma_span_layout, lemma_swap_cost_delta, lemma_totals_bounded,
    span_count, span_term,
};
use crate::sums::{lemma_sum_const_bound, lemma_sum_split, sum_over};
use indexmap::IndexMap;

verus! {

broadcast use crate::model::lemma_vv_len, crate::model::lemma_vv_index;

/// The collision score of a schedule.
pub type Cost = u64;

/// Default iteration budget of the annealer.
pub const AGING_OPT_DEFAULT: usize = 10000;

/// The starting-column tables mirror the model's prefix sums.
pub open spec fn idx_ok(v: Seq<Seq<Event>>, idx: Seq<Seq<usize>>) -> bool {
    &&& idx.len() == v.len()
    &&& forall|r: int| 0 <= r < v.len() ==> (#[trigger] idx[r]).len() == v[r].len() + 1
    &&& forall|r: int, i: int|
        0 <= r < v.len() && 0 <= i <= v[r].len() ==> (#[trigger] idx[r][i]) == start_of(v[r], i)
}

/// The occupant tables mirror the model's `event_at`.
pub open spec fn ev_ok(v: Seq<Seq<Event>>, ev: Seq<Seq<usize>>) -> bool {
    &&& ev.len() == v.len()
    &&& forall|r: int| 0 <= r < v.len() ==> (#[trigger] ev[r]).len() == dur(v[r])
    &&& forall|r: int, t: int|
        0 <= r < v.len() && 0 <= t < dur(v[r]) ==> (#[trigger] ev[r][t]) == event_at(v[r], t)
}

/// The size bound that keeps every derived quantity inside the machine types.
pub open spec fn fits(v: Seq<Seq<Event>>) -> bool {
    total_dur(v) * v.len() <= usize::MAX
}

/// The mutable schedule. `scheme` is the data; everything else is derived
/// from it and kept coherent by the operations below.
pub struct Schedule {
    pub scheme: Vec<Vec<Event>>,
    pub event: Vec<Vec<usize>>,
    pub idx: Vec<Vec<usize>>,
    pub collisions: IndexMap<(usize, usize), usize>,
    pub len: usize,
    pub cost: Cost,
}

impl Schedule {
    /// The grid as nested sequences.
    pub open spec fn rows(self) -> Seq<Seq<Event>> {
        vv_view(self.scheme)
    }

    /// Every invariant of a coherent schedule: well-formed events, sizes in
    /// bounds, tables matching the model, the cost equal to the reference
    /// cost, and the collision map equal to the per-event contributions.
    pub open spec fn wf(self) -> bool {
        &&& rows_wf(self.rows())
        &&& fits(self.rows())
        &&& self.len == total_dur(self.rows())
        &&& idx_ok(self.rows(), vv_view(self.idx))
        &&& ev_ok(self.rows(), vv_view(self.event))
        &&& self.cost == sched_cost(self.rows())
        &&& distinct_keys(im_entries(self.collisions))
        &&& entries_map(im_entries(self.collisions)) == collisions_of(self.rows())
    }
}

/// Builds the per-row starting-column tables.
fn build_idx(scheme: &Vec<Vec<Event>>) -> (idx: Vec<Vec<usize>>)
    requires
        fits(vv_view(*scheme)),
    ensures
        idx_ok(vv_view(*scheme), vv_view(idx)),
{
    let ghost v = vv_view(*scheme);
    proof {
        lemma_total_fits(v);
    }
    let mut idx: Vec<Vec<usize>> = Vec::new();
    let mut r: usize = 0;
    while r < scheme.len()
        invariant
            r <= scheme.len(),
            idx@.len() == r,
            forall|q: int| 0 <= q < r ==> (#[trigger] idx@[q]@).len() == v[q].len() + 1,
            forall|q: int, i: int|
                0 <= q < r && 0 <= i <= v[q].len() ==> (#[trigger] idx@[q]@[i]) == start_of(
                    v[q],
                    i,
                ),
        decreases scheme.len() - r,
    {
        let row_len = scheme[r].len();
        let mut pref: Vec<usize> = Vec::new();
        pref.push(0);
        let mut i: usize = 0;
        while i < row_len
            invariant
                i <= row_len,
                row_len == v[r as int].len(),
                r < scheme.len(),
                pref@.len() == i + 1,
                forall|j: int| 0 <= j <= i ==> (#[trigger] pref@[j]) == start_of(v[r as int], j),
            decreases row_len - i,
        {
            let e_len = scheme[r][i].len;
            let prev = pref[i];
            proof {
                lemma_start_step(v[r as int], i as int);
                lemma_start_monotone(v[r as int], i + 1, row_len as int);
                lemma_dur_le_total(v, r as int);
            }
            pref.push(prev + e_len);
            i = i + 1;
        }
        idx.push(pref);
        r = r + 1;
    }
    proof {
        assert(vv_view(idx) =~= Seq::new(idx@.len(), |q: int| idx@[q]@));
    }
    idx
}

/// Builds the per-row occupant tables.
fn build_event_tables(scheme: &Vec<Vec<Event>>) -> (ev: Vec<Vec<usize>>)
    requires
        fits(vv_view(*scheme)),
    ensures
        ev_ok(vv_view(*scheme), vv_view(ev)),
{
    let ghost v = vv_view(*scheme);
    proof {
        lemma_total_fits(v);
    }
    let mut ev: Vec<Vec<usize>> = Vec::new();
    let mut r: usize = 0;
    while r < scheme.len()
        invariant
            r <= scheme.len(),
            ev@.len() == r,
            forall|q: int| 0 <= q < r ==> (#[trigger] ev@[q]@).len() == dur(v[q]),
            forall|q: int, t: int|
                0 <= q < r && 0 <= t < dur(v[q]) ==> (#[trigger] ev@[q]@[t]) == event_at(v[q], t),
        decreases scheme.len() - r,
    {
        let row_len = scheme[r].len();
        let mut tab: Vec<usize> = Vec::new();
        let mut i: usize = 0;
        while i < row_len
            invariant
                i <= row_len,
                row_len == v[r as int].len(),
                r < scheme.len(),
                tab@.len() == start_of(v[r as int], i as int),
                forall|t: int|
                    0 <= t < tab@.len() ==> (#[trigger] tab@[t]) == event_at(v[r as int], t),
            decreases row_len - i,
        {
            let e_len = scheme[r][i].len;
            proof {
                lemma_start_step(v[r as int], i as int);
                lemma_start_monotone(v[r as int], i + 1, row_len as int);
                lemma_dur_le_total(v, r as int);
            }
            let mut k: usize = 0;
            while k < e_len
                invariant
                    k <= e_len,
                    i < row_len,
                    row_len == v[r as int].len(),
                    r < scheme.len(),
                    e_len == v[r as int][i as int].len,
                    tab@.len() == start_of(v[r as int], i as int) + k,
                    forall|t: int|
                        0 <= t < tab@.len() ==> (#[trigger] tab@[t]) == event_at(v[r as int], t),
                decreases e_len - k,
            {
                proof {
                    lemma_event_at_unique(
                        v[r as int],
                        start_of(v[r as int], i as int) + k,
                        i as int,
                    );
                }
                tab.push(i);
                k = k + 1;
            }
            i = i + 1;
        }
        ev.push(tab);
        r = r + 1;
    }
    proof {
        assert(vv_view(ev) =~= Seq::new(ev@.len(), |q: int| ev@[q]@));
    }
    ev
}

/// Whether rows `l` and `r` schedule the same present leader at time `t`.
fn is_match(
    scheme: &Vec<Vec<Event>>,
    ev: &Vec<Vec<usize>>,
    l: usize,
    r: usize,
    t: usize,
) -> (m: bool)
    requires
        ev_ok(vv_view(*scheme), vv_view(*ev)),
        l < vv_view(*scheme).len(),
        r < vv_view(*scheme).len(),
        t < dur(vv_view(*scheme)[r as int]),
    ensures
        m == (match_at(vv_view(*scheme)[l as int], vv_view(*scheme)[r as int], t as int) == 1),
{
    let ghost v = vv_view(*scheme);
    proof {
        assert(vv_view(*ev)[l as int] == ev@[l as int]@);
        assert(vv_view(*ev)[r as int] == ev@[r as int]@);
        assert(v[l as int] == scheme@[l as int]@);
        assert(v[r as int] == scheme@[r as int]@);
        assert(vv_view(*ev)[l as int].len() == dur(v[l as int]));
        assert(vv_view(*ev)[r as int].len() == dur(v[r as int]));
    }
    if t >= ev[l].len() {
        return false;
    }
    let jl = ev[l][t];
    let jr = ev[r][t];
    proof {
        lemma_event_at_bounds(v[l as int], t as int);
        lemma_event_at_bounds(v[r as int], t as int);
    }
    let el = &scheme[l][jl];
    let er = &scheme[r][jr];
    match (el.leader_id, er.leader_id) {
        (Some(x), Some(y)) => x == y,
        _ => false,
    }
}

/// Number of rows before `r` colliding with row `r` at time `t`.
fn count_before_at(scheme: &Vec<Vec<Event>>, ev: &Vec<Vec<usize>>, r: usize, t: usize) -> (c: u64)
    requires
        ev_ok(vv_view(*scheme), vv_view(*ev)),
        r < vv_view(*scheme).len(),
        t < dur(vv_view(*scheme)[r as int]),
    ensures
        c == count_before(vv_view(*scheme), r as int, t as int),
        c <= r,
{
    let ghost v = vv_view(*scheme);
    let mut c: u64 = 0;
    let mut l: usize = 0;
    while l < r
        invariant
            l <= r,
            r < v.len(),
            t < dur(v[r as int]),
            c == sum_over(0, l as int, cb_term(v, r as int, t as int)),
            c <= l,
        decreases r - l,
    {
        proof {
            lemma_sum_split(0, l as int, l + 1, cb_term(v, r as int, t as int));
            assert(sum_over(l as int, l + 1, cb_term(v, r as int, t as int)) == cb_term(
                v,
                r as int,
                t as int,
            )(l as int) + sum_over(l + 1, l + 1, cb_term(v, r as int, t as int)));
        }
        if is_match(scheme, ev, l, r, t) {
            c = c + 1;
        }
        l = l + 1;
    }
    c
}

/// The reference cost of the whole grid, from scratch.
fn compute_cost(scheme: &Vec<Vec<Event>>, ev: &Vec<Vec<usize>>) -> (cost: u64)
    requires
        fits(vv_view(*scheme)),
        ev_ok(vv_view(*scheme), vv_view(*ev)),
    ensures
        cost == sched_cost(vv_view(*scheme)),
{
    let ghost v = vv_view(*scheme);
    proof {
        lemma_cost_bound(v);
        lemma_total_fits(v);
    }
    let mut cost: u64 = 0;
    let mut r: usize = 0;
    while r < scheme.len()
        invariant
            r <= scheme.len(),
            fits(v),
            ev_ok(v, vv_view(*ev)),
            cost == sum_over(0, r as int, sc_term(v)),
            cost <= sched_cost(v),
        decreases scheme.len() - r,
    {
        proof {
            lemma_sum_split(0, r as int, v.len() as int, sc_term(v));
            lemma_sum_split(r as int, r + 1, v.len() as int, sc_term(v));
            assert(sum_over(r as int, r + 1, sc_term(v)) == sc_term(v)(r as int) + sum_over(
                r + 1,
                r + 1,
                sc_term(v),
            ));
            assert(vv_view(*ev)[r as int] == ev@[r as int]@);
            assert(vv_view(*ev)[r as int].len() == dur(v[r as int]));
        }
        let dur_r = ev[r].len();
        proof {
            assert(sc_term(v)(r as int) == row_cost(v, r as int));
            assert(row_cost(v, r as int) == sum_over(0, dur_r as int, rc_term(v, r as int)));
        }
        let mut t: usize = 0;
        while t < dur_r
            invariant
                t <= dur_r,
                r < v.len(),
                dur_r == dur(v[r as int]),
                fits(v),
                ev_ok(v, vv_view(*ev)),
                cost == sum_over(0, r as int, sc_term(v)) + sum_over(0, t as int, rc_term(v, r as int)),
                cost + sum_over(t as int, dur_r as int, rc_term(v, r as int)) + sum_over(
                    r + 1,
                    v.len() as int,
                    sc_term(v),
                ) == sched_cost(v),
            decreases dur_r - t,
        {
            proof {
                lemma_sum_split(0, t as int, t + 1, rc_term(v, r as int));
                assert(sum_over(t as int, t + 1, rc_term(v, r as int)) == rc_term(v, r as int)(
                    t as int,
                ) + sum_over(t + 1, t + 1, rc_term(v, r as int)));
                lemma_sum_split(t as int, t + 1, dur_r as int, rc_term(v, r as int));
                assert(rc_term(v, r as int)(t as int) == count_before(v, r as int, t as int));
            }
            let c = count_before_at(scheme, ev, r, t);
            cost = cost + c;
            t = t + 1;
        }
        proof {
            assert(sum_over(0, dur_r as int, rc_term(v, r as int)) == row_cost(v, r as int));
            lemma_sum_split(0, r as int, r + 1, sc_term(v));
            assert(sum_over(r as int, r + 1, sc_term(v)) == sc_term(v)(r as int) + sum_over(
                r + 1,
                r + 1,
                sc_term(v),
            ));
        }
        r = r + 1;
    }
    cost
}

/// Collision contribution summed over the column range `[lo, hi)` of row `r`:
/// for each column, how many other rows schedule the same present leader.
pub(crate) fn contribution_over(
    scheme: &Vec<Vec<Event>>,
    ev: &Vec<Vec<usize>>,
    r: usize,
    lo: usize,
    hi: usize,
) -> (c: usize)
    requires
        fits(vv_view(*scheme)),
        ev_ok(vv_view(*scheme), vv_view(*ev)),
        r < vv_view(*scheme).len(),
        lo <= hi,
        hi <= dur(vv_view(*scheme)[r as int]),
    ensures
        c == sum_over(lo as int, hi as int, con_term(vv_view(*scheme), r as int)),
{
    let ghost v = vv_view(*scheme);
    proof {
        lemma_total_fits(v);
        lemma_dur_le_total(v, r as int);
        assert forall|t: int| lo <= t < hi implies #[trigger] con_term(v, r as int)(t)
            <= v.len() by {
            lemma_sum_const_bound(0, v.len() as int, oa_term(v, r as int, t), 1);
        }
        lemma_sum_const_bound(lo as int, hi as int, con_term(v, r as int), v.len());
        if hi > lo {
            vstd::arithmetic::mul::lemma_mul_inequality(
                (hi - lo) as int,
                total_dur(v) as int,
                v.len() as int,
            );
        }
    }
    let mut c: usize = 0;
    let mut t: usize = lo;
    while t < hi
        invariant
            lo <= t <= hi,
            r < v.len(),
            hi <= dur(v[r as int]),
            fits(v),
            ev_ok(v, vv_view(*ev)),
            c == sum_over(lo as int, t as int, con_term(v, r as int)),
            c + sum_over(t as int, hi as int, con_term(v, r as int)) <= total_dur(v) * v.len(),
        decreases hi - t,
    {
        proof {
            lemma_sum_split(lo as int, t as int, hi as int, con_term(v, r as int));
            lemma_sum_split(t as int, t + 1, hi as int, con_term(v, r as int));
            lemma_sum_split(lo as int, t as int, t + 1, con_term(v, r as int));
            assert(sum_over(t as int, t + 1, con_term(v, r as int)) == con_term(v, r as int)(
                t as int,
            ) + sum_over(t + 1, t + 1, con_term(v, r as int)));
        }
        let mut o: usize = 0;
        let mut l: usize = 0;
        while l < scheme.len()
            invariant
                l <= v.len(),
                r < v.len(),
                lo <= t < hi,
                hi <= dur(v[r as int]),
                fits(v),
                ev_ok(v, vv_view(*ev)),
                o == sum_over(0, l as int, oa_term(v, r as int, t as int)),
                o <= l,
            decreases scheme.len() - l,
        {
            proof {
                lemma_sum_split(0, l as int, l + 1, oa_term(v, r as int, t as int));
                assert(sum_over(l as int, l + 1, oa_term(v, r as int, t as int)) == oa_term(
                    v,
                    r as int,
                    t as int,
                )(l as int) + sum_over(l + 1, l + 1, oa_term(v, r as int, t as int)));
            }
            if l != r {
                if is_match(scheme, ev, l, r, t) {
                    o = o + 1;
                }
            }
            l = l + 1;
        }
        proof {
            assert(o == others_at(v, r as int, t as int));
        }
        c = c + o;
        t = t + 1;
    }
    c
}

/// Rebuilds the collision map: every event with positive contribution, mapped
/// to that contribution, in row-major insertion order.
fn build_collisions(
    scheme: &Vec<Vec<Event>>,
    ev: &Vec<Vec<usize>>,
    idx: &Vec<Vec<usize>>,
    capacity: usize,
) -> (m: IndexMap<(usize, usize), usize>)
    requires
        fits(vv_view(*scheme)),
        ev_ok(vv_view(*scheme), vv_view(*ev)),
        idx_ok(vv_view(*scheme), vv_view(*idx)),
    ensures
        distinct_keys(im_entries(m)),
        entries_map(im_entries(m)) == collisions_of(vv_view(*scheme)),
        im_entries(m) == collision_entries(vv_view(*scheme), vv_view(*scheme).len() as int),
{
    let ghost v = vv_view(*scheme);
    let mut m = im_with_capacity(capacity);
    proof {
        lemma_entries_empty();
        assert(entries_map(im_entries(m)) =~= collisions_upto(v, 0, 0));
        assert(im_entries(m) =~= collision_entries(v, 0));
    }
    let mut r: usize = 0;
    while r < scheme.len()
        invariant
            r <= v.len(),
            fits(v),
            ev_ok(v, vv_view(*ev)),
            idx_ok(v, vv_view(*idx)),
            distinct_keys(im_entries(m)),
            entries_map(im_entries(m)) == collisions_upto(v, r as int, 0),
            im_entries(m) == collision_entries(v, r as int),
        decreases scheme.len() - r,
    {
        let row_len = scheme[r].len();
        let mut i: usize = 0;
        proof {
            assert(im_entries(m) =~= collision_entries(v, r as int) + row_collision_entries(
                v,
                r as int,
                0,
            ));
        }
        while i < row_len
            invariant
                i <= row_len,
                r < v.len(),
                row_len == v[r as int].len(),
                fits(v),
                ev_ok(v, vv_view(*ev)),
                idx_ok(v, vv_view(*idx)),
                distinct_keys(im_entries(m)),
                entries_map(im_entries(m)) == collisions_upto(v, r as int, i as int),
                im_entries(m) == collision_entries(v, r as int) + row_collision_entries(
                    v,
                    r as int,
                    i as int,
                ),
            decreases row_len - i,
        {
            proof {
                assert(vv_view(*idx)[r as int] == idx@[r as int]@);
                assert(vv_view(*idx)[r as int].len() == v[r as int].len() + 1);
                assert(vv_view(*idx)[r as int][i as int] == start_of(v[r as int], i as int));
                assert(vv_view(*idx)[r as int][i + 1] == start_of(v[r as int], i + 1));
            }
            let lo = idx[r][i];
            let hi = idx[r][i + 1];
            proof {
                lemma_start_monotone(v[r as int], i as int, i + 1);
                lemma_start_monotone(v[r as int], i + 1, row_len as int);
            }
            let c = contribution_over(scheme, ev, r, lo, hi);
            proof {
                assert(c == contribution(v, r as int, i as int));
            }
            if c >= 1 {
                proof {
                    assert(!collisions_upto(v, r as int, i as int).contains_key((r, i)));
                    assert(entries_map(im_entries(m)).contains_key((r, i)) == has_key(
                        im_entries(m),
                        (r, i),
                    ));
                    lemma_entries_push(im_entries(m), (r, i), c);
                }
                let _ = im_insert(&mut m, (r, i), c);
                proof {
                    assert(entries_map(im_entries(m)) =~= collisions_upto(v, r as int, i + 1));
                    assert(im_entries(m) =~= collision_entries(v, r as int)
                        + row_collision_entries(v, r as int, i + 1));
                }
            } else {
                proof {
                    assert(entries_map(im_entries(m)) =~= collisions_upto(v, r as int, i + 1));
                    assert(row_collision_entries(v, r as int, i + 1) =~= row_collision_entries(
                        v,
                        r as int,
                        i as int,
                    ));
                }
            }
            i = i + 1;
        }
        proof {
            assert(collisions_upto(v, r as int, v[r as int].len() as int) =~= collisions_upto(
                v,
                r + 1,
                0,
            ));
            assert(collision_entries(v, r + 1) == collision_entries(v, r as int)
                + row_collision_entries(v, r as int, v[r as int].len() as int));
        }
        r = r + 1;
    }
    proof {
        assert(collisions_upto(v, v.len() as int, 0) =~= collisions_of(v));
    }
    m
}

/// The collision entries of row `r` before position `i`, in position order.
pub open spec fn row_collision_entries(v: Seq<Seq<Event>>, r: int, i: int) -> Seq<
    ((usize, usize), usize),
>
    decreases i,
{
    if i <= 0 {
        Seq::empty()
    } else {
        row_collision_entries(v, r, i - 1) + (if contribution(v, r, i - 1) >= 1 {
            seq![(((r as usize), ((i - 1) as usize)), contribution(v, r, i - 1) as usize)]
        } else {
            Seq::empty()
        })
    }
}

/// The collision entries of the rows before `r`, in row-major order: the
/// exact order a full recompute inserts them in, so the rebuilt container is
/// a function of `scheme` bit for bit.
pub open spec fn collision_entries(v: Seq<Seq<Event>>, r: int) -> Seq<((usize, usize), usize)>
    decreases r,
{
    if r <= 0 {
        Seq::empty()
    } else {
        collision_entries(v, r - 1) + row_collision_entries(v, r - 1, v[r - 1].len() as int)
    }
}

/// The collision map restricted to events before `(r, i)` in row-major order.
pub open spec fn collisions_upto(v: Seq<Seq<Event>>, r: int, i: int) -> Map<
    (usize, usize),
    usize,
> {
    Map::new(
        |k: (usize, usize)|
            (k.0 as int) < v.len() && (k.1 as int) < v[k.0 as int].len() && contribution(
                v,
                k.0 as int,
                k.1 as int,
            ) >= 1 && ((k.0 as int) < r || ((k.0 as int) == r && (k.1 as int) < i)),
        |k: (usize, usize)| contribution(v, k.0 as int, k.1 as int) as usize,
    )
}

impl Schedule {
    /// Builds a schedule from a grid of rows and computes every derived
    /// structure from scratch.
    pub fn new(scheme: Vec<Vec<Event>>) -> (s: Schedule)
        requires
            rows_wf(vv_view(scheme)),
            fits(vv_view(scheme)),
        ensures
            s.wf(),
            s.rows() == vv_view(scheme),
            im_entries(s.collisions) == collision_entries(s.rows(), s.rows().len() as int),
    {
        let ghost v = vv_view(scheme);
        proof {
            lemma_total_fits(v);
        }
        let mut len: usize = 0;
        let mut r: usize = 0;
        while r < scheme.len()
            invariant
                r <= v.len(),
                fits(v),
                len == sum_over(0, r as int, dur_term(v)),
                len <= total_dur(v),
            decreases scheme.len() - r,
        {
            proof {
                lemma_sum_split(0, r as int, v.len() as int, dur_term(v));
                lemma_sum_split(0, r as int, r + 1, dur_term(v));
                assert(sum_over(r as int, r + 1, dur_term(v)) == dur_term(v)(r as int) + sum_over(
                    r + 1,
                    r + 1,
                    dur_term(v),
                ));
                lemma_sum_split(r as int, r + 1, v.len() as int, dur_term(v));
            }
            let row_len = scheme[r].len();
            let mut d: usize = 0;
            let mut i: usize = 0;
            while i < row_len
                invariant
                    i <= row_len,
                    r < v.len(),
                    row_len == v[r as int].len(),
                    fits(v),
                    d == start_of(v[r as int], i as int),
                decreases row_len - i,
            {
                proof {
                    lemma_start_step(v[r as int], i as int);
                    lemma_start_monotone(v[r as int], i + 1, row_len as int);
                    lemma_dur_le_total(v, r as int);
                }
                d = d + scheme[r][i].len;
                i = i + 1;
            }
            len = len + d;
            r = r + 1;
        }
        let mut s = Schedule {
            scheme,
            event: Vec::new(),
            idx: Vec::new(),
            collisions: im_with_capacity(0),
            len,
            cost: 0,
        };
        s.update();
        s
    }

    /// Full recompute of every derived structure from `scheme`. Every field
    /// it writes — the tables, the cost, and the collision container entry
    /// for entry, in row-major insertion order — is a function of `scheme`
    /// alone, so a second recompute reproduces the same state bit for bit.
    pub fn update(&mut self)
        requires
            rows_wf(old(self).rows()),
            fits(old(self).rows()),
            old(self).len == total_dur(old(self).rows()),
        ensures
            final(self).wf(),
            final(self).scheme == old(self).scheme,
            final(self).len == old(self).len,
            im_entries(final(self).collisions) == collision_entries(
                final(self).rows(),
                final(self).rows().len() as int,
            ),
    {
        let idx = build_idx(&self.scheme);
        let ev = build_event_tables(&self.scheme);
        let cost = compute_cost(&self.scheme, &ev);
        let cmap = build_collisions(&self.scheme, &ev, &idx, self.len);
        self.idx = idx;
        self.event = ev;
        self.cost = cost;
        self.collisions = cmap;
    }
}

/// Exchanges the events at positions `a` and `b` of a row.
fn exchange(row: &mut Vec<Event>, a: usize, b: usize)
    requires
        a < old(row)@.len(),
        b < old(row)@.len(),
    ensures
        final(row)@ == old(row)@.update(a as int, old(row)@[b as int]).update(
            b as int,
            old(row)@[a as int],
        ),
{
    let ghost orig = row@;
    let ghost target = orig.update(a as int, orig[b as int]).update(b as int, orig[a as int]);
    if a == b {
        proof {
            assert(target =~= orig);
        }
        return ;
    }
    let (lo, hi) = if a < b {
        (a, b)
    } else {
        (b, a)
    };
    let e_hi = row.remove(hi);
    let e_lo = row.remove(lo);
    row.insert(lo, e_hi);
    row.insert(hi, e_lo);
    proof {
        assert forall|i: int| 0 <= i < target.len() implies row@[i] == target[i] by {}
        assert(row@ =~= target);
    }
}

impl Schedule {
    /// Exchanges the events at positions `a` and `b` of row `line` and brings
    /// every derived structure (cost and collision map included) back in step
    /// with the new arrangement. `a == b` leaves the schedule untouched.
    pub fn swap(&mut self, line: usize, a: usize, b: usize)
        requires
            old(self).wf(),
            line < old(self).rows().len(),
            a < old(self).rows()[line as int].len(),
            b < old(self).rows()[line as int].len(),
        ensures
            final(self).wf(),
            final(self).rows() == swapped_rows(
                old(self).rows(),
                line as int,
                a as int,
                b as int,
            ),
            final(self).len == old(self).len,
            a == b ==> *final(self) == *old(self),
    {
        let ghost v = vv_view(self.scheme);
        if a == b {
            proof {
                assert forall|r: int|
                    0 <= r < v.len() implies #[trigger] swapped_rows(
                    v,
                    line as int,
                    a as int,
                    b as int,
                )[r] =~= v[r] by {
                    if r == line as int {
                        assert(swapped_rows(v, line as int, a as int, b as int)[r] =~= v[r]);
                    }
                }
                assert(swapped_rows(v, line as int, a as int, b as int) =~= v);
            }
            return ;
        }
        let (first, second) = if a < b {
            (a, b)
        } else {
            (b, a)
        };
        proof {
            crate::model::lemma_swapped_sym(v, line as int, a as int, b as int);
            assert(swapped_rows(v, line as int, first as int, second as int) == swapped_rows(
                v,
                line as int,
                a as int,
                b as int,
            ));
        }
        if self.scheme[line][first].len == self.scheme[line][second].len {
            // Fast path: equal lengths leave the in-row layout untouched.
            self.swap_fast(line, first, second);
            return ;
        }
        // Slow path: the layout shifts, so recompute everything.
        let ghost v2 = swapped_rows(v, line as int, a as int, b as int);
        let mut row = self.scheme.remove(line);
        exchange(&mut row, a, b);
        self.scheme.insert(line, row);
        proof {
            assert forall|r: int| 0 <= r < v2.len() implies #[trigger] vv_view(self.scheme)[r]
                == v2[r] by {
                assert(self.scheme@[r] == if r == line as int {
                    row
                } else {
                    old(self).scheme@[r]
                });
            }
            assert(vv_view(self.scheme) =~= v2);
            lemma_rows_wf_swap(v, line as int, a as int, b as int);
            lemma_total_dur_swap(v, line as int, a as int, b as int);
        }
        self.update();
    }
}

impl Schedule {
    /// Builds a schedule after checking everything `new` requires: every
    /// event well formed and every derived size inside the machine bounds.
    /// Returns `None` exactly when one of those checks fails.
    pub fn try_new(scheme: Vec<Vec<Event>>) -> (r: Option<Schedule>)
        ensures
            match r {
                Some(s) => s.wf() && s.rows() == vv_view(scheme) && rows_wf(vv_view(scheme))
                    && fits(vv_view(scheme)),
                None => !(rows_wf(vv_view(scheme)) && fits(vv_view(scheme))),
            },
    {
        let ghost v = vv_view(scheme);
        let n = scheme.len();
        let mut total: usize = 0;
        let mut r: usize = 0;
        while r < n
            invariant
                r <= n == v.len(),
                n == scheme@.len(),
                total == sum_over(0, r as int, dur_term(v)),
                forall|q: int, i: int|
                    0 <= q < r && 0 <= i < v[q].len() ==> crate::event::event_wf(
                        #[trigger] v[q][i],
                    ),
            decreases n - r,
        {
            let row_len = scheme[r].len();
            let mut d: usize = 0;
            let mut i: usize = 0;
            while i < row_len
                invariant
                    i <= row_len,
                    r < n == v.len(),
                    n == scheme@.len(),
                    row_len == v[r as int].len(),
                    d == start_of(v[r as int], i as int),
                    forall|j: int|
                        0 <= j < i ==> crate::event::event_wf(#[trigger] v[r as int][j]),
                decreases row_len - i,
            {
                let e = &scheme[r][i];
                let ok = e.len >= 1 && (match (&e.leader_name, &e.leader_id) {
                    (Some(name), Some(id)) => *id == crate::event::hash_name(name),
                    (None, None) => true,
                    _ => false,
                });
                if !ok {
                    proof {
                        assert(!crate::event::event_wf(v[r as int][i as int]));
                        assert(!rows_wf(v));
                    }
                    return None;
                }
                proof {
                    lemma_start_step(v[r as int], i as int);
                }
                d = match d.checked_add(e.len) {
                    Some(x) => x,
                    None => {
                        proof {
                            lemma_rows_partial_overflow(v, r as int, i as int);
                        }
                        return None;
                    },
                };
                i = i + 1;
            }
            proof {
                lemma_sum_split(0, r as int, r + 1, dur_term(v));
                assert(sum_over(r as int, r + 1, dur_term(v)) == dur_term(v)(r as int) + sum_over(
                    r + 1,
                    r + 1,
                    dur_term(v),
                ));
                assert(dur_term(v)(r as int) == dur(v[r as int]));
            }
            total = match total.checked_add(d) {
                Some(x) => x,
                None => {
                    proof {
                        lemma_total_partial_overflow(v, r + 1);
                    }
                    return None;
                },
            };
            r = r + 1;
        }
        match total.checked_mul(n) {
            Some(_) => {
                proof {
                    assert(total == total_dur(v));
                }
                Some(Self::new(scheme))
            },
            None => {
                proof {
                    assert(total == total_dur(v));
                    assert(!fits(v));
                }
                None
            },
        }
    }
}

/// A partial row sum past the machine bound means the sizes do not fit.
proof fn lemma_rows_partial_overflow(v: Seq<Seq<Event>>, r: int, i: int)
    requires
        0 <= r < v.len(),
        0 <= i < v[r].len(),
        start_of(v[r], i) + len_at(v[r], i) > usize::MAX,
    ensures
        !fits(v),
{
    lemma_start_step(v[r], i);
    lemma_start_monotone(v[r], i + 1, v[r].len() as int);
    lemma_dur_le_total(v, r);
    if fits(v) {
        lemma_total_fits(v);
        assert(false);
    }
}

/// A partial total past the machine bound means the sizes do not fit.
proof fn lemma_total_partial_overflow(v: Seq<Seq<Event>>, r: int)
    requires
        0 <= r <= v.len(),
        sum_over(0, r, dur_term(v)) > usize::MAX,
    ensures
        !fits(v),
{
    lemma_sum_split(0, r, v.len() as int, dur_term(v));
    if fits(v) {
        lemma_total_fits(v);
        assert(false);
    }
}

/// Scans one span of columns in one other row: counts the columns whose
/// leader matches the incoming and the outgoing occupant, and records every
/// event met as touched.
fn scan_span(
    scheme: &Vec<Vec<Event>>,
    ev: &Vec<Vec<usize>>,
    l: usize,
    lo: usize,
    hi: usize,
    id_plus: Option<u64>,
    id_minus: Option<u64>,
    touched: &mut Vec<(usize, usize)>,
) -> (r: (u64, u64))
    requires
        ev_ok(vv_view(*scheme), vv_view(*ev)),
        l < vv_view(*scheme).len(),
        lo <= hi,
    ensures
        r.0 == span_count(vv_view(*scheme)[l as int], id_plus, lo as int, hi as int),
        r.1 == span_count(vv_view(*scheme)[l as int], id_minus, lo as int, hi as int),
        final(touched)@.len() >= old(touched)@.len(),
        final(touched)@.subrange(0, old(touched)@.len() as int) == old(touched)@,
        forall|i: int|
            old(touched)@.len() <= i < final(touched)@.len() ==> ((#[trigger] final(touched)@[i]).0
                == l && (final(touched)@[i].1 as int) < vv_view(*scheme)[l as int].len()),
        forall|t: int|
            lo <= t < hi && t < dur(vv_view(*scheme)[l as int]) ==> final(touched)@.contains(
                (l, #[trigger] vv_view(*ev)[l as int][t]),
            ),
{
    let ghost v = vv_view(*scheme);
    let ghost vrow = v[l as int];
    let ghost t0 = touched@;
    proof {
        assert(vv_view(*ev)[l as int] == ev@[l as int]@);
        assert(vv_view(*ev)[l as int].len() == dur(vrow));
    }
    let mut plus: u64 = 0;
    let mut minus: u64 = 0;
    let dl = ev[l].len();
    let stop = if hi < dl {
        hi
    } else {
        dl
    };
    let mut t = lo;
    if t < stop {
        while t < stop
            invariant
                lo <= t <= stop,
                stop <= hi,
                stop <= dl,
                (stop as int) == if (hi as int) < dur(vrow) {
                    hi as int
                } else {
                    dur(vrow) as int
                },
                l < v.len(),
                vrow == v[l as int],
                dl == dur(vrow),
                ev_ok(v, vv_view(*ev)),
                plus == span_count(vrow, id_plus, lo as int, t as int),
                minus == span_count(vrow, id_minus, lo as int, t as int),
                plus <= t - lo,
                minus <= t - lo,
                touched@.len() >= t0.len(),
                touched@.subrange(0, t0.len() as int) == t0,
                forall|i: int|
                    t0.len() <= i < touched@.len() ==> (#[trigger] touched@[i]).0 == l && (
                    touched@[i].1 as int) < vrow.len(),
                forall|t2: int|
                    lo <= t2 < t ==> touched@.contains((l, #[trigger] vv_view(*ev)[l as int][t2])),
            decreases stop - t,
        {
            proof {
                lemma_sum_split(lo as int, t as int, t + 1, span_term(vrow, id_plus));
                assert(sum_over(t as int, t + 1, span_term(vrow, id_plus)) == span_term(
                    vrow,
                    id_plus,
                )(t as int) + sum_over(t + 1, t + 1, span_term(vrow, id_plus)));
                lemma_sum_split(lo as int, t as int, t + 1, span_term(vrow, id_minus));
                assert(sum_over(t as int, t + 1, span_term(vrow, id_minus)) == span_term(
                    vrow,
                    id_minus,
                )(t as int) + sum_over(t + 1, t + 1, span_term(vrow, id_minus)));
                lemma_event_at_bounds(vrow, t as int);
            }
            let j = ev[l][t];
            let ghost before_push = touched@;
            touched.push((l, j));
            proof {
                assert(touched@.subrange(0, t0.len() as int) =~= t0);
                assert(touched@[touched@.len() - 1] == (l, j));
                assert forall|t2: int|
                    lo <= t2 < t + 1 implies touched@.contains(
                    (l, #[trigger] vv_view(*ev)[l as int][t2]),
                ) by {
                    if t2 < t {
                        let w = choose|w: int|
                            0 <= w < before_push.len() && before_push[w] == (
                            l,
                            vv_view(*ev)[l as int][t2],
                            );
                        assert(touched@[w] == (l, vv_view(*ev)[l as int][t2]));
                    } else {
                        assert(touched@[touched@.len() - 1] == (l, vv_view(*ev)[l as int][t2]));
                    }
                }
            }
            let lj = scheme[l][j].leader_id;
            proof {
                assert(j == event_at(vrow, t as int));
                assert(leader_of(vrow, t as int) == lj);
            }
            let p_hit = match (lj, id_plus) {
                (Some(x), Some(y)) => x == y,
                _ => false,
            };
            if p_hit {
                plus = plus + 1;
            }
            let m_hit = match (lj, id_minus) {
                (Some(x), Some(y)) => x == y,
                _ => false,
            };
            if m_hit {
                minus = minus + 1;
            }
            t = t + 1;
        }
    } else {
        proof {
            assert(span_count(vrow, id_plus, lo as int, t as int) == 0);
            assert(span_count(vrow, id_minus, lo as int, t as int) == 0);
        }
    }
    proof {
        assert forall|t2: int| t <= t2 < hi implies #[trigger] span_term(vrow, id_plus)(t2)
            == 0 by {}
        assert forall|t2: int| t <= t2 < hi implies #[trigger] span_term(vrow, id_minus)(t2)
            == 0 by {}
        lemma_sum_split(lo as int, t as int, hi as int, span_term(vrow, id_plus));
        lemma_sum_const_bound(t as int, hi as int, span_term(vrow, id_plus), 0);
        lemma_sum_split(lo as int, t as int, hi as int, span_term(vrow, id_minus));
        lemma_sum_const_bound(t as int, hi as int, span_term(vrow, id_minus), 0);
    }
    (plus, minus)
}

/// The collision map mid-repair: keys already revisited read from the new
/// grid, the rest still from the old one.
pub open spec fn fix_map(
    v: Seq<Seq<Event>>,
    v2: Seq<Seq<Event>>,
    done: Seq<(usize, usize)>,
) -> Map<(usize, usize), usize> {
    Map::new(
        |k: (usize, usize)|
            if done.contains(k) {
                (k.0 as int) < v2.len() && (k.1 as int) < v2[k.0 as int].len() && contribution(
                    v2,
                    k.0 as int,
                    k.1 as int,
                ) >= 1
            } else {
                (k.0 as int) < v.len() && (k.1 as int) < v[k.0 as int].len() && contribution(
                    v,
                    k.0 as int,
                    k.1 as int,
                ) >= 1
            },
        |k: (usize, usize)|
            if done.contains(k) {
                contribution(v2, k.0 as int, k.1 as int) as usize
            } else {
                contribution(v, k.0 as int, k.1 as int) as usize
            },
    )
}

/// Membership in a sequence extended by one element.
proof fn lemma_contains_push(s: Seq<(usize, usize)>, x: (usize, usize), q: (usize, usize))
    ensures
        s.push(x).contains(q) <==> (s.contains(q) || q == x),
{
    if s.push(x).contains(q) {
        let w = choose|w: int| 0 <= w < s.push(x).len() && s.push(x)[w] == q;
        if w < s.len() {
            assert(s[w] == q);
        }
    }
    if s.contains(q) {
        let w = choose|w: int| 0 <= w < s.len() && s[w] == q;
        assert(s.push(x)[w] == q);
    }
    if q == x {
        assert(s.push(x)[s.len() as int] == q);
    }
}

impl Schedule {
    /// The fast path of `swap`: the two events cover the same number of time
    /// units, so the in-row layout is unchanged and only the two spans of
    /// columns trade leaders. The cost moves by the matches entering minus
    /// the matches leaving those spans, and only the events met there (plus
    /// the two exchanged ones) can change their collision contribution, so
    /// exactly those entries are recomputed.
    fn swap_fast(&mut self, line: usize, a: usize, b: usize)
        requires
            old(self).wf(),
            line < old(self).rows().len(),
            a < b,
            b < old(self).rows()[line as int].len(),
            old(self).rows()[line as int][a as int].len == old(self).rows()[line as int][
                b as int].len,
        ensures
            final(self).wf(),
            final(self).rows() == swapped_rows(
                old(self).rows(),
                line as int,
                a as int,
                b as int,
            ),
            final(self).len == old(self).len,
    {
        let ghost v = vv_view(self.scheme);
        let ghost v2 = swapped_rows(v, line as int, a as int, b as int);
        proof {
            assert(vv_view(self.idx)[line as int] == self.idx@[line as int]@);
            assert(vv_view(self.idx)[line as int].len() == v[line as int].len() + 1);
            assert(vv_view(self.idx)[line as int][a as int] == start_of(v[line as int], a as int));
            assert(vv_view(self.idx)[line as int][b as int] == start_of(v[line as int], b as int));
            assert(crate::event::event_wf(v[line as int][a as int]));
        }
        let la = self.scheme[line][a].leader_id;
        let lb = self.scheme[line][b].leader_id;
        let ai = self.idx[line][a];
        let bi = self.idx[line][b];
        let el = self.scheme[line][a].len;
        let ghost incf = inc_l_term(v, line as int, la, lb, ai as int, bi as int, el as int);
        let ghost decf = dec_l_term(v, line as int, la, lb, ai as int, bi as int, el as int);
        proof {
            lemma_span_layout(v[line as int], a as int, b as int);
            lemma_rows_wf_swap(v, line as int, a as int, b as int);
            lemma_total_dur_swap(v, line as int, a as int, b as int);
            lemma_swap_cost_delta(v, line as int, a as int, b as int);
            lemma_totals_bounded(v, line as int, a as int, b as int);
            lemma_cost_bound(v2);
            lemma_total_fits(v);
            lemma_dur_le_total(v, line as int);
        }
        // Physically exchange the two events; the tables stay valid.
        let mut row = self.scheme.remove(line);
        exchange(&mut row, a, b);
        self.scheme.insert(line, row);
        proof {
            assert forall|r: int| 0 <= r < v2.len() implies #[trigger] vv_view(self.scheme)[r]
                == v2[r] by {
                assert(self.scheme@[r] == if r == line as int {
                    row
                } else {
                    old(self).scheme@[r]
                });
            }
            assert(vv_view(self.scheme) =~= v2);
            let row2 = v[line as int].update(a as int, v[line as int][b as int]).update(
                b as int,
                v[line as int][a as int],
            );
            assert(v2[line as int] == row2);
            assert forall|j: int| 0 <= j < v[line as int].len() implies #[trigger] row2[j].len == v[
            line as int][j].len by {}
            assert(idx_ok(v2, vv_view(self.idx))) by {
                assert forall|i: int|
                    0 <= i <= v2[line as int].len() implies #[trigger] vv_view(self.idx)[
                line as int][i] == start_of(v2[line as int], i) by {
                    lemma_start_congruent(v[line as int], row2, i);
                }
                assert forall|r: int, i: int|
                    0 <= r < v2.len() && 0 <= i <= v2[r].len() implies (#[trigger] vv_view(
                    self.idx,
                )[r][i]) == start_of(v2[r], i) by {
                    if r != line as int {
                        assert(v2[r] == v[r]);
                    } else {
                        lemma_start_congruent(v[line as int], row2, i);
                    }
                }
            }
            assert(ev_ok(v2, vv_view(self.event))) by {
                crate::model::lemma_dur_swap(v[line as int], a as int, b as int);
                assert forall|r: int, t: int|
                    0 <= r < v2.len() && 0 <= t < dur(v2[r]) implies (#[trigger] vv_view(
                    self.event,
                )[r][t]) == event_at(v2[r], t) by {
                    if r != line as int {
                        assert(v2[r] == v[r]);
                    } else {
                        lemma_event_at_congruent(v[line as int], row2, t);
                    }
                }
                assert forall|r: int| 0 <= r < v2.len() implies (#[trigger] vv_view(self.event)[
                r]).len() == dur(v2[r]) by {
                    if r != line as int {
                        assert(v2[r] == v[r]);
                    }
                }
            }
        }
        // Count the matches entering and leaving the two spans, and record
        // every event met there.
        let mut touched: Vec<(usize, usize)> = Vec::new();
        let mut inc: u64 = 0;
        let mut dec: u64 = 0;
        let n_rows = self.scheme.len();
        let mut l: usize = 0;
        while l < n_rows
            invariant
                l <= n_rows,
                n_rows == v.len() == v2.len(),
                line < v.len(),
                a < b < v[line as int].len(),
                ai == start_of(v[line as int], a as int),
                bi == start_of(v[line as int], b as int),
                el == v[line as int][a as int].len,
                ai + el <= bi,
                bi + el <= dur(v[line as int]),
                dur(v[line as int]) <= usize::MAX,
                vv_view(self.scheme) == v2,
                ev_ok(v2, vv_view(self.event)),
                forall|r: int| 0 <= r < v.len() && r != line ==> #[trigger] v2[r] == v[r],
                inc == sum_over(0, l as int, incf),
                dec == sum_over(0, l as int, decf),
                incf == inc_l_term(v, line as int, la, lb, ai as int, bi as int, el as int),
                decf == dec_l_term(v, line as int, la, lb, ai as int, bi as int, el as int),
                inc <= inc_total(v, line as int, la, lb, ai as int, bi as int, el as int),
                dec <= dec_total(v, line as int, la, lb, ai as int, bi as int, el as int),
                forall|i: int|
                    0 <= i < touched@.len() ==> ((#[trigger] touched@[i]).0 as int) < v.len() && (
                    touched@[i].0 != line) && ((touched@[i].1 as int) < v2[
                    touched@[i].0 as int].len()),
                forall|l2: usize, t: int|
                    0 <= (l2 as int) < l && l2 != line && ((ai <= t < ai + el) || (bi <= t < bi
                        + el)) && 0 <= t < dur(v2[l2 as int]) ==> touched@.contains(
                        (l2, #[trigger] vv_view(self.event)[l2 as int][t]),
                    ),
            decreases n_rows - l,
        {
            proof {
                lemma_sum_split(0, l as int, l + 1, incf);
                assert(sum_over(l as int, l + 1, incf) == incf(l as int) + sum_over(
                    l + 1,
                    l + 1,
                    incf,
                ));
                lemma_sum_split(0, l as int, l + 1, decf);
                assert(sum_over(l as int, l + 1, decf) == decf(l as int) + sum_over(
                    l + 1,
                    l + 1,
                    decf,
                ));
                lemma_sum_split(0, l + 1, v.len() as int, incf);
                lemma_sum_split(0, l + 1, v.len() as int, decf);
            }
            if l != line {
                let ghost pre1 = touched@;
                let (pa, ma) = scan_span(
                    &self.scheme,
                    &self.event,
                    l,
                    ai,
                    ai + el,
                    lb,
                    la,
                    &mut touched,
                );
                let ghost pre2 = touched@;
                let (pb, mb) = scan_span(
                    &self.scheme,
                    &self.event,
                    l,
                    bi,
                    bi + el,
                    la,
                    lb,
                    &mut touched,
                );
                proof {
                    assert(v2[l as int] == v[l as int]);
                    assert(incf(l as int) == span_count(
                        v[l as int],
                        lb,
                        ai as int,
                        ai + el,
                    ) + span_count(v[l as int], la, bi as int, bi + el));
                    assert(decf(l as int) == span_count(
                        v[l as int],
                        la,
                        ai as int,
                        ai + el,
                    ) + span_count(v[l as int], lb, bi as int, bi + el));
                    assert(pre2.subrange(0, pre1.len() as int) == pre1);
                    assert(touched@.subrange(0, pre2.len() as int) == pre2);
                    assert forall|i: int|
                        0 <= i < touched@.len() implies (((#[trigger] touched@[i]).0 as int)
                        < v.len() && (touched@[i].0 != line) && ((touched@[i].1 as int) < v2[
                        touched@[i].0 as int].len())) by {
                        if i < pre1.len() {
                            assert(touched@[i] == pre2[i]);
                            assert(pre2[i] == pre1[i]);
                        } else if i < pre2.len() {
                            assert(touched@[i] == pre2[i]);
                        }
                    }
                    assert forall|l2: usize, t: int|
                        0 <= (l2 as int) < l + 1 && l2 != line && ((ai <= t < ai + el) || (bi <= t
                            < bi + el)) && 0 <= t < dur(v2[l2 as int]) implies touched@.contains(
                        (l2, #[trigger] vv_view(self.event)[l2 as int][t]),
                    ) by {
                        let key = (l2, vv_view(self.event)[l2 as int][t]);
                        if (l2 as int) < l {
                            let w = choose|w: int| 0 <= w < pre1.len() && pre1[w] == key;
                            assert(pre2[w] == key);
                            assert(touched@[w] == key);
                        } else {
                            if ai <= t < ai + el {
                                let w = choose|w: int| 0 <= w < pre2.len() && pre2[w] == key;
                                assert(touched@[w] == key);
                            }
                        }
                    }
                }
                inc = inc + pa;
                inc = inc + pb;
                dec = dec + ma;
                dec = dec + mb;
            } else {
                proof {
                    assert(incf(l as int) == 0);
                    assert(decf(l as int) == 0);
                }
            }
            l = l + 1;
        }
        proof {
            assert(inc == inc_total(v, line as int, la, lb, ai as int, bi as int, el as int));
            assert(dec == dec_total(v, line as int, la, lb, ai as int, bi as int, el as int));
            assert(sched_cost(v2) + dec == self.cost + inc);
            assert(dec <= self.cost);
            assert(total_dur(v2) == total_dur(v) && v2.len() == v.len());
            assert(sched_cost(v2) <= total_dur(v) * v.len());
        }
        if inc >= dec {
            self.cost = self.cost + (inc - dec);
        } else {
            self.cost = self.cost - (dec - inc);
        }
        proof {
            assert(self.cost == sched_cost(v2));
        }
        // Repair the collision map: only the touched events and the two
        // exchanged ones can have moved.
        let ghost before_ab = touched@;
        touched.push((line, a));
        touched.push((line, b));
        proof {
            assert(touched@[touched@.len() - 2] == (line, a));
            assert(touched@[touched@.len() - 1] == (line, b));
            assert(touched@.subrange(0, before_ab.len() as int) =~= before_ab);
            assert(touched@.subrange(0, 0) =~= Seq::<(usize, usize)>::empty());
            assert(entries_map(im_entries(self.collisions)) =~= fix_map(
                v,
                v2,
                touched@.subrange(0, 0),
            ));
        }
        proof {
            assert forall|l2: usize, t: int|
                0 <= (l2 as int) < v.len() && l2 != line && ((ai <= t < ai + el) || (bi <= t < bi
                    + el)) && 0 <= t < dur(v2[l2 as int]) implies before_ab.contains(
                (l2, #[trigger] vv_view(self.event)[l2 as int][t]),
            ) by {}
        }
        let total_keys = touched.len();
        let mut kidx: usize = 0;
        while kidx < total_keys
            invariant
                kidx <= total_keys == touched@.len(),
                n_rows == v.len() == v2.len(),
                line < v.len(),
                a < b < v[line as int].len(),
                v2 == swapped_rows(v, line as int, a as int, b as int),
                v2[line as int].len() == v[line as int].len(),
                v[line as int][a as int].len == v[line as int][b as int].len,
                v[line as int][a as int].len >= 1,
                ai == start_of(v[line as int], a as int),
                bi == start_of(v[line as int], b as int),
                el == v[line as int][a as int].len,
                rows_wf(v),
                vv_view(self.scheme) == v2,
                fits(v2),
                rows_wf(v2),
                self.len == old(self).len,
                self.len == total_dur(v2),
                self.cost == sched_cost(v2),
                ev_ok(v2, vv_view(self.event)),
                idx_ok(v2, vv_view(self.idx)),
                total_keys == before_ab.len() + 2,
                touched@.subrange(0, before_ab.len() as int) == before_ab,
                touched@[total_keys - 2] == (line, a),
                touched@[total_keys - 1] == (line, b),
                forall|l2: usize, t: int|
                    0 <= (l2 as int) < v.len() && l2 != line && ((ai <= t < ai + el) || (bi <= t
                        < bi + el)) && 0 <= t < dur(v2[l2 as int]) ==> before_ab.contains(
                        (l2, #[trigger] vv_view(self.event)[l2 as int][t]),
                    ),
                forall|i: int|
                    0 <= i < touched@.len() ==> ((#[trigger] touched@[i]).0 as int) < v2.len() && ((
                    touched@[i].1 as int) < v2[touched@[i].0 as int].len()),
                distinct_keys(im_entries(self.collisions)),
                entries_map(im_entries(self.collisions)) == fix_map(
                    v,
                    v2,
                    touched@.subrange(0, kidx as int),
                ),
            decreases total_keys - kidx,
        {
            let k = touched[kidx];
            proof {
                assert(vv_view(self.idx)[k.0 as int][k.1 as int] == start_of(
                    v2[k.0 as int],
                    k.1 as int,
                ));
                assert(vv_view(self.idx)[k.0 as int][k.1 + 1] == start_of(
                    v2[k.0 as int],
                    k.1 + 1,
                ));
                lemma_start_monotone(v2[k.0 as int], k.1 as int, k.1 + 1);
                lemma_start_monotone(v2[k.0 as int], k.1 + 1, v2[k.0 as int].len() as int);
            }
            let rl = self.idx[k.0].len();
            proof {
                assert(vv_view(self.idx)[k.0 as int] == self.idx@[k.0 as int]@);
                assert(rl == v2[k.0 as int].len() + 1);
            }
            let lo2 = self.idx[k.0][k.1];
            let hi2 = self.idx[k.0][k.1 + 1];
            let c = contribution_over(&self.scheme, &self.event, k.0, lo2, hi2);
            proof {
                assert(c == contribution(v2, k.0 as int, k.1 as int));
            }
            let ghost pre_entries = im_entries(self.collisions);
            let ghost done_pre = touched@.subrange(0, kidx as int);
            let ghost done_post = touched@.subrange(0, kidx + 1);
            proof {
                assert(done_post =~= done_pre.push(k));
            }
            if c >= 1 {
                proof {
                    if has_key(pre_entries, k) {
                        lemma_entries_update(pre_entries, k, c);
                    } else {
                        lemma_entries_push(pre_entries, k, c);
                    }
                }
                let _ = im_insert(&mut self.collisions, k, c);
                proof {
                    assert(entries_map(im_entries(self.collisions)) == entries_map(
                        pre_entries,
                    ).insert(k, c));
                    let em = entries_map(im_entries(self.collisions));
                    let fm = fix_map(v, v2, done_post);
                    assert(k == touched@[kidx as int]);
                    assert((k.1 as int) < v2[k.0 as int].len());
                    assert forall|q: (usize, usize)| #[trigger] em.dom().contains(q)
                        == fm.dom().contains(q) by {
                        lemma_contains_push(done_pre, k, q);
                    }
                    assert(em.dom() =~= fm.dom());
                    assert forall|q: (usize, usize)| #[trigger] fm.dom().contains(q) implies fm[q]
                        == em[q] by {
                        lemma_contains_push(done_pre, k, q);
                    }
                    assert(em =~= fm);
                }
            } else {
                proof {
                    if has_key(pre_entries, k) {
                        lemma_entries_swap_remove(pre_entries, k);
                    }
                }
                let _ = im_swap_remove(&mut self.collisions, k);
                proof {
                    if has_key(pre_entries, k) {
                        assert(entries_map(im_entries(self.collisions)) == entries_map(
                            pre_entries,
                        ).remove(k));
                    }
                    let em = entries_map(im_entries(self.collisions));
                    let fm = fix_map(v, v2, done_post);
                    assert(k == touched@[kidx as int]);
                    assert((k.1 as int) < v2[k.0 as int].len());
                    assert forall|q: (usize, usize)| #[trigger] em.dom().contains(q)
                        == fm.dom().contains(q) by {
                        lemma_contains_push(done_pre, k, q);
                    }
                    assert(em.dom() =~= fm.dom());
                    assert forall|q: (usize, usize)| #[trigger] fm.dom().contains(q) implies fm[q]
                        == em[q] by {
                        lemma_contains_push(done_pre, k, q);
                    }
                    assert(em =~= fm);
                }
            }
            kidx = kidx + 1;
        }
        proof {
            assert(touched@.subrange(0, total_keys as int) =~= touched@);
            let full = touched@;
            assert forall|q: (usize, usize)|
                (#[trigger] fix_map(v, v2, full).dom().contains(q)) == collisions_of(
                    v2,
                ).dom().contains(q) && (fix_map(v, v2, full).dom().contains(q) ==> fix_map(
                    v,
                    v2,
                    full,
                )[q] == collisions_of(v2)[q]) by {
                if !full.contains(q) {
                    assert(q != (line, a)) by {
                        assert(full[total_keys - 2] == (line, a));
                    }
                    assert(q != (line, b)) by {
                        assert(full[total_keys - 1] == (line, b));
                    }
                    if (q.0 as int) < v.len() && (q.1 as int) < v[q.0 as int].len() {
                        if q.0 == line {
                            lemma_contrib_frame_line(
                                v,
                                line as int,
                                a as int,
                                b as int,
                                q.1 as int,
                            );
                        } else {
                            assert forall|t: int|
                                ((start_of(v[line as int], a as int) <= t < start_of(
                                    v[line as int],
                                    a as int,
                                ) + v[line as int][a as int].len) || (start_of(
                                    v[line as int],
                                    b as int,
                                ) <= t < start_of(v[line as int], b as int) + v[line as int][
                                    a as int].len)) && 0 <= t < dur(v[q.0 as int]) implies event_at(
                                v[q.0 as int],
                                t,
                            ) != q.1 as int by {
                                assert(v2[q.0 as int] == v[q.0 as int]);
                                if event_at(v[q.0 as int], t) == q.1 as int {
                                    assert(dur(v2[q.0 as int]) == dur(v[q.0 as int]));
                                    assert(before_ab.contains(
                                        (q.0, vv_view(self.event)[q.0 as int][t]),
                                    ));
                                    let w = choose|w: int|
                                        0 <= w < before_ab.len() && before_ab[w] == (
                                        q.0,
                                        vv_view(self.event)[q.0 as int][t],
                                        );
                                    assert(full[w] == before_ab[w]);
                                    assert(vv_view(self.event)[q.0 as int][t] == q.1);
                                    assert(full.contains(q));
                                    assert(false);
                                }
                            }
                            lemma_contrib_frame_other(
                                v,
                                line as int,
                                a as int,
                                b as int,
                                q.0 as int,
                                q.1 as int,
                            );
                        }
                    }
                }
            }
            assert(fix_map(v, v2, full).dom() =~= collisions_of(v2).dom());
            assert(fix_map(v, v2, full) =~= collisions_of(v2));
            assert(entries_map(im_entries(self.collisions)) == fix_map(v, v2, full));
        }
    }
}

} // verus!
