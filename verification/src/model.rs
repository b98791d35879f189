//! The mathematical model of a schedule grid: starting columns of events,
//! the occupant of each time unit, the reference collision cost, and each
//! event's collision contribution. Every executable operation on grids is
//! specified against these functions.
use vstd::prelude::*;

use crate::event::{event_wf, Event};
use crate::sums::{sum_over, lemma_sum_split, lemma_sum_congruence, lemma_sum_const_bound, lemma_sum_le, lemma_sum_term_le, lemma_sum_scale, lemma_sum_one_point, lemma_sum_pos, lemma_sum_shift};

verus! {

/// A grid of rows of events, as nested sequences.
pub open spec fn vv_view<T>(x: Vec<Vec<T>>) -> Seq<Seq<T>> {
    Seq::new(x@.len(), |r: int| x@[r]@)
}

/// The nested view has one row per vector.
pub broadcast proof fn lemma_vv_len<T>(x: Vec<Vec<T>>)
    ensures
        (#[trigger] vv_view(x)).len() == x@.len(),
{
}

/// Each row of the nested view is the view of that vector.
pub broadcast proof fn lemma_vv_index<T>(x: Vec<Vec<T>>, r: int)
    requires
        0 <= r < x@.len(),
    ensures
        #[trigger] vv_view(x)[r] == x@[r]@,
{
}

/// Every event of the grid is well formed.
pub open spec fn rows_wf(v: Seq<Seq<Event>>) -> bool {
    forall|r: int, i: int|
        0 <= r < v.len() && 0 <= i < v[r].len() ==> event_wf(#[trigger] v[r][i])
}

/// Length in time units of the event at position `j`, zero out of range.
pub open spec fn len_at(row: Seq<Event>, j: int) -> nat {
    if 0 <= j < row.len() {
        row[j].len as nat
    } else {
        0
    }
}

/// The summand of `start_of`.
pub open spec fn len_term(row: Seq<Event>) -> spec_fn(int) -> nat {
    |j: int| len_at(row, j)
}

/// Starting time unit of the event at position `i`: the prefix sum of lengths.
pub open spec fn start_of(row: Seq<Event>, i: int) -> nat {
    sum_over(0, i, len_term(row))
}

/// Total time units covered by a row.
pub open spec fn dur(row: Seq<Event>) -> nat {
    start_of(row, row.len() as int)
}

/// Total time units covered by the whole grid.
pub open spec fn dur_term(v: Seq<Seq<Event>>) -> spec_fn(int) -> nat {
    |r: int| if 0 <= r < v.len() { dur(v[r]) } else { 0 }
}

pub open spec fn total_dur(v: Seq<Seq<Event>>) -> nat {
    sum_over(0, v.len() as int, dur_term(v))
}

pub open spec fn event_at_from(row: Seq<Event>, i: int, t: int) -> int
    decreases row.len() - i,
{
    if i < 0 || i >= row.len() {
        i
    } else if t < start_of(row, i + 1) {
        i
    } else {
        event_at_from(row, i + 1, t)
    }
}

/// Index of the event occupying time unit `t` of a row.
pub open spec fn event_at(row: Seq<Event>, t: int) -> int {
    event_at_from(row, 0, t)
}

/// Leader identifier scheduled at time unit `t` of a row.
pub open spec fn leader_of(row: Seq<Event>, t: int) -> Option<u64> {
    row[event_at(row, t)].leader_id
}

/// One when both rows cover time unit `t` with the same present leader.
pub open spec fn match_at(x: Seq<Event>, y: Seq<Event>, t: int) -> nat {
    if 0 <= t < dur(x) && t < dur(y) && leader_of(x, t) is Some && leader_of(x, t) == leader_of(
        y,
        t,
    ) {
        1
    } else {
        0
    }
}

/// Number of rows before `r` sharing the leader scheduled at `(r, t)`.
/// The summand of `count_before`.
pub open spec fn cb_term(v: Seq<Seq<Event>>, r: int, t: int) -> spec_fn(int) -> nat {
    |l: int| if 0 <= l < v.len() && 0 <= r < v.len() { match_at(v[l], v[r], t) } else { 0 }
}

pub open spec fn count_before(v: Seq<Seq<Event>>, r: int, t: int) -> nat {
    sum_over(0, r, cb_term(v, r, t))
}

/// Collisions charged to row `r`: pairs with earlier rows, over its columns.
/// The summand of `row_cost`.
pub open spec fn rc_term(v: Seq<Seq<Event>>, r: int) -> spec_fn(int) -> nat {
    |t: int| count_before(v, r, t)
}

pub open spec fn row_cost(v: Seq<Seq<Event>>, r: int) -> nat {
    sum_over(0, if 0 <= r < v.len() { dur(v[r]) as int } else { 0 }, rc_term(v, r))
}

/// The reference cost: over every time column, the number of unordered pairs
/// of rows scheduling the same present leader there (counted row by row).
/// The summand of `sched_cost`.
pub open spec fn sc_term(v: Seq<Seq<Event>>) -> spec_fn(int) -> nat {
    |r: int| row_cost(v, r)
}

pub open spec fn sched_cost(v: Seq<Seq<Event>>) -> nat {
    sum_over(0, v.len() as int, sc_term(v))
}

/// Number of rows other than `r` sharing the leader scheduled at `(r, t)`.
/// The summand of `others_at`.
pub open spec fn oa_term(v: Seq<Seq<Event>>, r: int, t: int) -> spec_fn(int) -> nat {
    |l: int|
        if 0 <= l < v.len() && 0 <= r < v.len() && l != r {
            match_at(v[l], v[r], t)
        } else {
            0
        }
}

pub open spec fn others_at(v: Seq<Seq<Event>>, r: int, t: int) -> nat {
    sum_over(0, v.len() as int, oa_term(v, r, t))
}

/// Collision contribution of event `(r, i)`: over its span, how many other
/// occurrences of its leader overlap it.
/// The summand of `contribution`.
pub open spec fn con_term(v: Seq<Seq<Event>>, r: int) -> spec_fn(int) -> nat {
    |t: int| others_at(v, r, t)
}

pub open spec fn contribution(v: Seq<Seq<Event>>, r: int, i: int) -> nat {
    sum_over(start_of(v[r], i) as int, start_of(v[r], i + 1) as int, con_term(v, r))
}

/// The collision map a well-formed grid must carry: exactly the events with a
/// positive contribution, mapped to that contribution.
pub open spec fn collisions_of(v: Seq<Seq<Event>>) -> Map<(usize, usize), usize> {
    Map::new(
        |k: (usize, usize)|
            (k.0 as int) < v.len() && (k.1 as int) < v[k.0 as int].len() && contribution(
                v,
                k.0 as int,
                k.1 as int,
            ) >= 1,
        |k: (usize, usize)| contribution(v, k.0 as int, k.1 as int) as usize,
    )
}

/// Starting columns are monotone in the event position.
pub proof fn lemma_start_monotone(row: Seq<Event>, i: int, j: int)
    requires
        i <= j,
    ensures
        start_of(row, i) <= start_of(row, j),
{
    if 0 <= i {
        lemma_sum_split(0, i, j, len_term(row));
    } else {
        assert(start_of(row, i) == 0);
    }
}

proof fn lemma_event_at_from(row: Seq<Event>, i: int, t: int)
    requires
        0 <= i <= row.len(),
        start_of(row, i) <= t < dur(row),
    ensures
        i <= event_at_from(row, i, t) < row.len(),
        start_of(row, event_at_from(row, i, t)) <= t < start_of(row, event_at_from(row, i, t) + 1),
    decreases row.len() - i,
{
    if i == row.len() {
        assert(false);
    } else if t < start_of(row, i + 1) {
    } else {
        lemma_event_at_from(row, i + 1, t);
    }
}

/// The occupant of a covered time unit is a real event whose span covers it.
pub proof fn lemma_event_at_bounds(row: Seq<Event>, t: int)
    requires
        0 <= t < dur(row),
    ensures
        0 <= event_at(row, t) < row.len(),
        start_of(row, event_at(row, t)) <= t < start_of(row, event_at(row, t) + 1),
{
    assert(start_of(row, 0) == 0);
    lemma_event_at_from(row, 0, t);
}

/// A time unit inside the span of event `i` is occupied by event `i`.
pub proof fn lemma_event_at_unique(row: Seq<Event>, t: int, i: int)
    requires
        0 <= i < row.len(),
        start_of(row, i) <= t < start_of(row, i + 1),
    ensures
        event_at(row, t) == i,
{
    lemma_start_monotone(row, i + 1, row.len() as int);
    lemma_event_at_bounds(row, t);
    let k = event_at(row, t);
    if k < i {
        lemma_start_monotone(row, k + 1, i);
        assert(false);
    } else if k > i {
        lemma_start_monotone(row, i + 1, k);
        assert(false);
    }
}

/// Rows with pointwise equal event lengths have the same starting columns.
pub proof fn lemma_start_congruent(x: Seq<Event>, y: Seq<Event>, i: int)
    requires
        x.len() == y.len(),
        forall|j: int| 0 <= j < x.len() ==> #[trigger] x[j].len == y[j].len,
    ensures
        start_of(x, i) == start_of(y, i),
{
    lemma_sum_congruence(0, i, len_term(x), len_term(y));
}

/// Rows with pointwise equal event lengths have the same occupant indices.
pub proof fn lemma_event_at_congruent(x: Seq<Event>, y: Seq<Event>, t: int)
    requires
        x.len() == y.len(),
        forall|j: int| 0 <= j < x.len() ==> #[trigger] x[j].len == y[j].len,
    ensures
        event_at(x, t) == event_at(y, t),
{
    lemma_event_at_from_congruent(x, y, 0, t);
}

proof fn lemma_event_at_from_congruent(x: Seq<Event>, y: Seq<Event>, i: int, t: int)
    requires
        x.len() == y.len(),
        forall|j: int| 0 <= j < x.len() ==> #[trigger] x[j].len == y[j].len,
    ensures
        event_at_from(x, i, t) == event_at_from(y, i, t),
    decreases x.len() - i,
{
    if 0 <= i < x.len() {
        lemma_start_congruent(x, y, i + 1);
        if t >= start_of(x, i + 1) {
            lemma_event_at_from_congruent(x, y, i + 1, t);
        }
    }
}

/// Per-column pair counts never exceed the number of rows.
pub proof fn lemma_count_before_bound(v: Seq<Seq<Event>>, r: int, t: int)
    ensures
        count_before(v, r, t) <= (if r >= 0 { r as nat } else { 0 }),
        count_before(v, r, t) <= v.len(),
{
    let f = cb_term(v, r, t);
    lemma_sum_const_bound(0, r, f, 1);
    if r > v.len() {
        lemma_sum_split(0, v.len() as int, r, f);
        lemma_sum_const_bound(0, v.len() as int, f, 1);
        lemma_sum_const_bound(v.len() as int, r, f, 0);
    }
}

/// The reference cost is bounded by total duration times the number of rows.
pub proof fn lemma_cost_bound(v: Seq<Seq<Event>>)
    ensures
        sched_cost(v) <= total_dur(v) * v.len(),
{
    let n = v.len() as int;
    let durs = dur_term(v);
    let scaled = |r: int| dur_term(v)(r) * v.len();
    assert forall|r: int| 0 <= r < n implies #[trigger] sc_term(v)(r) <= scaled(r) by {
        assert forall|t: int| 0 <= t < dur(v[r]) implies #[trigger] rc_term(v, r)(t)
            <= v.len() by {
            lemma_count_before_bound(v, r, t);
        }
        lemma_sum_const_bound(0, dur(v[r]) as int, rc_term(v, r), v.len());
        assert(dur(v[r]) * v.len() == scaled(r));
    }
    lemma_sum_le(0, n, sc_term(v), scaled);
    lemma_sum_scale(0, n, durs, scaled, v.len());
}

/// Each row's duration is at most the grid's total duration.
pub proof fn lemma_dur_le_total(v: Seq<Seq<Event>>, r: int)
    requires
        0 <= r < v.len(),
    ensures
        dur(v[r]) <= total_dur(v),
{
    lemma_sum_term_le(0, v.len() as int, dur_term(v), r);
}


/// One more event extends the starting column by that event's length.
pub proof fn lemma_start_step(row: Seq<Event>, i: int)
    requires
        0 <= i,
    ensures
        start_of(row, i + 1) == start_of(row, i) + len_at(row, i),
{
    lemma_sum_split(0, i, i + 1, len_term(row));
    assert(sum_over(i, i + 1, len_term(row)) == len_term(row)(i) + sum_over(
        i + 1,
        i + 1,
        len_term(row),
    ));
}

/// When the duration-times-rows product fits, the total duration fits too.
pub proof fn lemma_total_fits(v: Seq<Seq<Event>>)
    requires
        total_dur(v) * v.len() <= usize::MAX,
    ensures
        total_dur(v) <= usize::MAX,
{
    if v.len() == 0 {
        assert(total_dur(v) == 0);
    } else {
        vstd::arithmetic::mul::lemma_mul_inequality(1, v.len() as int, total_dur(v) as int);
        vstd::arithmetic::mul::lemma_mul_is_commutative(v.len() as int, total_dur(v) as int);
    }
}

/// The grid after exchanging the events at positions `a` and `b` of one row.
pub open spec fn swapped_rows(v: Seq<Seq<Event>>, line: int, a: int, b: int) -> Seq<Seq<Event>> {
    v.update(line, v[line].update(a, v[line][b]).update(b, v[line][a]))
}

/// Exchanging two events of a row keeps its duration.
pub proof fn lemma_dur_swap(row: Seq<Event>, a: int, b: int)
    requires
        0 <= a < row.len(),
        0 <= b < row.len(),
    ensures
        dur(row.update(a, row[b]).update(b, row[a])) == dur(row),
        row.update(a, row[b]).update(b, row[a]).len() == row.len(),
{
    let n = row.len() as int;
    let row2 = row.update(a, row[b]).update(b, row[a]);
    if a == b {
        lemma_sum_congruence(0, n, len_term(row2), len_term(row));
    } else {
        let row1 = row.update(a, row[b]);
        lemma_sum_one_point(0, n, len_term(row), len_term(row1), a);
        lemma_sum_one_point(0, n, len_term(row1), len_term(row2), b);
    }
}

/// Exchanging two events of a row keeps the grid's total duration.
pub proof fn lemma_total_dur_swap(v: Seq<Seq<Event>>, line: int, a: int, b: int)
    requires
        0 <= line < v.len(),
        0 <= a < v[line].len(),
        0 <= b < v[line].len(),
    ensures
        total_dur(swapped_rows(v, line, a, b)) == total_dur(v),
        swapped_rows(v, line, a, b).len() == v.len(),
        swapped_rows(v, line, a, b)[line].len() == v[line].len(),
{
    let v2 = swapped_rows(v, line, a, b);
    lemma_dur_swap(v[line], a, b);
    assert forall|r: int| 0 <= r < v.len() implies #[trigger] dur_term(v2)(r) == dur_term(v)(r) by {
        if r != line {
            assert(v2[r] == v[r]);
        }
    }
    lemma_sum_congruence(0, v.len() as int, dur_term(v2), dur_term(v));
}

/// Exchanging two events of a row keeps every event well formed.
pub proof fn lemma_rows_wf_swap(v: Seq<Seq<Event>>, line: int, a: int, b: int)
    requires
        rows_wf(v),
        0 <= line < v.len(),
        0 <= a < v[line].len(),
        0 <= b < v[line].len(),
    ensures
        rows_wf(swapped_rows(v, line, a, b)),
{
    let v2 = swapped_rows(v, line, a, b);
    assert forall|r: int, i: int|
        0 <= r < v2.len() && 0 <= i < v2[r].len() implies event_wf(#[trigger] v2[r][i]) by {
        if r != line {
            assert(v2[r] == v[r]);
            assert(event_wf(v[r][i]));
        } else {
            if i == b {
                assert(v2[r][i] == v[line][a]);
            } else if i == a {
                assert(v2[r][i] == v[line][b]);
            } else {
                assert(v2[r][i] == v[line][i]);
            }
        }
    }
}

/// Swapping the same two positions twice restores the grid.
pub proof fn lemma_swap_involutive(v: Seq<Seq<Event>>, line: int, a: int, b: int)
    requires
        0 <= line < v.len(),
        0 <= a < v[line].len(),
        0 <= b < v[line].len(),
    ensures
        swapped_rows(swapped_rows(v, line, a, b), line, a, b) == v,
{
    let v2 = swapped_rows(v, line, a, b);
    let v3 = swapped_rows(v2, line, a, b);
    assert forall|r: int| 0 <= r < v.len() implies #[trigger] v3[r] =~= v[r] by {
        if r == line {
            assert forall|i: int| 0 <= i < v[line].len() implies #[trigger] v3[line][i] == v[line][i]
                by {}
        }
    }
    assert(v3 =~= v);
}

/// Appending an event extends the duration by its length.
pub proof fn lemma_dur_push(row: Seq<Event>, e: Event)
    ensures
        dur(row.push(e)) == dur(row) + e.len,
{
    let n = row.len() as int;
    let row2 = row.push(e);
    lemma_sum_split(0, n, n + 1, len_term(row2));
    assert(sum_over(n, n + 1, len_term(row2)) == len_term(row2)(n) + sum_over(
        n + 1,
        n + 1,
        len_term(row2),
    ));
    lemma_sum_congruence(0, n, len_term(row2), len_term(row));
}

/// Removing an event shortens the duration by its length.
pub proof fn lemma_dur_remove(row: Seq<Event>, i: int)
    requires
        0 <= i < row.len(),
    ensures
        dur(row.remove(i)) + row[i].len == dur(row),
{
    let n = row.len() as int;
    let row2 = row.remove(i);
    lemma_sum_split(0, i, n - 1, len_term(row2));
    lemma_sum_split(0, i, n, len_term(row));
    lemma_sum_split(i, i + 1, n, len_term(row));
    assert(sum_over(i, i + 1, len_term(row)) == len_term(row)(i) + sum_over(
        i + 1,
        i + 1,
        len_term(row),
    ));
    lemma_sum_congruence(0, i, len_term(row2), len_term(row));
    lemma_sum_shift(i, n - 1, len_term(row), len_term(row2), 1);
}

/// Rows with equal event multisets have equal durations, and a row whose
/// events all come from a well-formed row is well formed itself.
pub proof fn lemma_multiset_dur(x: Seq<Event>, y: Seq<Event>)
    requires
        x.to_multiset() == y.to_multiset(),
    ensures
        dur(x) == dur(y),
        (forall|i: int| 0 <= i < x.len() ==> event_wf(#[trigger] x[i])) ==> (forall|i: int|
            0 <= i < y.len() ==> event_wf(#[trigger] y[i])),
    decreases x.len(),
{
    broadcast use vstd::seq_lib::group_to_multiset_ensures;

    if x.len() == 0 {
        assert(x.to_multiset().len() == 0);
        assert(y.len() == 0);
        assert(dur(x) == 0 && dur(y) == 0);
    } else {
        let n = x.len() as int;
        let e = x[n - 1];
        assert(x.to_multiset().count(e) > 0) by {
            assert(x.contains(e));
        }
        assert(y.to_multiset().count(e) > 0);
        assert(y.contains(e));
        let j = choose|j: int| 0 <= j < y.len() && y[j] == e;
        let x2 = x.remove(n - 1);
        let y2 = y.remove(j);
        assert(x2.to_multiset() == x.to_multiset().remove(e));
        assert(y2.to_multiset() == y.to_multiset().remove(e));
        lemma_multiset_dur(x2, y2);
        lemma_dur_remove(x, n - 1);
        lemma_dur_remove(y, j);
        if forall|i: int| 0 <= i < x.len() ==> event_wf(#[trigger] x[i]) {
            assert forall|i: int| 0 <= i < x2.len() implies event_wf(#[trigger] x2[i]) by {
                assert(x2[i] == if i < n - 1 {
                    x[i]
                } else {
                    x[i + 1]
                });
            }
            assert forall|i: int| 0 <= i < y.len() implies event_wf(#[trigger] y[i]) by {
                if i < j {
                    assert(y2[i] == y[i]);
                } else if i > j {
                    assert(y2[i - 1] == y[i]);
                } else {
                    assert(y[i] == e);
                }
            }
        }
    }
}

/// Exchanging two events of a row keeps its multiset of events.
pub proof fn lemma_swap_multiset(row: Seq<Event>, a: int, b: int)
    requires
        0 <= a < row.len(),
        0 <= b < row.len(),
    ensures
        row.update(a, row[b]).update(b, row[a]).to_multiset() == row.to_multiset(),
{
    broadcast use vstd::seq_lib::group_to_multiset_ensures;

    let row1 = row.update(a, row[b]);
    let row2 = row1.update(b, row[a]);
    if a == b {
        assert(row2.to_multiset() =~= row.to_multiset());
    } else {
        assert(row1[b] == row[b]);
        assert(row1.to_multiset() == row.to_multiset().insert(row[b]).remove(row[a]));
        assert(row2.to_multiset() == row1.to_multiset().insert(row[a]).remove(row1[b]));
        assert(row.to_multiset().count(row[a]) > 0) by {
            assert(row.contains(row[a]));
        }
        assert(row2.to_multiset() =~= row.to_multiset());
    }
}

/// A schedule with positive cost has an event with positive contribution.
pub proof fn lemma_positive_cost_key(v: Seq<Seq<Event>>) -> (k: (usize, usize))
    requires
        sched_cost(v) > 0,
        v.len() <= usize::MAX,
        forall|r: int| 0 <= r < v.len() ==> (#[trigger] v[r]).len() <= usize::MAX,
    ensures
        collisions_of(v).contains_key(k),
{
    let r = lemma_sum_pos(0, v.len() as int, sc_term(v));
    assert(row_cost(v, r) > 0);
    let t = lemma_sum_pos(0, dur(v[r]) as int, rc_term(v, r));
    assert(count_before(v, r, t) > 0);
    let l = lemma_sum_pos(0, r, cb_term(v, r, t));
    assert(match_at(v[l], v[r], t) == 1);
    assert(0 <= t < dur(v[r]));
    lemma_event_at_bounds(v[r], t);
    let i = event_at(v[r], t);
    assert(oa_term(v, r, t)(l) == 1);
    lemma_sum_term_le(0, v.len() as int, oa_term(v, r, t), l);
    assert(others_at(v, r, t) >= 1);
    lemma_sum_term_le(start_of(v[r], i) as int, start_of(v[r], i + 1) as int, con_term(v, r), t);
    assert(con_term(v, r)(t) == others_at(v, r, t));
    assert(contribution(v, r, i) >= 1);
    let k = ((r as usize), (i as usize));
    assert((k.0 as int) == r && (k.1 as int) == i);
    assert(contribution(v, k.0 as int, k.1 as int) >= 1);
    assert(collisions_of(v).contains_key(k));
    k
}

/// The order of the two exchanged positions does not matter.
pub proof fn lemma_swapped_sym(v: Seq<Seq<Event>>, line: int, a: int, b: int)
    requires
        0 <= line < v.len(),
        0 <= a < v[line].len(),
        0 <= b < v[line].len(),
    ensures
        swapped_rows(v, line, a, b) == swapped_rows(v, line, b, a),
{
    let x = swapped_rows(v, line, a, b);
    let y = swapped_rows(v, line, b, a);
    assert forall|r: int| 0 <= r < v.len() implies #[trigger] x[r] =~= y[r] by {
        if r == line {
            assert forall|i: int| 0 <= i < v[line].len() implies #[trigger] x[line][i] == y[line][i]
                by {}
        }
    }
    assert(x =~= y);
}

} // verus!
