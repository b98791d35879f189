//! The algebra behind the fast swap path: the reference cost splits into the
//! collisions among the untouched rows plus the cross collisions of the
//! swapped row, and an equal-length in-row exchange moves only the cross part,
//! by exactly the per-column matches entering and leaving the two spans.
use vstd::prelude::*;

use crate::event::Event;
use crate::model::{
    cb_term, contribution, con_term, dur, event_at, lemma_dur_swap, lemma_event_at_bounds,
    lemma_event_at_congruent, lemma_event_at_unique, lemma_start_congruent, lemma_start_monotone,
    lemma_start_step, leader_of, match_at, oa_term, rc_term, row_cost, sc_term, sched_cost,
    start_of, swapped_rows,
};
use crate::sums::{
    lemma_sum_add, lemma_sum_congruence, lemma_sum_const_bound, lemma_sum_exchange,
    lemma_sum_one_point, lemma_sum_split, sum_over,
};

verus! {

/// One when the row covers column `t` with exactly this present leader.
pub open spec fn span_term(row: Seq<Event>, id: Option<u64>) -> spec_fn(int) -> nat {
    |t: int|
        if 0 <= t < dur(row) && id is Some && leader_of(row, t) == id {
            1
        } else {
            0
        }
}

/// How many columns of `[lo, hi)` the row covers with this present leader.
pub open spec fn span_count(row: Seq<Event>, id: Option<u64>, lo: int, hi: int) -> nat {
    sum_over(lo, hi, span_term(row, id))
}

/// The summand of `xc`.
pub open spec fn xmatch_term(v: Seq<Seq<Event>>, line: int, l: int) -> spec_fn(int) -> nat {
    |t: int| match_at(v[l], v[line], t)
}

/// Cross collisions of row `l` against row `line`, over `line`'s columns.
pub open spec fn xc(v: Seq<Seq<Event>>, line: int, l: int) -> nat {
    sum_over(0, dur(v[line]) as int, xmatch_term(v, line, l))
}

/// The summand of `cross_total`.
pub open spec fn xc_term(v: Seq<Seq<Event>>, line: int) -> spec_fn(int) -> nat {
    |l: int|
        if 0 <= l < v.len() && l != line {
            xc(v, line, l)
        } else {
            0
        }
}

/// All cross collisions of row `line` with the other rows.
pub open spec fn cross_total(v: Seq<Seq<Event>>, line: int) -> nat {
    sum_over(0, v.len() as int, xc_term(v, line))
}

/// The summand of `count_excl`.
pub open spec fn cbx_term(v: Seq<Seq<Event>>, line: int, r: int, t: int) -> spec_fn(int) -> nat {
    |l: int|
        if 0 <= l < v.len() && l != line && 0 <= r < v.len() {
            match_at(v[l], v[r], t)
        } else {
            0
        }
}

/// Like `count_before`, with row `line` left out.
pub open spec fn count_excl(v: Seq<Seq<Event>>, line: int, r: int, t: int) -> nat {
    sum_over(0, r, cbx_term(v, line, r, t))
}

/// The summand of `row_cost_excl`.
pub open spec fn rcx_term(v: Seq<Seq<Event>>, line: int, r: int) -> spec_fn(int) -> nat {
    |t: int| count_excl(v, line, r, t)
}

/// Like `row_cost`, with row `line` left out of the pair counts.
pub open spec fn row_cost_excl(v: Seq<Seq<Event>>, line: int, r: int) -> nat {
    sum_over(0, if 0 <= r < v.len() { dur(v[r]) as int } else { 0 }, rcx_term(v, line, r))
}

/// The summand of `rest_cost`.
pub open spec fn rest_term(v: Seq<Seq<Event>>, line: int) -> spec_fn(int) -> nat {
    |r: int|
        if r != line {
            row_cost_excl(v, line, r)
        } else {
            0
        }
}

/// The collisions among the rows other than `line`.
pub open spec fn rest_cost(v: Seq<Seq<Event>>, line: int) -> nat {
    sum_over(0, v.len() as int, rest_term(v, line))
}

/// Matching is symmetric in the two rows.
proof fn lemma_match_sym(x: Seq<Event>, y: Seq<Event>, t: int)
    ensures
        match_at(x, y, t) == match_at(y, x, t),
{
}

/// A sum whose tail is zero equals the sum over the shorter range.
proof fn lemma_sum_extend(lo: int, hi: int, big: int, f: spec_fn(int) -> nat)
    requires
        lo <= hi <= big,
        forall|t: int| hi <= t < big ==> #[trigger] f(t) == 0,
    ensures
        sum_over(lo, big, f) == sum_over(lo, hi, f),
{
    lemma_sum_split(lo, hi, big, f);
    lemma_sum_const_bound(hi, big, f, 0);
}

/// Cross collisions can be measured over either row's columns.
proof fn lemma_xc_flip(v: Seq<Seq<Event>>, line: int, r: int)
    requires
        0 <= line < v.len(),
        0 <= r < v.len(),
    ensures
        sum_over(0, dur(v[r]) as int, |t: int| match_at(v[line], v[r], t)) == xc(v, line, r),
{
    let f = |t: int| match_at(v[line], v[r], t);
    let g = xmatch_term(v, line, r);
    let dl = dur(v[line]) as int;
    let dr = dur(v[r]) as int;
    let big = if dl >= dr {
        dl
    } else {
        dr
    };
    assert forall|t: int| 0 <= t < big implies #[trigger] f(t) == g(t) by {
        lemma_match_sym(v[line], v[r], t);
    }
    assert forall|t: int| dr <= t < big implies #[trigger] f(t) == 0 by {}
    assert forall|t: int| dl <= t < big implies #[trigger] g(t) == 0 by {}
    lemma_sum_extend(0, dr, big, f);
    lemma_sum_extend(0, dl, big, g);
    lemma_sum_congruence(0, big, f, g);
}

/// The reference cost is the cost among the other rows plus the cross
/// collisions of row `line`.
pub proof fn lemma_cost_split_line(v: Seq<Seq<Event>>, line: int)
    requires
        0 <= line < v.len(),
    ensures
        sched_cost(v) == rest_cost(v, line) + cross_total(v, line),
{
    let n = v.len() as int;
    let dl = dur(v[line]) as int;
    // Row `line` itself: reorder its double sum so rows come first.
    let g = |l: int, t: int| cb_term(v, line, t)(l);
    let rows_fn = |l: int| sum_over(0, dl, |t: int| g(l, t));
    let cols_fn = |t: int| sum_over(0, line, |l: int| g(l, t));
    assert forall|t: int| 0 <= t < dl implies #[trigger] rc_term(v, line)(t) == cols_fn(t) by {
        lemma_sum_congruence(0, line, cb_term(v, line, t), |l: int| g(l, t));
    }
    lemma_sum_exchange(line, dl, g, rows_fn, cols_fn);
    lemma_sum_congruence(0, dl, rc_term(v, line), cols_fn);
    assert(row_cost(v, line) == sum_over(0, line, rows_fn));
    assert forall|l: int| 0 <= l < line implies #[trigger] rows_fn(l) == xc_term(v, line)(l) by {
        lemma_sum_congruence(0, dl, |t: int| g(l, t), xmatch_term(v, line, l));
    }
    lemma_sum_congruence(0, line, rows_fn, xc_term(v, line));
    assert(row_cost(v, line) == sum_over(0, line, xc_term(v, line)));
    // Other rows: peel the `line` term out of each pair count.
    assert forall|r: int| 0 <= r < n && r != line implies #[trigger] row_cost(v, r)
        == row_cost_excl(v, line, r) + (if line < r {
        xc(v, line, r)
    } else {
        0
    }) by {
        let dr = dur(v[r]) as int;
        if line < r {
            assert forall|t: int| 0 <= t < dr implies #[trigger] rc_term(v, r)(t) == rcx_term(
                v,
                line,
                r,
            )(t) + match_at(v[line], v[r], t) by {
                lemma_sum_one_point(0, r, cb_term(v, r, t), cbx_term(v, line, r, t), line);
            }
            lemma_sum_add(
                0,
                dr,
                rcx_term(v, line, r),
                |t: int| match_at(v[line], v[r], t),
                rc_term(v, r),
            );
            lemma_xc_flip(v, line, r);
        } else {
            assert forall|t: int| 0 <= t < dr implies #[trigger] rc_term(v, r)(t) == rcx_term(
                v,
                line,
                r,
            )(t) by {
                lemma_sum_congruence(0, r, cb_term(v, r, t), cbx_term(v, line, r, t));
            }
            lemma_sum_congruence(0, dr, rc_term(v, r), rcx_term(v, line, r));
        }
    }
    // Sum the pieces.
    let upper = |r: int|
        if line < r && 0 <= r < n {
            xc(v, line, r)
        } else {
            0
        };
    assert forall|r: int| 0 <= r < n implies #[trigger] sc_term(v)(r) == rest_term(v, line)(r)
        + (if r == line {
        sum_over(0, line, xc_term(v, line))
    } else {
        upper(r)
    }) by {
        if r == line {
            assert(rest_term(v, line)(line) == 0);
        }
    }
    let mixed = |r: int|
        rest_term(v, line)(r) + (if r == line {
            sum_over(0, line, xc_term(v, line))
        } else {
            upper(r)
        });
    lemma_sum_congruence(0, n, sc_term(v), mixed);
    let second = |r: int|
        if r == line {
            sum_over(0, line, xc_term(v, line))
        } else {
            upper(r)
        };
    lemma_sum_add(0, n, rest_term(v, line), second, mixed);
    // The second piece adds up to `cross_total`.
    lemma_sum_split(0, line, n, second);
    lemma_sum_split(line, line + 1, n, second);
    assert(sum_over(line, line + 1, second) == second(line) + sum_over(line + 1, line + 1, second));
    lemma_sum_const_bound(0, line, second, 0);
    assert forall|r: int| line + 1 <= r < n implies #[trigger] second(r) == xc_term(v, line)(r)
        by {}
    lemma_sum_congruence(line + 1, n, second, xc_term(v, line));
    lemma_sum_split(0, line, n, xc_term(v, line));
    lemma_sum_split(line, line + 1, n, xc_term(v, line));
    assert(sum_over(line, line + 1, xc_term(v, line)) == xc_term(v, line)(line) + sum_over(
        line + 1,
        line + 1,
        xc_term(v, line),
    ));
    assert(xc_term(v, line)(line) == 0);
}

/// Leaders column by column after an equal-length in-row exchange: the two
/// spans trade leaders, everything else is untouched.
pub proof fn lemma_leader_after_swap(row: Seq<Event>, a: int, b: int, t: int)
    requires
        0 <= a < b < row.len(),
        row[a].len == row[b].len,
        row[a].len >= 1,
        0 <= t < dur(row),
    ensures
        ({
            let row2 = row.update(a, row[b]).update(b, row[a]);
            let ai = start_of(row, a) as int;
            let bi = start_of(row, b) as int;
            let el = row[a].len as int;
            leader_of(row2, t) == (if ai <= t < ai + el {
                row[b].leader_id
            } else if bi <= t < bi + el {
                row[a].leader_id
            } else {
                leader_of(row, t)
            })
        }),
{
    let row2 = row.update(a, row[b]).update(b, row[a]);
    let ai = start_of(row, a) as int;
    let bi = start_of(row, b) as int;
    let el = row[a].len as int;
    assert forall|j: int| 0 <= j < row.len() implies #[trigger] row2[j].len == row[j].len by {}
    lemma_event_at_congruent(row, row2, t);
    lemma_start_step(row, a);
    lemma_start_step(row, b);
    lemma_event_at_bounds(row, t);
    let i = event_at(row, t);
    if ai <= t < ai + el {
        lemma_event_at_unique(row, t, a);
        assert(row2[a] == row[b]);
    } else if bi <= t < bi + el {
        lemma_event_at_unique(row, t, b);
        assert(row2[b] == row[a]);
    } else {
        if i == a {
            assert(false);
        }
        if i == b {
            assert(false);
        }
        assert(row2[i] == row[i]);
    }
}

/// The two spans are ordered and inside the row's columns.
pub proof fn lemma_span_layout(row: Seq<Event>, a: int, b: int)
    requires
        0 <= a < b < row.len(),
        row[a].len == row[b].len,
    ensures
        ({
            let ai = start_of(row, a) as int;
            let bi = start_of(row, b) as int;
            let el = row[a].len as int;
            0 <= ai && ai + el <= bi && bi + el <= dur(row)
        }),
{
    lemma_start_step(row, a);
    lemma_start_step(row, b);
    lemma_start_monotone(row, a + 1, b);
    lemma_start_monotone(row, b + 1, row.len() as int);
}

/// The incoming matches of one other row: the new occupants' leaders counted
/// over the two spans.
pub open spec fn inc_l_term(
    v: Seq<Seq<Event>>,
    line: int,
    la: Option<u64>,
    lb: Option<u64>,
    ai: int,
    bi: int,
    el: int,
) -> spec_fn(int) -> nat {
    |l: int|
        if 0 <= l < v.len() && l != line {
            span_count(v[l], lb, ai, ai + el) + span_count(v[l], la, bi, bi + el)
        } else {
            0
        }
}

/// The outgoing matches of one other row: the old occupants' leaders counted
/// over the two spans.
pub open spec fn dec_l_term(
    v: Seq<Seq<Event>>,
    line: int,
    la: Option<u64>,
    lb: Option<u64>,
    ai: int,
    bi: int,
    el: int,
) -> spec_fn(int) -> nat {
    |l: int|
        if 0 <= l < v.len() && l != line {
            span_count(v[l], la, ai, ai + el) + span_count(v[l], lb, bi, bi + el)
        } else {
            0
        }
}

/// All matches entering the two spans.
pub open spec fn inc_total(
    v: Seq<Seq<Event>>,
    line: int,
    la: Option<u64>,
    lb: Option<u64>,
    ai: int,
    bi: int,
    el: int,
) -> nat {
    sum_over(0, v.len() as int, inc_l_term(v, line, la, lb, ai, bi, el))
}

/// All matches leaving the two spans.
pub open spec fn dec_total(
    v: Seq<Seq<Event>>,
    line: int,
    la: Option<u64>,
    lb: Option<u64>,
    ai: int,
    bi: int,
    el: int,
) -> nat {
    sum_over(0, v.len() as int, dec_l_term(v, line, la, lb, ai, bi, el))
}

/// A cross sum against row `line` splits over the swap spans into counts of
/// the occupant leaders.
proof fn lemma_xc_spans(v: Seq<Seq<Event>>, w: Seq<Seq<Event>>, line: int, l: int, a: int, b: int)
    requires
        0 <= line < v.len(),
        w.len() == v.len(),
        0 <= l < v.len(),
        l != line,
        w[l] == v[l],
        0 <= a < b < v[line].len(),
        v[line][a].len == v[line][b].len,
        v[line][a].len >= 1,
        dur(w[line]) == dur(v[line]),
        // leaders of `w`'s row `line` over the columns
        forall|t: int|
            start_of(v[line], a) <= t < start_of(v[line], a) + v[line][a].len
                ==> #[trigger] leader_of(w[line], t) == w[line][a].leader_id,
        forall|t: int|
            start_of(v[line], b) <= t < start_of(v[line], b) + v[line][a].len
                ==> #[trigger] leader_of(w[line], t) == w[line][b].leader_id,
    ensures
        ({
            let ai = start_of(v[line], a) as int;
            let bi = start_of(v[line], b) as int;
            let el = v[line][a].len as int;
            xc(w, line, l) == sum_over(0, ai, xmatch_term(w, line, l)) + span_count(
                w[l],
                w[line][a].leader_id,
                ai,
                ai + el,
            ) + sum_over(ai + el, bi, xmatch_term(w, line, l)) + span_count(
                w[l],
                w[line][b].leader_id,
                bi,
                bi + el,
            ) + sum_over(bi + el, dur(w[line]) as int, xmatch_term(w, line, l))
        }),
{
    let ai = start_of(v[line], a) as int;
    let bi = start_of(v[line], b) as int;
    let el = v[line][a].len as int;
    let dl = dur(w[line]) as int;
    lemma_span_layout(v[line], a, b);
    let f = xmatch_term(w, line, l);
    lemma_sum_split(0, ai, dl, f);
    lemma_sum_split(ai, ai + el, dl, f);
    lemma_sum_split(ai + el, bi, dl, f);
    lemma_sum_split(bi, bi + el, dl, f);
    assert forall|t: int| ai <= t < ai + el implies #[trigger] f(t) == span_term(
        w[l],
        w[line][a].leader_id,
    )(t) by {
        assert(leader_of(w[line], t) == w[line][a].leader_id);
    }
    lemma_sum_congruence(ai, ai + el, f, span_term(w[l], w[line][a].leader_id));
    assert forall|t: int| bi <= t < bi + el implies #[trigger] f(t) == span_term(
        w[l],
        w[line][b].leader_id,
    )(t) by {
        assert(leader_of(w[line], t) == w[line][b].leader_id);
    }
    lemma_sum_congruence(bi, bi + el, f, span_term(w[l], w[line][b].leader_id));
}

/// The cross totals before and after an equal-length exchange differ by
/// exactly the matches entering and leaving the two spans.
pub proof fn lemma_swap_cross_delta(v: Seq<Seq<Event>>, line: int, a: int, b: int)
    requires
        0 <= line < v.len(),
        0 <= a < b < v[line].len(),
        v[line][a].len == v[line][b].len,
        v[line][a].len >= 1,
    ensures
        ({
            let v2 = swapped_rows(v, line, a, b);
            let la = v[line][a].leader_id;
            let lb = v[line][b].leader_id;
            let ai = start_of(v[line], a) as int;
            let bi = start_of(v[line], b) as int;
            let el = v[line][a].len as int;
            cross_total(v2, line) + dec_total(v, line, la, lb, ai, bi, el) == cross_total(v, line)
                + inc_total(v, line, la, lb, ai, bi, el)
        }),
{
    let v2 = swapped_rows(v, line, a, b);
    let row = v[line];
    let row2 = row.update(a, row[b]).update(b, row[a]);
    let la = row[a].leader_id;
    let lb = row[b].leader_id;
    let ai = start_of(row, a) as int;
    let bi = start_of(row, b) as int;
    let el = row[a].len as int;
    let n = v.len() as int;
    lemma_dur_swap(row, a, b);
    lemma_span_layout(row, a, b);
    assert(v2[line] == row2);
    lemma_start_congruent(row, row2, a);
    lemma_start_congruent(row, row2, b);
    // Leaders of both versions over the columns.
    assert forall|t: int| ai <= t < ai + el implies #[trigger] leader_of(row2, t) == lb by {
        lemma_leader_after_swap(row, a, b, t);
    }
    assert forall|t: int| bi <= t < bi + el implies #[trigger] leader_of(row2, t) == la by {
        lemma_leader_after_swap(row, a, b, t);
    }
    assert forall|t: int| ai <= t < ai + el implies #[trigger] leader_of(row, t) == la by {
        lemma_start_step(row, a);
        lemma_event_at_unique(row, t, a);
    }
    assert forall|t: int| bi <= t < bi + el implies #[trigger] leader_of(row, t) == lb by {
        lemma_start_step(row, b);
        lemma_event_at_unique(row, t, b);
    }
    assert forall|l: int|
        0 <= l < n && l != line implies #[trigger] xc_term(v2, line)(l) + dec_l_term(
        v,
        line,
        la,
        lb,
        ai,
        bi,
        el,
    )(l) == xc_term(v, line)(l) + inc_l_term(v, line, la, lb, ai, bi, el)(l) by {
        assert(v2[l] == v[l]);
        lemma_xc_spans(v, v2, line, l, a, b);
        lemma_xc_spans(v, v, line, l, a, b);
        // The three untouched stretches agree.
        let f2 = xmatch_term(v2, line, l);
        let f1 = xmatch_term(v, line, l);
        assert forall|t: int|
            (0 <= t < ai) || (ai + el <= t < bi) || (bi + el <= t < dur(row)) implies #[trigger] f2(
            t,
        ) == f1(t) by {
            lemma_leader_after_swap(row, a, b, t);
        }
        lemma_sum_congruence(0, ai, f2, f1);
        lemma_sum_congruence(ai + el, bi, f2, f1);
        lemma_sum_congruence(bi + el, dur(row) as int, f2, f1);
    }
    // Sum the per-row equations.
    let lhs = |l: int| xc_term(v2, line)(l) + dec_l_term(v, line, la, lb, ai, bi, el)(l);
    let rhs = |l: int| xc_term(v, line)(l) + inc_l_term(v, line, la, lb, ai, bi, el)(l);
    assert forall|l: int| 0 <= l < n implies #[trigger] lhs(l) == rhs(l) by {
        if l == line {
            assert(xc_term(v2, line)(line) == 0 && xc_term(v, line)(line) == 0);
        }
    }
    lemma_sum_congruence(0, n, lhs, rhs);
    lemma_sum_add(0, n, xc_term(v2, line), dec_l_term(v, line, la, lb, ai, bi, el), lhs);
    lemma_sum_add(0, n, xc_term(v, line), inc_l_term(v, line, la, lb, ai, bi, el), rhs);
}

/// The collisions among the other rows do not move under an in-row exchange.
pub proof fn lemma_rest_frame(v: Seq<Seq<Event>>, v2: Seq<Seq<Event>>, line: int)
    requires
        0 <= line < v.len(),
        v2.len() == v.len(),
        forall|r: int| 0 <= r < v.len() && r != line ==> #[trigger] v2[r] == v[r],
    ensures
        rest_cost(v2, line) == rest_cost(v, line),
{
    let n = v.len() as int;
    assert forall|r: int| 0 <= r < n implies #[trigger] rest_term(v2, line)(r) == rest_term(
        v,
        line,
    )(r) by {
        if r != line {
            assert forall|t: int| 0 <= t < dur(v[r]) implies #[trigger] rcx_term(v2, line, r)(t)
                == rcx_term(v, line, r)(t) by {
                assert forall|l: int| 0 <= l < r implies #[trigger] cbx_term(v2, line, r, t)(l)
                    == cbx_term(v, line, r, t)(l) by {
                    if l != line && 0 <= l < n {
                        assert(v2[l] == v[l] && v2[r] == v[r]);
                    }
                }
                lemma_sum_congruence(0, r, cbx_term(v2, line, r, t), cbx_term(v, line, r, t));
            }
            assert(v2[r] == v[r]);
            lemma_sum_congruence(
                0,
                dur(v[r]) as int,
                rcx_term(v2, line, r),
                rcx_term(v, line, r),
            );
        }
    }
    lemma_sum_congruence(0, n, rest_term(v2, line), rest_term(v, line));
}

/// The whole-grid cost delta of an equal-length in-row exchange.
pub proof fn lemma_swap_cost_delta(v: Seq<Seq<Event>>, line: int, a: int, b: int)
    requires
        0 <= line < v.len(),
        0 <= a < b < v[line].len(),
        v[line][a].len == v[line][b].len,
        v[line][a].len >= 1,
    ensures
        ({
            let v2 = swapped_rows(v, line, a, b);
            let la = v[line][a].leader_id;
            let lb = v[line][b].leader_id;
            let ai = start_of(v[line], a) as int;
            let bi = start_of(v[line], b) as int;
            let el = v[line][a].len as int;
            sched_cost(v2) + dec_total(v, line, la, lb, ai, bi, el) == sched_cost(v) + inc_total(
                v,
                line,
                la,
                lb,
                ai,
                bi,
                el,
            )
        }),
{
    let v2 = swapped_rows(v, line, a, b);
    lemma_cost_split_line(v, line);
    lemma_cost_split_line(v2, line);
    lemma_swap_cross_delta(v, line, a, b);
    lemma_rest_frame(v, v2, line);
}

/// The matches entering the spans are part of the new cost, the matches
/// leaving them part of the old.
pub proof fn lemma_totals_bounded(v: Seq<Seq<Event>>, line: int, a: int, b: int)
    requires
        0 <= line < v.len(),
        0 <= a < b < v[line].len(),
        v[line][a].len == v[line][b].len,
        v[line][a].len >= 1,
    ensures
        ({
            let v2 = swapped_rows(v, line, a, b);
            let la = v[line][a].leader_id;
            let lb = v[line][b].leader_id;
            let ai = start_of(v[line], a) as int;
            let bi = start_of(v[line], b) as int;
            let el = v[line][a].len as int;
            inc_total(v, line, la, lb, ai, bi, el) <= sched_cost(v2) && dec_total(
                v,
                line,
                la,
                lb,
                ai,
                bi,
                el,
            ) <= sched_cost(v)
        }),
{
    let v2 = swapped_rows(v, line, a, b);
    let row = v[line];
    let row2 = row.update(a, row[b]).update(b, row[a]);
    let la = row[a].leader_id;
    let lb = row[b].leader_id;
    let ai = start_of(row, a) as int;
    let bi = start_of(row, b) as int;
    let el = row[a].len as int;
    let n = v.len() as int;
    lemma_dur_swap(row, a, b);
    lemma_span_layout(row, a, b);
    assert(v2[line] == row2);
    assert forall|t: int| ai <= t < ai + el implies #[trigger] leader_of(row2, t) == lb by {
        lemma_leader_after_swap(row, a, b, t);
    }
    assert forall|t: int| bi <= t < bi + el implies #[trigger] leader_of(row2, t) == la by {
        lemma_leader_after_swap(row, a, b, t);
    }
    assert forall|t: int| ai <= t < ai + el implies #[trigger] leader_of(row, t) == la by {
        lemma_start_step(row, a);
        lemma_event_at_unique(row, t, a);
    }
    assert forall|t: int| bi <= t < bi + el implies #[trigger] leader_of(row, t) == lb by {
        lemma_start_step(row, b);
        lemma_event_at_unique(row, t, b);
    }
    assert forall|l: int| 0 <= l < n implies #[trigger] inc_l_term(v, line, la, lb, ai, bi, el)(l)
        <= xc_term(v2, line)(l) by {
        if l != line {
            assert(v2[l] == v[l]);
            lemma_xc_spans(v, v2, line, l, a, b);
        }
    }
    assert forall|l: int| 0 <= l < n implies #[trigger] dec_l_term(v, line, la, lb, ai, bi, el)(l)
        <= xc_term(v, line)(l) by {
        if l != line {
            lemma_xc_spans(v, v, line, l, a, b);
        }
    }
    crate::sums::lemma_sum_le(0, n, inc_l_term(v, line, la, lb, ai, bi, el), xc_term(v2, line));
    crate::sums::lemma_sum_le(0, n, dec_l_term(v, line, la, lb, ai, bi, el), xc_term(v, line));
    lemma_cost_split_line(v, line);
    lemma_cost_split_line(v2, line);
}

/// An event of another row whose span avoids both swap spans keeps its
/// collision contribution.
pub proof fn lemma_contrib_frame_other(
    v: Seq<Seq<Event>>,
    line: int,
    a: int,
    b: int,
    l: int,
    j: int,
)
    requires
        0 <= line < v.len(),
        0 <= a < b < v[line].len(),
        v[line][a].len == v[line][b].len,
        v[line][a].len >= 1,
        0 <= l < v.len(),
        l != line,
        0 <= j < v[l].len(),
        forall|t: int|
            ((start_of(v[line], a) <= t < start_of(v[line], a) + v[line][a].len) || (start_of(
                v[line],
                b,
            ) <= t < start_of(v[line], b) + v[line][a].len)) && 0 <= t < dur(v[l])
                ==> event_at(v[l], t) != j,
    ensures
        contribution(swapped_rows(v, line, a, b), l, j) == contribution(v, l, j),
{
    let v2 = swapped_rows(v, line, a, b);
    let row = v[line];
    let ai = start_of(row, a) as int;
    let bi = start_of(row, b) as int;
    let el = row[a].len as int;
    assert(v2[l] == v[l]);
    lemma_dur_swap(row, a, b);
    let sj = start_of(v[l], j) as int;
    let sj1 = start_of(v[l], j + 1) as int;
    lemma_start_monotone(v[l], j + 1, v[l].len() as int);
    assert forall|t: int| sj <= t < sj1 implies #[trigger] con_term(v2, l)(t) == con_term(v, l)(
        t,
    ) by {
        lemma_event_at_unique(v[l], t, j);
        assert(0 <= t < dur(v[l]));
        assert(!((ai <= t < ai + el) || (bi <= t < bi + el)));
        assert forall|w: int| 0 <= w < v.len() implies #[trigger] oa_term(v2, l, t)(w) == oa_term(
            v,
            l,
            t,
        )(w) by {
            if w == line {
                if 0 <= t < dur(row) {
                    lemma_leader_after_swap(row, a, b, t);
                    assert(leader_of(v2[line], t) == leader_of(v[line], t));
                }
            } else {
                assert(v2[w] == v[w]);
            }
        }
        lemma_sum_congruence(0, v.len() as int, oa_term(v2, l, t), oa_term(v, l, t));
    }
    lemma_sum_congruence(sj, sj1, con_term(v2, l), con_term(v, l));
}

/// An event of the swapped row other than the two exchanged ones keeps its
/// collision contribution.
pub proof fn lemma_contrib_frame_line(v: Seq<Seq<Event>>, line: int, a: int, b: int, i: int)
    requires
        0 <= line < v.len(),
        0 <= a < b < v[line].len(),
        v[line][a].len == v[line][b].len,
        v[line][a].len >= 1,
        0 <= i < v[line].len(),
        i != a,
        i != b,
    ensures
        contribution(swapped_rows(v, line, a, b), line, i) == contribution(v, line, i),
{
    let v2 = swapped_rows(v, line, a, b);
    let row = v[line];
    let row2 = row.update(a, row[b]).update(b, row[a]);
    let ai = start_of(row, a) as int;
    let bi = start_of(row, b) as int;
    let el = row[a].len as int;
    assert(v2[line] == row2);
    assert forall|jj: int| 0 <= jj < row.len() implies #[trigger] row2[jj].len == row[jj].len by {}
    lemma_start_congruent(row, row2, i);
    lemma_start_congruent(row, row2, i + 1);
    lemma_dur_swap(row, a, b);
    let si = start_of(row, i) as int;
    let si1 = start_of(row, i + 1) as int;
    lemma_start_monotone(row, i + 1, row.len() as int);
    lemma_span_layout(row, a, b);
    assert forall|t: int| si <= t < si1 implies #[trigger] con_term(v2, line)(t) == con_term(
        v,
        line,
    )(t) by {
        lemma_event_at_unique(row, t, i);
        lemma_start_step(row, a);
        lemma_start_step(row, b);
        if ai <= t < ai + el {
            lemma_event_at_unique(row, t, a);
            assert(false);
        }
        if bi <= t < bi + el {
            lemma_event_at_unique(row, t, b);
            assert(false);
        }
        lemma_leader_after_swap(row, a, b, t);
        assert(leader_of(row2, t) == leader_of(row, t));
        assert forall|w: int| 0 <= w < v.len() implies #[trigger] oa_term(v2, line, t)(w)
            == oa_term(v, line, t)(w) by {
            if w != line {
                assert(v2[w] == v[w]);
            }
        }
        lemma_sum_congruence(0, v.len() as int, oa_term(v2, line, t), oa_term(v, line, t));
    }
    lemma_sum_congruence(si, si1, con_term(v2, line), con_term(v, line));
}

} // verus!
