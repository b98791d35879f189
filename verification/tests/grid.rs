use scheduler::schedule::Schedule;
use scheduler::Event;

fn ev(name: &str, leader: Option<&str>, len: usize) -> Event {
    Event::new(
        name.as_bytes().to_vec(),
        leader.map(|l| l.as_bytes().to_vec()),
        len,
    )
}

/// Reference cost computed from scratch, straight from the definition: per
/// time column, each pair of rows scheduling the same present leader counts
/// one.
fn ref_cost(scheme: &Vec<Vec<Event>>) -> u64 {
    let cols = expand(scheme);
    let max_len = cols.iter().map(|r| r.len()).max().unwrap_or(0);
    let mut cost = 0u64;
    for t in 0..max_len {
        let mut seen: Vec<u64> = Vec::new();
        for row in &cols {
            if t < row.len() {
                if let Some(id) = row[t] {
                    cost += seen.iter().filter(|x| **x == id).count() as u64;
                    seen.push(id);
                }
            }
        }
    }
    cost
}

/// Per-column leader of each row.
fn expand(scheme: &Vec<Vec<Event>>) -> Vec<Vec<Option<u64>>> {
    scheme
        .iter()
        .map(|row| {
            let mut cols = Vec::new();
            for e in row {
                for _ in 0..e.len {
                    cols.push(e.leader_id);
                }
            }
            cols
        })
        .collect()
}

/// Reference collision contribution of event `(r, i)`.
fn ref_contribution(scheme: &Vec<Vec<Event>>, r: usize, i: usize) -> usize {
    let cols = expand(scheme);
    let start: usize = scheme[r][..i].iter().map(|e| e.len).sum();
    let len = scheme[r][i].len;
    let mut c = 0usize;
    if let Some(id) = scheme[r][i].leader_id {
        for t in start..start + len {
            for (l, row) in cols.iter().enumerate() {
                if l != r && t < row.len() && row[t] == Some(id) {
                    c += 1;
                }
            }
        }
    }
    c
}

/// Checks cost and collision-map agreement against the reference definitions.
fn check_agreement(s: &Schedule) {
    assert_eq!(s.cost, ref_cost(&s.scheme), "cost agreement");
    let mut expected = 0usize;
    for r in 0..s.scheme.len() {
        for i in 0..s.scheme[r].len() {
            let c = ref_contribution(&s.scheme, r, i);
            if c >= 1 {
                expected += 1;
                assert_eq!(s.collisions.get(&(r, i)), Some(&c), "entry ({r},{i})");
            } else {
                assert_eq!(s.collisions.get(&(r, i)), None, "entry ({r},{i})");
            }
        }
    }
    assert_eq!(s.collisions.len(), expected, "collision map size");
}

fn collision_pairs(s: &Schedule) -> Vec<((usize, usize), usize)> {
    let mut v: Vec<((usize, usize), usize)> =
        s.collisions.iter().map(|(k, c)| (*k, *c)).collect();
    v.sort();
    v
}

#[test]
fn trivial_grid_is_free() {
    let mut s = Schedule::new(vec![vec![ev("solo", None, 1)]]);
    assert_eq!(s.cost, 0);
    assert_eq!(s.collisions.len(), 0);
    // One full iteration runs (the only proposal is a no-op swap), the tick
    // fires once, and the zero cost then stops the loop.
    let ticks = std::cell::Cell::new(0usize);
    let iters = s.optimize(10, false, false, || ticks.set(ticks.get() + 1), |_, _, _| false);
    assert_eq!(s.cost, 0);
    assert_eq!(iters, 1);
    assert_eq!(ticks.get(), 1);
    check_agreement(&s);
}

#[test]
fn two_identical_leaders_cost_one() {
    let scheme = vec![vec![ev("a", Some("x"), 1)], vec![ev("a", Some("x"), 1)]];
    let mut s = Schedule::new(scheme);
    assert_eq!(s.cost, 1);
    check_agreement(&s);
    let iters = s.optimize(0, false, false, || (), |_, _, _| false);
    assert_eq!(iters, 0);
    assert_eq!(s.cost, 1);
    let _ = s.optimize(10, false, false, || (), |_, _, _| false);
    assert_eq!(s.cost, 1, "a single-event row cannot improve");
    check_agreement(&s);
}

#[test]
fn crossed_pair_swaps_between_zero_and_two() {
    let scheme = vec![
        vec![ev("a", Some("x"), 1), ev("b", Some("y"), 1)],
        vec![ev("b", Some("y"), 1), ev("a", Some("x"), 1)],
    ];
    let mut s = Schedule::new(scheme);
    assert_eq!(s.cost, 0, "crossed rows collide nowhere");
    check_agreement(&s);
    s.swap(1, 0, 1);
    assert_eq!(s.cost, 2, "aligned rows overlap in both columns");
    check_agreement(&s);
    s.swap(1, 0, 1);
    assert_eq!(s.cost, 0);
    let _ = s.optimize(50, false, false, || (), |_, _, _| false);
    assert_eq!(s.cost, 0, "refusing worsening moves keeps the optimum");
    check_agreement(&s);
}

#[test]
fn staircase_reaches_zero_with_greedy_annealing() {
    let row = || {
        vec![
            ev("a", Some("x"), 1),
            ev("b", Some("y"), 1),
            ev("c", Some("z"), 1),
        ]
    };
    let mut s = Schedule::new(vec![row(), row(), row()]);
    assert_eq!(s.cost, 9, "three pairs per column, three columns");
    let accept = |prev: u64, new: u64, iter: usize| {
        let t = 0.999f64.powi(iter as i32 + 1);
        let p = ((prev as f64 - new as f64) / t).exp();
        rand::random_bool(if p > 1.0 { 1.0 } else { p })
    };
    let mut iters = s.optimize(10000, false, true, || (), accept);
    if s.cost != 0 {
        iters = s.optimize(10000, false, true, || (), accept);
    }
    assert_eq!(s.cost, 0, "each row can permute to avoid the others");
    assert!(iters < 10000, "reaching zero stops the loop early");
    check_agreement(&s);
}

#[test]
fn variable_length_swap_recomputes() {
    let scheme = vec![
        vec![ev("a", Some("x"), 2), ev("b", Some("y"), 1)],
        vec![ev("b", Some("y"), 1), ev("a", Some("x"), 2)],
    ];
    let mut s = Schedule::new(scheme);
    // Columns: row 0 leads x,x,y; row 1 leads y,x,x. Only the middle column
    // collides.
    assert_eq!(s.cost, 1);
    check_agreement(&s);
    s.swap(0, 0, 1);
    // Both rows now lead y,x,x: every column collides.
    assert_eq!(s.cost, 3);
    check_agreement(&s);
    s.swap(0, 0, 1);
    assert_eq!(s.cost, 1, "swap is its own inverse");
    check_agreement(&s);
}

#[test]
fn swap_is_self_inverse_bit_for_bit() {
    let scheme = vec![
        vec![ev("a", Some("x"), 1), ev("b", Some("y"), 2), ev("c", None, 1)],
        vec![ev("d", Some("x"), 2), ev("e", Some("y"), 1), ev("f", Some("x"), 1)],
        vec![ev("g", Some("y"), 1), ev("h", None, 1), ev("i", Some("x"), 2)],
    ];
    let mut s = Schedule::new(scheme);
    check_agreement(&s);
    for (line, a, b) in [(0usize, 0usize, 2usize), (1, 0, 1), (2, 1, 2), (1, 2, 0)] {
        let scheme_before = s.scheme.clone();
        let cost_before = s.cost;
        let collisions_before = collision_pairs(&s);
        s.swap(line, a, b);
        check_agreement(&s);
        s.swap(line, a, b);
        assert_eq!(s.scheme, scheme_before);
        assert_eq!(s.cost, cost_before);
        assert_eq!(collision_pairs(&s), collisions_before);
        check_agreement(&s);
    }
}

#[test]
fn equal_length_swap_takes_effect() {
    // Both events of row 0 span one unit each: the fast path runs, and the
    // cost and collision map must still move to the recomputed truth.
    let scheme = vec![
        vec![ev("a", Some("x"), 1), ev("b", Some("y"), 1)],
        vec![ev("c", Some("y"), 1), ev("d", Some("x"), 1)],
    ];
    let mut s = Schedule::new(scheme);
    assert_eq!(s.cost, 0);
    s.swap(0, 0, 1);
    assert_eq!(s.cost, 2);
    check_agreement(&s);
    s.swap(1, 1, 0);
    assert_eq!(s.cost, 0);
    check_agreement(&s);
}

#[test]
fn zero_temperature_never_worsens() {
    let scheme = vec![
        vec![ev("a", Some("x"), 1), ev("b", Some("y"), 1), ev("c", Some("z"), 1)],
        vec![ev("d", Some("x"), 1), ev("e", Some("y"), 1), ev("f", Some("z"), 1)],
    ];
    let mut s = Schedule::new(scheme);
    let before = s.cost;
    let _ = s.optimize(500, false, false, || (), |_, _, _| false);
    assert!(s.cost <= before, "refusing every worsening move is monotone");
    check_agreement(&s);
}

#[test]
fn shuffling_keeps_each_row_a_permutation() {
    let scheme = vec![
        vec![ev("a", Some("x"), 1), ev("b", Some("y"), 2), ev("c", None, 3)],
        vec![ev("d", None, 1), ev("e", Some("x"), 1)],
    ];
    let mut s = Schedule::new(scheme.clone());
    let _ = s.optimize(100, true, false, || (), |_, _, _| false);
    assert_eq!(s.scheme.len(), scheme.len());
    for (row, orig) in s.scheme.iter().zip(scheme.iter()) {
        let mut got: Vec<Vec<u8>> = row.iter().map(|e| e.name.clone()).collect();
        let mut want: Vec<Vec<u8>> = orig.iter().map(|e| e.name.clone()).collect();
        got.sort();
        want.sort();
        assert_eq!(got, want);
    }
    check_agreement(&s);
}

#[test]
fn ticks_count_performed_iterations() {
    let scheme = vec![vec![ev("a", Some("x"), 1)], vec![ev("a", Some("x"), 1)]];
    let mut s = Schedule::new(scheme);
    let ticks = std::cell::Cell::new(0usize);
    let iters = s.optimize(7, false, false, || ticks.set(ticks.get() + 1), |_, _, _| false);
    assert_eq!(iters, 7, "an unavoidable collision uses the whole budget");
    assert_eq!(ticks.get(), 7, "one tick per performed iteration");
}

#[test]
fn try_new_rejects_inconsistent_events() {
    // A leader identifier that does not match the leader name is refused.
    let mut bad = ev("a", Some("x"), 1);
    bad.leader_id = Some(12345);
    assert!(Schedule::try_new(vec![vec![bad]]).is_none());
    let good = ev("a", Some("x"), 1);
    let s = Schedule::try_new(vec![vec![good]]).unwrap();
    assert_eq!(s.cost, 0);
}

#[test]
fn update_rebuilds_tables() {
    let scheme = vec![
        vec![ev("a", Some("x"), 2), ev("b", None, 1)],
        vec![ev("c", Some("x"), 3)],
    ];
    let mut s = Schedule::new(scheme);
    assert_eq!(s.len, 6);
    assert_eq!(s.idx, vec![vec![0, 2, 3], vec![0, 3]]);
    assert_eq!(s.event, vec![vec![0, 0, 1], vec![0, 0, 0]]);
    assert_eq!(s.cost, 2, "x overlaps itself in the first two columns");
    s.update();
    assert_eq!(s.cost, 2);
    check_agreement(&s);
}

#[test]
fn empty_grid_and_empty_rows_are_harmless() {
    let mut empty = Schedule::new(Vec::new());
    assert_eq!(empty.cost, 0);
    let iters = empty.optimize(5, true, true, || (), |_, _, _| false);
    assert_eq!(iters, 0);

    let mut ragged = Schedule::new(vec![Vec::new(), vec![ev("a", Some("x"), 1)]]);
    assert_eq!(ragged.cost, 0);
    let iters = ragged.optimize(20, false, false, || (), |_, _, _| false);
    assert_eq!(iters, 1, "one full iteration, then the zero cost stops the loop");
    assert_eq!(ragged.cost, 0);
    check_agreement(&ragged);
}

#[test]
fn update_is_idempotent_bit_for_bit() {
    let scheme = vec![
        vec![ev("a", Some("x"), 2), ev("b", Some("y"), 1), ev("c", Some("x"), 1)],
        vec![ev("d", Some("x"), 1), ev("e", Some("y"), 3)],
    ];
    let mut s = Schedule::new(scheme);
    s.update();
    let idx = s.idx.clone();
    let evt = s.event.clone();
    let cost = s.cost;
    let entries: Vec<((usize, usize), usize)> =
        s.collisions.iter().map(|(k, v)| (*k, *v)).collect();
    s.update();
    assert_eq!(s.idx, idx);
    assert_eq!(s.event, evt);
    assert_eq!(s.cost, cost);
    let again: Vec<((usize, usize), usize)> =
        s.collisions.iter().map(|(k, v)| (*k, *v)).collect();
    assert_eq!(again, entries, "same entries in the same insertion order");
}

#[test]
fn greedy_warm_start_is_the_prescribed_arrangement() {
    // Row 0 claims x at column 0 and y at column 1. Row 1 then cannot place
    // its x-event first (column 0 is claimed), so the y-event moves ahead.
    // Row 2 has no placeable event and falls back to its last one.
    let scheme = vec![
        vec![ev("a", Some("x"), 1), ev("b", Some("y"), 1)],
        vec![ev("c", Some("x"), 1), ev("d", Some("y"), 1)],
        vec![ev("e", Some("x"), 2)],
    ];
    let mut s = Schedule::new(scheme);
    let iters = s.optimize(0, false, true, || (), |_, _, _| false);
    assert_eq!(iters, 0);
    let names: Vec<Vec<&[u8]>> = s
        .scheme
        .iter()
        .map(|row| row.iter().map(|e| e.name.as_slice()).collect())
        .collect();
    let expect: Vec<Vec<&[u8]>> = vec![
        vec![b"a", b"b"],
        vec![b"d", b"c"],
        vec![b"e"],
    ];
    assert_eq!(names, expect);
}

#[test]
fn leader_hash_is_stable_within_a_run() {
    let a = ev("a", Some("alice"), 1);
    let b = ev("b", Some("alice"), 1);
    let c = ev("c", Some("bob"), 1);
    assert_eq!(a.leader_id, b.leader_id);
    assert!(a.leader_id.is_some());
    assert_ne!(a.leader_id, c.leader_id);
    let d = ev("d", None, 1);
    assert_eq!(d.leader_id, None);
}
