//! The ordered collision container: `indexmap::IndexMap` keyed by
//! `(row, event index)` with the event's collision contribution as value.
//! The map itself is an outside crate; every call the schedule makes goes
//! through a trusted wrapper whose contract speaks of `im_entries`, the
//! entries of the map in their insertion order.
use vstd::prelude::*;

use indexmap::IndexMap;

verus! {

#[verifier::external_type_specification]
#[verifier::external_body]
#[verifier::reject_recursive_types(K)]
#[verifier::reject_recursive_types(V)]
#[verifier::reject_recursive_types(S)]
pub struct ExIndexMap<K, V, S>(IndexMap<K, V, S>);

/// The entries held by a collision map, first inserted first.
pub uninterp spec fn im_entries(m: IndexMap<(usize, usize), usize>) -> Seq<
    ((usize, usize), usize),
>;

/// Some entry carries this key.
pub open spec fn has_key(s: Seq<((usize, usize), usize)>, k: (usize, usize)) -> bool {
    exists|i: int| 0 <= i < s.len() && (#[trigger] s[i]).0 == k
}

/// Position of an entry carrying this key.
pub open spec fn key_index(s: Seq<((usize, usize), usize)>, k: (usize, usize)) -> int {
    choose|i: int| 0 <= i < s.len() && (#[trigger] s[i]).0 == k
}

/// Value of an entry carrying this key.
pub open spec fn key_val(s: Seq<((usize, usize), usize)>, k: (usize, usize)) -> usize {
    s[key_index(s, k)].1
}

/// No two entries carry the same key.
pub open spec fn distinct_keys(s: Seq<((usize, usize), usize)>) -> bool {
    forall|i: int, j: int| 0 <= i < j < s.len() ==> (#[trigger] s[i]).0 != (#[trigger] s[j]).0
}

/// The entry sequence read as a map.
pub open spec fn entries_map(s: Seq<((usize, usize), usize)>) -> Map<(usize, usize), usize> {
    Map::new(|k: (usize, usize)| has_key(s, k), |k: (usize, usize)| key_val(s, k))
}

/// The sequence left by removing the entry at `i` by swapping in the last.
pub open spec fn swap_removed(s: Seq<((usize, usize), usize)>, i: int) -> Seq<
    ((usize, usize), usize),
> {
    s.update(i, s.last()).drop_last()
}

/// Relies on indexmap::IndexMap::with_capacity: a fresh map with no entries.
#[verifier::external_body]
pub fn im_with_capacity(n: usize) -> (m: IndexMap<(usize, usize), usize>)
    ensures
        im_entries(m) == Seq::<((usize, usize), usize)>::empty(),
{
    IndexMap::with_capacity(n)
}

/// Relies on indexmap::IndexMap::len: the number of entries.
#[verifier::external_body]
pub fn im_len(m: &IndexMap<(usize, usize), usize>) -> (n: usize)
    ensures
        n == im_entries(*m).len(),
{
    m.len()
}

/// Relies on indexmap::IndexMap::get: the value stored for the key.
#[verifier::external_body]
pub fn im_get(m: &IndexMap<(usize, usize), usize>, k: (usize, usize)) -> (r: Option<usize>)
    requires
        distinct_keys(im_entries(*m)),
    ensures
        r == if has_key(im_entries(*m), k) {
            Some(key_val(im_entries(*m), k))
        } else {
            None::<usize>
        },
{
    m.get(&k).copied()
}

/// Relies on indexmap::IndexMap::get_index: the entry at a position.
#[verifier::external_body]
pub fn im_get_index(m: &IndexMap<(usize, usize), usize>, i: usize) -> (r: Option<
    ((usize, usize), usize),
>)
    ensures
        r == if (i as int) < im_entries(*m).len() {
            Some(im_entries(*m)[i as int])
        } else {
            None::<((usize, usize), usize)>
        },
{
    m.get_index(i).map(|(k, v)| (*k, *v))
}

/// Relies on indexmap::IndexMap::insert: an existing key keeps its place and
/// gets the new value; a new key is appended last.
#[verifier::external_body]
pub fn im_insert(m: &mut IndexMap<(usize, usize), usize>, k: (usize, usize), v: usize) -> (r:
    Option<usize>)
    requires
        distinct_keys(im_entries(*old(m))),
    ensures
        ({
            let s = im_entries(*old(m));
            if has_key(s, k) {
                im_entries(*final(m)) == s.update(key_index(s, k), (k, v)) && r == Some(key_val(s, k))
            } else {
                im_entries(*final(m)) == s.push((k, v)) && r == None::<usize>
            }
        }),
{
    m.insert(k, v)
}

/// Relies on indexmap::IndexMap::swap_remove: the entry is removed by swapping
/// the last entry into its place and popping the sequence.
#[verifier::external_body]
pub fn im_swap_remove(m: &mut IndexMap<(usize, usize), usize>, k: (usize, usize)) -> (r: Option<
    usize,
>)
    requires
        distinct_keys(im_entries(*old(m))),
    ensures
        ({
            let s = im_entries(*old(m));
            if has_key(s, k) {
                im_entries(*final(m)) == swap_removed(s, key_index(s, k)) && r == Some(key_val(s, k))
            } else {
                im_entries(*final(m)) == s && r == None::<usize>
            }
        }),
{
    m.swap_remove(&k)
}

/// The empty entry sequence reads as the empty map.
pub proof fn lemma_entries_empty()
    ensures
        entries_map(Seq::<((usize, usize), usize)>::empty()) =~= Map::<
            (usize, usize),
            usize,
        >::empty(),
        distinct_keys(Seq::<((usize, usize), usize)>::empty()),
{
}

/// With distinct keys, the entry holding a key is unique, so lookups are exact.
pub proof fn lemma_key_at(s: Seq<((usize, usize), usize)>, i: int)
    requires
        distinct_keys(s),
        0 <= i < s.len(),
    ensures
        has_key(s, s[i].0),
        key_index(s, s[i].0) == i,
        key_val(s, s[i].0) == s[i].1,
        entries_map(s).contains_key(s[i].0),
        entries_map(s)[s[i].0] == s[i].1,
{
    assert(has_key(s, s[i].0));
    let j = key_index(s, s[i].0);
    if j != i {
        assert(false);
    }
}

/// Overwriting the value of an existing key reads as a map insert.
pub proof fn lemma_entries_update(s: Seq<((usize, usize), usize)>, k: (usize, usize), v: usize)
    requires
        distinct_keys(s),
        has_key(s, k),
    ensures
        entries_map(s.update(key_index(s, k), (k, v))) =~= entries_map(s).insert(k, v),
        distinct_keys(s.update(key_index(s, k), (k, v))),
{
    let i = key_index(s, k);
    let s2 = s.update(i, (k, v));
    assert(s[i].0 == k);
    assert forall|q: (usize, usize)| has_key(s2, q) <==> has_key(s, q) by {
        if has_key(s2, q) {
            let w = choose|w: int| 0 <= w < s2.len() && s2[w].0 == q;
            assert(s[w].0 == q);
        }
        if has_key(s, q) {
            let w = choose|w: int| 0 <= w < s.len() && s[w].0 == q;
            assert(s2[w].0 == q);
        }
    }
    assert forall|q: (usize, usize)| has_key(s2, q) implies key_val(s2, q) == entries_map(s).insert(
        k,
        v,
    )[q] by {
        let w = key_index(s2, q);
        assert(0 <= w < s2.len() && s2[w].0 == q);
        if q == k {
            if w != i {
                assert(s[w].0 == k);
                assert(false);
            }
        } else {
            assert(w != i);
            assert(s[w].0 == q);
            lemma_key_at(s, w);
        }
    }
}

/// Appending a fresh key reads as a map insert.
pub proof fn lemma_entries_push(s: Seq<((usize, usize), usize)>, k: (usize, usize), v: usize)
    requires
        distinct_keys(s),
        !has_key(s, k),
    ensures
        entries_map(s.push((k, v))) =~= entries_map(s).insert(k, v),
        distinct_keys(s.push((k, v))),
{
    let s2 = s.push((k, v));
    assert forall|i: int, j: int| 0 <= i < j < s2.len() implies (#[trigger] s2[i]).0 != (
    #[trigger] s2[j]).0 by {
        if j < s.len() {
            assert(s2[i] == s[i] && s2[j] == s[j]);
        } else {
            assert(s2[j].0 == k && s2[i] == s[i]);
        }
    }
    assert forall|q: (usize, usize)| has_key(s2, q) <==> (has_key(s, q) || q == k) by {
        if has_key(s2, q) {
            let w = choose|w: int| 0 <= w < s2.len() && s2[w].0 == q;
            if w < s.len() {
                assert(s[w].0 == q);
            }
        }
        if has_key(s, q) {
            let w = choose|w: int| 0 <= w < s.len() && s[w].0 == q;
            assert(s2[w].0 == q);
        }
        assert(s2[s.len() as int].0 == k);
    }
    assert forall|q: (usize, usize)| has_key(s2, q) implies key_val(s2, q) == entries_map(s).insert(
        k,
        v,
    )[q] by {
        let w = key_index(s2, q);
        assert(0 <= w < s2.len() && s2[w].0 == q);
        if q == k {
            if w < s.len() {
                assert(s[w].0 == k);
                assert(false);
            }
        } else {
            assert(w < s.len());
            assert(s[w].0 == q);
            lemma_key_at(s, w);
        }
    }
}

/// Swap-removing a key reads as a map remove.
pub proof fn lemma_entries_swap_remove(s: Seq<((usize, usize), usize)>, k: (usize, usize))
    requires
        distinct_keys(s),
        has_key(s, k),
    ensures
        entries_map(swap_removed(s, key_index(s, k))) =~= entries_map(s).remove(k),
        distinct_keys(swap_removed(s, key_index(s, k))),
{
    let i = key_index(s, k);
    assert(0 <= i < s.len() && s[i].0 == k);
    let s2 = swap_removed(s, i);
    let n = s.len() - 1;
    assert(s2.len() == n);
    assert forall|w: int| 0 <= w < n implies #[trigger] s2[w] == (if w == i {
        s[n]
    } else {
        s[w]
    }) by {}
    assert forall|a: int, b: int| 0 <= a < b < s2.len() implies (#[trigger] s2[a]).0 != (
    #[trigger] s2[b]).0 by {
        let oa = if a == i { n } else { a };
        let ob = if b == i { n } else { b };
        assert(s2[a] == s[oa] && s2[b] == s[ob]);
        assert(oa != ob);
    }
    assert forall|q: (usize, usize)| has_key(s2, q) <==> (has_key(s, q) && q != k) by {
        if has_key(s2, q) {
            let w = choose|w: int| 0 <= w < s2.len() && s2[w].0 == q;
            let ow = if w == i { n } else { w };
            assert(s[ow].0 == q);
            assert(ow != i || q == k);
            if q == k {
                let ww = if w == i { n } else { w };
                assert(s[ww].0 == k);
                if ww != i {
                    assert(false);
                }
                assert(w == i && ww == n && i == n);
                assert(false);
            }
        }
        if has_key(s, q) && q != k {
            let w = choose|w: int| 0 <= w < s.len() && s[w].0 == q;
            assert(w != i);
            if w < n {
                assert(s2[w].0 == q);
            } else {
                assert(w == n);
                if i < n {
                    assert(s2[i].0 == q);
                } else {
                    assert(i == n && q == k);
                    assert(false);
                }
            }
        }
    }
    assert forall|q: (usize, usize)| has_key(s2, q) implies key_val(s2, q) == entries_map(s).remove(
        k,
    )[q] by {
        let w = key_index(s2, q);
        assert(0 <= w < s2.len() && s2[w].0 == q);
        let ow = if w == i { n } else { w };
        assert(s2[w] == s[ow]);
        lemma_key_at(s, ow);
    }
}

} // verus!
