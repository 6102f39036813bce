//! Index generator: stable sorted row-index arrays for range queries and
//! reverse joins, and the closed-range bisections that consult them.
//!
//! An index is a permutation of the row numbers ordered by a column's value;
//! rows with equal values keep their original relative order, which makes the
//! permutation unique and range results deterministic.

use vstd::prelude::*;
use crate::strutil::{str_eq, str_lt, chars_lt, lemma_chars_lt_connected, lemma_chars_lt_trans, lemma_chars_lt_irrefl};

verus! {

broadcast use vstd::seq_lib::group_to_multiset_ensures;

/// Strict order on row positions `a`, `b`: by key value, ties broken by the
/// position itself, so that equal keys keep their original order.
pub open spec fn key_lt(keys: Seq<u64>, a: int, b: int) -> bool {
    keys[a] < keys[b] || (keys[a] == keys[b] && a < b)
}

/// `idx` lists row positions in key order, equal keys in position order.
pub open spec fn sorted_index(keys: Seq<u64>, idx: Seq<usize>) -> bool {
    forall|i: int, j: int|
        0 <= i < j < idx.len() ==> key_lt(keys, #[trigger] idx[i] as int, #[trigger] idx[j] as int)
}

fn key_lt_exec(keys: &Vec<u64>, a: usize, b: usize) -> (r: bool)
    requires
        a < keys@.len(),
        b < keys@.len(),
    ensures
        r == key_lt(keys@, a as int, b as int),
{
    keys[a] < keys[b] || (keys[a] == keys[b] && a < b)
}

/// Stable insertion sort of the positions in `idx` by their key in `keys`.
fn sort_index_u64(keys: &Vec<u64>, idx: &mut Vec<usize>)
    requires
        forall|k: int| 0 <= k < old(idx)@.len() ==> #[trigger] old(idx)@[k] < keys@.len(),
        old(idx)@.no_duplicates(),
    ensures
        final(idx)@.to_multiset() == old(idx)@.to_multiset(),
        final(idx)@.len() == old(idx)@.len(),
        forall|k: int| 0 <= k < final(idx)@.len() ==> #[trigger] final(idx)@[k] < keys@.len(),
        final(idx)@.no_duplicates(),
        sorted_index(keys@, final(idx)@),
{
    let n = idx.len();
    if n < 2 {
        return ;
    }
    let mut i: usize = 1;
    while i < n
        invariant
            1 <= i <= n,
            n == idx@.len(),
            idx@.to_multiset() == old(idx)@.to_multiset(),
            forall|k: int| 0 <= k < n ==> #[trigger] idx@[k] < keys@.len(),
            idx@.no_duplicates(),
            sorted_index(keys@, idx@.take(i as int)),
        decreases n - i,
    {
        let x = idx[i];
        let mut p: usize = 0;
        while p < i && key_lt_exec(keys, idx[p], x)
            invariant
                p <= i,
                i < n,
                n == idx@.len(),
                x == idx@[i as int],
                forall|k: int| 0 <= k < n ==> #[trigger] idx@[k] < keys@.len(),
                forall|k: int| 0 <= k < p ==> key_lt(keys@, #[trigger] idx@[k] as int, x as int),
            decreases i - p,
        {
            p += 1;
        }
        let ghost s_old = idx@;
        let y = idx.remove(i);
        idx.insert(p, y);
        proof {
            let s2 = idx@;
            assert(s2 =~= s_old.remove(i as int).insert(p as int, y));
            // the multiset of positions is unchanged by moving one element
            assert(s_old.to_multiset().contains(y)) by {
                assert(s_old[i as int] == y);
            }
            assert(s2.to_multiset() =~= s_old.to_multiset());
            // distinctness is a property of the multiset
            s_old.lemma_multiset_has_no_duplicates();
            s2.lemma_multiset_has_no_duplicates_conv();
            // sorted pairs of the old prefix, stated without `take`
            assert forall|a: int, b: int| 0 <= a < b < i implies key_lt(
                keys@,
                s_old[a] as int,
                s_old[b] as int,
            ) by {
                assert(s_old.take(i as int)[a] == s_old[a]);
                assert(s_old.take(i as int)[b] == s_old[b]);
            }
            if p < i {
                assert(s_old[p as int] != s_old[i as int]);
                assert(!key_lt(keys@, s_old[p as int] as int, x as int));
                assert(key_lt(keys@, x as int, s_old[p as int] as int));
            }
            // the scan found the first position whose key is not below x,
            // so the new prefix is sorted
            assert forall|a: int, b: int| 0 <= a < b < i + 1 implies key_lt(
                keys@,
                s2[a] as int,
                s2[b] as int,
            ) by {
                assert(s2[p as int] == x);
                if a < p {
                    assert(s2[a] == s_old[a]);
                    assert(key_lt(keys@, s_old[a] as int, x as int));
                }
                if b < p {
                    assert(s2[b] == s_old[b]);
                }
                if a > p {
                    assert(s2[a] == s_old[a - 1]);
                }
                if b > p {
                    assert(s2[b] == s_old[b - 1]);
                    if a == p {
                        assert(key_lt(keys@, x as int, s_old[p as int] as int));
                        if b - 1 > p {
                            assert(key_lt(keys@, s_old[p as int] as int, s_old[b - 1] as int));
                        }
                    }
                }
            }
            assert forall|a: int, b: int|
                #![trigger s2.take(i + 1)[a], s2.take(i + 1)[b]]
                0 <= a < b < (i + 1) implies key_lt(
                keys@,
                s2.take(i + 1)[a] as int,
                s2.take(i + 1)[b] as int,
            ) by {
                assert(s2.take(i + 1)[a] == s2[a]);
                assert(s2.take(i + 1)[b] == s2[b]);
            }
        }
        i += 1;
    }
    proof {
        assert(idx@.take(n as int) =~= idx@);
    }
}

/// `idx` holds each position `0 <= row < len` exactly once.
pub open spec fn is_permutation(len: nat, idx: Seq<usize>) -> bool {
    &&& idx.len() == len
    &&& forall|k: int| 0 <= k < idx.len() ==> (#[trigger] idx[k] as nat) < len
    &&& idx.no_duplicates()
    &&& forall|row: usize| (row as nat) < len ==> #[trigger] idx.contains(row)
}

/// `idx` lists positions of `values` in value order, ties in position order.
pub open spec fn sorted_index_usize(values: Seq<usize>, idx: Seq<usize>) -> bool {
    forall|i: int, j: int|
        0 <= i < j < idx.len() ==> values[(#[trigger] idx[i]) as int] < values[(#[trigger] idx[j]) as int]
            || (values[idx[i] as int] == values[idx[j] as int] && idx[i] < idx[j])
}

/// `idx` lists positions of `values` in value order, ties in position order.
pub open spec fn sorted_index_i64(values: Seq<i64>, idx: Seq<usize>) -> bool {
    forall|i: int, j: int|
        0 <= i < j < idx.len() ==> values[(#[trigger] idx[i]) as int] < values[(#[trigger] idx[j]) as int]
            || (values[idx[i] as int] == values[idx[j] as int] && idx[i] < idx[j])
}

fn usize_keys(values: &Vec<usize>) -> (r: Vec<u64>)
    ensures
        r@.len() == values@.len(),
        forall|k: int| 0 <= k < values@.len() ==> #[trigger] r@[k] == values@[k] as u64,
{
    let n = values.len();
    let mut r: Vec<u64> = Vec::new();
    let mut i: usize = 0;
    while i < n
        invariant
            i <= n,
            n == values@.len(),
            r@.len() == i,
            forall|k: int| 0 <= k < i ==> #[trigger] r@[k] == values@[k] as u64,
        decreases n - i,
    {
        r.push(values[i] as u64);
        i += 1;
    }
    r
}

fn i64_keys(values: &Vec<i64>) -> (r: Vec<u64>)
    ensures
        r@.len() == values@.len(),
        forall|k: int|
            0 <= k < values@.len() ==> #[trigger] r@[k] as int == values@[k] as int
                + 0x8000_0000_0000_0000,
{
    let n = values.len();
    let mut r: Vec<u64> = Vec::new();
    let mut i: usize = 0;
    while i < n
        invariant
            i <= n,
            n == values@.len(),
            r@.len() == i,
            forall|k: int|
                0 <= k < i ==> #[trigger] r@[k] as int == values@[k] as int
                    + 0x8000_0000_0000_0000,
        decreases n - i,
    {
        let v = values[i];
        let key = ((v as i128) + 0x8000_0000_0000_0000i128) as u64;
        r.push(key);
        i += 1;
    }
    r
}

/// The positions `0..len` in order.
fn iota(len: usize) -> (r: Vec<usize>)
    ensures
        r@.len() == len,
        forall|k: int| 0 <= k < len ==> #[trigger] r@[k] == k,
        r@.no_duplicates(),
{
    let mut r: Vec<usize> = Vec::new();
    let mut i: usize = 0;
    while i < len
        invariant
            i <= len,
            r@.len() == i,
            forall|k: int| 0 <= k < i ==> #[trigger] r@[k] == k,
        decreases len - i,
    {
        r.push(i);
        i += 1;
    }
    r
}

/// Sort every row position of `values` into a stable index.
pub fn index(values: &Vec<usize>) -> (r: Vec<usize>)
    ensures
        is_permutation(values@.len(), r@),
        sorted_index_usize(values@, r@),
{
    let keys = usize_keys(values);
    let mut idx = iota(values.len());
    let ghost init = idx@;
    sort_index_u64(&keys, &mut idx);
    proof {
        assert forall|row: usize| (row as nat) < values@.len() implies #[trigger] idx@.contains(
            row,
        ) by {
            assert(init[row as int] == row);
            assert(init.contains(row));
            assert(idx@.to_multiset().count(row) > 0);
        }
        assert forall|i: int, j: int| 0 <= i < j < idx@.len() implies values@[(
        #[trigger] idx@[i]) as int] < values@[(#[trigger] idx@[j]) as int] || (values@[idx@[i] as int]
            == values@[idx@[j] as int] && idx@[i] < idx@[j]) by {
            assert(key_lt(keys@, idx@[i] as int, idx@[j] as int));
        }
    }
    idx
}

/// Sort the row positions of `values` whose value is not `exclude` into a
/// stable index.
pub fn filter_index(values: &Vec<usize>, exclude: usize) -> (r: Vec<usize>)
    ensures
        r@.no_duplicates(),
        forall|k: int|
            0 <= k < r@.len() ==> (#[trigger] r@[k] as nat) < values@.len() && values@[r@[k] as int]
                != exclude,
        forall|row: usize|
            (row as nat) < values@.len() && values@[row as int] != exclude
                ==> #[trigger] r@.contains(row),
        sorted_index_usize(values@, r@),
{
    let n = values.len();
    let mut idx: Vec<usize> = Vec::new();
    let mut i: usize = 0;
    while i < n
        invariant
            i <= n,
            n == values@.len(),
            forall|a: int, b: int| 0 <= a < b < idx@.len() ==> idx@[a] < idx@[b],
            forall|k: int|
                0 <= k < idx@.len() ==> (#[trigger] idx@[k] as nat) < i && values@[idx@[k] as int]
                    != exclude,
            forall|row: usize|
                (row as nat) < i && values@[row as int] != exclude ==> #[trigger] idx@.contains(
                    row,
                ),
        decreases n - i,
    {
        let ghost prev = idx@;
        if values[i] != exclude {
            idx.push(i);
        }
        proof {
            assert forall|row: usize|
                (row as nat) < i + 1 && values@[row as int] != exclude implies #[trigger] idx@.contains(
                row,
            ) by {
                if (row as nat) < i as nat {
                    assert(prev.contains(row));
                    let k = choose|k: int| 0 <= k < prev.len() && prev[k] == row;
                    assert(idx@[k] == row);
                } else {
                    assert(idx@[idx@.len() - 1] == row);
                }
            }
        }
        i += 1;
    }
    proof {
        assert forall|a: int, b: int| 0 <= a < b < idx@.len() implies idx@[a] != idx@[b] by {}
    }
    let ghost init = idx@;
    let keys = usize_keys(values);
    sort_index_u64(&keys, &mut idx);
    proof {
        assert forall|row: usize|
            (row as nat) < values@.len() && values@[row as int] != exclude implies #[trigger] idx@.contains(
            row,
        ) by {
            assert(init.contains(row));
            assert(idx@.to_multiset().count(row) > 0);
        }
        assert forall|k: int|
            0 <= k < idx@.len() implies (#[trigger] idx@[k] as nat) < values@.len()
                && values@[idx@[k] as int] != exclude by {
            assert(idx@.contains(idx@[k]));
            assert(idx@.to_multiset().count(idx@[k]) > 0);
            assert(init.contains(idx@[k]));
        }
        assert forall|i: int, j: int| 0 <= i < j < idx@.len() implies values@[(
        #[trigger] idx@[i]) as int] < values@[(#[trigger] idx@[j]) as int] || (values@[idx@[i] as int]
            == values@[idx@[j] as int] && idx@[i] < idx@[j]) by {
            assert(key_lt(keys@, idx@[i] as int, idx@[j] as int));
        }
    }
    idx
}

/// Sort every row position of `values` into a stable index, ordered by the
/// signed value.
pub fn index_i64(values: &Vec<i64>) -> (r: Vec<usize>)
    ensures
        is_permutation(values@.len(), r@),
        sorted_index_i64(values@, r@),
{
    let keys = i64_keys(values);
    let mut idx = iota(values.len());
    let ghost init = idx@;
    sort_index_u64(&keys, &mut idx);
    proof {
        assert forall|row: usize| (row as nat) < values@.len() implies #[trigger] idx@.contains(
            row,
        ) by {
            assert(init[row as int] == row);
            assert(init.contains(row));
            assert(idx@.to_multiset().count(row) > 0);
        }
        assert forall|i: int, j: int| 0 <= i < j < idx@.len() implies values@[(
        #[trigger] idx@[i]) as int] < values@[(#[trigger] idx@[j]) as int] || (values@[idx@[i] as int]
            == values@[idx@[j] as int] && idx@[i] < idx@[j]) by {
            assert(key_lt(keys@, idx@[i] as int, idx@[j] as int));
        }
    }
    idx
}

/// `idx` lists positions of `values` in key order, ties in position order.
pub open spec fn sorted_index_u64(values: Seq<u64>, idx: Seq<usize>) -> bool {
    forall|i: int, j: int|
        0 <= i < j < idx.len() ==> values[(#[trigger] idx[i]) as int] < values[(#[trigger] idx[j]) as int]
            || (values[idx[i] as int] == values[idx[j] as int] && idx[i] < idx[j])
}

/// Sort every row position of `values` into a stable index, ordered by the
/// unsigned key value.
pub fn index_u64(values: &Vec<u64>) -> (r: Vec<usize>)
    ensures
        is_permutation(values@.len(), r@),
        sorted_index_u64(values@, r@),
{
    let mut idx = iota(values.len());
    let ghost init = idx@;
    sort_index_u64(values, &mut idx);
    proof {
        assert forall|row: usize| (row as nat) < values@.len() implies #[trigger] idx@.contains(
            row,
        ) by {
            assert(init[row as int] == row);
            assert(init.contains(row));
            assert(idx@.to_multiset().count(row) > 0);
        }
        assert forall|i: int, j: int| 0 <= i < j < idx@.len() implies values@[(
        #[trigger] idx@[i]) as int] < values@[(#[trigger] idx@[j]) as int] || (values@[idx@[i] as int]
            == values@[idx@[j] as int] && idx@[i] < idx@[j]) by {
            assert(key_lt(values@, idx@[i] as int, idx@[j] as int));
        }
    }
    idx
}

/// Smallest position of `idx` whose value is at least `start`; `idx.len()`
/// if every value is below `start`.
fn lower_bound_i64(values: &Vec<i64>, idx: &Vec<usize>, start: i64) -> (lo: usize)
    requires
        forall|k: int| 0 <= k < idx@.len() ==> (#[trigger] idx@[k] as nat) < values@.len(),
        sorted_index_i64(values@, idx@),
    ensures
        lo <= idx@.len(),
        forall|k: int| 0 <= k < lo ==> values@[(#[trigger] idx@[k]) as int] < start,
        forall|k: int| lo <= k < idx@.len() ==> values@[(#[trigger] idx@[k]) as int] >= start,
{
    let mut lo: usize = 0;
    let mut hi: usize = idx.len();
    while lo < hi
        invariant
            lo <= hi <= idx@.len(),
            forall|k: int| 0 <= k < idx@.len() ==> (#[trigger] idx@[k] as nat) < values@.len(),
            sorted_index_i64(values@, idx@),
            forall|k: int| 0 <= k < lo ==> values@[(#[trigger] idx@[k]) as int] < start,
            forall|k: int| hi <= k < idx@.len() ==> values@[(#[trigger] idx@[k]) as int] >= start,
        decreases hi - lo,
    {
        let mid = lo + (hi - lo) / 2;
        if values[idx[mid]] < start {
            proof {
                assert forall|k: int| 0 <= k < mid + 1 implies values@[(#[trigger] idx@[k]) as int]
                    < start by {
                    if k < mid {
                        assert(values@[idx@[k] as int] < values@[idx@[mid as int] as int] || (
                        values@[idx@[k] as int] == values@[idx@[mid as int] as int]));
                    }
                }
            }
            lo = mid + 1;
        } else {
            hi = mid;
        }
    }
    lo
}

/// Smallest position of `idx` whose value is above `stop`; `idx.len()` if
/// every value is at most `stop`.
fn upper_bound_i64(values: &Vec<i64>, idx: &Vec<usize>, stop: i64) -> (hi: usize)
    requires
        forall|k: int| 0 <= k < idx@.len() ==> (#[trigger] idx@[k] as nat) < values@.len(),
        sorted_index_i64(values@, idx@),
    ensures
        hi <= idx@.len(),
        forall|k: int| 0 <= k < hi ==> values@[(#[trigger] idx@[k]) as int] <= stop,
        forall|k: int| hi <= k < idx@.len() ==> values@[(#[trigger] idx@[k]) as int] > stop,
{
    let mut lo: usize = 0;
    let mut hi: usize = idx.len();
    while lo < hi
        invariant
            lo <= hi <= idx@.len(),
            forall|k: int| 0 <= k < idx@.len() ==> (#[trigger] idx@[k] as nat) < values@.len(),
            sorted_index_i64(values@, idx@),
            forall|k: int| 0 <= k < lo ==> values@[(#[trigger] idx@[k]) as int] <= stop,
            forall|k: int| hi <= k < idx@.len() ==> values@[(#[trigger] idx@[k]) as int] > stop,
        decreases hi - lo,
    {
        let mid = lo + (hi - lo) / 2;
        if values[idx[mid]] <= stop {
            proof {
                assert forall|k: int| 0 <= k < mid + 1 implies values@[(#[trigger] idx@[k]) as int]
                    <= stop by {
                    if k < mid {
                        assert(values@[idx@[k] as int] < values@[idx@[mid as int] as int] || (
                        values@[idx@[k] as int] == values@[idx@[mid as int] as int]));
                    }
                }
            }
            lo = mid + 1;
        } else {
            hi = mid;
        }
    }
    lo
}

/// Closed-range lookup: the window `[r.0, r.1)` of `idx` holding exactly the
/// positions whose value `v` satisfies `start <= v <= stop`; empty when
/// `stop < start`.
pub fn range_i64(values: &Vec<i64>, idx: &Vec<usize>, start: i64, stop: i64) -> (r: (usize, usize))
    requires
        forall|k: int| 0 <= k < idx@.len() ==> (#[trigger] idx@[k] as nat) < values@.len(),
        sorted_index_i64(values@, idx@),
    ensures
        r.0 <= r.1 <= idx@.len(),
        forall|k: int|
            r.0 <= k < r.1 ==> start <= values@[(#[trigger] idx@[k]) as int] <= stop,
        forall|k: int| 0 <= k < r.0 ==> values@[(#[trigger] idx@[k]) as int] < start,
        forall|k: int| r.1 <= k < idx@.len() ==> values@[(#[trigger] idx@[k]) as int] > stop,
{
    let lo = lower_bound_i64(values, idx, start);
    let hi = upper_bound_i64(values, idx, stop);
    if hi < lo {
        proof {
            assert forall|k: int| hi <= k < idx@.len() implies values@[(#[trigger] idx@[k]) as int]
                > stop by {
                if k < lo {
                    assert(values@[idx@[k] as int] > stop);
                }
            }
        }
        (lo, lo)
    } else {
        (lo, hi)
    }
}

/// The rows whose value lies in `[start, stop]` are exactly those of the
/// window, in stable original-row order among equal values.
pub proof fn lemma_range_exact(
    values: Seq<i64>,
    idx: Seq<usize>,
    start: i64,
    stop: i64,
    lo: int,
    hi: int,
)
    requires
        is_permutation(values.len(), idx),
        sorted_index_i64(values, idx),
        0 <= lo <= hi <= idx.len(),
        forall|k: int| lo <= k < hi ==> start <= values[(#[trigger] idx[k]) as int] <= stop,
        forall|k: int| 0 <= k < lo ==> values[(#[trigger] idx[k]) as int] < start,
        forall|k: int| hi <= k < idx.len() ==> values[(#[trigger] idx[k]) as int] > stop,
    ensures
        forall|row: usize|
            #![trigger values[row as int]]
            (row as nat) < values.len() && start <= values[row as int] <= stop ==> exists|k: int|
                lo <= k < hi && (#[trigger] idx[k]) == row,
        forall|k1: int, k2: int|
            lo <= k1 < k2 < hi && values[(#[trigger] idx[k1]) as int] == values[(
            #[trigger] idx[k2]) as int] ==> idx[k1] < idx[k2],
{
    assert forall|row: usize|
        #![trigger values[row as int]]
        (row as nat) < values.len() && start <= values[row as int] <= stop implies exists|k: int|
        lo <= k < hi && (#[trigger] idx[k]) == row by {
        assert(idx.contains(row));
        let k = choose|k: int| 0 <= k < idx.len() && idx[k] == row;
        assert(lo <= k < hi);
    }
}

/// Strict order on row positions holding string values: by character-wise
/// value order, ties broken by the position itself.
pub open spec fn str_key_lt(values: Seq<String>, a: int, b: int) -> bool {
    chars_lt(values[a]@, values[b]@) || (values[a]@ == values[b]@ && a < b)
}

/// `idx` lists positions of `values` in string order, ties in position order.
pub open spec fn sorted_index_str(values: Seq<String>, idx: Seq<usize>) -> bool {
    forall|i: int, j: int|
        0 <= i < j < idx.len() ==> str_key_lt(values, (#[trigger] idx[i]) as int, (
        #[trigger] idx[j]) as int)
}

proof fn lemma_str_key_lt_total(values: Seq<String>, a: int, b: int)
    requires
        a != b,
    ensures
        str_key_lt(values, a, b) || str_key_lt(values, b, a),
{
    if values[a]@ != values[b]@ {
        lemma_chars_lt_connected(values[a]@, values[b]@);
    }
}

proof fn lemma_str_key_lt_trans(values: Seq<String>, a: int, b: int, c: int)
    requires
        str_key_lt(values, a, b),
        str_key_lt(values, b, c),
    ensures
        str_key_lt(values, a, c),
{
    if chars_lt(values[a]@, values[b]@) && chars_lt(values[b]@, values[c]@) {
        lemma_chars_lt_trans(values[a]@, values[b]@, values[c]@);
    }
}

fn str_key_lt_exec(values: &Vec<String>, a: usize, b: usize) -> (r: bool)
    requires
        a < values@.len(),
        b < values@.len(),
    ensures
        r == str_key_lt(values@, a as int, b as int),
{
    if str_eq(values[a].as_str(), values[b].as_str()) {
        proof {
            lemma_chars_lt_irrefl(values@[a as int]@);
        }
        a < b
    } else {
        str_lt(values[a].as_str(), values[b].as_str())
    }
}

/// Stable insertion sort of the positions in `idx` by their string value.
fn sort_index_str(values: &Vec<String>, idx: &mut Vec<usize>)
    requires
        forall|k: int| 0 <= k < old(idx)@.len() ==> #[trigger] old(idx)@[k] < values@.len(),
        old(idx)@.no_duplicates(),
    ensures
        final(idx)@.to_multiset() == old(idx)@.to_multiset(),
        final(idx)@.len() == old(idx)@.len(),
        forall|k: int| 0 <= k < final(idx)@.len() ==> #[trigger] final(idx)@[k] < values@.len(),
        final(idx)@.no_duplicates(),
        sorted_index_str(values@, final(idx)@),
{
    let n = idx.len();
    if n < 2 {
        return ;
    }
    let mut i: usize = 1;
    while i < n
        invariant
            1 <= i <= n,
            n == idx@.len(),
            idx@.to_multiset() == old(idx)@.to_multiset(),
            forall|k: int| 0 <= k < n ==> #[trigger] idx@[k] < values@.len(),
            idx@.no_duplicates(),
            sorted_index_str(values@, idx@.take(i as int)),
        decreases n - i,
    {
        let x = idx[i];
        let mut p: usize = 0;
        while p < i && str_key_lt_exec(values, idx[p], x)
            invariant
                p <= i,
                i < n,
                n == idx@.len(),
                x == idx@[i as int],
                forall|k: int| 0 <= k < n ==> #[trigger] idx@[k] < values@.len(),
                forall|k: int|
                    0 <= k < p ==> str_key_lt(values@, #[trigger] idx@[k] as int, x as int),
            decreases i - p,
        {
            p += 1;
        }
        let ghost s_old = idx@;
        let y = idx.remove(i);
        idx.insert(p, y);
        proof {
            let s2 = idx@;
            assert(s2 =~= s_old.remove(i as int).insert(p as int, y));
            assert(s_old.to_multiset().contains(y)) by {
                assert(s_old[i as int] == y);
            }
            assert(s2.to_multiset() =~= s_old.to_multiset());
            s_old.lemma_multiset_has_no_duplicates();
            s2.lemma_multiset_has_no_duplicates_conv();
            assert forall|a: int, b: int| 0 <= a < b < i implies str_key_lt(
                values@,
                s_old[a] as int,
                s_old[b] as int,
            ) by {
                assert(s_old.take(i as int)[a] == s_old[a]);
                assert(s_old.take(i as int)[b] == s_old[b]);
            }
            if p < i {
                assert(s_old[p as int] != s_old[i as int]);
                assert(!str_key_lt(values@, s_old[p as int] as int, x as int));
                lemma_str_key_lt_total(values@, s_old[p as int] as int, x as int);
                assert(str_key_lt(values@, x as int, s_old[p as int] as int));
            }
            assert forall|a: int, b: int| 0 <= a < b < i + 1 implies str_key_lt(
                values@,
                s2[a] as int,
                s2[b] as int,
            ) by {
                assert(s2[p as int] == x);
                if a < p {
                    assert(s2[a] == s_old[a]);
                    assert(str_key_lt(values@, s_old[a] as int, x as int));
                }
                if b < p {
                    assert(s2[b] == s_old[b]);
                }
                if a > p {
                    assert(s2[a] == s_old[a - 1]);
                }
                if b > p {
                    assert(s2[b] == s_old[b - 1]);
                    if a == p {
                        assert(str_key_lt(values@, x as int, s_old[p as int] as int));
                        if b - 1 > p {
                            assert(str_key_lt(values@, s_old[p as int] as int, s_old[b - 1] as int));
                            lemma_str_key_lt_trans(
                                values@,
                                x as int,
                                s_old[p as int] as int,
                                s_old[b - 1] as int,
                            );
                        }
                    }
                }
            }
            assert forall|a: int, b: int|
                #![trigger s2.take(i + 1)[a], s2.take(i + 1)[b]]
                0 <= a < b < (i + 1) implies str_key_lt(
                values@,
                s2.take(i + 1)[a] as int,
                s2.take(i + 1)[b] as int,
            ) by {
                assert(s2.take(i + 1)[a] == s2[a]);
                assert(s2.take(i + 1)[b] == s2[b]);
            }
        }
        i += 1;
    }
    proof {
        assert(idx@.take(n as int) =~= idx@);
    }
}

/// Sort every row position of `values` into a stable index, ordered by the
/// string value.
pub fn index_str(values: &Vec<String>) -> (r: Vec<usize>)
    ensures
        is_permutation(values@.len(), r@),
        sorted_index_str(values@, r@),
{
    let mut idx = iota(values.len());
    let ghost init = idx@;
    sort_index_str(values, &mut idx);
    proof {
        assert forall|row: usize| (row as nat) < values@.len() implies #[trigger] idx@.contains(
            row,
        ) by {
            assert(init[row as int] == row);
            assert(init.contains(row));
            assert(idx@.to_multiset().count(row) > 0);
        }
    }
    idx
}

/// Closed-range lookup over a string column: the window `[r.0, r.1)` of
/// `idx` holding exactly the positions whose value `v` satisfies
/// `start <= v <= stop` character-wise; empty when `stop < start`.
pub fn range_str(values: &Vec<String>, idx: &Vec<usize>, start: &str, stop: &str) -> (r: (
    usize,
    usize,
))
    requires
        forall|k: int| 0 <= k < idx@.len() ==> (#[trigger] idx@[k] as nat) < values@.len(),
        sorted_index_str(values@, idx@),
    ensures
        r.0 <= r.1 <= idx@.len(),
        forall|k: int|
            r.0 <= k < r.1 ==> !chars_lt(values@[(#[trigger] idx@[k]) as int]@, start@)
                && !chars_lt(stop@, values@[idx@[k] as int]@),
        forall|k: int| 0 <= k < r.0 ==> chars_lt(values@[(#[trigger] idx@[k]) as int]@, start@),
        forall|k: int|
            r.1 <= k < idx@.len() ==> chars_lt(stop@, values@[(#[trigger] idx@[k]) as int]@),
{
    let n = idx.len();
    let mut lo: usize = 0;
    let mut hi: usize = n;
    while lo < hi
        invariant
            lo <= hi <= n,
            n == idx@.len(),
            forall|k: int| 0 <= k < idx@.len() ==> (#[trigger] idx@[k] as nat) < values@.len(),
            sorted_index_str(values@, idx@),
            forall|k: int| 0 <= k < lo ==> chars_lt(values@[(#[trigger] idx@[k]) as int]@, start@),
            forall|k: int|
                hi <= k < n ==> !chars_lt(values@[(#[trigger] idx@[k]) as int]@, start@),
        decreases hi - lo,
    {
        let mid = lo + (hi - lo) / 2;
        if str_lt(values[idx[mid]].as_str(), start) {
            proof {
                assert forall|k: int| 0 <= k < mid + 1 implies chars_lt(
                    values@[(#[trigger] idx@[k]) as int]@,
                    start@,
                ) by {
                    if k < mid {
                        assert(str_key_lt(values@, idx@[k] as int, idx@[mid as int] as int));
                        if chars_lt(values@[idx@[k] as int]@, values@[idx@[mid as int] as int]@) {
                            lemma_chars_lt_trans(
                                values@[idx@[k] as int]@,
                                values@[idx@[mid as int] as int]@,
                                start@,
                            );
                        }
                    }
                }
            }
            lo = mid + 1;
        } else {
            proof {
                assert forall|k: int| mid <= k < n implies !chars_lt(
                    values@[(#[trigger] idx@[k]) as int]@,
                    start@,
                ) by {
                    if k > mid {
                        assert(str_key_lt(values@, idx@[mid as int] as int, idx@[k] as int));
                        if chars_lt(values@[idx@[k] as int]@, start@) {
                            if chars_lt(values@[idx@[mid as int] as int]@, values@[idx@[k] as int]@) {
                                lemma_chars_lt_trans(
                                    values@[idx@[mid as int] as int]@,
                                    values@[idx@[k] as int]@,
                                    start@,
                                );
                            }
                        }
                    }
                }
            }
            hi = mid;
        }
    }
    let a = lo;
    let mut lo2: usize = a;
    let mut hi2: usize = n;
    while lo2 < hi2
        invariant
            a <= lo2 <= hi2 <= n,
            n == idx@.len(),
            forall|k: int| 0 <= k < idx@.len() ==> (#[trigger] idx@[k] as nat) < values@.len(),
            sorted_index_str(values@, idx@),
            forall|k: int| a <= k < n ==> !chars_lt(values@[(#[trigger] idx@[k]) as int]@, start@),
            forall|k: int|
                a <= k < lo2 ==> !chars_lt(stop@, values@[(#[trigger] idx@[k]) as int]@),
            forall|k: int| hi2 <= k < n ==> chars_lt(stop@, values@[(#[trigger] idx@[k]) as int]@),
        decreases hi2 - lo2,
    {
        let mid = lo2 + (hi2 - lo2) / 2;
        if str_lt(stop, values[idx[mid]].as_str()) {
            proof {
                assert forall|k: int| mid <= k < n implies chars_lt(
                    stop@,
                    values@[(#[trigger] idx@[k]) as int]@,
                ) by {
                    if k > mid {
                        assert(str_key_lt(values@, idx@[mid as int] as int, idx@[k] as int));
                        if chars_lt(values@[idx@[mid as int] as int]@, values@[idx@[k] as int]@) {
                            lemma_chars_lt_trans(
                                stop@,
                                values@[idx@[mid as int] as int]@,
                                values@[idx@[k] as int]@,
                            );
                        }
                    }
                }
            }
            hi2 = mid;
        } else {
            proof {
                assert forall|k: int| a <= k < mid + 1 implies !chars_lt(
                    stop@,
                    values@[(#[trigger] idx@[k]) as int]@,
                ) by {
                    if k < mid {
                        assert(str_key_lt(values@, idx@[k] as int, idx@[mid as int] as int));
                        if chars_lt(stop@, values@[idx@[k] as int]@) {
                            if chars_lt(values@[idx@[k] as int]@, values@[idx@[mid as int] as int]@) {
                                lemma_chars_lt_trans(
                                    stop@,
                                    values@[idx@[k] as int]@,
                                    values@[idx@[mid as int] as int]@,
                                );
                            }
                        }
                    }
                }
            }
            lo2 = mid + 1;
        }
    }
    (a, lo2)
}

/// The rows whose string value lies in `[start, stop]` are exactly those of
/// the window, in stable original-row order among equal values.
pub proof fn lemma_range_exact_str(
    values: Seq<String>,
    idx: Seq<usize>,
    start: Seq<char>,
    stop: Seq<char>,
    lo: int,
    hi: int,
)
    requires
        is_permutation(values.len(), idx),
        sorted_index_str(values, idx),
        0 <= lo <= hi <= idx.len(),
        forall|k: int|
            lo <= k < hi ==> !chars_lt(values[(#[trigger] idx[k]) as int]@, start) && !chars_lt(
                stop,
                values[idx[k] as int]@,
            ),
        forall|k: int| 0 <= k < lo ==> chars_lt(values[(#[trigger] idx[k]) as int]@, start),
        forall|k: int| hi <= k < idx.len() ==> chars_lt(stop, values[(#[trigger] idx[k]) as int]@),
    ensures
        forall|row: usize|
            #![trigger values[row as int]]
            (row as nat) < values.len() && !chars_lt(values[row as int]@, start) && !chars_lt(
                stop,
                values[row as int]@,
            ) ==> exists|k: int| lo <= k < hi && (#[trigger] idx[k]) == row,
        forall|k1: int, k2: int|
            lo <= k1 < k2 < hi && values[(#[trigger] idx[k1]) as int]@ == values[(
            #[trigger] idx[k2]) as int]@ ==> idx[k1] < idx[k2],
{
    assert forall|row: usize|
        #![trigger values[row as int]]
        (row as nat) < values.len() && !chars_lt(values[row as int]@, start) && !chars_lt(
            stop,
            values[row as int]@,
        ) implies exists|k: int| lo <= k < hi && (#[trigger] idx[k]) == row by {
        assert(idx.contains(row));
        let k = choose|k: int| 0 <= k < idx.len() && idx[k] == row;
        assert(lo <= k < hi);
    }
    assert forall|k1: int, k2: int|
        lo <= k1 < k2 < hi && values[(#[trigger] idx[k1]) as int]@ == values[(
        #[trigger] idx[k2]) as int]@ implies idx[k1] < idx[k2] by {
        assert(str_key_lt(values, idx[k1] as int, idx[k2] as int));
        lemma_chars_lt_irrefl(values[idx[k1] as int]@);
    }
}

/// Smallest position of `idx` whose value is at least `key` (`usize` values).
fn lower_bound_usize(values: &Vec<usize>, idx: &Vec<usize>, key: usize) -> (lo: usize)
    requires
        forall|k: int| 0 <= k < idx@.len() ==> (#[trigger] idx@[k] as nat) < values@.len(),
        sorted_index_usize(values@, idx@),
    ensures
        lo <= idx@.len(),
        forall|k: int| 0 <= k < lo ==> values@[(#[trigger] idx@[k]) as int] < key,
        forall|k: int| lo <= k < idx@.len() ==> values@[(#[trigger] idx@[k]) as int] >= key,
{
    let mut lo: usize = 0;
    let mut hi: usize = idx.len();
    while lo < hi
        invariant
            lo <= hi <= idx@.len(),
            forall|k: int| 0 <= k < idx@.len() ==> (#[trigger] idx@[k] as nat) < values@.len(),
            sorted_index_usize(values@, idx@),
            forall|k: int| 0 <= k < lo ==> values@[(#[trigger] idx@[k]) as int] < key,
            forall|k: int| hi <= k < idx@.len() ==> values@[(#[trigger] idx@[k]) as int] >= key,
        decreases hi - lo,
    {
        let mid = lo + (hi - lo) / 2;
        if values[idx[mid]] < key {
            proof {
                assert forall|k: int| 0 <= k < mid + 1 implies values@[(#[trigger] idx@[k]) as int]
                    < key by {
                    if k < mid {
                        assert(values@[idx@[k] as int] < values@[idx@[mid as int] as int] || (
                        values@[idx@[k] as int] == values@[idx@[mid as int] as int]));
                    }
                }
            }
            lo = mid + 1;
        } else {
            hi = mid;
        }
    }
    lo
}

/// Keyed lookup: the window `[r.0, r.1)` of `idx` holding exactly the
/// positions whose stored value equals `key`.
pub fn reverse_range_at(values: &Vec<usize>, idx: &Vec<usize>, key: usize) -> (r: (usize, usize))
    requires
        forall|k: int| 0 <= k < idx@.len() ==> (#[trigger] idx@[k] as nat) < values@.len(),
        sorted_index_usize(values@, idx@),
    ensures
        r.0 <= r.1 <= idx@.len(),
        forall|k: int| r.0 <= k < r.1 ==> values@[(#[trigger] idx@[k]) as int] == key,
        forall|k: int| 0 <= k < r.0 ==> values@[(#[trigger] idx@[k]) as int] < key,
        forall|k: int| r.1 <= k < idx@.len() ==> values@[(#[trigger] idx@[k]) as int] > key,
{
    let lo = lower_bound_usize(values, idx, key);
    let mut hi: usize = lo;
    let n = idx.len();
    while hi < n && values[idx[hi]] == key
        invariant
            lo <= hi <= n,
            n == idx@.len(),
            forall|k: int| 0 <= k < idx@.len() ==> (#[trigger] idx@[k] as nat) < values@.len(),
            sorted_index_usize(values@, idx@),
            forall|k: int| 0 <= k < lo ==> values@[(#[trigger] idx@[k]) as int] < key,
            forall|k: int| lo <= k < idx@.len() ==> values@[(#[trigger] idx@[k]) as int] >= key,
            forall|k: int| lo <= k < hi ==> values@[(#[trigger] idx@[k]) as int] == key,
        decreases n - hi,
    {
        hi += 1;
    }
    proof {
        assert forall|k: int| hi <= k < idx@.len() implies values@[(#[trigger] idx@[k]) as int]
            > key by {
            if hi < idx@.len() && k > hi {
                assert(values@[idx@[hi as int] as int] < values@[idx@[k] as int] || (values@[idx@[
                hi as int] as int] == values@[idx@[k] as int]));
            }
        }
    }
    (lo, hi)
}

/// Reverse-join lookup: the window `[r.0, r.1)` of `idx` holding exactly the
/// source rows whose stored value equals `row + 1`, the encoding of a link to
/// destination row `row` in a join column; for a variant column the consulted
/// key is `row` plus the destination's lane base instead.
pub fn reverse_range(values: &Vec<usize>, idx: &Vec<usize>, row: usize) -> (r: (usize, usize))
    requires
        forall|k: int| 0 <= k < idx@.len() ==> (#[trigger] idx@[k] as nat) < values@.len(),
        sorted_index_usize(values@, idx@),
        row < usize::MAX,
    ensures
        r.0 <= r.1 <= idx@.len(),
        forall|k: int| r.0 <= k < r.1 ==> values@[(#[trigger] idx@[k]) as int] == row + 1,
        forall|k: int| 0 <= k < r.0 ==> values@[(#[trigger] idx@[k]) as int] < row + 1,
        forall|k: int| r.1 <= k < idx@.len() ==> values@[(#[trigger] idx@[k]) as int] > row + 1,
{
    reverse_range_at(values, idx, row + 1)
}

/// The reverse accessor for destination row `row` returns exactly the source
/// rows whose stored value references it, in ascending source-row order.
pub proof fn lemma_reverse_exact(values: Seq<usize>, idx: Seq<usize>, row: usize, lo: int, hi: int)
    requires
        forall|k: int| 0 <= k < idx.len() ==> (#[trigger] idx[k] as nat) < values.len(),
        idx.no_duplicates(),
        forall|src: usize|
            (src as nat) < values.len() && values[src as int] == row + 1 ==> #[trigger] idx.contains(
                src,
            ),
        sorted_index_usize(values, idx),
        row < usize::MAX,
        0 <= lo <= hi <= idx.len(),
        forall|k: int| lo <= k < hi ==> values[(#[trigger] idx[k]) as int] == row + 1,
        forall|k: int| 0 <= k < lo ==> values[(#[trigger] idx[k]) as int] < row + 1,
        forall|k: int| hi <= k < idx.len() ==> values[(#[trigger] idx[k]) as int] > row + 1,
    ensures
        forall|src: usize|
            #![trigger values[src as int]]
            (src as nat) < values.len() && values[src as int] == row + 1 ==> exists|k: int|
                lo <= k < hi && (#[trigger] idx[k]) == src,
        forall|k1: int, k2: int| lo <= k1 < k2 < hi ==> idx[k1] < idx[k2],
{
    assert forall|src: usize|
        #![trigger values[src as int]]
        (src as nat) < values.len() && values[src as int] == row + 1 implies exists|k: int|
        lo <= k < hi && (#[trigger] idx[k]) == src by {
        assert(idx.contains(src));
        let k = choose|k: int| 0 <= k < idx.len() && idx[k] == src;
        assert(lo <= k < hi);
    }
}

} // verus!
