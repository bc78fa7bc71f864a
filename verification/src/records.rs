//! The order of records in a dictionary: ascending by the bytes of their
//! keys, each key once, with the record that came first for it.

use crate::bytes::{
    bytes_before, bytes_lt, lemma_bytes_lt_irreflexive, lemma_bytes_lt_total,
    lemma_bytes_lt_transitive,
};
use crate::mdict::pairs_view;
use vstd::prelude::*;
use vstd::utf8::{encode_utf8, encode_utf8_decode_utf8};

verus! {

/// Records of key and meaning, as plain values.
pub type Records = Seq<(Seq<char>, Seq<char>)>;

/// Whether the key of record `i` comes strictly before that of record `j`.
pub open spec fn key_lt(records: Records, i: int, j: int) -> bool {
    bytes_lt(encode_utf8(records[i].0), encode_utf8(records[j].0))
}

/// Whether no record from `lo` up to `i` has the key of record `i`.
pub open spec fn is_first(records: Records, lo: int, i: int) -> bool {
    forall|j: int| lo <= j < i ==> records[j].0 != #[trigger] records[i].0
}

/// Whether `output` has a record with the key `key`.
pub open spec fn has_key(output: Records, key: Seq<char>) -> bool {
    exists|k: int| 0 <= k < output.len() && output[k].0 == key
}

/// Whether `record` is a record of `input`, and the first with its key.
pub open spec fn is_first_of(input: Records, record: (Seq<char>, Seq<char>)) -> bool {
    exists|i: int| 0 <= i < input.len() && input[i] == record && is_first(input, 0, i)
}

/// Whether `output` holds the records of `input` in ascending order of their
/// keys' bytes, each key once, and for each key the first record of `input`
/// that has it.
pub open spec fn sorted_first_wins(input: Records, output: Records) -> bool {
    &&& forall|k: int, l: int| 0 <= k < l < output.len() ==> #[trigger] key_lt(output, k, l)
    &&& forall|k: int| 0 <= k < output.len() ==> is_first_of(input, #[trigger] output[k])
    &&& forall|i: int| 0 <= i < input.len() ==> has_key(output, #[trigger] input[i].0)
}

/// Whether one of the positions `idx` has a record with the key `key`.
pub open spec fn covers(records: Records, idx: Seq<usize>, key: Seq<char>) -> bool {
    exists|k: int| 0 <= k < idx.len() && records[idx[k] as int].0 == key
}

/// Whether `idx` lists, in ascending order of their keys, the positions of
/// the records from `lo` up to `hi` that are the first with their key there,
/// one for each key.
pub open spec fn sorted_firsts(records: Records, lo: int, hi: int, idx: Seq<usize>) -> bool {
    &&& forall|k: int|
        0 <= k < idx.len() ==> lo <= #[trigger] idx[k] < hi && is_first(records, lo, idx[k] as int)
    &&& forall|k: int, l: int|
        0 <= k < l < idx.len() ==> #[trigger] key_lt(records, idx[k] as int, idx[l] as int)
    &&& forall|j: int| lo <= j < hi ==> covers(records, idx, #[trigger] records[j].0)
}

/// How the keys of two records stand to each other.
#[derive(Clone, Copy, Debug, PartialEq, Eq, Structural)]
pub enum KeyOrder {
    /// The first key comes before the second.
    Before,
    /// The keys are equal.
    Same,
    /// The first key comes after the second.
    After,
}

/// Compares the keys of the records `i` and `j` by their bytes.
pub fn key_order(records: &Vec<(String, String)>, i: usize, j: usize) -> (order: KeyOrder)
    requires
        i < records@.len(),
        j < records@.len(),
    ensures
        order == KeyOrder::Before <==> key_lt(pairs_view(records@), i as int, j as int),
        order == KeyOrder::After <==> key_lt(pairs_view(records@), j as int, i as int),
        order == KeyOrder::Same <==> pairs_view(records@)[i as int].0 == pairs_view(
            records@,
        )[j as int].0,
{
    let a = records[i].0.as_str().as_bytes();
    let b = records[j].0.as_str().as_bytes();
    proof {
        lemma_bytes_lt_total(a@, b@);
        lemma_bytes_lt_irreflexive(a@);
        encode_utf8_decode_utf8(records@[i as int].0@);
        encode_utf8_decode_utf8(records@[j as int].0@);
    }
    if bytes_before(a, b) {
        KeyOrder::Before
    } else if bytes_before(b, a) {
        KeyOrder::After
    } else {
        KeyOrder::Same
    }
}

/// A key never comes before itself, and the order of keys is transitive.
pub proof fn lemma_key_lt_order(records: Records, i: int, j: int, k: int)
    ensures
        records[i].0 == records[j].0 ==> !key_lt(records, i, j),
        key_lt(records, i, j) && key_lt(records, j, k) ==> key_lt(records, i, k),
        key_lt(records, i, j) && records[j].0 == records[k].0 ==> key_lt(records, i, k),
        records[i].0 == records[j].0 && key_lt(records, j, k) ==> key_lt(records, i, k),
{
    lemma_bytes_lt_irreflexive(encode_utf8(records[i].0));
    if key_lt(records, i, j) && key_lt(records, j, k) {
        lemma_bytes_lt_transitive(
            encode_utf8(records[i].0),
            encode_utf8(records[j].0),
            encode_utf8(records[k].0),
        );
    }
}

/// What holds while two sorted ranges are merged: `out` is sorted and holds
/// first positions only, its keys come before all keys that are still to be
/// merged, and it covers the keys that were taken from `left` and `right`.
pub open spec fn merging(
    recs: Records,
    lo: int,
    hi: int,
    left: Seq<usize>,
    right: Seq<usize>,
    a: int,
    b: int,
    out: Seq<usize>,
) -> bool {
    &&& 0 <= a <= left.len()
    &&& 0 <= b <= right.len()
    &&& forall|m: int|
        0 <= m < out.len() ==> lo <= #[trigger] out[m] < hi && is_first(recs, lo, out[m] as int)
    &&& forall|m: int, n: int|
        0 <= m < n < out.len() ==> #[trigger] key_lt(recs, out[m] as int, out[n] as int)
    &&& forall|m: int, k: int|
        0 <= m < out.len() && a <= k < left.len() ==> #[trigger] key_lt(
            recs,
            out[m] as int,
            left[k] as int,
        )
    &&& forall|m: int, k: int|
        0 <= m < out.len() && b <= k < right.len() ==> #[trigger] key_lt(
            recs,
            out[m] as int,
            right[k] as int,
        )
    &&& forall|k: int| 0 <= k < a ==> covers(recs, out, recs[#[trigger] left[k] as int].0)
    &&& forall|k: int| 0 <= k < b ==> covers(recs, out, recs[#[trigger] right[k] as int].0)
}

/// The position that a merge takes next: from the left unless the right
/// key comes first.
pub open spec fn merge_pick(left: Seq<usize>, right: Seq<usize>, a: int, b: int, order: KeyOrder) -> usize {
    if order == KeyOrder::After {
        right[b]
    } else {
        left[a]
    }
}

/// Whether `order` tells how the next keys of the two ranges stand; where
/// one range is used up, the other one's key counts as the earlier.
pub open spec fn order_of_next(
    recs: Records,
    left: Seq<usize>,
    right: Seq<usize>,
    a: int,
    b: int,
    order: KeyOrder,
) -> bool {
    if a >= left.len() {
        order == KeyOrder::After
    } else if b >= right.len() {
        order == KeyOrder::Before
    } else {
        &&& order == KeyOrder::Before <==> key_lt(recs, left[a] as int, right[b] as int)
        &&& order == KeyOrder::After <==> key_lt(recs, right[b] as int, left[a] as int)
        &&& order == KeyOrder::Same <==> recs[left[a] as int].0 == recs[right[b] as int].0
    }
}

/// The position that a merge takes next is a first position of the whole
/// range.
proof fn lemma_pick_is_first(
    recs: Records,
    lo: int,
    mid: int,
    hi: int,
    left: Seq<usize>,
    right: Seq<usize>,
    a: int,
    b: int,
    out: Seq<usize>,
    order: KeyOrder,
)
    requires
        0 <= lo <= mid <= hi <= recs.len(),
        sorted_firsts(recs, lo, mid, left),
        sorted_firsts(recs, mid, hi, right),
        merging(recs, lo, hi, left, right, a, b, out),
        a < left.len() || b < right.len(),
        order_of_next(recs, left, right, a, b, order),
    ensures
        lo <= merge_pick(left, right, a, b, order) < hi,
        is_first(recs, lo, merge_pick(left, right, a, b, order) as int),
{
    let x = merge_pick(left, right, a, b, order);
    if order == KeyOrder::After {
        assert(mid <= right[b] < hi);
        assert forall|j: int| lo <= j < x implies recs[j].0 != #[trigger] recs[x as int].0 by {
            if j < mid {
                assert(covers(recs, left, recs[j].0));
                let k = choose|k: int| 0 <= k < left.len() && recs[left[k] as int].0 == recs[j].0;
                if k < a {
                    assert(covers(recs, out, recs[left[k] as int].0));
                    let m = choose|m: int|
                        0 <= m < out.len() && recs[out[m] as int].0 == recs[left[k] as int].0;
                    assert(key_lt(recs, out[m] as int, right[b] as int));
                    lemma_key_lt_order(recs, out[m] as int, x as int, x as int);
                } else {
                    assert(key_lt(recs, x as int, left[a] as int));
                    if k > a {
                        assert(key_lt(recs, left[a] as int, left[k] as int));
                        lemma_key_lt_order(recs, x as int, left[a] as int, left[k] as int);
                    }
                    lemma_key_lt_order(recs, left[k] as int, x as int, x as int);
                    lemma_key_lt_order(recs, x as int, left[k] as int, left[k] as int);
                }
            } else {
                assert(is_first(recs, mid, x as int));
            }
        }
    } else {
        assert(lo <= left[a] < mid);
        assert(is_first(recs, lo, x as int));
    }
}

/// After the merge has taken its next position, the keys of `out` still
/// come before all keys that are to be merged.
proof fn lemma_pick_keeps_order(
    recs: Records,
    lo: int,
    mid: int,
    hi: int,
    left: Seq<usize>,
    right: Seq<usize>,
    a: int,
    b: int,
    out: Seq<usize>,
    order: KeyOrder,
)
    requires
        0 <= lo <= mid <= hi <= recs.len(),
        sorted_firsts(recs, lo, mid, left),
        sorted_firsts(recs, mid, hi, right),
        merging(recs, lo, hi, left, right, a, b, out),
        a < left.len() || b < right.len(),
        order_of_next(recs, left, right, a, b, order),
    ensures
        ({
            let x = merge_pick(left, right, a, b, order);
            let a2 = if order == KeyOrder::After { a } else { a + 1 };
            let b2 = if order == KeyOrder::Before { b } else { b + 1 };
            &&& forall|m: int| 0 <= m < out.len() ==> #[trigger] key_lt(recs, out[m] as int, x as int)
            &&& forall|k: int| a2 <= k < left.len() ==> #[trigger] key_lt(recs, x as int, left[k] as int)
            &&& forall|k: int| b2 <= k < right.len() ==> #[trigger] key_lt(recs, x as int, right[k] as int)
        }),
{
    let x = merge_pick(left, right, a, b, order);
    let a2 = if order == KeyOrder::After { a } else { a + 1 };
    let b2 = if order == KeyOrder::Before { b } else { b + 1 };
    assert forall|m: int| 0 <= m < out.len() implies #[trigger] key_lt(recs, out[m] as int, x as int) by {
        if order == KeyOrder::After {
            assert(key_lt(recs, out[m] as int, right[b] as int));
        } else {
            assert(key_lt(recs, out[m] as int, left[a] as int));
        }
    }
    assert forall|k: int| a2 <= k < left.len() implies #[trigger] key_lt(recs, x as int, left[k] as int) by {
        if order == KeyOrder::After {
            assert(key_lt(recs, x as int, left[a] as int));
            if k > a {
                assert(key_lt(recs, left[a] as int, left[k] as int));
                lemma_key_lt_order(recs, x as int, left[a] as int, left[k] as int);
            }
        } else {
            assert(key_lt(recs, left[a] as int, left[k] as int));
        }
    }
    assert forall|k: int| b2 <= k < right.len() implies #[trigger] key_lt(recs, x as int, right[k] as int) by {
        if order == KeyOrder::After {
            assert(key_lt(recs, right[b] as int, right[k] as int));
        } else if order == KeyOrder::Same {
            assert(key_lt(recs, right[b] as int, right[k] as int));
            lemma_key_lt_order(recs, x as int, right[b] as int, right[k] as int);
        } else {
            assert(key_lt(recs, x as int, right[b] as int));
            if k > b {
                assert(key_lt(recs, right[b] as int, right[k] as int));
                lemma_key_lt_order(recs, x as int, right[b] as int, right[k] as int);
            }
        }
    }
}

/// A step of the merge keeps what holds while merging.
proof fn lemma_merge_step(
    recs: Records,
    lo: int,
    mid: int,
    hi: int,
    left: Seq<usize>,
    right: Seq<usize>,
    a: int,
    b: int,
    out: Seq<usize>,
    order: KeyOrder,
)
    requires
        0 <= lo <= mid <= hi <= recs.len(),
        sorted_firsts(recs, lo, mid, left),
        sorted_firsts(recs, mid, hi, right),
        merging(recs, lo, hi, left, right, a, b, out),
        a < left.len() || b < right.len(),
        order_of_next(recs, left, right, a, b, order),
    ensures
        merging(
            recs,
            lo,
            hi,
            left,
            right,
            if order == KeyOrder::After { a } else { a + 1 },
            if order == KeyOrder::Before { b } else { b + 1 },
            out.push(merge_pick(left, right, a, b, order)),
        ),
{
    let x = merge_pick(left, right, a, b, order);
    let a2 = if order == KeyOrder::After { a } else { a + 1 };
    let b2 = if order == KeyOrder::Before { b } else { b + 1 };
    let next = out.push(x);
    let last = out.len() as int;
    lemma_pick_is_first(recs, lo, mid, hi, left, right, a, b, out, order);
    lemma_pick_keeps_order(recs, lo, mid, hi, left, right, a, b, out, order);
    assert forall|m: int| 0 <= m < next.len() implies lo <= #[trigger] next[m] < hi && is_first(
        recs,
        lo,
        next[m] as int,
    ) by {
        if m < last {
            assert(next[m] == out[m]);
        }
    }
    assert forall|m: int, n: int| 0 <= m < n < next.len() implies #[trigger] key_lt(
        recs,
        next[m] as int,
        next[n] as int,
    ) by {
        assert(next[m] == out[m]);
        if n < last {
            assert(next[n] == out[n]);
            assert(key_lt(recs, out[m] as int, out[n] as int));
        } else {
            assert(key_lt(recs, out[m] as int, x as int));
        }
    }
    assert forall|m: int, k: int| 0 <= m < next.len() && a2 <= k < left.len() implies #[trigger] key_lt(
        recs,
        next[m] as int,
        left[k] as int,
    ) by {
        if m < last {
            assert(next[m] == out[m]);
            assert(key_lt(recs, out[m] as int, left[k] as int));
        } else {
            assert(key_lt(recs, x as int, left[k] as int));
        }
    }
    assert forall|m: int, k: int| 0 <= m < next.len() && b2 <= k < right.len() implies #[trigger] key_lt(
        recs,
        next[m] as int,
        right[k] as int,
    ) by {
        if m < last {
            assert(next[m] == out[m]);
            assert(key_lt(recs, out[m] as int, right[k] as int));
        } else {
            assert(key_lt(recs, x as int, right[k] as int));
        }
    }
    assert forall|k: int| 0 <= k < a2 implies covers(recs, next, recs[#[trigger] left[k] as int].0) by {
        if k < a {
            assert(covers(recs, out, recs[left[k] as int].0));
            let m = choose|m: int|
                0 <= m < out.len() && recs[out[m] as int].0 == recs[left[k] as int].0;
            assert(next[m] == out[m]);
        } else {
            assert(next[last] == x);
            assert(recs[next[last] as int].0 == recs[left[k] as int].0);
        }
    }
    assert forall|k: int| 0 <= k < b2 implies covers(recs, next, recs[#[trigger] right[k] as int].0) by {
        if k < b {
            assert(covers(recs, out, recs[right[k] as int].0));
            let m = choose|m: int|
                0 <= m < out.len() && recs[out[m] as int].0 == recs[right[k] as int].0;
            assert(next[m] == out[m]);
        } else {
            assert(next[last] == x);
            assert(recs[next[last] as int].0 == recs[right[k] as int].0);
        }
    }
}

/// Once both ranges are used up, `out` is the sorted list of the whole
/// range.
proof fn lemma_merge_done(
    recs: Records,
    lo: int,
    mid: int,
    hi: int,
    left: Seq<usize>,
    right: Seq<usize>,
    out: Seq<usize>,
)
    requires
        0 <= lo <= mid <= hi <= recs.len(),
        sorted_firsts(recs, lo, mid, left),
        sorted_firsts(recs, mid, hi, right),
        merging(recs, lo, hi, left, right, left.len() as int, right.len() as int, out),
    ensures
        sorted_firsts(recs, lo, hi, out),
{
    assert forall|j: int| lo <= j < hi implies covers(recs, out, #[trigger] recs[j].0) by {
        if j < mid {
            assert(covers(recs, left, recs[j].0));
            let k = choose|k: int| 0 <= k < left.len() && recs[left[k] as int].0 == recs[j].0;
            assert(covers(recs, out, recs[left[k] as int].0));
        } else {
            assert(covers(recs, right, recs[j].0));
            let k = choose|k: int| 0 <= k < right.len() && recs[right[k] as int].0 == recs[j].0;
            assert(covers(recs, out, recs[right[k] as int].0));
        }
    }
}

/// Merges the sorted positions of two neighbouring ranges of records. Where
/// a key stands in both ranges, its position in the left range is kept.
fn merge(
    records: &Vec<(String, String)>,
    lo: usize,
    mid: usize,
    hi: usize,
    left: &Vec<usize>,
    right: &Vec<usize>,
) -> (out: Vec<usize>)
    requires
        lo <= mid <= hi <= records@.len(),
        sorted_firsts(pairs_view(records@), lo as int, mid as int, left@),
        sorted_firsts(pairs_view(records@), mid as int, hi as int, right@),
    ensures
        sorted_firsts(pairs_view(records@), lo as int, hi as int, out@),
{
    let ghost recs = pairs_view(records@);
    let mut out: Vec<usize> = Vec::new();
    let mut a: usize = 0;
    let mut b: usize = 0;
    while a < left.len() || b < right.len()
        invariant
            recs == pairs_view(records@),
            lo <= mid <= hi <= records@.len(),
            sorted_firsts(recs, lo as int, mid as int, left@),
            sorted_firsts(recs, mid as int, hi as int, right@),
            merging(recs, lo as int, hi as int, left@, right@, a as int, b as int, out@),
        decreases left@.len() - a + right@.len() - b,
    {
        let order: KeyOrder = if a == left.len() {
            KeyOrder::After
        } else if b == right.len() {
            KeyOrder::Before
        } else {
            key_order(records, left[a], right[b])
        };
        proof {
            lemma_merge_step(
                recs,
                lo as int,
                mid as int,
                hi as int,
                left@,
                right@,
                a as int,
                b as int,
                out@,
                order,
            );
        }
        match order {
            KeyOrder::Before => {
                out.push(left[a]);
                a = a + 1;
            },
            KeyOrder::Same => {
                out.push(left[a]);
                a = a + 1;
                b = b + 1;
            },
            KeyOrder::After => {
                out.push(right[b]);
                b = b + 1;
            },
        }
    }
    proof {
        lemma_merge_done(recs, lo as int, mid as int, hi as int, left@, right@, out@);
    }
    out
}

/// Sorts the positions of the records from `lo` up to `hi` by their keys and
/// keeps, for each key, the first position that has it.
fn sort_range(records: &Vec<(String, String)>, lo: usize, hi: usize) -> (idx: Vec<usize>)
    requires
        lo <= hi <= records@.len(),
    ensures
        sorted_firsts(pairs_view(records@), lo as int, hi as int, idx@),
    decreases hi - lo,
{
    if hi - lo == 0 {
        Vec::new()
    } else if hi - lo == 1 {
        let mut idx: Vec<usize> = Vec::new();
        idx.push(lo);
        proof {
            assert(idx@[0] == lo);
            assert(covers(pairs_view(records@), idx@, pairs_view(records@)[lo as int].0));
        }
        idx
    } else {
        let mid: usize = lo + (hi - lo) / 2;
        let left = sort_range(records, lo, mid);
        let right = sort_range(records, mid, hi);
        merge(records, lo, mid, hi, &left, &right)
    }
}

/// Sorts records in ascending order of their keys' bytes and keeps one
/// record for each key: the one that came first in `records`.
pub fn sort_records(records: &Vec<(String, String)>) -> (sorted: Vec<(String, String)>)
    ensures
        sorted_first_wins(pairs_view(records@), pairs_view(sorted@)),
        pairs_view(sorted@) == sorted_form(pairs_view(records@)),
{
    let idx: Vec<usize> = sort_range(records, 0, records.len());
    let ghost input = pairs_view(records@);
    let mut sorted: Vec<(String, String)> = Vec::new();
    let mut k: usize = 0;
    while k < idx.len()
        invariant
            k <= idx@.len(),
            input == pairs_view(records@),
            sorted_firsts(input, 0, records@.len() as int, idx@),
            sorted@.len() == k,
            forall|m: int| 0 <= m < k ==> #[trigger] pairs_view(sorted@)[m] == input[idx@[m] as int],
        decreases idx@.len() - k,
    {
        let i: usize = idx[k];
        let ghost before = pairs_view(sorted@);
        sorted.push((records[i].0.clone(), records[i].1.clone()));
        proof {
            assert forall|m: int| 0 <= m < k + 1 implies #[trigger] pairs_view(sorted@)[m]
                == input[idx@[m] as int] by {
                if m < k {
                    assert(pairs_view(sorted@)[m] == before[m]);
                }
            }
        }
        k = k + 1;
    }
    proof {
        lemma_sorted_positions(input, idx@, pairs_view(sorted@));
        lemma_sorted_form(input, pairs_view(sorted@));
    }
    sorted
}

/// The records at sorted first positions are the sorted records.
proof fn lemma_sorted_positions(input: Records, idx: Seq<usize>, output: Records)
    requires
        sorted_firsts(input, 0, input.len() as int, idx),
        output.len() == idx.len(),
        forall|m: int| 0 <= m < idx.len() ==> #[trigger] output[m] == input[idx[m] as int],
    ensures
        sorted_first_wins(input, output),
{
    assert forall|m: int, n: int| 0 <= m < n < output.len() implies #[trigger] key_lt(output, m, n) by {
        assert(key_lt(input, idx[m] as int, idx[n] as int));
    }
    assert forall|m: int| 0 <= m < output.len() implies is_first_of(input, #[trigger] output[m]) by {
        let i = idx[m] as int;
        assert(0 <= i < input.len() && input[i] == output[m] && is_first(input, 0, i));
    }
    assert forall|i: int| 0 <= i < input.len() implies has_key(output, #[trigger] input[i].0) by {
        assert(covers(input, idx, input[i].0));
        let m = choose|m: int| 0 <= m < idx.len() && input[idx[m] as int].0 == input[i].0;
        assert(output[m].0 == input[i].0);
    }
}

/// Of two records that are the first with their key, and have one key,
/// there is only one.
pub proof fn lemma_first_record_is_unique(
    input: Records,
    a: (Seq<char>, Seq<char>),
    b: (Seq<char>, Seq<char>),
)
    requires
        is_first_of(input, a),
        is_first_of(input, b),
        a.0 == b.0,
    ensures
        a == b,
{
    let i = choose|i: int| 0 <= i < input.len() && input[i] == a && is_first(input, 0, i);
    let j = choose|j: int| 0 <= j < input.len() && input[j] == b && is_first(input, 0, j);
    if i < j {
        assert(input[i].0 != input[j].0);
    } else if j < i {
        assert(input[j].0 != input[i].0);
    }
}

/// Two sorted forms of one source have the same keys at the same places, as
/// far as both reach.
proof fn lemma_sorted_keys_agree(input: Records, first: Records, second: Records, k: int)
    requires
        sorted_first_wins(input, first),
        sorted_first_wins(input, second),
        0 <= k < first.len(),
        k < second.len(),
    ensures
        first[k].0 == second[k].0,
    decreases k,
{
    assert forall|j: int| 0 <= j < k implies first[j].0 == second[j].0 by {
        lemma_sorted_keys_agree(input, first, second, j);
    }
    lemma_bytes_lt_total(encode_utf8(first[k].0), encode_utf8(second[k].0));
    lemma_misplaced_key(input, first, second, k);
    lemma_misplaced_key(input, second, first, k);
    if !bytes_lt(encode_utf8(first[k].0), encode_utf8(second[k].0)) && !bytes_lt(
        encode_utf8(second[k].0),
        encode_utf8(first[k].0),
    ) {
        encode_utf8_decode_utf8(first[k].0);
        encode_utf8_decode_utf8(second[k].0);
    }
}

/// Where two sorted forms of one source agree on the keys before place `k`,
/// the key of the one at `k` does not come before that of the other.
proof fn lemma_misplaced_key(input: Records, first: Records, second: Records, k: int)
    requires
        sorted_first_wins(input, first),
        sorted_first_wins(input, second),
        0 <= k < first.len(),
        k < second.len(),
        forall|j: int| 0 <= j < k ==> first[j].0 == second[j].0,
    ensures
        !bytes_lt(encode_utf8(first[k].0), encode_utf8(second[k].0)),
{
    // The key of `first[k]` is a key of the source, so `second` has it.
    assert(is_first_of(input, first[k]));
    let i = choose|i: int| 0 <= i < input.len() && input[i] == first[k] && is_first(input, 0, i);
    assert(has_key(second, input[i].0));
    let m = choose|m: int| 0 <= m < second.len() && second[m].0 == first[k].0;
    lemma_bytes_lt_irreflexive(encode_utf8(first[k].0));
    if bytes_lt(encode_utf8(first[k].0), encode_utf8(second[k].0)) {
        if m < k {
            assert(first[m].0 == second[m].0);
            assert(key_lt(first, m, k));
        } else if m > k {
            assert(key_lt(second, k, m));
            lemma_bytes_lt_transitive(
                encode_utf8(first[k].0),
                encode_utf8(second[k].0),
                encode_utf8(second[m].0),
            );
        }
    }
}

/// A source has one sorted form only.
pub proof fn lemma_sorted_is_unique(input: Records, first: Records, second: Records)
    requires
        sorted_first_wins(input, first),
        sorted_first_wins(input, second),
    ensures
        first == second,
{
    lemma_no_further_key(input, first, second);
    lemma_no_further_key(input, second, first);
    assert forall|k: int| 0 <= k < first.len() implies first[k] == second[k] by {
        lemma_sorted_keys_agree(input, first, second, k);
        assert(is_first_of(input, first[k]));
        assert(is_first_of(input, second[k]));
        lemma_first_record_is_unique(input, first[k], second[k]);
    }
    assert(first =~= second);
}

/// Of two sorted forms of one source, none is longer than the other.
proof fn lemma_no_further_key(input: Records, shorter: Records, longer: Records)
    requires
        sorted_first_wins(input, shorter),
        sorted_first_wins(input, longer),
    ensures
        longer.len() <= shorter.len(),
{
    if shorter.len() < longer.len() {
        let k = shorter.len() as int;
        assert(is_first_of(input, longer[k]));
        let i = choose|i: int|
            0 <= i < input.len() && input[i] == longer[k] && is_first(input, 0, i);
        assert(has_key(shorter, input[i].0));
        let m = choose|m: int| 0 <= m < shorter.len() && shorter[m].0 == longer[k].0;
        lemma_sorted_keys_agree(input, shorter, longer, m);
        assert(key_lt(longer, m, k));
        lemma_bytes_lt_irreflexive(encode_utf8(longer[k].0));
    }
}

/// The sorted form of a source: its records in ascending order of their
/// keys' bytes, each key once, with the first record that has it.
pub open spec fn sorted_form(input: Records) -> Records {
    choose|sorted: Records| sorted_first_wins(input, sorted)
}

/// What `sort_records` returns is the sorted form of its source.
pub proof fn lemma_sorted_form(input: Records, sorted: Records)
    requires
        sorted_first_wins(input, sorted),
    ensures
        sorted == sorted_form(input),
        sorted_first_wins(input, sorted_form(input)),
{
    lemma_sorted_is_unique(input, sorted, sorted_form(input));
}

} // verus!
