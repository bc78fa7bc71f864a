//! Records in the order of their keys with every record kept: records of
//! one key stay in the order in which they came.

use crate::bytes::{bytes_lt, lemma_bytes_lt_total, lemma_bytes_lt_transitive};
use crate::mdict::pairs_view;
use crate::records::{key_order, KeyOrder, Records};
use vstd::prelude::*;
use vstd::utf8::encode_utf8;

verus! {

/// Whether the key of `r` comes strictly before that of `s`, by its bytes.
pub open spec fn comes_before(r: (Seq<char>, Seq<char>), s: (Seq<char>, Seq<char>)) -> bool {
    bytes_lt(encode_utf8(r.0), encode_utf8(s.0))
}

/// `sorted` with `record` put behind the records whose keys do not come
/// after its key.
pub open spec fn inserted(sorted: Records, record: (Seq<char>, Seq<char>)) -> Records
    decreases sorted.len(),
{
    if sorted.len() > 0 && comes_before(record, sorted.last()) {
        inserted(sorted.drop_last(), record).push(sorted.last())
    } else {
        sorted.push(record)
    }
}

/// The records of `input` in ascending order of their keys' bytes, records
/// of one key in the order in which `input` has them: each record in turn
/// is put behind those that do not come after it.
pub open spec fn stable_form(input: Records) -> Records
    decreases input.len(),
{
    if input.len() == 0 {
        input
    } else {
        inserted(stable_form(input.drop_last()), input.last())
    }
}

/// The records of `left` and `right` in one sequence, each side in its own
/// order; of two records, the one of `right` goes first only where its key
/// comes strictly before.
pub open spec fn merged(left: Records, right: Records) -> Records
    decreases left.len() + right.len(),
{
    if right.len() == 0 {
        left
    } else if left.len() == 0 {
        right
    } else if comes_before(right.last(), left.last()) {
        merged(left.drop_last(), right).push(left.last())
    } else {
        merged(left, right.drop_last()).push(right.last())
    }
}

/// The records at the positions `idx` of `records`.
pub open spec fn picked(records: Records, idx: Seq<usize>) -> Records {
    Seq::new(idx.len(), |k: int| records[idx[k] as int])
}

/// Whether `records` stand in ascending order of their keys' bytes, equal
/// keys allowed.
pub open spec fn ascending(records: Records) -> bool {
    forall|k: int, l: int|
        0 <= k < l < records.len() ==> !comes_before(#[trigger] records[l], #[trigger] records[k])
}

/// Inserting a record makes the sequence longer by one.
pub proof fn lemma_inserted_len(sorted: Records, record: (Seq<char>, Seq<char>))
    ensures
        inserted(sorted, record).len() == sorted.len() + 1,
    decreases sorted.len(),
{
    if sorted.len() > 0 && comes_before(record, sorted.last()) {
        lemma_inserted_len(sorted.drop_last(), record);
    }
}

/// The stable form of a source has as many records as the source.
pub proof fn lemma_stable_form_len(input: Records)
    ensures
        stable_form(input).len() == input.len(),
    decreases input.len(),
{
    if input.len() > 0 {
        lemma_stable_form_len(input.drop_last());
        lemma_inserted_len(stable_form(input.drop_last()), input.last());
    }
}

/// Merging keeps every record of the two sides.
pub proof fn lemma_merged_len(left: Records, right: Records)
    ensures
        merged(left, right).len() == left.len() + right.len(),
    decreases left.len() + right.len(),
{
    if right.len() > 0 && left.len() > 0 {
        if comes_before(right.last(), left.last()) {
            lemma_merged_len(left.drop_last(), right);
        } else {
            lemma_merged_len(left, right.drop_last());
        }
    }
}

/// Where `r` comes before `x` and not before `y`, `y` comes before `x`.
proof fn lemma_between(
    r: (Seq<char>, Seq<char>),
    x: (Seq<char>, Seq<char>),
    y: (Seq<char>, Seq<char>),
)
    requires
        comes_before(r, x),
        !comes_before(r, y),
    ensures
        comes_before(y, x),
{
    let rk = encode_utf8(r.0);
    let xk = encode_utf8(x.0);
    let yk = encode_utf8(y.0);
    lemma_bytes_lt_total(yk, xk);
    if bytes_lt(xk, yk) {
        lemma_bytes_lt_transitive(rk, xk, yk);
    }
}

/// Merging with a single record inserts it.
proof fn lemma_merged_with_one(left: Records, record: (Seq<char>, Seq<char>))
    ensures
        merged(left, seq![record]) == inserted(left, record),
    decreases left.len(),
{
    let one = seq![record];
    assert(one.last() == record);
    assert(one.drop_last() =~= Seq::<(Seq<char>, Seq<char>)>::empty());
    if left.len() == 0 {
        assert(left.push(record) =~= one);
    } else if comes_before(record, left.last()) {
        lemma_merged_with_one(left.drop_last(), record);
    } else {
        assert(merged(left, one.drop_last()) == left);
    }
}

/// Inserting a record into merged records is the same as inserting it into
/// the later side before merging.
proof fn lemma_insert_into_merged(left: Records, right: Records, record: (Seq<char>, Seq<char>))
    ensures
        inserted(merged(left, right), record) == merged(left, inserted(right, record)),
    decreases left.len() + right.len(),
{
    lemma_inserted_len(right, record);
    if right.len() == 0 {
        lemma_merged_with_one(left, record);
        assert(inserted(right, record) =~= seq![record]);
    } else if left.len() == 0 {
    } else {
        let x = left.last();
        let y = right.last();
        if comes_before(record, y) {
            let later = inserted(right, record);
            assert(later == inserted(right.drop_last(), record).push(y));
            assert(later.last() == y);
            assert(later.drop_last() =~= inserted(right.drop_last(), record));
            if comes_before(y, x) {
                lemma_bytes_lt_transitive(
                    encode_utf8(record.0),
                    encode_utf8(y.0),
                    encode_utf8(x.0),
                );
                let m = merged(left.drop_last(), right);
                assert(m.push(x).last() == x);
                assert(m.push(x).drop_last() =~= m);
                lemma_insert_into_merged(left.drop_last(), right, record);
            } else {
                let m = merged(left, right.drop_last());
                assert(m.push(y).last() == y);
                assert(m.push(y).drop_last() =~= m);
                lemma_insert_into_merged(left, right.drop_last(), record);
            }
        } else {
            let later = right.push(record);
            assert(later.last() == record);
            assert(later.drop_last() =~= right);
            if comes_before(record, x) {
                lemma_between(record, x, y);
                let m = merged(left.drop_last(), right);
                assert(m.push(x).last() == x);
                assert(m.push(x).drop_last() =~= m);
                lemma_insert_into_merged(left.drop_last(), right, record);
            } else {
                lemma_merged_len(left, right);
                if comes_before(y, x) {
                    assert(merged(left, right).last() == x);
                } else {
                    assert(merged(left, right).last() == y);
                }
            }
        }
    }
}

/// The stable form of two sources, one behind the other, is their stable
/// forms merged.
pub proof fn lemma_merged_is_stable(first: Records, second: Records)
    ensures
        stable_form(first + second) == merged(stable_form(first), stable_form(second)),
    decreases second.len(),
{
    if second.len() == 0 {
        assert(first + second =~= first);
    } else {
        let both = first + second;
        assert(both.drop_last() =~= first + second.drop_last());
        assert(both.last() == second.last());
        lemma_merged_is_stable(first, second.drop_last());
        lemma_insert_into_merged(
            stable_form(first),
            stable_form(second.drop_last()),
            second.last(),
        );
    }
}

/// Inserting a record into ascending records leaves them ascending.
pub proof fn lemma_inserted_is_ascending(sorted: Records, record: (Seq<char>, Seq<char>))
    requires
        ascending(sorted),
    ensures
        ascending(inserted(sorted, record)),
        forall|r: (Seq<char>, Seq<char>)| #[trigger]
            inserted(sorted, record).contains(r) ==> r == record || sorted.contains(r),
    decreases sorted.len(),
{
    let out = inserted(sorted, record);
    if sorted.len() > 0 && comes_before(record, sorted.last()) {
        let shorter = sorted.drop_last();
        let last = sorted.last();
        assert forall|k: int, l: int| 0 <= k < l < shorter.len() implies !comes_before(
            #[trigger] shorter[l],
            #[trigger] shorter[k],
        ) by {
            assert(!comes_before(sorted[l], sorted[k]));
        }
        lemma_inserted_is_ascending(shorter, record);
        lemma_inserted_len(shorter, record);
        let front = inserted(shorter, record);
        assert forall|k: int, l: int| 0 <= k < l < out.len() implies !comes_before(
            #[trigger] out[l],
            #[trigger] out[k],
        ) by {
            assert(out == front.push(last));
            if l < front.len() {
                assert(out[l] == front[l] && out[k] == front[k]);
                assert(!comes_before(front[l], front[k]));
            } else {
                assert(out[l] == last && out[k] == front[k]);
                assert(front.contains(front[k]));
                if front[k] == record {
                    lemma_bytes_lt_total(encode_utf8(record.0), encode_utf8(last.0));
                } else {
                    assert(shorter.contains(front[k]));
                    let j = choose|j: int| 0 <= j < shorter.len() && shorter[j] == front[k];
                    assert(sorted[j] == front[k]);
                    assert(!comes_before(sorted[sorted.len() - 1], sorted[j]));
                }
            }
        }
        assert forall|r: (Seq<char>, Seq<char>)| out.contains(r) implies r == record
            || sorted.contains(r) by {
            assert(out == front.push(last));
            let j = choose|j: int| 0 <= j < out.len() && out[j] == r;
            if j < front.len() {
                assert(front[j] == r);
                assert(front.contains(r));
                if r != record {
                    assert(shorter.contains(r));
                    let i = choose|i: int| 0 <= i < shorter.len() && shorter[i] == r;
                    assert(sorted[i] == r);
                }
            } else {
                assert(sorted[sorted.len() - 1] == r);
            }
        }
    } else {
        assert forall|k: int, l: int| 0 <= k < l < out.len() implies !comes_before(
            #[trigger] out[l],
            #[trigger] out[k],
        ) by {
            if l < sorted.len() {
                assert(!comes_before(sorted[l], sorted[k]));
            } else if sorted.len() > 0 {
                let last = sorted.last();
                assert(!comes_before(record, last));
                if k < sorted.len() - 1 {
                    assert(!comes_before(sorted[sorted.len() - 1], sorted[k]));
                    if comes_before(record, sorted[k]) {
                        lemma_between(record, sorted[k], last);
                    }
                }
            }
        }
        assert forall|r: (Seq<char>, Seq<char>)| out.contains(r) implies r == record
            || sorted.contains(r) by {
            let j = choose|j: int| 0 <= j < out.len() && out[j] == r;
            if j < sorted.len() {
                assert(sorted[j] == r);
            }
        }
    }
}

/// The stable form of a source stands in ascending order of its keys.
pub proof fn lemma_stable_form_is_ascending(input: Records)
    ensures
        ascending(stable_form(input)),
    decreases input.len(),
{
    if input.len() > 0 {
        lemma_stable_form_is_ascending(input.drop_last());
        lemma_inserted_is_ascending(stable_form(input.drop_last()), input.last());
    }
}

/// Inserting a record adds that record and nothing else.
pub proof fn lemma_inserted_holds(sorted: Records, record: (Seq<char>, Seq<char>))
    ensures
        inserted(sorted, record).to_multiset() == sorted.to_multiset().insert(record),
    decreases sorted.len(),
{
    broadcast use vstd::seq_lib::group_to_multiset_ensures;

    if sorted.len() > 0 && comes_before(record, sorted.last()) {
        let shorter = sorted.drop_last();
        lemma_inserted_holds(shorter, record);
        assert(sorted =~= shorter.push(sorted.last()));
        assert(inserted(sorted, record).to_multiset() =~= sorted.to_multiset().insert(record));
    }
}

/// The stable form of a source holds the records of the source, each as
/// often as the source has it.
pub proof fn lemma_stable_form_holds(input: Records)
    ensures
        stable_form(input).to_multiset() == input.to_multiset(),
    decreases input.len(),
{
    broadcast use vstd::seq_lib::group_to_multiset_ensures;

    if input.len() > 0 {
        lemma_stable_form_holds(input.drop_last());
        lemma_inserted_holds(stable_form(input.drop_last()), input.last());
        assert(input =~= input.drop_last().push(input.last()));
    }
}

/// Merges the positions `left` and `right`, each in the order of its
/// records' keys: a position of `right` goes first only where its key comes
/// strictly before.
fn merge_positions(records: &Vec<(String, String)>, left: &Vec<usize>, right: &Vec<usize>) -> (out:
    Vec<usize>)
    requires
        left@.len() + right@.len() <= records@.len(),
        forall|k: int| 0 <= k < left@.len() ==> left@[k] < records@.len(),
        forall|k: int| 0 <= k < right@.len() ==> right@[k] < records@.len(),
    ensures
        picked(pairs_view(records@), out@) == merged(
            picked(pairs_view(records@), left@),
            picked(pairs_view(records@), right@),
        ),
        forall|k: int| 0 <= k < out@.len() ==> out@[k] < records@.len(),
{
    let ghost recs = pairs_view(records@);
    let ghost l = picked(recs, left@);
    let ghost r = picked(recs, right@);
    let ghost m = merged(l, r);
    let total: usize = records.len();
    let n: usize = left.len() + right.len();
    let mut out: Vec<usize> = Vec::new();
    let mut filled: usize = 0;
    while filled < n
        invariant
            filled <= n,
            out@.len() == filled,
        decreases n - filled,
    {
        out.push(0);
        filled = filled + 1;
    }
    let mut a: usize = left.len();
    let mut b: usize = right.len();
    proof {
        lemma_merged_len(l, r);
        assert(l.take(a as int) =~= l);
        assert(r.take(b as int) =~= r);
        assert(m.take(a + b) =~= m);
    }
    while a > 0 || b > 0
        invariant
            a <= left@.len(),
            b <= right@.len(),
            n == left@.len() + right@.len(),
            out@.len() == n,
            recs == pairs_view(records@),
            l == picked(recs, left@),
            r == picked(recs, right@),
            m == merged(l, r),
            m.len() == n,
            left@.len() + right@.len() <= records@.len(),
            forall|k: int| 0 <= k < left@.len() ==> left@[k] < records@.len(),
            forall|k: int| 0 <= k < right@.len() ==> right@[k] < records@.len(),
            merged(l.take(a as int), r.take(b as int)) == m.take(a + b),
            forall|i: int|
                a + b <= i < n ==> out@[i] < records@.len() && recs[#[trigger] out@[i] as int]
                    == m[i],
        decreases a + b,
    {
        let from_left: bool = if b == 0 {
            true
        } else if a == 0 {
            false
        } else {
            match key_order(records, right[b - 1], left[a - 1]) {
                KeyOrder::Before => true,
                _ => false,
            }
        };
        let ghost la = l.take(a as int);
        let ghost rb = r.take(b as int);
        let ghost at = a + b - 1;
        if from_left {
            proof {
                assert(la.last() == recs[left@[a - 1] as int]);
                assert(la.drop_last() =~= l.take(a - 1));
                if b > 0 {
                    assert(rb.last() == recs[right@[b - 1] as int]);
                    assert(comes_before(rb.last(), la.last()));
                } else {
                    assert(merged(la, rb) == la);
                    assert(merged(la.drop_last(), rb) == la.drop_last());
                    assert(la =~= la.drop_last().push(la.last()));
                }
                let rest = merged(l.take(a - 1), rb);
                assert(m.take(a + b) == rest.push(la.last()));
                assert(m[at] == rest.push(la.last())[at]) by {
                    lemma_merged_len(l.take(a - 1), rb);
                    assert(m.take(a + b)[at] == m[at]);
                }
                assert(m.take(at) =~= rest) by {
                    lemma_merged_len(l.take(a - 1), rb);
                    assert(m.take(a + b).drop_last() =~= m.take(at));
                    assert(rest.push(la.last()).drop_last() =~= rest);
                }
            }
            out.set(a + b - 1, left[a - 1]);
            a = a - 1;
        } else {
            proof {
                assert(rb.last() == recs[right@[b - 1] as int]);
                assert(rb.drop_last() =~= r.take(b - 1));
                if a > 0 {
                    assert(la.last() == recs[left@[a - 1] as int]);
                    assert(!comes_before(rb.last(), la.last()));
                } else {
                    assert(merged(la, rb) == rb);
                    if b > 1 {
                        assert(merged(la, rb.drop_last()) == rb.drop_last());
                    } else {
                        assert(merged(la, rb.drop_last()) == la);
                        assert(la =~= rb.drop_last());
                    }
                    assert(rb =~= rb.drop_last().push(rb.last()));
                }
                let rest = merged(la, r.take(b - 1));
                assert(m.take(a + b) == rest.push(rb.last()));
                assert(m[at] == rest.push(rb.last())[at]) by {
                    lemma_merged_len(la, r.take(b - 1));
                    assert(m.take(a + b)[at] == m[at]);
                }
                assert(m.take(at) =~= rest) by {
                    lemma_merged_len(la, r.take(b - 1));
                    assert(m.take(a + b).drop_last() =~= m.take(at));
                    assert(rest.push(rb.last()).drop_last() =~= rest);
                }
            }
            out.set(a + b - 1, right[b - 1]);
            b = b - 1;
        }
    }
    proof {
        assert(picked(recs, out@) =~= m);
    }
    out
}

/// Sorts the positions of the records from `lo` up to `hi` by their keys;
/// positions of one key stay in their order.
fn sort_positions(records: &Vec<(String, String)>, lo: usize, hi: usize) -> (idx: Vec<usize>)
    requires
        lo <= hi <= records@.len(),
    ensures
        picked(pairs_view(records@), idx@) == stable_form(
            pairs_view(records@).subrange(lo as int, hi as int),
        ),
        idx@.len() == hi - lo,
        forall|k: int| 0 <= k < idx@.len() ==> idx@[k] < records@.len(),
    decreases hi - lo,
{
    let ghost recs = pairs_view(records@);
    let ghost range = recs.subrange(lo as int, hi as int);
    if hi - lo == 0 {
        let idx: Vec<usize> = Vec::new();
        proof {
            assert(picked(recs, idx@) =~= stable_form(range));
        }
        idx
    } else if hi - lo == 1 {
        let mut idx: Vec<usize> = Vec::new();
        idx.push(lo);
        proof {
            assert(range.drop_last().len() == 0);
            assert(stable_form(range.drop_last()) == range.drop_last());
            assert(stable_form(range) == inserted(range.drop_last(), range.last()));
            assert(picked(recs, idx@) =~= stable_form(range));
        }
        idx
    } else {
        let mid: usize = lo + (hi - lo) / 2;
        let left = sort_positions(records, lo, mid);
        let right = sort_positions(records, mid, hi);
        let idx = merge_positions(records, &left, &right);
        proof {
            let first = recs.subrange(lo as int, mid as int);
            let second = recs.subrange(mid as int, hi as int);
            assert(range =~= first + second);
            lemma_merged_is_stable(first, second);
            lemma_stable_form_len(range);
            assert(picked(recs, idx@).len() == idx@.len());
        }
        idx
    }
}

/// Sorts records in ascending order of their keys' bytes and keeps every
/// record: records of one key stay in the order in which they came.
pub fn stable_sort_records(records: &Vec<(String, String)>) -> (sorted: Vec<(String, String)>)
    ensures
        pairs_view(sorted@) == stable_form(pairs_view(records@)),
        ascending(pairs_view(sorted@)),
        pairs_view(sorted@).to_multiset() == pairs_view(records@).to_multiset(),
{
    let idx: Vec<usize> = sort_positions(records, 0, records.len());
    let ghost input = pairs_view(records@);
    let mut sorted: Vec<(String, String)> = Vec::new();
    let mut k: usize = 0;
    while k < idx.len()
        invariant
            k <= idx@.len(),
            input == pairs_view(records@),
            forall|m: int| 0 <= m < idx@.len() ==> idx@[m] < records@.len(),
            sorted@.len() == k,
            forall|m: int| 0 <= m < k ==> #[trigger] pairs_view(sorted@)[m] == input[idx@[m] as int],
        decreases idx@.len() - k,
    {
        let i: usize = idx[k];
        let ghost before = pairs_view(sorted@);
        sorted.push((records[i].0.clone(), records[i].1.clone()));
        proof {
            assert forall|m: int| 0 <= m < k + 1 implies #[trigger] pairs_view(sorted@)[m]
                == input[idx@[m] as int] by {
                if m < k {
                    assert(pairs_view(sorted@)[m] == before[m]);
                }
            }
        }
        k = k + 1;
    }
    proof {
        assert(input.subrange(0, input.len() as int) =~= input);
        assert(pairs_view(sorted@) =~= picked(input, idx@));
        lemma_stable_form_is_ascending(input);
        lemma_stable_form_holds(input);
    }
    sorted
}

} // verus!
