//! What a lookup answers, said of the records that a dictionary was
//! compiled from. A lookup of a word of ASCII characters gives exactly the
//! answers that are named here. For a word with a character of several
//! bytes the search of the index may pass over records near the word, and
//! the lookup then gives fewer.

use crate::index::{
    candidates, chosen, edit_distance, entry_candidates, fuzziness, keys_ascending,
    lemma_value_in_contains, near, near_entries, neighbours, value_in, LOOKUP_LIMIT,
};
use crate::layout::{
    is_answer_of, lemma_entry_text, lemma_index_keys_ascending, lemma_value_in_unique,
};
use crate::bytes::bytes_lt;
use crate::records::{key_lt, lemma_key_lt_order, Records};
use crate::util::without_nuls;
use crate::wikit::{
    dictionary_image, entry_text, fits, head_len, index_entries, records_ascending, resolved,
    PREAMBLE_SIZE,
};
use vstd::prelude::*;
use vstd::utf8::{encode_utf8, encode_utf8_decode_utf8, encode_utf8_valid_utf8};

verus! {

/// The test of a record: that its key lies within the edits of `key` that
/// a lookup of `key` allows.
pub open spec fn looked_at(key: Seq<char>) -> spec_fn((Seq<char>, Seq<char>)) -> bool {
    |r: (Seq<char>, Seq<char>)| edit_distance(r.0, key) <= fuzziness(encode_utf8(key).len())
}

/// The records that a lookup of `key` looks at: those whose keys lie near
/// `key`, in their order, and no more than the limit.
pub open spec fn near_records(records: Records, key: Seq<char>) -> Records {
    let all = records.filter(looked_at(key));
    all.take(
        if LOOKUP_LIMIT < all.len() {
            LOOKUP_LIMIT as int
        } else {
            all.len() as int
        },
    )
}

/// A position of `records` at which the key is `key`, where there is one.
pub open spec fn position_of(records: Records, key: Seq<char>) -> int {
    choose|k: int| 0 <= k < records.len() && records[k].0 == key
}

/// The record of `records` whose key is `key`, where there is one.
pub open spec fn record_of(records: Records, key: Seq<char>) -> Option<(Seq<char>, Seq<char>)> {
    if exists|k: int| 0 <= k < records.len() && records[k].0 == key {
        Some(records[position_of(records, key)])
    } else {
        None
    }
}

/// The answer that a record gives: its key with its meaning, from which NUL
/// characters are dropped.
pub open spec fn answer(record: (Seq<char>, Seq<char>)) -> (Seq<char>, Seq<char>) {
    (record.0, without_nuls(record.1))
}

/// The answers behind the exact match: those of the records `near` from
/// record `i` on whose keys differ from `key`, after the answers `acc`, as
/// long as fewer than the limit are gathered.
pub open spec fn shown(near: Records, i: int, key: Seq<char>, acc: Records) -> Records
    decreases near.len() - i,
{
    if i < 0 || i >= near.len() || acc.len() >= LOOKUP_LIMIT {
        acc
    } else if near[i].0 != key {
        shown(near, i + 1, key, acc.push(answer(near[i])))
    } else {
        shown(near, i + 1, key, acc)
    }
}

/// The answer of the record of `records` whose key is `key`, where there
/// is one, and nothing else.
pub open spec fn exact_answer(records: Records, key: Seq<char>) -> Records {
    match record_of(records, key) {
        Some(record) => seq![answer(record)],
        None => Seq::empty(),
    }
}

/// The answers to a lookup of `key` in a dictionary of `records` where the
/// search passes over nothing: the record of `key` first, where there is
/// one, then the records near `key`, in their order and without that of
/// `key` itself, up to the limit in all.
pub open spec fn record_answers(records: Records, key: Seq<char>) -> Records {
    shown(near_records(records, key), 0, key, exact_answer(records, key))
}

/// Whether `entry` is the index entry of `record` in `image`: it has the
/// record's key, and the data entry at its offset holds the record's
/// meaning.
pub open spec fn entry_of(image: Seq<u8>, entry: (Seq<u8>, u64), record: (Seq<char>, Seq<char>)) -> bool {
    entry.0 == encode_utf8(record.0) && entry_text(image, entry.1) == Some(without_nuls(record.1))
}

/// Whether `entries` are the index entries of `records` in `image`, one by
/// one.
pub open spec fn entries_of(image: Seq<u8>, entries: Seq<(Seq<u8>, u64)>, records: Records) -> bool {
    &&& entries.len() == records.len()
    &&& forall|k: int|
        #![trigger entries[k]]
        #![trigger records[k]]
        0 <= k < entries.len() ==> entry_of(image, entries[k], records[k])
}

/// Whether the candidates `found` resolve to `answers` in `image`, one by
/// one.
pub open spec fn answers_of(image: Seq<u8>, found: Seq<(Seq<char>, u64)>, answers: Records) -> bool {
    &&& found.len() == answers.len()
    &&& forall|k: int|
        #![trigger found[k]]
        #![trigger answers[k]]
        0 <= k < found.len() ==> found[k].0 == answers[k].0 && entry_text(image, found[k].1)
            == Some(answers[k].1)
}

/// The index entries of a compiled image are those of its records.
pub proof fn lemma_compiled_entries(
    records: Records,
    name: Seq<char>,
    desc: Seq<char>,
    script: Seq<char>,
    style: Seq<char>,
)
    requires
        fits(records, name, desc, script, style),
    ensures
        entries_of(
            dictionary_image(records, name, desc, script, style),
            index_entries(records, PREAMBLE_SIZE + head_len(name, desc, script, style)),
            records,
        ),
{
    let image = dictionary_image(records, name, desc, script, style);
    let entries = index_entries(records, PREAMBLE_SIZE + head_len(name, desc, script, style));
    assert forall|k: int|
        #![trigger entries[k]]
        #![trigger records[k]]
        0 <= k < entries.len() implies entry_of(image, entries[k], records[k]) by {
        lemma_entry_text(records, name, desc, script, style, k);
    }
}

/// The entries near a key are the entries of the records near it.
pub proof fn lemma_near_entries(
    image: Seq<u8>,
    entries: Seq<(Seq<u8>, u64)>,
    records: Records,
    key: Seq<char>,
)
    requires
        entries_of(image, entries, records),
    ensures
        entries_of(
            image,
            entries.filter(near(key, fuzziness(encode_utf8(key).len()))),
            records.filter(looked_at(key)),
        ),
    decreases entries.len(),
{
    reveal(Seq::filter);
    if entries.len() > 0 {
        let fewer = entries.drop_last();
        let shorter = records.drop_last();
        assert(entries_of(image, fewer, shorter)) by {
            assert forall|k: int|
                #![trigger fewer[k]]
                #![trigger shorter[k]]
                0 <= k < fewer.len() implies entry_of(image, fewer[k], shorter[k]) by {
                assert(entry_of(image, entries[k], records[k]));
            }
        }
        lemma_near_entries(image, fewer, shorter, key);
        let last = records.last();
        assert(entry_of(image, entries[entries.len() - 1], records[entries.len() - 1]));
        encode_utf8_valid_utf8(last.0);
        encode_utf8_decode_utf8(last.0);
        let distance = fuzziness(encode_utf8(key).len());
        assert(near(key, distance)(entries.last()) == looked_at(key)(last));
        let found = fewer.filter(near(key, distance));
        let kept = shorter.filter(looked_at(key));
        if looked_at(key)(last) {
            let more = found.push(entries.last());
            let longer = kept.push(last);
            assert forall|k: int|
                #![trigger more[k]]
                #![trigger longer[k]]
                0 <= k < more.len() implies entry_of(image, more[k], longer[k]) by {
                if k < found.len() {
                    assert(entry_of(image, found[k], kept[k]));
                }
            }
        }
    }
}

/// The candidates behind the exact match resolve to the answers behind it.
pub proof fn lemma_neighbours_are_shown(
    image: Seq<u8>,
    entries: Seq<(Seq<u8>, u64)>,
    records: Records,
    i: int,
    key: Seq<char>,
    found: Seq<(Seq<char>, u64)>,
    answers: Records,
)
    requires
        entries_of(image, entries, records),
        answers_of(image, found, answers),
        0 <= i <= entries.len(),
    ensures
        answers_of(
            image,
            neighbours(entries, i, key, found),
            shown(records, i, key, answers),
        ),
    decreases entries.len() - i,
{
    if i < entries.len() && found.len() < LOOKUP_LIMIT {
        assert(entry_of(image, entries[i], records[i]));
        encode_utf8_valid_utf8(records[i].0);
        encode_utf8_decode_utf8(records[i].0);
        if records[i].0 != key {
            let more = found.push((records[i].0, entries[i].1));
            let longer = answers.push(answer(records[i]));
            assert forall|k: int|
                #![trigger more[k]]
                #![trigger longer[k]]
                0 <= k < more.len() implies more[k].0 == longer[k].0 && entry_text(
                image,
                more[k].1,
            ) == Some(longer[k].1) by {
                if k < found.len() {
                    assert(found[k].0 == answers[k].0);
                }
            }
            lemma_neighbours_are_shown(image, entries, records, i + 1, key, more, longer);
        } else {
            lemma_neighbours_are_shown(image, entries, records, i + 1, key, found, answers);
        }
    }
}

/// Candidates that resolve to answers one by one give these answers.
pub proof fn lemma_resolved_answers(
    image: Seq<u8>,
    found: Seq<(Seq<char>, u64)>,
    answers: Records,
    i: int,
)
    requires
        answers_of(image, found, answers),
        0 <= i <= found.len(),
    ensures
        resolved(image, found, i, answers.take(i)) == answers,
    decreases found.len() - i,
{
    if i < found.len() {
        assert(found[i].0 == answers[i].0);
        assert(answers.take(i).push((found[i].0, answers[i].1)) =~= answers.take(i + 1));
        lemma_resolved_answers(image, found, answers, i + 1);
    } else {
        assert(answers.take(i) =~= answers);
    }
}

/// The exact match of a key in the index resolves to the answer of the
/// key's record.
pub proof fn lemma_exact_answer(
    image: Seq<u8>,
    entries: Seq<(Seq<u8>, u64)>,
    records: Records,
    key: Seq<char>,
)
    requires
        entries_of(image, entries, records),
        keys_ascending(entries),
    ensures
        answers_of(
            image,
            match value_in(entries, encode_utf8(key)) {
                Some(offset) => seq![(key, offset)],
                None => Seq::empty(),
            },
            match record_of(records, key) {
                Some(record) => seq![answer(record)],
                None => Seq::empty(),
            },
        ),
{
    if exists|k: int| 0 <= k < records.len() && records[k].0 == key {
        let k = position_of(records, key);
        assert(entry_of(image, entries[k], records[k]));
        lemma_value_in_unique(entries, k);
        let found = seq![(key, entries[k].1)];
        let answers = seq![answer(records[k])];
        assert(value_in(entries, encode_utf8(key)) == Some(entries[k].1));
        assert(record_of(records, key) == Some(records[k]));
        assert(found[0] == (key, entries[k].1));
        assert(answers[0] == answer(records[k]));
        assert(answers_of(image, found, answers));
    } else {
        lemma_value_in_contains(entries, encode_utf8(key));
        if value_in(entries, encode_utf8(key)) is Some {
            let offset = value_in(entries, encode_utf8(key)).unwrap();
            let j = choose|j: int|
                0 <= j < entries.len() && entries[j] == (encode_utf8(key), offset);
            assert(entry_of(image, entries[j], records[j]));
            encode_utf8_decode_utf8(records[j].0);
            encode_utf8_decode_utf8(key);
            assert(records[j].0 == key);
        }
        assert(record_of(records, key) is None);
        assert(answers_of(
            image,
            Seq::<(Seq<char>, u64)>::empty(),
            Seq::<(Seq<char>, Seq<char>)>::empty(),
        ));
    }
}

/// In a compiled dictionary the candidates of an index search that passes
/// over nothing resolve to the answers of the records: the record of the
/// key, where there is one, and behind it the records near the key, in the
/// order of the dictionary.
pub proof fn lemma_lookup_answers(
    records: Records,
    name: Seq<char>,
    desc: Seq<char>,
    script: Seq<char>,
    style: Seq<char>,
    key: Seq<char>,
)
    requires
        records_ascending(records),
        fits(records, name, desc, script, style),
    ensures
        resolved(
            dictionary_image(records, name, desc, script, style),
            entry_candidates(
                index_entries(records, PREAMBLE_SIZE + head_len(name, desc, script, style)),
                key,
            ),
            0,
            Seq::empty(),
        ) == record_answers(records, key),
{
    let image = dictionary_image(records, name, desc, script, style);
    let base = PREAMBLE_SIZE + head_len(name, desc, script, style);
    let entries = index_entries(records, base);
    lemma_compiled_entries(records, name, desc, script, style);
    lemma_index_keys_ascending(records, base);
    lemma_near_entries(image, entries, records, key);
    let all = entries.filter(near(key, fuzziness(encode_utf8(key).len())));
    let kept = records.filter(looked_at(key));
    let close = near_entries(entries, key);
    let looked = near_records(records, key);
    assert(entries_of(image, close, looked)) by {
        assert forall|k: int|
            #![trigger close[k]]
            #![trigger looked[k]]
            0 <= k < close.len() implies entry_of(image, close[k], looked[k]) by {
            assert(entry_of(image, all[k], kept[k]));
        }
    }
    lemma_exact_answer(image, entries, records, key);
    let first = match value_in(entries, encode_utf8(key)) {
        Some(offset) => seq![(key, offset)],
        None => Seq::empty(),
    };
    let head = match record_of(records, key) {
        Some(record) => seq![answer(record)],
        None => Seq::empty(),
    };
    lemma_neighbours_are_shown(image, close, looked, 0, key, first, head);
    let found = entry_candidates(entries, key);
    let answers = record_answers(records, key);
    assert(found == candidates(value_in(entries, encode_utf8(key)), close, key));
    lemma_resolved_answers(image, found, answers, 0);
    assert(answers.take(0) =~= Seq::<(Seq<char>, Seq<char>)>::empty());
}

/// Where a lookup does not search by edits, it answers with the record of
/// the key alone: the exact match of the index resolves to its answer.
pub proof fn lemma_exact_lookup_answer(
    records: Records,
    name: Seq<char>,
    desc: Seq<char>,
    script: Seq<char>,
    style: Seq<char>,
    key: Seq<char>,
)
    requires
        records_ascending(records),
        fits(records, name, desc, script, style),
    ensures
        resolved(
            dictionary_image(records, name, desc, script, style),
            candidates(
                value_in(
                    index_entries(records, PREAMBLE_SIZE + head_len(name, desc, script, style)),
                    encode_utf8(key),
                ),
                Seq::empty(),
                key,
            ),
            0,
            Seq::empty(),
        ) == exact_answer(records, key),
{
    let image = dictionary_image(records, name, desc, script, style);
    let base = PREAMBLE_SIZE + head_len(name, desc, script, style);
    let entries = index_entries(records, base);
    lemma_compiled_entries(records, name, desc, script, style);
    lemma_index_keys_ascending(records, base);
    lemma_exact_answer(image, entries, records, key);
    let found = candidates(value_in(entries, encode_utf8(key)), Seq::empty(), key);
    let answers = exact_answer(records, key);
    lemma_resolved_answers(image, found, answers, 0);
    assert(answers.take(0) =~= Seq::<(Seq<char>, Seq<char>)>::empty());
}

/// The number of records of `near` from record `i` on whose keys differ
/// from `key`.
pub open spec fn others(near: Records, i: int, key: Seq<char>) -> nat
    decreases near.len() - i,
{
    if i < 0 || i >= near.len() {
        0
    } else if near[i].0 != key {
        1 + others(near, i + 1, key)
    } else {
        others(near, i + 1, key)
    }
}

/// No more records differ from the key than there are records, and fewer
/// where one of them has the key.
pub proof fn lemma_others_bound(near: Records, i: int, key: Seq<char>)
    requires
        0 <= i <= near.len(),
    ensures
        others(near, i, key) <= near.len() - i,
        (exists|q: int| i <= q < near.len() && near[q].0 == key) ==> others(near, i, key)
            < near.len() - i,
    decreases near.len() - i,
{
    if i < near.len() {
        lemma_others_bound(near, i + 1, key);
        if exists|q: int| i <= q < near.len() && near[q].0 == key {
            let q = choose|q: int| i <= q < near.len() && near[q].0 == key;
            if q > i {
                assert(i + 1 <= q < near.len() && near[q].0 == key);
            }
        }
    }
}

/// A text is no edit away from itself.
pub proof fn lemma_no_edit(text: Seq<char>)
    ensures
        edit_distance(text, text) == 0,
    decreases text.len(),
{
    if text.len() > 0 {
        lemma_no_edit(text.drop_last());
    }
}

/// The answers behind the exact match keep the answers before them, and
/// where the limit leaves room for all records that differ from the key,
/// each of them is answered.
pub proof fn lemma_shown_holds(near: Records, i: int, key: Seq<char>, acc: Records)
    requires
        0 <= i <= near.len(),
    ensures
        acc.len() <= shown(near, i, key, acc).len(),
        forall|m: int| 0 <= m < acc.len() ==> shown(near, i, key, acc)[m] == #[trigger] acc[m],
        acc.len() + others(near, i, key) <= LOOKUP_LIMIT ==> forall|m: int|
            i <= m < near.len() && (#[trigger] near[m]).0 != key ==> shown(
                near,
                i,
                key,
                acc,
            ).contains(answer(near[m])),
    decreases near.len() - i,
{
    let all = shown(near, i, key, acc);
    if i < near.len() && acc.len() < LOOKUP_LIMIT {
        if near[i].0 != key {
            let more = acc.push(answer(near[i]));
            lemma_shown_holds(near, i + 1, key, more);
            assert forall|m: int| 0 <= m < acc.len() implies all[m] == #[trigger] acc[m] by {
                assert(all[m] == more[m]);
            }
            if acc.len() + others(near, i, key) <= LOOKUP_LIMIT {
                assert forall|m: int| i <= m < near.len() && (#[trigger] near[m]).0
                    != key implies all.contains(answer(near[m])) by {
                    if m == i {
                        assert(all[acc.len() as int] == more[acc.len() as int]);
                    }
                }
            }
        } else {
            lemma_shown_holds(near, i + 1, key, acc);
        }
    } else if i < near.len() {
        if acc.len() + others(near, i, key) <= LOOKUP_LIMIT {
            lemma_no_others(near, i, key);
        }
    }
}

/// Where no record differs from the key, each record has the key.
pub proof fn lemma_no_others(near: Records, i: int, key: Seq<char>)
    requires
        0 <= i <= near.len(),
        others(near, i, key) == 0,
    ensures
        forall|m: int| i <= m < near.len() ==> (#[trigger] near[m]).0 == key,
    decreases near.len() - i,
{
    if i < near.len() {
        lemma_no_others(near, i + 1, key);
    }
}

/// Where no more records lie near a key than a lookup returns, each of them
/// is among the answers that `record_answers` names: a lookup that passes
/// over nothing then shows every record near the key.
pub proof fn lemma_near_records_are_answered(records: Records, key: Seq<char>, k: int)
    requires
        records_ascending(records),
        0 <= k < records.len(),
        looked_at(key)(records[k]),
        records.filter(looked_at(key)).len() <= LOOKUP_LIMIT,
    ensures
        record_answers(records, key).contains(answer(records[k])),
{
    let all = records.filter(looked_at(key));
    let near = near_records(records, key);
    assert(near =~= all);
    let first = exact_answer(records, key);
    let answers = record_answers(records, key);
    lemma_shown_holds(near, 0, key, first);
    if records[k].0 == key {
        let p = position_of(records, key);
        if p < k {
            assert(key_lt(records, p, k));
            lemma_key_lt_order(records, p, k, k);
        } else if k < p {
            assert(key_lt(records, k, p));
            lemma_key_lt_order(records, k, p, p);
        }
        assert(first[0] == answer(records[k]));
        assert(answers[0] == first[0]);
    } else {
        records.lemma_filter_contains(looked_at(key), k);
        assert(all.contains(records[k]));
        let j = choose|j: int| 0 <= j < all.len() && all[j] == records[k];
        lemma_others_bound(near, 0, key);
        if record_of(records, key) is Some {
            let p = position_of(records, key);
            lemma_no_edit(key);
            assert(looked_at(key)(records[p]));
            records.lemma_filter_contains(looked_at(key), p);
            assert(all.contains(records[p]));
            let q = choose|q: int| 0 <= q < all.len() && all[q] == records[p];
            assert(near[q].0 == key);
        }
        assert(near[j].0 != key);
    }
}

/// Whether `answers` are answers that a lookup of `key` may give in a
/// dictionary of `records`: the record of `key` first, where there is one;
/// behind it records near `key` other than its own, in ascending order of
/// their keys; and no more than the limit in all. Every lookup answers so.
/// One that passes over nothing gives `record_answers`.
pub open spec fn answers_selected(records: Records, key: Seq<char>, answers: Records) -> bool {
    let first = exact_answer(records, key);
    &&& first.len() <= answers.len() <= LOOKUP_LIMIT
    &&& forall|m: int| 0 <= m < first.len() ==> #[trigger] answers[m] == first[m]
    &&& forall|m: int|
        first.len() <= m < answers.len() ==> (#[trigger] answers[m]).0 != key && is_answer_of(
            records,
            answers[m],
        ) && edit_distance(answers[m].0, key) <= fuzziness(encode_utf8(key).len())
    &&& forall|m: int, n: int|
        #![trigger answers[m], answers[n]]
        first.len() <= m < n < answers.len() ==> key_lt(answers, m, n)
}

/// In a compiled dictionary, candidates that a search may give resolve to
/// answers that a lookup may give.
pub proof fn lemma_chosen_are_selected(
    records: Records,
    name: Seq<char>,
    desc: Seq<char>,
    script: Seq<char>,
    style: Seq<char>,
    key: Seq<char>,
    found: Seq<(Seq<char>, u64)>,
)
    requires
        records_ascending(records),
        fits(records, name, desc, script, style),
        chosen(
            index_entries(records, PREAMBLE_SIZE + head_len(name, desc, script, style)),
            key,
            found,
        ),
    ensures
        answers_selected(
            records,
            key,
            resolved(dictionary_image(records, name, desc, script, style), found, 0, Seq::empty()),
        ),
{
    let image = dictionary_image(records, name, desc, script, style);
    let base = PREAMBLE_SIZE + head_len(name, desc, script, style);
    let entries = index_entries(records, base);
    lemma_compiled_entries(records, name, desc, script, style);
    lemma_index_keys_ascending(records, base);
    lemma_exact_answer(image, entries, records, key);
    lemma_value_in_contains(entries, encode_utf8(key));
    let exact = value_in(entries, encode_utf8(key));
    let first_found = candidates(exact, Seq::empty(), key);
    let first = exact_answer(records, key);
    assert(first_found == match exact {
        Some(offset) => seq![(key, offset)],
        None => Seq::empty(),
    });
    assert(answers_of(image, first_found, first));
    let answers = Seq::new(found.len(), |m: int| (found[m].0, entry_text(image, found[m].1).unwrap()));
    assert forall|m: int| 0 <= m < found.len() implies entry_text(image, (#[trigger] found[m]).1)
        is Some && (m >= first.len() ==> is_answer_of(records, answers[m])) by {
        if m < first_found.len() {
            assert(found[m] == first_found[m]);
            assert(entry_text(image, first_found[m].1) == Some(first[m].1));
        } else {
            assert(entries.contains((encode_utf8(found[m].0), found[m].1)));
            let k = choose|k: int|
                0 <= k < entries.len() && entries[k] == (encode_utf8(found[m].0), found[m].1);
            assert(entry_of(image, entries[k], records[k]));
            encode_utf8_decode_utf8(records[k].0);
            encode_utf8_decode_utf8(found[m].0);
            assert(records[k].0 == found[m].0);
            assert(answers[m] == (records[k].0, without_nuls(records[k].1)));
        }
    }
    assert(answers_of(image, found, answers));
    lemma_resolved_answers(image, found, answers, 0);
    assert(answers.take(0) =~= Seq::<(Seq<char>, Seq<char>)>::empty());
    assert forall|m: int| 0 <= m < first.len() implies #[trigger] answers[m] == first[m] by {
        assert(found[m] == first_found[m]);
        assert(first_found[m].0 == first[m].0);
    }
    assert forall|m: int| first.len() <= m < answers.len() implies (#[trigger] answers[m]).0 != key
        && is_answer_of(records, answers[m]) && edit_distance(answers[m].0, key) <= fuzziness(
        encode_utf8(key).len(),
    ) by {
        assert(found[m].0 != key);
        encode_utf8_decode_utf8(found[m].0);
    }
    assert forall|m: int, n: int|
        #![trigger answers[m], answers[n]]
        first.len() <= m < n < answers.len() implies key_lt(answers, m, n) by {
        assert(bytes_lt(encode_utf8(found[m].0), encode_utf8(found[n].0)));
    }
}

/// The record of a key of the dictionary is the only record with that key.
pub proof fn lemma_record_of_key(records: Records, i: int)
    requires
        records_ascending(records),
        0 <= i < records.len(),
    ensures
        record_of(records, records[i].0) == Some(records[i]),
        exact_answer(records, records[i].0) == seq![answer(records[i])],
{
    let key = records[i].0;
    let p = position_of(records, key);
    if p < i {
        assert(key_lt(records, p, i));
        lemma_key_lt_order(records, p, i, i);
    } else if i < p {
        assert(key_lt(records, i, p));
        lemma_key_lt_order(records, i, p, p);
    }
    assert(exact_answer(records, key) =~= seq![answer(records[i])]);
}

/// A lookup of a key of the dictionary answers with the record of that key
/// first, and with no other answer under that key: of its record nothing
/// is lost, and nothing is added to it.
pub proof fn lemma_key_is_answered_once(records: Records, i: int, answers: Records)
    requires
        records_ascending(records),
        0 <= i < records.len(),
        answers_selected(records, records[i].0, answers),
    ensures
        answers.len() > 0,
        answers[0] == answer(records[i]),
        forall|m: int| 0 < m < answers.len() ==> (#[trigger] answers[m]).0 != records[i].0,
{
    lemma_record_of_key(records, i);
    let first = exact_answer(records, records[i].0);
    assert(first[0] == answer(records[i]));
    assert(answers[0] == first[0]);
}

/// A dictionary of one record answers a lookup of its key with that record
/// and nothing else.
pub proof fn lemma_single_record_is_answered(key: Seq<char>, meaning: Seq<char>, answers: Records)
    requires
        answers_selected(seq![(key, meaning)], key, answers),
    ensures
        answers == seq![(key, without_nuls(meaning))],
{
    let records = seq![(key, meaning)];
    assert(records[0] == (key, meaning));
    assert(records_ascending(records));
    lemma_record_of_key(records, 0);
    let first = exact_answer(records, key);
    assert(first[0] == answer(records[0]));
    if answers.len() > 1 {
        assert(answers[1].0 != key);
        assert(is_answer_of(records, answers[1]));
        let k = choose|k: int|
            0 <= k < records.len() && answers[1] == (records[k].0, without_nuls(records[k].1));
        assert(k == 0);
    }
    assert(answers[0] == first[0]);
    assert(answers =~= seq![(key, without_nuls(meaning))]);
}

} // verus!
