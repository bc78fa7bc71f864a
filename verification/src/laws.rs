//! What holds of the library as a whole: of sources, the dictionaries that
//! are compiled from them, and the answers that these give.

use crate::bytes::{le32_at, uint_at, window};
use crate::checksum::adler32_spec;
use crate::error::WikitError;
use crate::codec::{decoded_raw, decoded_text, zlib_inflated, TextEncoding};
use crate::layout::{answers_agree, is_answer_of};
use crate::mdict::{
    block_data, block_keys, checksum_checked, header_meta, info_records, joined, key_blocks, key_info_blob,
    key_layout, layout_len, lemma_raw_block_as_zlib_block, lemma_wrong_checksum_is_refused,
    lemma_wrong_layout_checksum_is_refused, mdx_info, meaning_blocks, meaning_bytes, parsed_mdx,
    records_after_header, size_table, unpacked_payload, BlockInfo, MDXInfo, ParseOption,
};
use crate::reader::{boundary_floor, capped, stanza_record};
use crate::records::{has_key, is_first, is_first_of, sorted_first_wins, Records};
use crate::util::{lowercased, normalized, strip_nul, without_nuls};
use vstd::prelude::*;
use vstd::utf8::{
    encode_utf8, encode_utf8_decode_utf8, encode_utf8_valid_utf8, is_ascii_chars,
    is_ascii_chars_encode_utf8, is_char_boundary, is_char_boundary_iff_not_is_continuation_byte,
};

verus! {

/// Of two first records with one key, there is only one.
pub proof fn lemma_first_is_unique(input: Records, i: int, j: int)
    requires
        0 <= i < input.len(),
        0 <= j < input.len(),
        is_first(input, 0, i),
        is_first(input, 0, j),
        input[i].0 == input[j].0,
    ensures
        i == j,
{
    if i < j {
        assert(input[i].0 != input[j].0);
    } else if j < i {
        assert(input[j].0 != input[i].0);
    }
}

/// A source round-trips through a dictionary: the first answer to a lookup
/// of a key of the source is that key with the meaning of the first record
/// of the source that has the key, without its NUL characters.
pub proof fn lemma_lookup_first_meaning(input: Records, sorted: Records, i: int, answers: Records)
    requires
        sorted_first_wins(input, sorted),
        0 <= i < input.len(),
        is_first(input, 0, i),
        answers_agree(sorted, input[i].0, answers),
    ensures
        answers.len() > 0,
        answers[0] == (input[i].0, without_nuls(input[i].1)),
{
    assert(has_key(sorted, input[i].0));
    let k = choose|k: int| 0 <= k < sorted.len() && sorted[k].0 == input[i].0;
    assert(is_first_of(input, sorted[k]));
    let j = choose|j: int| 0 <= j < input.len() && input[j] == sorted[k] && is_first(input, 0, j);
    lemma_first_is_unique(input, i, j);
}

/// The first answer to a lookup of a key of the source carries the meaning
/// of a later record with that key, too, where that record repeats the
/// meaning of the first one.
pub proof fn lemma_lookup_later_meaning(
    input: Records,
    sorted: Records,
    i: int,
    j: int,
    answers: Records,
)
    requires
        sorted_first_wins(input, sorted),
        0 <= i <= j < input.len(),
        is_first(input, 0, i),
        input[i].0 == input[j].0,
        input[i].1 == input[j].1,
        answers_agree(sorted, input[j].0, answers),
    ensures
        answers.len() > 0,
        answers[0] == (input[j].0, without_nuls(input[j].1)),
{
    lemma_lookup_first_meaning(input, sorted, i, answers);
}

/// What all lookups in a dictionary bring to light is what the dictionary
/// holds: a pair of key and meaning is among the answers to some lookup if
/// and only if it is a record of the sorted source, without the NUL
/// characters of its meaning.
pub proof fn lemma_lookups_show_the_records(
    input: Records,
    sorted: Records,
    answers: spec_fn(Seq<char>) -> Records,
)
    requires
        sorted_first_wins(input, sorted),
        forall|key: Seq<char>| answers_agree(sorted, key, #[trigger] answers(key)),
    ensures
        forall|pair: (Seq<char>, Seq<char>)|
            (exists|key: Seq<char>| (#[trigger] answers(key)).contains(pair)) <==> #[trigger] is_answer_of(
                sorted,
                pair,
            ),
{
    assert forall|pair: (Seq<char>, Seq<char>)|
        (exists|key: Seq<char>| (#[trigger] answers(key)).contains(pair)) implies #[trigger] is_answer_of(
        sorted,
        pair,
    ) by {
        let key = choose|key: Seq<char>| (#[trigger] answers(key)).contains(pair);
        let list = answers(key);
        let i = choose|i: int| 0 <= i < list.len() && list[i] == pair;
        assert(is_answer_of(sorted, list[i]));
    }
    assert forall|pair: (Seq<char>, Seq<char>)| #[trigger]
        is_answer_of(sorted, pair) implies (exists|key: Seq<char>|
        (#[trigger] answers(key)).contains(pair)) by {
        let k = choose|k: int|
            0 <= k < sorted.len() && pair == (sorted[k].0, without_nuls(sorted[k].1));
        let found = answers(sorted[k].0);
        assert(answers_agree(sorted, sorted[k].0, found));
        assert(found.len() > 0 && found[0] == pair);
        assert(found.contains(pair));
    }
}

/// A dictionary without records has no answers.
pub proof fn lemma_empty_dictionary(input: Records, sorted: Records, key: Seq<char>, answers: Records)
    requires
        input.len() == 0,
        sorted_first_wins(input, sorted),
        answers_agree(sorted, key, answers),
    ensures
        sorted.len() == 0,
        answers.len() == 0,
{
    if sorted.len() > 0 {
        assert(is_first_of(input, sorted[0]));
    }
    if answers.len() > 0 {
        assert(is_answer_of(sorted, answers[0]));
    }
}

/// Bringing a key into normal form twice gives what doing it once gives,
/// where lowercasing a lowercased text changes nothing and the normal form
/// does not end in NUL.
pub proof fn lemma_normalized_twice(key: Seq<char>)
    requires
        lowercased(normalized(key)) == normalized(key),
        normalized(key).len() == 0 || normalized(key).last() != '\0',
    ensures
        normalized(normalized(key)) == normalized(key),
{
    assert(strip_nul(normalized(key)) == normalized(key));
}

/// Dropping the NUL characters of a text that has none changes nothing.
pub proof fn lemma_without_nuls_twice(text: Seq<char>)
    ensures
        without_nuls(without_nuls(text)) == without_nuls(text),
    decreases text.len(),
{
    reveal(Seq::filter);
    if text.len() > 0 {
        lemma_without_nuls_twice(text.drop_last());
        let shorter = without_nuls(text.drop_last());
        if text.last() != '\0' {
            assert(without_nuls(text) == shorter.push(text.last()));
            assert(without_nuls(text).drop_last() =~= shorter);
        }
    }
}

/// The meanings of the records that are joined from decoded text hold no NUL
/// characters, where those gathered before hold none.
pub proof fn lemma_joined_meanings_are_clean(
    keys: Seq<(Seq<char>, u64)>,
    meanings: Seq<u8>,
    encoding: TextEncoding,
    i: int,
    acc: Records,
)
    requires
        0 <= i <= keys.len(),
        forall|k: int| 0 <= k < acc.len() ==> without_nuls((#[trigger] acc[k]).1) == acc[k].1,
    ensures
        joined(keys, meanings, encoding, i, acc) matches Ok(records) ==> forall|k: int|
            0 <= k < records.len() ==> without_nuls((#[trigger] records[k]).1) == records[k].1,
    decreases keys.len() - i,
{
    if i < keys.len() {
        let start = keys[i].1 as int;
        let end = if i + 1 < keys.len() {
            keys[i + 1].1 as int
        } else {
            meanings.len() as int
        };
        if start <= end && end <= meanings.len() {
            match decoded_text(encoding, meanings.subrange(start, end)) {
                Some(meaning) => {
                    let next = acc.push((normalized(keys[i].0), meaning));
                    lemma_without_nuls_twice(decoded_raw(encoding, meanings.subrange(start, end)).unwrap());
                    assert forall|k: int| 0 <= k < next.len() implies without_nuls(
                        (#[trigger] next[k]).1,
                    ) == next[k].1 by {
                        if k < acc.len() {
                            assert(next[k] == acc[k]);
                        }
                    }
                    lemma_joined_meanings_are_clean(keys, meanings, encoding, i + 1, next);
                },
                None => {},
            }
        }
    }
}

/// The meanings of the records of an archive hold no NUL characters, so a
/// dictionary that is compiled from them answers with these very meanings.
pub proof fn lemma_parsed_meanings_are_clean(buf: Seq<u8>, option: Option<ParseOption>)
    ensures
        parsed_mdx(buf, option) matches Ok(records) ==> forall|k: int|
            0 <= k < records.len() ==> without_nuls((#[trigger] records[k]).1) == records[k].1,
{
    reveal(records_after_header);
    if parsed_mdx(buf, option) is Ok && option != Some(ParseOption::OnlyHeader) {
        let header = header_meta(buf).unwrap();
        let info = mdx_info(header.0).unwrap();
        let pos = header.1;
        let layout = key_layout(buf, pos, info).unwrap();
        let table_pos = pos + layout_len(info);
        let blocks_pos = table_pos + layout.info_size;
        let table = window(buf, table_pos, layout.info_size as int).unwrap();
        let blob = key_info_blob(table, layout, info).unwrap();
        let infos = info_records(blob, 0, layout.block_count, info, Seq::empty()).unwrap();
        let region = window(buf, blocks_pos, layout.blocks_size as int).unwrap();
        let keys = key_blocks(region, 0, infos, 0, info, Seq::empty()).unwrap();
        let meanings = meaning_bytes(buf, blocks_pos + layout.blocks_size, info).unwrap();
        lemma_joined_meanings_are_clean(keys, meanings, info.encoding, 0, Seq::empty());
    }
}

/// From an archive through a dictionary to the answers: what all lookups in
/// the dictionary of an archive bring to light are the records of the
/// archive in sorted form, no more and no less.
pub proof fn lemma_archive_round_trip(
    buf: Seq<u8>,
    sorted: Records,
    answers: spec_fn(Seq<char>) -> Records,
)
    requires
        parsed_mdx(buf, None) is Ok,
        sorted_first_wins(parsed_mdx(buf, None).unwrap(), sorted),
        forall|key: Seq<char>| answers_agree(sorted, key, #[trigger] answers(key)),
    ensures
        forall|pair: (Seq<char>, Seq<char>)|
            (exists|key: Seq<char>| (#[trigger] answers(key)).contains(pair)) <==> #[trigger] sorted.contains(
                pair,
            ),
{
    let records = parsed_mdx(buf, None).unwrap();
    lemma_parsed_meanings_are_clean(buf, None);
    lemma_lookups_show_the_records(records, sorted, answers);
    assert forall|k: int| 0 <= k < sorted.len() implies without_nuls((#[trigger] sorted[k]).1)
        == sorted[k].1 by {
        assert(is_first_of(records, sorted[k]));
        let i = choose|i: int|
            0 <= i < records.len() && records[i] == sorted[k] && is_first(records, 0, i);
        assert(without_nuls(records[i].1) == records[i].1);
    }
    assert forall|pair: (Seq<char>, Seq<char>)| #[trigger]
        is_answer_of(sorted, pair) <==> sorted.contains(pair) by {
        if is_answer_of(sorted, pair) {
            let k = choose|k: int|
                0 <= k < sorted.len() && pair == (sorted[k].0, without_nuls(sorted[k].1));
            assert(sorted[k] == pair);
        }
        if sorted.contains(pair) {
            let k = choose|k: int| 0 <= k < sorted.len() && sorted[k] == pair;
            assert(pair == (sorted[k].0, without_nuls(sorted[k].1)));
        }
    }
    assert forall|pair: (Seq<char>, Seq<char>)|
        (exists|key: Seq<char>| (#[trigger] answers(key)).contains(pair)) <==> #[trigger] sorted.contains(
            pair,
        ) by {
        assert(is_answer_of(sorted, pair) <==> sorted.contains(pair));
    }
}

/// A text of no more bytes than the cap passes the cap as it is: a meaning
/// of exactly as many bytes as the cap is kept whole, with NUL behind it.
pub proof fn lemma_cap_keeps_what_fits(text: Seq<char>, cap: int)
    requires
        encode_utf8(text).len() <= cap,
    ensures
        capped(text, cap) == text,
        forall|word: Seq<char>| (#[trigger] stanza_record(word, text, cap)).1 == text.push('\0'),
{
}

/// A text of ASCII characters that is longer than the cap is cut to its
/// first `cap` characters: of a meaning one byte too long, the last byte
/// goes, and NUL stands behind the rest.
pub proof fn lemma_cap_cuts_ascii(text: Seq<char>, cap: int)
    requires
        is_ascii_chars(text),
        0 <= cap < text.len(),
    ensures
        capped(text, cap) == text.take(cap),
        forall|word: Seq<char>|
            (#[trigger] stanza_record(word, text, cap)).1 == text.take(cap).push('\0'),
{
    let bytes = encode_utf8(text);
    let head = text.take(cap);
    is_ascii_chars_encode_utf8(text);
    encode_utf8_valid_utf8(text);
    assert(boundary_floor(bytes, cap) == cap) by {
        if cap > 0 {
            is_char_boundary_iff_not_is_continuation_byte(bytes, cap);
            assert(text[cap] as u8 == bytes[cap]);
            assert('\0' <= text[cap] <= '\u{7f}');
            assert(is_char_boundary(bytes, cap));
        }
    }
    assert(is_ascii_chars(head)) by {
        assert forall|i: int| 0 <= i < head.len() implies '\0' <= #[trigger] head[i]
            <= '\u{7f}' by {
            assert(head[i] == text[i]);
        }
    }
    is_ascii_chars_encode_utf8(head);
    assert(bytes.take(cap) =~= encode_utf8(head)) by {
        assert forall|i: int| 0 <= i < cap implies bytes.take(cap)[i] == encode_utf8(head)[i] by {
            assert(head[i] == text[i]);
            assert(head[i] as u8 == encode_utf8(head)[i]);
            assert(text[i] as u8 == bytes[i]);
        }
    }
    encode_utf8_decode_utf8(head);
}

/// Where block `j` of blocks with these sizes starts in their region.
pub open spec fn block_start(sizes: Seq<(u64, u64)>, j: int) -> int
    decreases j,
{
    if j <= 0 {
        0
    } else {
        block_start(sizes, j - 1) + sizes[j - 1].0
    }
}

/// Whether the archive `buf` has a header that is read and says `info`, and
/// its key blocks are not encrypted.
pub open spec fn header_says(buf: Seq<u8>, info: MDXInfo) -> bool {
    &&& header_meta(buf) is Ok
    &&& mdx_info(header_meta(buf).unwrap().0) == Ok::<MDXInfo, WikitError>(info)
    &&& info.encid != 1
}

/// The keys of the archive `buf`, whose header ends at `pos` and says
/// `info`, each with the offset of its meaning, and the position behind the
/// key blocks; `None` where the key layout, the key-block table or the key
/// blocks are not read.
pub open spec fn keys_read(buf: Seq<u8>, pos: int, info: MDXInfo) -> Option<
    (Seq<(Seq<char>, u64)>, int),
> {
    match key_layout(buf, pos, info) {
        Err(_) => None,
        Ok(layout) => {
            let table_pos = pos + layout_len(info);
            let blocks_pos = table_pos + layout.info_size;
            match window(buf, table_pos, layout.info_size as int) {
                None => None,
                Some(table) => match key_info_blob(table, layout, info) {
                    Err(_) => None,
                    Ok(blob) => match info_records(
                        blob,
                        0,
                        layout.block_count,
                        info,
                        Seq::empty(),
                    ) {
                        Err(_) => None,
                        Ok(infos) => match window(buf, blocks_pos, layout.blocks_size as int) {
                            None => None,
                            Some(region) => match key_blocks(
                                region,
                                0,
                                infos,
                                0,
                                info,
                                Seq::empty(),
                            ) {
                                Err(_) => None,
                                Ok(keys) => Some((keys, blocks_pos + layout.blocks_size)),
                            },
                        },
                    },
                },
            }
        },
    }
}

/// Where the meaning section of the archive `buf` starts, whose header ends
/// at `pos` and says `info`: behind the key blocks, where the key layout,
/// the key-block table and the key blocks are read.
pub open spec fn meaning_start(buf: Seq<u8>, pos: int, info: MDXInfo) -> Option<int> {
    match keys_read(buf, pos, info) {
        None => None,
        Some(read) => Some(read.1),
    }
}

/// The sizes of the meaning blocks and the region that holds the blocks, of
/// the meaning section that stands at `at` of `buf`; `None` where they are
/// not read.
pub open spec fn meaning_section_at(buf: Seq<u8>, at: int, info: MDXInfo) -> Option<
    (Seq<(u64, u64)>, Seq<u8>),
> {
    let w = info.integersz as int;
    match (uint_at(buf, at, w), uint_at(buf, at + 3 * w, w)) {
        (Some(count), Some(blocks_size)) => match size_table(
            buf,
            at + 4 * w,
            count,
            w,
            Seq::empty(),
        ) {
            Err(_) => None,
            Ok(sizes) => match window(buf, at + 4 * w + count * 2 * w, blocks_size as int) {
                None => None,
                Some(region) => Some((sizes, region)),
            },
        },
        _ => None,
    }
}

/// Whether block `k` of the first blocks reads as block `k` of the second.
pub open spec fn block_alike(
    first: (Seq<(u64, u64)>, Seq<u8>),
    second: (Seq<(u64, u64)>, Seq<u8>),
    version: u32,
    k: int,
) -> bool {
    block_data(first.1, block_start(first.0, k), first.0[k].0, first.0[k].1, version)
        == block_data(second.1, block_start(second.0, k), second.0[k].0, second.0[k].1, version)
}

/// The first meaning block that is not read fails the blocks, with its own
/// error.
pub proof fn lemma_block_fault_fails_the_blocks(
    region: Seq<u8>,
    sizes: Seq<(u64, u64)>,
    version: u32,
    i: int,
    j: int,
    acc: Seq<u8>,
    error: WikitError,
)
    requires
        0 <= i <= j < sizes.len(),
        forall|k: int|
            0 <= k < j ==> (#[trigger] block_data(
                region,
                block_start(sizes, k),
                sizes[k].0,
                sizes[k].1,
                version,
            )) is Ok,
        block_data(region, block_start(sizes, j), sizes[j].0, sizes[j].1, version) == Err::<
            Seq<u8>,
            WikitError,
        >(error),
    ensures
        meaning_blocks(region, block_start(sizes, i), sizes, i, version, acc) == Err::<
            Seq<u8>,
            WikitError,
        >(error),
    decreases j - i,
{
    if i < j {
        let data = block_data(region, block_start(sizes, i), sizes[i].0, sizes[i].1, version);
        assert(data is Ok);
        assert(block_start(sizes, i + 1) == block_start(sizes, i) + sizes[i].0);
        lemma_block_fault_fails_the_blocks(
            region,
            sizes,
            version,
            i + 1,
            j,
            acc + data.unwrap(),
            error,
        );
    }
}

/// What fails the meaning section fails the parse, where the header and the
/// keys are read.
pub proof fn lemma_meaning_fault_fails_the_parse(
    buf: Seq<u8>,
    info: MDXInfo,
    at: int,
    error: WikitError,
)
    requires
        header_says(buf, info),
        meaning_start(buf, header_meta(buf).unwrap().1, info) == Some(at),
        meaning_bytes(buf, at, info) == Err::<Seq<u8>, WikitError>(error),
    ensures
        parsed_mdx(buf, None) == Err::<Records, WikitError>(error),
{
    reveal(records_after_header);
}

/// A key layout of version 2.0 or later whose checksum does not match fails
/// the parse.
pub proof fn lemma_damaged_layout_fails_the_parse(buf: Seq<u8>, info: MDXInfo)
    requires
        header_says(buf, info),
        info.version >= 20,
        window(buf, header_meta(buf).unwrap().1, 44) is Some,
        adler32_spec(window(buf, header_meta(buf).unwrap().1, 44).unwrap().take(40)) != uint_at(
            window(buf, header_meta(buf).unwrap().1, 44).unwrap(),
            40,
            4,
        ).unwrap(),
    ensures
        parsed_mdx(buf, None) == Err::<Records, WikitError>(WikitError::SourceChecksum),
{
    reveal(records_after_header);
    lemma_wrong_layout_checksum_is_refused(buf, header_meta(buf).unwrap().1, info);
}

/// A meaning block of version 2.0 or later whose data does not have the
/// checksum that the block carries fails the parse, where all before it is
/// read: the header, the keys, the sizes of the meaning blocks and the
/// blocks before it.
pub proof fn lemma_damaged_meaning_block_fails_the_parse(
    buf: Seq<u8>,
    info: MDXInfo,
    at: int,
    sizes: Seq<(u64, u64)>,
    region: Seq<u8>,
    j: int,
)
    requires
        header_says(buf, info),
        info.version >= 20,
        meaning_start(buf, header_meta(buf).unwrap().1, info) == Some(at),
        ({
            let w = info.integersz as int;
            &&& uint_at(buf, at, w) is Some
            &&& uint_at(buf, at + 3 * w, w) is Some
            &&& size_table(buf, at + 4 * w, uint_at(buf, at, w).unwrap(), w, Seq::empty()) == Ok::<
                Seq<(u64, u64)>,
                WikitError,
            >(sizes)
            &&& window(
                buf,
                at + 4 * w + uint_at(buf, at, w).unwrap() * 2 * w,
                uint_at(buf, at + 3 * w, w).unwrap() as int,
            ) == Some(region)
        }),
        0 <= j < sizes.len(),
        forall|k: int|
            0 <= k < j ==> (#[trigger] block_data(
                region,
                block_start(sizes, k),
                sizes[k].0,
                sizes[k].1,
                info.version,
            )) is Ok,
        sizes[j].0 >= 8,
        window(region, block_start(sizes, j), sizes[j].0 as int) is Some,
        ({
            let frame = window(region, block_start(sizes, j), sizes[j].0 as int).unwrap();
            &&& unpacked_payload(le32_at(frame, 0).unwrap(), frame.skip(8), sizes[j].1) is Ok
            &&& adler32_spec(
                unpacked_payload(le32_at(frame, 0).unwrap(), frame.skip(8), sizes[j].1).unwrap(),
            ) != uint_at(frame, 4, 4).unwrap()
        }),
    ensures
        parsed_mdx(buf, None) == Err::<Records, WikitError>(WikitError::SourceChecksum),
{
    lemma_wrong_checksum_is_refused(
        region,
        block_start(sizes, j),
        sizes[j].0,
        sizes[j].1,
        info.version,
    );
    lemma_block_fault_fails_the_blocks(
        region,
        sizes,
        info.version,
        0,
        j,
        Seq::empty(),
        WikitError::SourceChecksum,
    );
    lemma_meaning_fault_fails_the_parse(buf, info, at, WikitError::SourceChecksum);
}

/// Where key block `j` of the blocks that `infos` describe starts in their
/// region.
pub open spec fn key_block_start(infos: Seq<BlockInfo>, j: int) -> int
    decreases j,
{
    if j <= 0 {
        0
    } else {
        key_block_start(infos, j - 1) + infos[j - 1].packed
    }
}

/// Key blocks start one behind the other.
pub proof fn lemma_key_block_starts_ascend(infos: Seq<BlockInfo>, i: int, j: int)
    requires
        0 <= i <= j,
    ensures
        key_block_start(infos, i) <= key_block_start(infos, j),
    decreases j - i,
{
    if i < j {
        lemma_key_block_starts_ascend(infos, i, j - 1);
    }
}

/// A key block that is not read fails the key blocks with its own error,
/// where the blocks before it are read.
pub proof fn lemma_block_fault_fails_the_keys(
    region: Seq<u8>,
    infos: Seq<BlockInfo>,
    info: MDXInfo,
    i: int,
    j: int,
    acc: Seq<(Seq<char>, u64)>,
    error: WikitError,
)
    requires
        0 <= i <= j < infos.len(),
        key_blocks(region, key_block_start(infos, i), infos.take(j), i, info, acc) is Ok,
        key_block_start(infos, j) < region.len(),
        block_data(
            region,
            key_block_start(infos, j),
            infos[j].packed,
            infos[j].unpacked,
            info.version,
        ) == Err::<Seq<u8>, WikitError>(error),
    ensures
        key_blocks(region, key_block_start(infos, i), infos, i, info, acc) == Err::<
            Seq<(Seq<char>, u64)>,
            WikitError,
        >(error),
    decreases j - i,
{
    if i < j {
        lemma_key_block_starts_ascend(infos, i, j);
        assert(infos.take(j)[i] == infos[i]);
        assert(key_block_start(infos, i + 1) == key_block_start(infos, i) + infos[i].packed);
        let data = block_data(
            region,
            key_block_start(infos, i),
            infos[i].packed,
            infos[i].unpacked,
            info.version,
        );
        assert(data is Ok);
        let keys = block_keys(data.unwrap(), 0, info, acc);
        assert(keys is Ok);
        lemma_block_fault_fails_the_keys(region, infos, info, i + 1, j, keys.unwrap(), error);
    }
}

/// A key block of version 2.0 or later whose data does not have the
/// checksum that the block carries fails the parse, where all before it is
/// read: the header, the key layout, the key-block table and the key blocks
/// before it.
pub proof fn lemma_damaged_key_block_fails_the_parse(
    buf: Seq<u8>,
    info: MDXInfo,
    infos: Seq<BlockInfo>,
    region: Seq<u8>,
    j: int,
)
    requires
        header_says(buf, info),
        info.version >= 20,
        key_layout(buf, header_meta(buf).unwrap().1, info) is Ok,
        ({
            let pos = header_meta(buf).unwrap().1;
            let layout = key_layout(buf, pos, info).unwrap();
            let table_pos = pos + layout_len(info);
            &&& window(buf, table_pos, layout.info_size as int) is Some
            &&& key_info_blob(
                window(buf, table_pos, layout.info_size as int).unwrap(),
                layout,
                info,
            ) is Ok
            &&& info_records(
                key_info_blob(
                    window(buf, table_pos, layout.info_size as int).unwrap(),
                    layout,
                    info,
                ).unwrap(),
                0,
                layout.block_count,
                info,
                Seq::empty(),
            ) == Ok::<Seq<BlockInfo>, WikitError>(infos)
            &&& window(buf, table_pos + layout.info_size, layout.blocks_size as int) == Some(
                region,
            )
        }),
        0 <= j < infos.len(),
        key_blocks(region, 0, infos.take(j), 0, info, Seq::empty()) is Ok,
        infos[j].packed >= 8,
        window(region, key_block_start(infos, j), infos[j].packed as int) is Some,
        ({
            let frame = window(region, key_block_start(infos, j), infos[j].packed as int).unwrap();
            &&& unpacked_payload(le32_at(frame, 0).unwrap(), frame.skip(8), infos[j].unpacked) is Ok
            &&& adler32_spec(
                unpacked_payload(
                    le32_at(frame, 0).unwrap(),
                    frame.skip(8),
                    infos[j].unpacked,
                ).unwrap(),
            ) != uint_at(frame, 4, 4).unwrap()
        }),
    ensures
        parsed_mdx(buf, None) == Err::<Records, WikitError>(WikitError::SourceChecksum),
{
    reveal(records_after_header);
    lemma_wrong_checksum_is_refused(
        region,
        key_block_start(infos, j),
        infos[j].packed,
        infos[j].unpacked,
        info.version,
    );
    lemma_block_fault_fails_the_keys(
        region,
        infos,
        info,
        0,
        j,
        Seq::empty(),
        WikitError::SourceChecksum,
    );
}

/// The parse of an archive whose header and keys are read is what its
/// meaning section gives: its error, or the keys joined with its meanings.
pub proof fn lemma_parse_joins_keys_and_meanings(
    buf: Seq<u8>,
    info: MDXInfo,
    keys: Seq<(Seq<char>, u64)>,
    at: int,
)
    requires
        header_says(buf, info),
        keys_read(buf, header_meta(buf).unwrap().1, info) == Some((keys, at)),
    ensures
        parsed_mdx(buf, None) == match meaning_bytes(buf, at, info) {
            Err(e) => Err::<Records, WikitError>(e),
            Ok(meanings) => joined(keys, meanings, info.encoding, 0, Seq::empty()),
        },
{
    reveal(records_after_header);
}

/// Blocks that read alike one by one give the same data.
pub proof fn lemma_blocks_read_alike(
    first: (Seq<(u64, u64)>, Seq<u8>),
    second: (Seq<(u64, u64)>, Seq<u8>),
    version: u32,
    i: int,
    acc: Seq<u8>,
)
    requires
        first.0.len() == second.0.len(),
        0 <= i <= first.0.len(),
        forall|k: int| 0 <= k < first.0.len() ==> #[trigger] block_alike(first, second, version, k),
    ensures
        meaning_blocks(first.1, block_start(first.0, i), first.0, i, version, acc)
            == meaning_blocks(second.1, block_start(second.0, i), second.0, i, version, acc),
    decreases first.0.len() - i,
{
    if i < first.0.len() {
        assert(block_alike(first, second, version, i));
        assert(block_start(first.0, i + 1) == block_start(first.0, i) + first.0[i].0);
        assert(block_start(second.0, i + 1) == block_start(second.0, i) + second.0[i].0);
        let data = block_data(first.1, block_start(first.0, i), first.0[i].0, first.0[i].1, version);
        if data is Ok {
            lemma_blocks_read_alike(first, second, version, i + 1, acc + data.unwrap());
        }
    }
}

/// Two archives with the same header and the same keys, whose meaning
/// blocks read alike one by one, parse alike: to the same records in the
/// same order, or to the same error.
pub proof fn lemma_archives_read_alike(
    one: Seq<u8>,
    other: Seq<u8>,
    info: MDXInfo,
    keys: Seq<(Seq<char>, u64)>,
    at_one: int,
    at_other: int,
)
    requires
        header_says(one, info),
        header_says(other, info),
        keys_read(one, header_meta(one).unwrap().1, info) == Some((keys, at_one)),
        keys_read(other, header_meta(other).unwrap().1, info) == Some((keys, at_other)),
        meaning_section_at(one, at_one, info) is Some,
        meaning_section_at(other, at_other, info) is Some,
        meaning_section_at(one, at_one, info).unwrap().0.len() == meaning_section_at(
            other,
            at_other,
            info,
        ).unwrap().0.len(),
        forall|k: int|
            0 <= k < meaning_section_at(one, at_one, info).unwrap().0.len() ==> #[trigger] block_alike(
                meaning_section_at(one, at_one, info).unwrap(),
                meaning_section_at(other, at_other, info).unwrap(),
                info.version,
                k,
            ),
    ensures
        parsed_mdx(one, None) == parsed_mdx(other, None),
{
    lemma_parse_joins_keys_and_meanings(one, info, keys, at_one);
    lemma_parse_joins_keys_and_meanings(other, info, keys, at_other);
    lemma_blocks_read_alike(
        meaning_section_at(one, at_one, info).unwrap(),
        meaning_section_at(other, at_other, info).unwrap(),
        info.version,
        0,
        Seq::empty(),
    );
}

/// A block reads as its own bytes do, wherever it stands.
pub proof fn lemma_block_is_its_frame(
    region: Seq<u8>,
    pos: int,
    packed: u64,
    unpacked: u64,
    version: u32,
)
    requires
        window(region, pos, packed as int) is Some,
    ensures
        block_data(region, pos, packed, unpacked, version) == block_data(
            window(region, pos, packed as int).unwrap(),
            0,
            packed,
            unpacked,
            version,
        ),
{
    let frame = window(region, pos, packed as int).unwrap();
    assert(window(frame, 0, packed as int) == Some(frame)) by {
        assert(frame.subrange(0, packed as int) =~= frame);
    }
}

/// An archive of version 2.0 or later in which one meaning block is stored
/// raw parses as the archive in which that block is stored as a zlib
/// stream of the same data under the same checksum, where the two have the
/// same header and keys and their other meaning blocks read alike.
pub proof fn lemma_raw_block_parses_as_zlib_block(
    raw: Seq<u8>,
    zlib: Seq<u8>,
    info: MDXInfo,
    keys: Seq<(Seq<char>, u64)>,
    at_raw: int,
    at_zlib: int,
    j: int,
)
    requires
        info.version >= 20,
        header_says(raw, info),
        header_says(zlib, info),
        keys_read(raw, header_meta(raw).unwrap().1, info) == Some((keys, at_raw)),
        keys_read(zlib, header_meta(zlib).unwrap().1, info) == Some((keys, at_zlib)),
        meaning_section_at(raw, at_raw, info) is Some,
        meaning_section_at(zlib, at_zlib, info) is Some,
        ({
            let first = meaning_section_at(raw, at_raw, info).unwrap();
            let second = meaning_section_at(zlib, at_zlib, info).unwrap();
            let plain = window(first.1, block_start(first.0, j), first.0[j].0 as int);
            let packed = window(second.1, block_start(second.0, j), second.0[j].0 as int);
            &&& first.0.len() == second.0.len()
            &&& 0 <= j < first.0.len()
            &&& forall|k: int|
                0 <= k < first.0.len() && k != j ==> #[trigger] block_alike(
                    first,
                    second,
                    info.version,
                    k,
                )
            &&& first.0[j].1 == second.0[j].1
            &&& first.0[j].0 >= 8
            &&& second.0[j].0 >= 8
            &&& plain is Some
            &&& packed is Some
            &&& le32_at(plain.unwrap(), 0) == Some(0u32)
            &&& le32_at(packed.unwrap(), 0) == Some(2u32)
            &&& uint_at(plain.unwrap(), 4, 4) == uint_at(packed.unwrap(), 4, 4)
            &&& zlib_inflated(packed.unwrap().skip(8)) == Some(plain.unwrap().skip(8))
        }),
    ensures
        parsed_mdx(raw, None) == parsed_mdx(zlib, None),
{
    let first = meaning_section_at(raw, at_raw, info).unwrap();
    let second = meaning_section_at(zlib, at_zlib, info).unwrap();
    let plain = window(first.1, block_start(first.0, j), first.0[j].0 as int).unwrap();
    let packed = window(second.1, block_start(second.0, j), second.0[j].0 as int).unwrap();
    lemma_block_is_its_frame(
        first.1,
        block_start(first.0, j),
        first.0[j].0,
        first.0[j].1,
        info.version,
    );
    lemma_block_is_its_frame(
        second.1,
        block_start(second.0, j),
        second.0[j].0,
        second.0[j].1,
        info.version,
    );
    lemma_raw_block_as_zlib_block(plain, packed, first.0[j].1, info.version);
    assert(block_alike(first, second, info.version, j));
    lemma_archives_read_alike(raw, zlib, info, keys, at_raw, at_zlib);
}

} // verus!
