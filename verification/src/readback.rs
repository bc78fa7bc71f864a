//! What the reader of MDX archives makes of an archive that the writer
//! wrote: the records that were written.

use crate::archive::{
    archive_body, block_count, block_end, block_starts, char_units, framed, group_end,
    header_bytes, key_blocks_bytes, key_data, key_layout_bytes, key_record, key_section,
    key_size, key_table, key_table_entry, meaning_blocks_bytes, meaning_data,
    meaning_layout_bytes, meaning_offset, meaning_section, size_table_bytes, table_key,
    units_bytes, utf16_encoded,
};
use crate::bytes::{
    be_bytes, le32_at, le_bytes, le_uint, lemma_be_bytes_len, lemma_pow256_values, pow256,
    uint_at, window,
};
use crate::checksum::{adler32_spec, adler_a, adler_b};
use crate::codec::{decoded_text, pair_char, utf16_decoded, utf16_units, TextEncoding};
use crate::error::WikitError;
use crate::layout::{lemma_uint_middle, lemma_window_middle};
use crate::mdict::{
    block_data, block_keys, header_meta, index_of, info_records, joined, key_blocks,
    key_info_blob, key_layout, mdx_info, meaning_blocks, meaning_bytes, parsed_mdx,
    records_after_header, regex_pairs, size_table, BlockInfo, KeyLayout, MDXInfo,
    ATTRIBUTE_PATTERN,
};
use crate::records::Records;
use crate::util::{normalized, without_nuls};
use vstd::prelude::*;
use vstd::utf8::{encode_utf8, encode_utf8_decode_utf8, encode_utf8_valid_utf8};

verus! {

/// How an archive that the writer wrote is to be read: version 2.0, UTF-8,
/// integers of eight bytes, no encryption.
pub open spec fn written_info() -> MDXInfo {
    MDXInfo { version: 20, encoding: TextEncoding::Utf8, integersz: 8, encid: 0 }
}

/// An Adler-32 checksum fits in four bytes.
pub proof fn lemma_adler32_fits(data: Seq<u8>)
    ensures
        adler32_spec(data) < pow256(4),
        adler_a(data) < 65521,
        adler_b(data) < 65521,
{
    lemma_pow256_values();
    if data.len() > 0 {
        assert(adler_a(data) < 65521);
        assert(adler_b(data) < 65521);
    }
}

/// A block that the writer framed is read as its data, whatever stands
/// around it.
pub proof fn lemma_framed_is_read(
    pre: Seq<u8>,
    data: Seq<u8>,
    post: Seq<u8>,
    unpacked: u64,
    version: u32,
)
    requires
        framed(data).len() <= u64::MAX,
    ensures
        framed(data).len() == data.len() + 8,
        le32_at(framed(data), 0) == Some(0u32),
        window(framed(data), 4, 4) is Some,
        framed(data).skip(8) == data,
        block_data(
            pre + framed(data) + post,
            pre.len() as int,
            framed(data).len() as u64,
            unpacked,
            version,
        ) == Ok::<Seq<u8>, WikitError>(data),
{
    let zeros = seq![0u8, 0u8, 0u8, 0u8];
    let sum = be_bytes(adler32_spec(data), 4);
    let frame = framed(data);
    lemma_adler32_fits(data);
    lemma_be_bytes_len(adler32_spec(data), 4);
    lemma_pow256_values();
    lemma_window_middle(pre, frame, post);
    assert(le32_at(frame, 0) == Some(0u32)) by {
        assert(window(frame, 0, 4).unwrap() =~= zeros);
        reveal_with_fuel(le_uint, 5);
        assert(zeros.drop_first() =~= seq![0u8, 0u8, 0u8]);
        assert(seq![0u8, 0u8, 0u8].drop_first() =~= seq![0u8, 0u8]);
        assert(seq![0u8, 0u8].drop_first() =~= seq![0u8]);
        assert(seq![0u8].drop_first() =~= Seq::<u8>::empty());
    }
    assert(uint_at(frame, 4, 4) == Some(adler32_spec(data) as u64)) by {
        lemma_uint_middle(zeros, adler32_spec(data), 4, data);
    }
    assert(frame.skip(8) =~= data);
}

/// The data of a block, of keys or of meanings.
pub open spec fn block_bytes(records: Records, keys: bool, s: int, e: int) -> Seq<u8> {
    if keys {
        key_data(records, s, e)
    } else {
        meaning_data(records, s, e)
    }
}

/// Whether the size of every block from record `s` on fits in eight bytes.
pub open spec fn blocks_fit(records: Records, keys: bool, s: int) -> bool
    decreases records.len() - s,
{
    block_starts(records, keys, s) ==> framed(
        block_bytes(records, keys, s, block_end(records, keys, s)),
    ).len() <= u64::MAX && blocks_fit(records, keys, block_end(records, keys, s))
}

/// The sizes of the meaning blocks from record `s` on, as stored and as
/// unpacked.
pub open spec fn sizes_from(records: Records, s: int) -> Seq<(u64, u64)>
    decreases records.len() - s,
{
    if block_starts(records, false, s) {
        let e = block_end(records, false, s);
        seq![
            (
                framed(meaning_data(records, s, e)).len() as u64,
                meaning_data(records, s, e).len() as u64,
            ),
        ] + sizes_from(records, e)
    } else {
        Seq::empty()
    }
}

/// There are as many sizes as there are meaning blocks, and the size table
/// has sixteen bytes for each.
pub proof fn lemma_sizes_count(records: Records, s: int)
    ensures
        sizes_from(records, s).len() == block_count(records, false, s),
        size_table_bytes(records, s).len() == 16 * block_count(records, false, s),
    decreases records.len() - s,
{
    if block_starts(records, false, s) {
        let e = block_end(records, false, s);
        lemma_sizes_count(records, e);
        lemma_be_bytes_len(framed(meaning_data(records, s, e)).len(), 8);
        lemma_be_bytes_len(meaning_data(records, s, e).len(), 8);
    }
}

/// The size table that the writer wrote is read as the sizes of the
/// meaning blocks.
pub proof fn lemma_size_table_is_read(
    records: Records,
    s: int,
    pre: Seq<u8>,
    post: Seq<u8>,
    count: u64,
    acc: Seq<(u64, u64)>,
)
    requires
        blocks_fit(records, false, s),
        acc.len() + block_count(records, false, s) == count,
    ensures
        size_table(
            pre + size_table_bytes(records, s) + post,
            pre.len() as int,
            count,
            8,
            acc,
        ) == Ok::<Seq<(u64, u64)>, WikitError>(acc + sizes_from(records, s)),
    decreases records.len() - s,
{
    let buf = pre + size_table_bytes(records, s) + post;
    if block_starts(records, false, s) {
        let e = block_end(records, false, s);
        let data = meaning_data(records, s, e);
        let packed = be_bytes(framed(data).len(), 8);
        let unpacked = be_bytes(data.len(), 8);
        let rest = size_table_bytes(records, e);
        lemma_be_bytes_len(framed(data).len(), 8);
        lemma_be_bytes_len(data.len(), 8);
        lemma_pow256_values();
        assert(uint_at(buf, pre.len() as int, 8) == Some(framed(data).len() as u64)) by {
            lemma_uint_middle(pre, framed(data).len(), 8, unpacked + rest + post);
            assert(buf =~= pre + packed + (unpacked + rest + post));
        }
        assert(uint_at(buf, (pre.len() + 8) as int, 8) == Some(data.len() as u64)) by {
            lemma_uint_middle(pre + packed, data.len(), 8, rest + post);
            assert(buf =~= (pre + packed) + unpacked + (rest + post));
        }
        let next = acc.push((framed(data).len() as u64, data.len() as u64));
        lemma_size_table_is_read(records, e, pre + packed + unpacked, post, count, next);
        assert(buf =~= (pre + packed + unpacked) + rest + post);
        assert(next + sizes_from(records, e) =~= acc + sizes_from(records, s));
    } else {
        assert(acc + sizes_from(records, s) =~= acc);
    }
}

/// The data of the records from `s` up to `e` is that of the records up to
/// `m` and that of the records from `m` on.
pub proof fn lemma_meaning_data_split(records: Records, s: int, m: int, e: int)
    requires
        s <= m <= e,
    ensures
        meaning_data(records, s, e) == meaning_data(records, s, m) + meaning_data(records, m, e),
    decreases m - s,
{
    if s < m {
        lemma_meaning_data_split(records, s + 1, m, e);
        assert(meaning_data(records, s, e) =~= meaning_data(records, s, m) + meaning_data(
            records,
            m,
            e,
        ));
    } else {
        assert(meaning_data(records, s, e) =~= meaning_data(records, s, m) + meaning_data(
            records,
            m,
            e,
        ));
    }
}

/// The meaning blocks that the writer wrote are read as the meanings of the
/// records, one after another.
pub proof fn lemma_meaning_blocks_are_read(
    records: Records,
    s: int,
    pre: Seq<u8>,
    before: Seq<(u64, u64)>,
    acc: Seq<u8>,
)
    requires
        0 <= s <= records.len(),
        blocks_fit(records, false, s),
    ensures
        meaning_blocks(
            pre + meaning_blocks_bytes(records, s),
            pre.len() as int,
            before + sizes_from(records, s),
            before.len() as int,
            20,
            acc,
        ) == Ok::<Seq<u8>, WikitError>(acc + meaning_data(records, s, records.len() as int)),
    decreases records.len() - s,
{
    let region = pre + meaning_blocks_bytes(records, s);
    let sizes = before + sizes_from(records, s);
    if block_starts(records, false, s) {
        let e = block_end(records, false, s);
        let data = meaning_data(records, s, e);
        let rest = meaning_blocks_bytes(records, e);
        let size = (framed(data).len() as u64, data.len() as u64);
        assert(sizes[before.len() as int] == size);
        lemma_framed_is_read(pre, data, rest, data.len() as u64, 20);
        assert(region =~= pre + framed(data) + rest);
        lemma_meaning_blocks_are_read(records, e, pre + framed(data), before.push(size), acc + data);
        assert(region =~= (pre + framed(data)) + rest);
        assert(sizes =~= before.push(size) + sizes_from(records, e));
        lemma_meaning_data_split(records, s, e, records.len() as int);
        assert(acc + data + meaning_data(records, e, records.len() as int) =~= acc + meaning_data(
            records,
            s,
            records.len() as int,
        ));
    } else {
        assert(sizes =~= before);
        lemma_no_block(records, false, s);
        assert(acc + meaning_data(records, s, records.len() as int) =~= acc);
    }
}

/// Blocks end only where the records end.
pub proof fn lemma_no_block(records: Records, keys: bool, s: int)
    requires
        0 <= s <= records.len(),
        !block_starts(records, keys, s),
    ensures
        s == records.len(),
{
    if s < records.len() {
        lemma_group_end(
            records,
            keys,
            s + 1,
            if keys {
                key_size(records, s)
            } else {
                crate::archive::meaning_size(records, s)
            },
        );
    }
}

/// A block ends behind its first record and within the records.
pub proof fn lemma_group_end(records: Records, keys: bool, end: int, total: nat)
    requires
        0 <= end <= records.len(),
    ensures
        end <= group_end(records, keys, end, total) <= records.len(),
    decreases records.len() - end,
{
    let size = if keys {
        key_size(records, end)
    } else {
        crate::archive::meaning_size(records, end)
    };
    if end < records.len() && total + size <= crate::config::MAX_MDX_ITEM_SIZE {
        lemma_group_end(records, keys, end + 1, total + size);
    }
}

/// There are no more blocks than records.
pub proof fn lemma_block_count_bound(records: Records, keys: bool, s: int)
    requires
        0 <= s <= records.len(),
    ensures
        block_count(records, keys, s) <= records.len() - s,
    decreases records.len() - s,
{
    if block_starts(records, keys, s) {
        lemma_block_count_bound(records, keys, block_end(records, keys, s));
    }
}

/// The meaning section that the writer wrote is read as the meanings of the
/// records, one after another.
pub proof fn lemma_meaning_section_is_read(records: Records, pre: Seq<u8>)
    requires
        records.len() <= u64::MAX,
        meaning_blocks_bytes(records, 0).len() <= u64::MAX,
        blocks_fit(records, false, 0),
    ensures
        meaning_bytes(pre + meaning_section(records), pre.len() as int, written_info()) == Ok::<
            Seq<u8>,
            WikitError,
        >(meaning_data(records, 0, records.len() as int)),
{
    let buf = pre + meaning_section(records);
    let count = block_count(records, false, 0);
    let table = size_table_bytes(records, 0);
    let blocks = meaning_blocks_bytes(records, 0);
    let f1 = be_bytes(count, 8);
    let f2 = be_bytes(records.len(), 8);
    let f3 = be_bytes(table.len(), 8);
    let f4 = be_bytes(blocks.len(), 8);
    let layout = meaning_layout_bytes(records);
    let empty = Seq::<u8>::empty();
    let pos = pre.len() as int;
    lemma_be_bytes_len(count, 8);
    lemma_be_bytes_len(records.len(), 8);
    lemma_be_bytes_len(table.len(), 8);
    lemma_be_bytes_len(blocks.len(), 8);
    lemma_pow256_values();
    lemma_block_count_bound(records, false, 0);
    lemma_sizes_count(records, 0);
    assert(layout.len() == 32);
    assert(uint_at(buf, pos, 8) == Some(count as u64)) by {
        lemma_uint_middle(pre, count, 8, f2 + f3 + f4 + table + blocks);
        assert(buf =~= pre + f1 + (f2 + f3 + f4 + table + blocks));
    }
    assert(uint_at(buf, pos + 24, 8) == Some(blocks.len() as u64)) by {
        lemma_uint_middle(pre + f1 + f2 + f3, blocks.len(), 8, table + blocks);
        assert(buf =~= (pre + f1 + f2 + f3) + f4 + (table + blocks));
    }
    assert(size_table(buf, pos + 32, count as u64, 8, Seq::empty()) == Ok::<
        Seq<(u64, u64)>,
        WikitError,
    >(sizes_from(records, 0))) by {
        lemma_size_table_is_read(records, 0, pre + layout, blocks, count as u64, Seq::empty());
        assert(buf =~= (pre + layout) + table + blocks);
        assert(Seq::<(u64, u64)>::empty() + sizes_from(records, 0) =~= sizes_from(records, 0));
    }
    assert(window(buf, pos + 32 + count * 2 * 8, blocks.len() as int) == Some(blocks)) by {
        lemma_window_middle(pre + layout + table, blocks, empty);
        assert(buf =~= (pre + layout + table) + blocks + empty);
        assert(count * 2 * 8 == 16 * count) by (nonlinear_arith);
    }
    assert(meaning_blocks(blocks, 0, sizes_from(records, 0), 0, 20, Seq::empty()) == Ok::<
        Seq<u8>,
        WikitError,
    >(meaning_data(records, 0, records.len() as int))) by {
        lemma_meaning_blocks_are_read(records, 0, empty, Seq::empty(), empty);
        assert(empty + blocks =~= blocks);
        assert(Seq::<(u64, u64)>::empty() + sizes_from(records, 0) =~= sizes_from(records, 0));
        assert(empty + meaning_data(records, 0, records.len() as int) =~= meaning_data(
            records,
            0,
            records.len() as int,
        ));
    }
}

/// Whether the key of record `i` holds no zero byte, so that the NUL behind
/// it is the first.
pub open spec fn key_without_zero(records: Records, i: int) -> bool {
    forall|j: int| 0 <= j < encode_utf8(records[i].0).len() ==> encode_utf8(records[i].0)[j] != 0
}

/// The keys of the records from `s` up to `e` as they are read: without NUL
/// characters, each with the offset of its meaning.
pub open spec fn keys_from(records: Records, s: int, e: int) -> Seq<(Seq<char>, u64)>
    decreases e - s,
{
    if s >= e {
        Seq::empty()
    } else {
        seq![(without_nuls(records[s].0), meaning_offset(records, s) as u64)] + keys_from(
            records,
            s + 1,
            e,
        )
    }
}

/// The first zero byte behind bytes that are not zero stands right behind
/// them.
pub proof fn lemma_index_of_zero(buf: Seq<u8>, start: int, n: int)
    requires
        0 <= start,
        0 <= n,
        start + n < buf.len(),
        forall|j: int| start <= j < start + n ==> buf[j] != 0,
        buf[start + n] == 0,
    ensures
        index_of(buf, start, 0) == start + n,
    decreases n,
{
    if n > 0 {
        lemma_index_of_zero(buf, start + 1, n - 1);
    }
}

/// The keys of the records from `s` up to `e` are those up to `m` and those
/// from `m` on.
pub proof fn lemma_keys_from_split(records: Records, s: int, m: int, e: int)
    requires
        s <= m <= e,
    ensures
        keys_from(records, s, e) == keys_from(records, s, m) + keys_from(records, m, e),
    decreases m - s,
{
    if s < m {
        lemma_keys_from_split(records, s + 1, m, e);
    }
    assert(keys_from(records, s, e) =~= keys_from(records, s, m) + keys_from(records, m, e));
}

/// The data of a key block that the writer wrote is read as the keys of the
/// block's records with the offsets of their meanings.
pub proof fn lemma_block_keys_are_read(
    records: Records,
    s: int,
    e: int,
    pre: Seq<u8>,
    acc: Seq<(Seq<char>, u64)>,
)
    requires
        0 <= s <= e <= records.len(),
        forall|i: int| s <= i < e ==> key_without_zero(records, i),
        meaning_offset(records, e) <= u64::MAX,
    ensures
        block_keys(pre + key_data(records, s, e), pre.len() as int, written_info(), acc) == Ok::<
            Seq<(Seq<char>, u64)>,
            WikitError,
        >(acc + keys_from(records, s, e)),
    decreases e - s,
{
    let data = pre + key_data(records, s, e);
    let pos = pre.len() as int;
    if s < e {
        let offset = be_bytes(meaning_offset(records, s), 8);
        let key = encode_utf8(records[s].0);
        let nul = seq![0u8];
        let rest = key_data(records, s + 1, e);
        let start = pos + 8;
        crate::archive::lemma_meaning_offset_grows(records, s, e);
        crate::archive::lemma_meaning_offset_grows(records, s + 1, e);
        lemma_be_bytes_len(meaning_offset(records, s), 8);
        lemma_pow256_values();
        assert(data =~= pre + offset + (key + nul + rest));
        assert(uint_at(data, pos, 8) == Some(meaning_offset(records, s) as u64)) by {
            lemma_uint_middle(pre, meaning_offset(records, s), 8, key + nul + rest);
        }
        assert(index_of(data, start, 0) == start + key.len()) by {
            assert(key_without_zero(records, s));
            assert forall|j: int| start <= j < start + key.len() implies data[j] != 0 by {
                assert(data[j] == key[j - start]);
            }
            assert(data[start + key.len()] == 0u8);
            lemma_index_of_zero(data, start, key.len() as int);
        }
        assert(data.subrange(start, start + key.len()) =~= key);
        assert(decoded_text(TextEncoding::Utf8, key) == Some(without_nuls(records[s].0))) by {
            encode_utf8_valid_utf8(records[s].0);
            encode_utf8_decode_utf8(records[s].0);
        }
        let next = acc.push((without_nuls(records[s].0), meaning_offset(records, s) as u64));
        lemma_block_keys_are_read(records, s + 1, e, pre + key_record(records, s), next);
        assert(data =~= (pre + key_record(records, s)) + rest);
        assert(next + keys_from(records, s + 1, e) =~= acc + keys_from(records, s, e));
    } else {
        assert(data =~= pre);
        assert(acc + keys_from(records, s, e) =~= acc);
    }
}

/// What the key-block table says of the key blocks from record `s` on.
pub open spec fn infos_from(records: Records, s: int) -> Seq<BlockInfo>
    decreases records.len() - s,
{
    if block_starts(records, true, s) {
        let e = block_end(records, true, s);
        seq![
            BlockInfo {
                entries: (e - s) as u64,
                packed: framed(key_data(records, s, e)).len() as u64,
                unpacked: key_data(records, s, e).len() as u64,
            },
        ] + infos_from(records, e)
    } else {
        Seq::empty()
    }
}

/// The table has an entry for each key block.
pub proof fn lemma_infos_count(records: Records, s: int)
    ensures
        infos_from(records, s).len() == block_count(records, true, s),
    decreases records.len() - s,
{
    if block_starts(records, true, s) {
        lemma_infos_count(records, block_end(records, true, s));
    }
}

/// A key of the key-block table is passed over by its size, whatever stands
/// around it.
pub proof fn lemma_table_key_is_read(pre: Seq<u8>, key: Seq<char>, post: Seq<u8>)
    requires
        encode_utf8(key).len() <= u16::MAX,
    ensures
        uint_at(pre + table_key(key) + post, pre.len() as int, 2) == Some(
            encode_utf8(key).len() as u64,
        ),
        table_key(key).len() == encode_utf8(key).len() + 3,
{
    let bytes = encode_utf8(key);
    let size = be_bytes(bytes.len(), 2);
    lemma_be_bytes_len(bytes.len(), 2);
    lemma_pow256_values();
    lemma_uint_middle(pre, bytes.len(), 2, bytes + seq![0u8] + post);
    assert(pre + table_key(key) + post =~= pre + size + (bytes + seq![0u8] + post));
}

/// The entry of a key-block table: the number of keys of a block, its first
/// and its last key, and its size as stored and as unpacked.
pub open spec fn table_entry(n: nat, first: Seq<char>, last: Seq<char>, p: nat, u: nat) -> Seq<u8> {
    be_bytes(n, 8) + table_key(first) + table_key(last) + be_bytes(p, 8) + be_bytes(u, 8)
}

/// The fields of an entry of the key-block table are read where the reader
/// looks for them, whatever stands around the entry.
pub proof fn lemma_table_entry_is_read(
    pre: Seq<u8>,
    n: nat,
    first: Seq<char>,
    last: Seq<char>,
    p: nat,
    u: nat,
    post: Seq<u8>,
)
    requires
        n <= u64::MAX,
        p <= u64::MAX,
        u <= u64::MAX,
        encode_utf8(first).len() <= u16::MAX,
        encode_utf8(last).len() <= u16::MAX,
    ensures
        ({
            let blob = pre + table_entry(n, first, last, p, u) + post;
            let pos = pre.len() as int;
            let l1 = encode_utf8(first).len() as int;
            let l2 = encode_utf8(last).len() as int;
            &&& uint_at(blob, pos, 8) == Some(n as u64)
            &&& uint_at(blob, pos + 8, 2) == Some(l1 as u64)
            &&& uint_at(blob, pos + 11 + l1, 2) == Some(l2 as u64)
            &&& uint_at(blob, pos + 14 + l1 + l2, 8) == Some(p as u64)
            &&& uint_at(blob, pos + 22 + l1 + l2, 8) == Some(u as u64)
            &&& table_entry(n, first, last, p, u).len() == 30 + l1 + l2
        }),
{
    let blob = pre + table_entry(n, first, last, p, u) + post;
    let entries = be_bytes(n, 8);
    let k1 = table_key(first);
    let k2 = table_key(last);
    let packed = be_bytes(p, 8);
    let unpacked = be_bytes(u, 8);
    lemma_be_bytes_len(n, 8);
    lemma_be_bytes_len(p, 8);
    lemma_be_bytes_len(u, 8);
    lemma_pow256_values();
    lemma_table_key_is_read(pre + entries, first, k2 + packed + unpacked + post);
    lemma_table_key_is_read(pre + entries + k1, last, packed + unpacked + post);
    assert(uint_at(blob, pre.len() as int, 8) == Some(n as u64)) by {
        lemma_uint_middle(pre, n, 8, k1 + k2 + packed + unpacked + post);
        assert(blob =~= pre + entries + (k1 + k2 + packed + unpacked + post));
    }
    assert(blob =~= (pre + entries) + k1 + (k2 + packed + unpacked + post));
    assert(blob =~= (pre + entries + k1) + k2 + (packed + unpacked + post));
    assert(uint_at(blob, (pre + entries + k1 + k2).len() as int, 8) == Some(p as u64)) by {
        lemma_uint_middle(pre + entries + k1 + k2, p, 8, unpacked + post);
        assert(blob =~= (pre + entries + k1 + k2) + packed + (unpacked + post));
    }
    assert(uint_at(blob, (pre + entries + k1 + k2 + packed).len() as int, 8) == Some(u as u64)) by {
        lemma_uint_middle(pre + entries + k1 + k2 + packed, u, 8, post);
        assert(blob =~= (pre + entries + k1 + k2 + packed) + unpacked + post);
    }
}

/// What the reader makes of one entry of the key-block table: it goes on
/// behind the entry with what the entry says.
pub proof fn lemma_info_record_step(
    blob: Seq<u8>,
    pos: int,
    count: u64,
    acc: Seq<BlockInfo>,
    n: u64,
    l1: u64,
    l2: u64,
    p: u64,
    u: u64,
)
    requires
        acc.len() < count,
        uint_at(blob, pos, 8) == Some(n),
        uint_at(blob, pos + 8, 2) == Some(l1),
        uint_at(blob, pos + 11 + l1, 2) == Some(l2),
        uint_at(blob, pos + 14 + l1 + l2, 8) == Some(p),
        uint_at(blob, pos + 22 + l1 + l2, 8) == Some(u),
    ensures
        info_records(blob, pos, count, written_info(), acc) == info_records(
            blob,
            pos + 30 + l1 + l2,
            count,
            written_info(),
            acc.push(BlockInfo { entries: n, packed: p, unpacked: u }),
        ),
{
}

/// The key-block table that the writer wrote is read as what it says of
/// the key blocks.
pub proof fn lemma_key_table_is_read(
    records: Records,
    s: int,
    pre: Seq<u8>,
    count: u64,
    acc: Seq<BlockInfo>,
)
    requires
        0 <= s <= records.len(),
        records.len() <= u64::MAX,
        blocks_fit(records, true, s),
        forall|i: int| 0 <= i < records.len() ==> #[trigger] key_size(records, i) <= u16::MAX,
        acc.len() + block_count(records, true, s) == count,
    ensures
        info_records(pre + key_table(records, s), pre.len() as int, count, written_info(), acc)
            == Ok::<Seq<BlockInfo>, WikitError>(acc + infos_from(records, s)),
    decreases records.len() - s,
{
    let blob = pre + key_table(records, s);
    let pos = pre.len() as int;
    if block_starts(records, true, s) {
        let e = block_end(records, true, s);
        let data = key_data(records, s, e);
        let rest = key_table(records, e);
        let entry = key_table_entry(records, s, e);
        let info = BlockInfo {
            entries: (e - s) as u64,
            packed: framed(data).len() as u64,
            unpacked: data.len() as u64,
        };
        assert(key_size(records, s) <= u16::MAX);
        assert(key_size(records, e - 1) <= u16::MAX);
        assert(entry == table_entry(
            (e - s) as nat,
            records[s].0,
            records[e - 1].0,
            framed(data).len(),
            data.len(),
        ));
        lemma_table_entry_is_read(
            pre,
            (e - s) as nat,
            records[s].0,
            records[e - 1].0,
            framed(data).len(),
            data.len(),
            rest,
        );
        assert(blob =~= pre + entry + rest);
        lemma_info_record_step(
            blob,
            pos,
            count,
            acc,
            (e - s) as u64,
            key_size(records, s) as u64,
            key_size(records, e - 1) as u64,
            framed(data).len() as u64,
            data.len() as u64,
        );
        lemma_key_table_is_read(records, e, pre + entry, count, acc.push(info));
        assert(blob =~= (pre + entry) + rest);
        assert(acc.push(info) + infos_from(records, e) =~= acc + infos_from(records, s));
    } else {
        assert(acc + infos_from(records, s) =~= acc);
    }
}

/// The key blocks that the writer wrote are read as the keys of the records
/// with the offsets of their meanings.
pub proof fn lemma_key_blocks_are_read(
    records: Records,
    s: int,
    pre: Seq<u8>,
    before: Seq<BlockInfo>,
    acc: Seq<(Seq<char>, u64)>,
)
    requires
        0 <= s <= records.len(),
        blocks_fit(records, true, s),
        forall|i: int| 0 <= i < records.len() ==> key_without_zero(records, i),
        meaning_offset(records, records.len() as int) <= u64::MAX,
    ensures
        key_blocks(
            pre + key_blocks_bytes(records, s),
            pre.len() as int,
            before + infos_from(records, s),
            before.len() as int,
            written_info(),
            acc,
        ) == Ok::<Seq<(Seq<char>, u64)>, WikitError>(
            acc + keys_from(records, s, records.len() as int),
        ),
    decreases records.len() - s,
{
    let region = pre + key_blocks_bytes(records, s);
    let infos = before + infos_from(records, s);
    if block_starts(records, true, s) {
        let e = block_end(records, true, s);
        let data = key_data(records, s, e);
        let rest = key_blocks_bytes(records, e);
        let info = BlockInfo {
            entries: (e - s) as u64,
            packed: framed(data).len() as u64,
            unpacked: data.len() as u64,
        };
        assert(infos[before.len() as int] == info);
        lemma_framed_is_read(pre, data, rest, data.len() as u64, 20);
        assert(region =~= pre + framed(data) + rest);
        crate::archive::lemma_meaning_offset_grows(records, e, records.len() as int);
        lemma_block_keys_are_read(records, s, e, Seq::empty(), acc);
        assert(Seq::<u8>::empty() + data =~= data);
        lemma_key_blocks_are_read(
            records,
            e,
            pre + framed(data),
            before.push(info),
            acc + keys_from(records, s, e),
        );
        assert(region =~= (pre + framed(data)) + rest);
        assert(infos =~= before.push(info) + infos_from(records, e));
        lemma_keys_from_split(records, s, e, records.len() as int);
        assert(acc + keys_from(records, s, e) + keys_from(records, e, records.len() as int) =~= acc
            + keys_from(records, s, records.len() as int));
    } else {
        lemma_no_block(records, true, s);
        assert(infos =~= before);
        assert(region =~= pre);
        assert(acc + keys_from(records, s, records.len() as int) =~= acc);
    }
}

/// The records as they are read back from an archive, from record `s` on:
/// each key without NUL characters and in normal form, each meaning without
/// NUL characters.
pub open spec fn read_back(records: Records, s: int) -> Records
    decreases records.len() - s,
{
    if s < 0 || s >= records.len() {
        Seq::empty()
    } else {
        seq![(normalized(without_nuls(records[s].0)), without_nuls(records[s].1))] + read_back(
            records,
            s + 1,
        )
    }
}

/// The keys that are read stand at the places of their records.
pub proof fn lemma_keys_from_index(records: Records, s: int, e: int, i: int)
    requires
        s <= i < e,
    ensures
        keys_from(records, s, e).len() == e - s,
        keys_from(records, s, e)[i - s] == (
            without_nuls(records[i].0),
            meaning_offset(records, i) as u64,
        ),
    decreases e - s,
{
    lemma_keys_from_len(records, s + 1, e);
    if s < i {
        lemma_keys_from_index(records, s + 1, e, i);
        assert(keys_from(records, s, e)[i - s] == keys_from(records, s + 1, e)[i - s - 1]);
    }
}

/// There is a key for each record.
pub proof fn lemma_keys_from_len(records: Records, s: int, e: int)
    ensures
        keys_from(records, s, e).len() == if s < e {
            e - s
        } else {
            0
        },
    decreases e - s,
{
    if s < e {
        lemma_keys_from_len(records, s + 1, e);
    }
}

/// The meanings of the records from `s` up to `e` have as many bytes as
/// lie between their offsets.
pub proof fn lemma_meaning_data_len(records: Records, s: int, e: int)
    requires
        0 <= s <= e,
    ensures
        meaning_data(records, s, e).len() == meaning_offset(records, e) - meaning_offset(
            records,
            s,
        ),
    decreases e - s,
{
    if s < e {
        lemma_meaning_data_len(records, s, e - 1);
        lemma_meaning_data_split(records, s, e - 1, e);
        assert(meaning_data(records, e - 1, e) =~= encode_utf8(records[e - 1].1)) by {
            assert(meaning_data(records, e, e) =~= Seq::<u8>::empty());
        }
    }
}

/// The meaning of a record lies between its offset and the next among the
/// meanings of all records.
pub proof fn lemma_meaning_slice(records: Records, i: int)
    requires
        0 <= i < records.len(),
    ensures
        meaning_offset(records, i + 1) <= meaning_data(records, 0, records.len() as int).len(),
        meaning_data(records, 0, records.len() as int).subrange(
            meaning_offset(records, i) as int,
            meaning_offset(records, i + 1) as int,
        ) == encode_utf8(records[i].1),
{
    let len = records.len() as int;
    lemma_meaning_data_split(records, 0, i, len);
    lemma_meaning_data_split(records, i, i + 1, len);
    lemma_meaning_data_len(records, 0, i);
    lemma_meaning_data_len(records, 0, len);
    lemma_meaning_data_len(records, i, i + 1);
    crate::archive::lemma_meaning_offset_grows(records, i + 1, len);
    assert(meaning_data(records, i, i + 1) =~= encode_utf8(records[i].1)) by {
        assert(meaning_data(records, i + 1, i + 1) =~= Seq::<u8>::empty());
    }
    assert(meaning_data(records, 0, len) =~= meaning_data(records, 0, i) + encode_utf8(
        records[i].1,
    ) + meaning_data(records, i + 1, len));
    assert(meaning_data(records, 0, len).subrange(
        meaning_offset(records, i) as int,
        meaning_offset(records, i + 1) as int,
    ) =~= encode_utf8(records[i].1));
}

/// The keys and the meanings that are read from a written archive are
/// joined into the records that were written.
pub proof fn lemma_records_are_joined(records: Records, i: int, acc: Records)
    requires
        0 <= i <= records.len(),
        meaning_offset(records, records.len() as int) <= u64::MAX,
    ensures
        joined(
            keys_from(records, 0, records.len() as int),
            meaning_data(records, 0, records.len() as int),
            TextEncoding::Utf8,
            i,
            acc,
        ) == Ok::<Records, WikitError>(acc + read_back(records, i)),
    decreases records.len() - i,
{
    let len = records.len() as int;
    let keys = keys_from(records, 0, len);
    let meanings = meaning_data(records, 0, len);
    lemma_keys_from_len(records, 0, len);
    if i < len {
        lemma_keys_from_index(records, 0, len, i);
        lemma_meaning_slice(records, i);
        lemma_meaning_data_len(records, 0, len);
        crate::archive::lemma_meaning_offset_grows(records, i, len);
        crate::archive::lemma_meaning_offset_grows(records, i + 1, len);
        crate::archive::lemma_meaning_offset_grows(records, i, i + 1);
        if i + 1 < len {
            lemma_keys_from_index(records, 0, len, i + 1);
        }
        let start = meaning_offset(records, i) as int;
        let end = meaning_offset(records, i + 1) as int;
        assert(keys[i].1 as int == start);
        assert(decoded_text(TextEncoding::Utf8, meanings.subrange(start, end)) == Some(
            without_nuls(records[i].1),
        )) by {
            encode_utf8_valid_utf8(records[i].1);
            encode_utf8_decode_utf8(records[i].1);
        }
        let next = acc.push((normalized(without_nuls(records[i].0)), without_nuls(records[i].1)));
        lemma_records_are_joined(records, i + 1, next);
        assert(next + read_back(records, i + 1) =~= acc + read_back(records, i));
    } else {
        assert(acc + read_back(records, i) =~= acc);
    }
}

/// The blocks of keys, or of meanings, from record `s` on.
pub open spec fn blocks_bytes(records: Records, keys: bool, s: int) -> Seq<u8> {
    if keys {
        key_blocks_bytes(records, s)
    } else {
        meaning_blocks_bytes(records, s)
    }
}

/// Where all blocks together fit in eight bytes, each of them does.
pub proof fn lemma_blocks_fit(records: Records, keys: bool, s: int)
    requires
        blocks_bytes(records, keys, s).len() <= u64::MAX,
    ensures
        blocks_fit(records, keys, s),
    decreases records.len() - s,
{
    if block_starts(records, keys, s) {
        lemma_blocks_fit(records, keys, block_end(records, keys, s));
    }
}

/// Whether no key of `records` holds a zero byte.
pub open spec fn keys_without_zero(records: Records) -> bool {
    forall|i: int| 0 <= i < records.len() ==> key_without_zero(records, i)
}

/// Whether an archive that holds `records` can be read back: the sizes fit
/// their fields, and no key holds a zero byte.
pub open spec fn readable(records: Records) -> bool {
    &&& records.len() <= u64::MAX
    &&& forall|i: int| 0 <= i < records.len() ==> #[trigger] key_size(records, i) <= u16::MAX
    &&& keys_without_zero(records)
    &&& meaning_offset(records, records.len() as int) <= u64::MAX
    &&& framed(key_table(records, 0)).len() <= u64::MAX
    &&& key_blocks_bytes(records, 0).len() <= u64::MAX
    &&& meaning_blocks_bytes(records, 0).len() <= u64::MAX
}

/// The key layout that the writer wrote is read as the counts and sizes of
/// the key section.
pub proof fn lemma_key_layout_is_read(records: Records, pre: Seq<u8>, post: Seq<u8>)
    requires
        readable(records),
    ensures
        key_layout_bytes(records).len() == 40,
        key_layout(
            pre + key_layout_bytes(records) + be_bytes(adler32_spec(key_layout_bytes(records)), 4)
                + post,
            pre.len() as int,
            written_info(),
        ) == Ok::<KeyLayout, WikitError>(
            KeyLayout {
                block_count: block_count(records, true, 0) as u64,
                key_count: records.len() as u64,
                info_unpacked: key_table(records, 0).len() as u64,
                info_size: framed(key_table(records, 0)).len() as u64,
                blocks_size: key_blocks_bytes(records, 0).len() as u64,
            },
        ),
{
    let layout = key_layout_bytes(records);
    let sum = be_bytes(adler32_spec(layout), 4);
    let buf = pre + layout + sum + post;
    let block = layout + sum;
    let f1 = be_bytes(block_count(records, true, 0), 8);
    let f2 = be_bytes(records.len(), 8);
    let f3 = be_bytes(key_table(records, 0).len(), 8);
    let f4 = be_bytes(framed(key_table(records, 0)).len(), 8);
    let f5 = be_bytes(key_blocks_bytes(records, 0).len(), 8);
    let empty = Seq::<u8>::empty();
    lemma_be_bytes_len(block_count(records, true, 0), 8);
    lemma_be_bytes_len(records.len(), 8);
    lemma_be_bytes_len(key_table(records, 0).len(), 8);
    lemma_be_bytes_len(framed(key_table(records, 0)).len(), 8);
    lemma_be_bytes_len(key_blocks_bytes(records, 0).len(), 8);
    lemma_be_bytes_len(adler32_spec(layout), 4);
    lemma_be_bytes_len(adler32_spec(key_table(records, 0)), 4);
    lemma_adler32_fits(layout);
    lemma_pow256_values();
    lemma_block_count_bound(records, true, 0);
    assert(window(buf, pre.len() as int, 44) == Some(block)) by {
        lemma_window_middle(pre, block, post);
        assert(buf =~= pre + block + post);
    }
    assert(block.take(40) =~= layout);
    assert(uint_at(block, 40, 4) == Some(adler32_spec(layout) as u64)) by {
        lemma_uint_middle(layout, adler32_spec(layout), 4, empty);
        assert(block =~= layout + sum + empty);
    }
    assert(uint_at(block, 0, 8) == Some(block_count(records, true, 0) as u64)) by {
        lemma_uint_middle(empty, block_count(records, true, 0), 8, f2 + f3 + f4 + f5 + sum);
        assert(block =~= empty + f1 + (f2 + f3 + f4 + f5 + sum));
    }
    assert(uint_at(block, 8, 8) == Some(records.len() as u64)) by {
        lemma_uint_middle(f1, records.len(), 8, f3 + f4 + f5 + sum);
        assert(block =~= f1 + f2 + (f3 + f4 + f5 + sum));
    }
    assert(uint_at(block, 16, 8) == Some(key_table(records, 0).len() as u64)) by {
        lemma_uint_middle(f1 + f2, key_table(records, 0).len(), 8, f4 + f5 + sum);
        assert(block =~= (f1 + f2) + f3 + (f4 + f5 + sum));
    }
    assert(uint_at(block, 24, 8) == Some(framed(key_table(records, 0)).len() as u64)) by {
        lemma_uint_middle(f1 + f2 + f3, framed(key_table(records, 0)).len(), 8, f5 + sum);
        assert(block =~= (f1 + f2 + f3) + f4 + (f5 + sum));
    }
    assert(uint_at(block, 32, 8) == Some(key_blocks_bytes(records, 0).len() as u64)) by {
        lemma_uint_middle(f1 + f2 + f3 + f4, key_blocks_bytes(records, 0).len(), 8, sum);
        assert(block =~= (f1 + f2 + f3 + f4) + f5 + sum);
    }
}

/// The counts and sizes of the key section of the archive that holds
/// `records`.
pub open spec fn layout_of(records: Records) -> KeyLayout {
    KeyLayout {
        block_count: block_count(records, true, 0) as u64,
        key_count: records.len() as u64,
        info_unpacked: key_table(records, 0).len() as u64,
        info_size: framed(key_table(records, 0)).len() as u64,
        blocks_size: key_blocks_bytes(records, 0).len() as u64,
    }
}

/// The key-block table and the key blocks of a written archive lie where
/// the key layout says.
pub proof fn lemma_key_section_parts(records: Records, pre: Seq<u8>, post: Seq<u8>)
    requires
        readable(records),
    ensures
        ({
            let buf = pre + key_section(records) + post;
            let table_pos = pre.len() as int + 44;
            let blocks_pos = table_pos + framed(key_table(records, 0)).len();
            &&& key_layout(buf, pre.len() as int, written_info()) == Ok::<KeyLayout, WikitError>(
                layout_of(records),
            )
            &&& window(buf, table_pos, framed(key_table(records, 0)).len() as int) == Some(
                framed(key_table(records, 0)),
            )
            &&& window(buf, blocks_pos, key_blocks_bytes(records, 0).len() as int) == Some(
                key_blocks_bytes(records, 0),
            )
            &&& (pre + key_section(records)).len() == blocks_pos + key_blocks_bytes(records, 0).len()
        }),
{
    let buf = pre + key_section(records) + post;
    let layout_bytes = key_layout_bytes(records);
    let sum = be_bytes(adler32_spec(layout_bytes), 4);
    let table_block = framed(key_table(records, 0));
    let blocks = key_blocks_bytes(records, 0);
    lemma_key_layout_is_read(records, pre, table_block + blocks + post);
    lemma_be_bytes_len(adler32_spec(layout_bytes), 4);
    assert(buf =~= pre + layout_bytes + sum + (table_block + blocks + post));
    assert(window(buf, pre.len() as int + 44, table_block.len() as int) == Some(table_block)) by {
        lemma_window_middle(pre + layout_bytes + sum, table_block, blocks + post);
        assert(buf =~= (pre + layout_bytes + sum) + table_block + (blocks + post));
    }
    assert(window(buf, pre.len() as int + 44 + table_block.len(), blocks.len() as int) == Some(
        blocks,
    )) by {
        lemma_window_middle(pre + layout_bytes + sum + table_block, blocks, post);
        assert(buf =~= (pre + layout_bytes + sum + table_block) + blocks + post);
    }
}

/// The key-block table and the key blocks of a written archive are read as
/// what the table says and as the keys of the records.
pub proof fn lemma_key_section_is_read(records: Records)
    requires
        readable(records),
    ensures
        key_info_blob(framed(key_table(records, 0)), layout_of(records), written_info()) == Ok::<
            Seq<u8>,
            WikitError,
        >(key_table(records, 0)),
        info_records(
            key_table(records, 0),
            0,
            layout_of(records).block_count,
            written_info(),
            Seq::empty(),
        ) == Ok::<Seq<BlockInfo>, WikitError>(infos_from(records, 0)),
        key_blocks(
            key_blocks_bytes(records, 0),
            0,
            infos_from(records, 0),
            0,
            written_info(),
            Seq::empty(),
        ) == Ok::<Seq<(Seq<char>, u64)>, WikitError>(keys_from(records, 0, records.len() as int)),
{
    let table = key_table(records, 0);
    let blocks = key_blocks_bytes(records, 0);
    let empty = Seq::<u8>::empty();
    let len = records.len() as int;
    lemma_framed_is_read(empty, table, empty, 0, 20);
    lemma_blocks_fit(records, true, 0);
    lemma_block_count_bound(records, true, 0);
    assert(info_records(table, 0, layout_of(records).block_count, written_info(), Seq::empty())
        == Ok::<Seq<BlockInfo>, WikitError>(infos_from(records, 0))) by {
        lemma_key_table_is_read(records, 0, empty, layout_of(records).block_count, Seq::empty());
        assert(empty + table =~= table);
        assert(Seq::<BlockInfo>::empty() + infos_from(records, 0) =~= infos_from(records, 0));
    }
    assert(key_blocks(blocks, 0, infos_from(records, 0), 0, written_info(), Seq::empty()) == Ok::<
        Seq<(Seq<char>, u64)>,
        WikitError,
    >(keys_from(records, 0, len))) by {
        lemma_key_blocks_are_read(records, 0, empty, Seq::empty(), Seq::empty());
        assert(empty + blocks =~= blocks);
        assert(Seq::<BlockInfo>::empty() + infos_from(records, 0) =~= infos_from(records, 0));
        assert(Seq::<(Seq<char>, u64)>::empty() + keys_from(records, 0, len) =~= keys_from(
            records,
            0,
            len,
        ));
    }
}

/// An archive that the writer wrote is read back as the records that were
/// written, in their order: the keys without NUL characters and in normal
/// form, the meanings without NUL characters.
pub proof fn lemma_written_archive_is_read_back(header: Seq<u8>, records: Records)
    requires
        readable(records),
    ensures
        records_after_header(header + archive_body(records), header.len() as int, written_info())
            == Ok::<Records, WikitError>(read_back(records, 0)),
{
    let info = written_info();
    let buf = header + archive_body(records);
    let len = records.len() as int;
    let blocks_end = (header + key_section(records)).len() as int;
    lemma_key_section_parts(records, header, meaning_section(records));
    lemma_key_section_is_read(records);
    assert(buf =~= header + key_section(records) + meaning_section(records));
    assert(meaning_bytes(buf, blocks_end, info) == Ok::<Seq<u8>, WikitError>(
        meaning_data(records, 0, len),
    )) by {
        lemma_blocks_fit(records, false, 0);
        lemma_meaning_section_is_read(records, header + key_section(records));
    }
    assert(joined(
        keys_from(records, 0, len),
        meaning_data(records, 0, len),
        TextEncoding::Utf8,
        0,
        Seq::empty(),
    ) == Ok::<Records, WikitError>(read_back(records, 0))) by {
        lemma_records_are_joined(records, 0, Seq::empty());
        assert(Seq::<(Seq<char>, Seq<char>)>::empty() + read_back(records, 0) =~= read_back(
            records,
            0,
        ));
    }
    reveal(records_after_header);
}

/// The code units of a text are those of its first character and those of
/// the rest.
pub proof fn lemma_utf16_first(text: Seq<char>)
    requires
        text.len() > 0,
    ensures
        utf16_encoded(text) == char_units(text[0]) + utf16_encoded(text.skip(1)),
    decreases text.len(),
{
    if text.len() == 1 {
        assert(text.drop_last() =~= Seq::<char>::empty());
        assert(text.skip(1) =~= Seq::<char>::empty());
        assert(utf16_encoded(text) =~= char_units(text[0]) + utf16_encoded(text.skip(1)));
    } else {
        lemma_utf16_first(text.drop_last());
        assert(text.skip(1).drop_last() =~= text.drop_last().skip(1));
        assert(text.skip(1).last() == text.last());
        assert(text.drop_last()[0] == text[0]);
        assert(utf16_encoded(text) =~= char_units(text[0]) + utf16_encoded(text.skip(1)));
    }
}

/// The code units of a character decode to the character.
pub proof fn lemma_char_units(c: char, rest: Seq<u16>)
    ensures
        utf16_decoded(char_units(c) + rest) == match utf16_decoded(rest) {
            Some(chars) => Some(seq![c] + chars),
            None => None,
        },
{
    let v = c as u32;
    let units = char_units(c) + rest;
    vstd::utf8::char_is_scalar(c);
    vstd::utf8::char_u32_cast(c, v);
    if v < 0x10000 {
        assert(units[0] == v as u16);
        assert((units[0] as u32) as char == c);
        assert(units.skip(1) =~= rest);
    } else {
        let r: u32 = (v - 0x10000) as u32;
        assert(r >> 10 < 0x400 && r & 0x3ff < 0x400 && (r >> 10) * 0x400 + (r & 0x3ff) == r)
            by (bit_vector)
            requires
                r < 0x10_0000,
        ;
        let high = (0xd800 + (r >> 10)) as u16;
        let low = (0xdc00 + (r & 0x3ff)) as u16;
        assert(units[0] == high && units[1] == low);
        assert(pair_char(high, low) == c);
        assert(units.skip(2) =~= rest);
    }
}

/// A text that is encoded in UTF-16 decodes to itself.
pub proof fn lemma_utf16_round_trip(text: Seq<char>)
    ensures
        utf16_decoded(utf16_encoded(text)) == Some(text),
    decreases text.len(),
{
    if text.len() > 0 {
        lemma_utf16_first(text);
        lemma_utf16_round_trip(text.skip(1));
        lemma_char_units(text[0], utf16_encoded(text.skip(1)));
        assert(seq![text[0]] + text.skip(1) =~= text);
    }
}

/// Code units that are written as bytes are read back from the bytes.
pub proof fn lemma_units_round_trip(units: Seq<u16>)
    ensures
        utf16_units(units_bytes(units)) == units,
{
    let bytes = units_bytes(units);
    assert(utf16_units(bytes) =~= units) by {
        assert forall|i: int| 0 <= i < units.len() implies #[trigger] utf16_units(bytes)[i]
            == units[i] by {
            assert(bytes[2 * i] == (units[i] % 256) as u8);
            assert(bytes[2 * i + 1] == (units[i] / 256) as u8);
        }
    }
}

/// Writing a number in four bytes, little-endian, and reading it back gives
/// the number, where it fits in four bytes.
pub proof fn lemma_le_round_trip(x: nat, n: nat)
    requires
        x < pow256(n),
    ensures
        le_bytes(x, n).len() == n,
        le_uint(le_bytes(x, n)) == x,
    decreases n,
{
    if n > 0 {
        lemma_le_round_trip(x / 256, (n - 1) as nat);
        assert(le_bytes(x, n).drop_first() =~= le_bytes(x / 256, (n - 1) as nat));
    }
}

/// The parts of a written header lie where the reader looks for them: the
/// size of the text, the text, and its checksum.
pub proof fn lemma_header_parts(text: Seq<char>, post: Seq<u8>)
    requires
        units_bytes(utf16_encoded(text)).len() <= u32::MAX,
    ensures
        ({
            let body = units_bytes(utf16_encoded(text));
            let buf = header_bytes(text) + post;
            &&& uint_at(buf, 0, 4) == Some(body.len() as u64)
            &&& window(buf, 4, body.len() as int) == Some(body)
            &&& le32_at(buf, 4 + body.len() as int) == Some(adler32_spec(body) as u32)
            &&& header_bytes(text).len() == 8 + body.len()
        }),
{
    let body = units_bytes(utf16_encoded(text));
    let size = be_bytes(body.len(), 4);
    let sum = le_bytes(adler32_spec(body), 4);
    let buf = header_bytes(text) + post;
    let empty = Seq::<u8>::empty();
    lemma_be_bytes_len(body.len(), 4);
    lemma_pow256_values();
    lemma_adler32_fits(body);
    lemma_le_round_trip(adler32_spec(body), 4);
    assert(uint_at(buf, 0, 4) == Some(body.len() as u64)) by {
        lemma_uint_middle(empty, body.len(), 4, body + sum + post);
        assert(buf =~= empty + size + (body + sum + post));
    }
    assert(window(buf, 4, body.len() as int) == Some(body)) by {
        lemma_window_middle(size, body, sum + post);
        assert(buf =~= size + body + (sum + post));
    }
    assert(window(buf, 4 + body.len() as int, 4) == Some(sum)) by {
        lemma_window_middle(size + body, sum, post);
        assert(buf =~= (size + body) + sum + post);
    }
}

/// The text of a written header is decoded from its bytes.
pub proof fn lemma_header_text_is_decoded(text: Seq<char>)
    ensures
        utf16_decoded(utf16_units(units_bytes(utf16_encoded(text)))) == Some(text),
{
    lemma_units_round_trip(utf16_encoded(text));
    lemma_utf16_round_trip(text);
}

/// The header that the writer wrote is read as the attributes that the
/// attribute pattern finds in its text.
pub proof fn lemma_header_is_read(text: Seq<char>, post: Seq<u8>)
    requires
        units_bytes(utf16_encoded(text)).len() <= u32::MAX,
    ensures
        header_meta(header_bytes(text) + post) == match regex_pairs(
            ATTRIBUTE_PATTERN@,
            without_nuls(text),
        ) {
            Some(meta) => Ok::<(Seq<(Seq<char>, Seq<char>)>, int), WikitError>(
                (meta, header_bytes(text).len() as int),
            ),
            None => Err(WikitError::SourceFormat),
        },
{
    lemma_header_parts(text, post);
    lemma_header_text_is_decoded(text);
    reveal(header_meta);
}

/// Whether the attribute pattern finds in the header text `text` what it
/// takes to read an archive as the writer wrote it.
pub open spec fn header_is_found(text: Seq<char>) -> bool {
    &&& regex_pairs(ATTRIBUTE_PATTERN@, without_nuls(text)) is Some
    &&& mdx_info(regex_pairs(ATTRIBUTE_PATTERN@, without_nuls(text)).unwrap()) == Ok::<
        MDXInfo,
        WikitError,
    >(written_info())
}

/// An archive that the writer wrote is parsed as the records that were
/// written, where the attribute pattern finds in the header what it takes
/// to read the archive as it was written.
pub proof fn lemma_created_archive_is_parsed(text: Seq<char>, records: Records)
    requires
        readable(records),
        units_bytes(utf16_encoded(text)).len() <= u32::MAX,
        header_is_found(text),
    ensures
        parsed_mdx(header_bytes(text) + archive_body(records), None) == Ok::<Records, WikitError>(
            read_back(records, 0),
        ),
{
    lemma_header_is_read(text, archive_body(records));
    lemma_written_archive_is_read_back(header_bytes(text), records);
}

} // verus!
