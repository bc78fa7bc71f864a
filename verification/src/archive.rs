//! The writer of MDX archives: from records to the bytes of an archive of
//! version 2.0, in UTF-8 and without compression.

use crate::bytes::{be_bytes, le_bytes, push_be, push_le_u32};
use crate::checksum::{adler32, adler32_spec};
use crate::config::MAX_MDX_ITEM_SIZE;
use crate::error::WikitError;
use crate::mdict::pairs_view;
use crate::mdict::{parsed_mdx, records_after_header};
use crate::readback::{
    header_is_found, keys_without_zero, lemma_created_archive_is_parsed,
    lemma_written_archive_is_read_back, read_back, written_info,
};
use crate::records::Records;
use crate::stable::{stable_form, stable_sort_records};
use crate::util::str_chars;
use vstd::prelude::*;
use vstd::string::StringExecFns;
use vstd::utf8::encode_utf8;

verus! {

/// The UTF-16 code units of a character: the character itself below
/// U+10000, and a pair of surrogates from there on.
pub open spec fn char_units(c: char) -> Seq<u16> {
    let v = c as u32;
    if v < 0x10000 {
        seq![v as u16]
    } else {
        seq![
            (0xd800 + ((v - 0x10000) as u32 >> 10)) as u16,
            (0xdc00 + ((v - 0x10000) as u32 & 0x3ff)) as u16,
        ]
    }
}

/// The UTF-16 code units of a text.
pub open spec fn utf16_encoded(text: Seq<char>) -> Seq<u16>
    decreases text.len(),
{
    if text.len() == 0 {
        Seq::empty()
    } else {
        utf16_encoded(text.drop_last()) + char_units(text.last())
    }
}

/// Encodes a text in UTF-16.
pub fn encode_utf16(text: &str) -> (units: Vec<u16>)
    ensures
        units@ == utf16_encoded(text@),
{
    let chars = str_chars(text);
    let mut units: Vec<u16> = Vec::new();
    let mut i: usize = 0;
    proof {
        assert(chars@.take(0) =~= Seq::<char>::empty());
    }
    while i < chars.len()
        invariant
            i <= chars@.len(),
            units@ == utf16_encoded(chars@.take(i as int)),
        decreases chars@.len() - i,
    {
        let c: char = chars[i];
        let v: u32 = c as u32;
        let ghost before = units@;
        proof {
            vstd::utf8::char_is_scalar(c);
            assert(v < 0x11_0000);
            assert(chars@.take(i + 1).drop_last() =~= chars@.take(i as int));
            assert(chars@.take(i + 1).last() == c);
        }
        if v < 0x10000 {
            units.push(v as u16);
            proof {
                assert(units@ =~= before + char_units(c));
            }
        } else {
            let rest: u32 = v - 0x10000;
            assert(rest >> 10 < 0x400 && rest & 0x3ff < 0x400) by (bit_vector)
                requires
                    rest < 0x10_0000,
            ;
            units.push((0xd800 + (rest >> 10)) as u16);
            units.push((0xdc00 + (rest & 0x3ff)) as u16);
            proof {
                assert(units@ =~= before + char_units(c));
            }
        }
        i = i + 1;
    }
    proof {
        assert(chars@.take(i as int) =~= chars@);
    }
    units
}

/// The bytes of UTF-16 code units in little-endian order.
pub open spec fn units_bytes(units: Seq<u16>) -> Seq<u8> {
    Seq::new(
        2 * units.len(),
        |i: int|
            if i % 2 == 0 {
                (units[i / 2] % 256) as u8
            } else {
                (units[i / 2] / 256) as u8
            },
    )
}

/// Writes UTF-16 code units as bytes in little-endian order.
pub fn units_to_bytes(units: &[u16]) -> (bytes: Vec<u8>)
    ensures
        bytes@ == units_bytes(units@),
{
    let mut bytes: Vec<u8> = Vec::new();
    let mut i: usize = 0;
    while i < units.len()
        invariant
            i <= units@.len(),
            bytes@.len() == 2 * i,
            forall|j: int| 0 <= j < 2 * i ==> bytes@[j] == units_bytes(units@)[j],
        decreases units@.len() - i,
    {
        let unit: u16 = units[i];
        bytes.push((unit % 256) as u8);
        bytes.push((unit / 256) as u8);
        i = i + 1;
    }
    proof {
        assert(bytes@ =~= units_bytes(units@));
    }
    bytes
}

/// An attribute of the header: its name, and its value between quotes.
pub open spec fn attribute(name: Seq<char>, value: Seq<char>) -> Seq<char> {
    name + "=\""@ + value + "\" "@
}

/// The text of the header of an archive with this title, author and
/// description that was created at the time `created`.
pub open spec fn header_text(
    title: Seq<char>,
    author: Seq<char>,
    description: Seq<char>,
    created: Seq<char>,
) -> Seq<char> {
    "<Dictionary "@ + attribute("GeneratedByEngineVersion"@, "2.0"@) + attribute(
        "RequiredEngineVersion"@,
        "2.0"@,
    ) + attribute("Encrypted"@, "0"@) + attribute("Encoding"@, "UTF-8"@) + attribute(
        "Format"@,
        "Html"@,
    ) + attribute("CreationDate"@, created) + attribute("Compact"@, "No"@) + attribute(
        "Compat"@,
        "No"@,
    ) + attribute("KeyCaseSensitive"@, "No"@) + attribute("Description"@, description)
        + attribute("Title"@, title) + attribute("DataSourceFormat"@, "106"@) + attribute(
        "StyleSheet"@,
        ""@,
    ) + attribute("RegisterBy"@, author) + attribute("RegCode"@, ""@) + "/>\r\n\0"@
}

/// Appends an attribute to the text of a header.
fn push_attribute(text: &mut String, name: &str, value: &str)
    ensures
        final(text)@ == old(text)@ + attribute(name@, value@),
{
    let ghost before = text@;
    text.append(name);
    text.append("=\"");
    text.append(value);
    text.append("\" ");
    proof {
        assert(text@ =~= before + attribute(name@, value@));
    }
}

/// Writes the text of the header of an archive.
pub fn write_header_text(title: &str, author: &str, description: &str, created: &str) -> (text:
    String)
    ensures
        text@ == header_text(title@, author@, description@, created@),
{
    let mut text: String = "<Dictionary ".to_owned();
    push_attribute(&mut text, "GeneratedByEngineVersion", "2.0");
    push_attribute(&mut text, "RequiredEngineVersion", "2.0");
    push_attribute(&mut text, "Encrypted", "0");
    push_attribute(&mut text, "Encoding", "UTF-8");
    push_attribute(&mut text, "Format", "Html");
    push_attribute(&mut text, "CreationDate", created);
    push_attribute(&mut text, "Compact", "No");
    push_attribute(&mut text, "Compat", "No");
    push_attribute(&mut text, "KeyCaseSensitive", "No");
    push_attribute(&mut text, "Description", description);
    push_attribute(&mut text, "Title", title);
    push_attribute(&mut text, "DataSourceFormat", "106");
    push_attribute(&mut text, "StyleSheet", "");
    push_attribute(&mut text, "RegisterBy", author);
    push_attribute(&mut text, "RegCode", "");
    text.append("/>\r\n\0");
    text
}

/// The header of an archive: the size of its text in four bytes,
/// big-endian, the text in UTF-16, and the text's Adler-32 checksum in four
/// bytes, little-endian.
pub open spec fn header_bytes(text: Seq<char>) -> Seq<u8> {
    let body = units_bytes(utf16_encoded(text));
    be_bytes(body.len(), 4) + body + le_bytes(adler32_spec(body), 4)
}

/// A block as the archive holds it: four zero bytes for "no compression",
/// the Adler-32 checksum of the data in four bytes, big-endian, and the data.
pub open spec fn framed(data: Seq<u8>) -> Seq<u8> {
    seq![0u8, 0u8, 0u8, 0u8] + be_bytes(adler32_spec(data), 4) + data
}

/// Frames the data of a block.
pub fn frame_block(data: &[u8]) -> (block: Vec<u8>)
    ensures
        block@ == framed(data@),
{
    let mut block: Vec<u8> = Vec::new();
    block.push(0);
    block.push(0);
    block.push(0);
    block.push(0);
    proof {
        assert(block@ =~= seq![0u8, 0u8, 0u8, 0u8]);
    }
    push_be(&mut block, adler32(data) as u64, 4);
    block.extend_from_slice(data);
    block
}

/// The number of bytes of the key of record `i`.
pub open spec fn key_size(records: Records, i: int) -> nat {
    encode_utf8(records[i].0).len()
}

/// The number of bytes of the meaning of record `i`.
pub open spec fn meaning_size(records: Records, i: int) -> nat {
    encode_utf8(records[i].1).len()
}

/// The position of the meaning of record `i` among all meanings: the
/// number of bytes of the meanings before it.
pub open spec fn meaning_offset(records: Records, i: int) -> nat
    decreases i,
{
    if i <= 0 {
        0
    } else {
        meaning_offset(records, i - 1) + meaning_size(records, i - 1)
    }
}

/// Where the block ends that holds the records from `start` up to `end`
/// with `total` bytes: it takes further records as long as it stays within
/// two MiB.
pub open spec fn group_end(records: Records, keys: bool, end: int, total: nat) -> int
    decreases records.len() - end,
{
    let size = if keys {
        key_size(records, end)
    } else {
        meaning_size(records, end)
    };
    if end < 0 || end >= records.len() || total + size > MAX_MDX_ITEM_SIZE {
        end
    } else {
        group_end(records, keys, end + 1, total + size)
    }
}

/// Where the block ends that starts with record `start`; it holds at least
/// that record.
pub open spec fn block_end(records: Records, keys: bool, start: int) -> int {
    group_end(
        records,
        keys,
        start + 1,
        if keys {
            key_size(records, start)
        } else {
            meaning_size(records, start)
        },
    )
}

/// A key as a key block holds it: the offset of its meaning in eight bytes,
/// the key and a NUL.
pub open spec fn key_record(records: Records, i: int) -> Seq<u8> {
    be_bytes(meaning_offset(records, i), 8) + encode_utf8(records[i].0) + seq![0u8]
}

/// The data of the key block of the records from `s` up to `e`.
pub open spec fn key_data(records: Records, s: int, e: int) -> Seq<u8>
    decreases e - s,
{
    if s >= e {
        Seq::empty()
    } else {
        key_record(records, s) + key_data(records, s + 1, e)
    }
}

/// The data of the meaning block of the records from `s` up to `e`: their
/// meanings, one after another.
pub open spec fn meaning_data(records: Records, s: int, e: int) -> Seq<u8>
    decreases e - s,
{
    if s >= e {
        Seq::empty()
    } else {
        encode_utf8(records[s].1) + meaning_data(records, s + 1, e)
    }
}

/// A key as the key-block table holds it: its size in two bytes, the key
/// and a NUL.
pub open spec fn table_key(key: Seq<char>) -> Seq<u8> {
    be_bytes(encode_utf8(key).len(), 2) + encode_utf8(key) + seq![0u8]
}

/// The entry of the key-block table for the block of the records from `s`
/// up to `e`: the number of its keys, its first and its last key, and its
/// size as stored and as unpacked.
pub open spec fn key_table_entry(records: Records, s: int, e: int) -> Seq<u8> {
    be_bytes((e - s) as nat, 8) + table_key(records[s].0) + table_key(records[e - 1].0) + be_bytes(
        framed(key_data(records, s, e)).len(),
        8,
    ) + be_bytes(key_data(records, s, e).len(), 8)
}

/// The entry of the size table for the meaning block of the records from
/// `s` up to `e`: its size as stored and as unpacked.
pub open spec fn size_table_entry(records: Records, s: int, e: int) -> Seq<u8> {
    be_bytes(framed(meaning_data(records, s, e)).len(), 8) + be_bytes(
        meaning_data(records, s, e).len(),
        8,
    )
}

/// Whether a block starts with record `s` and ends within the records.
pub open spec fn block_starts(records: Records, keys: bool, s: int) -> bool {
    0 <= s < records.len() && s < block_end(records, keys, s) <= records.len()
}

/// The number of blocks of keys, or of meanings, from record `s` on.
pub open spec fn block_count(records: Records, keys: bool, s: int) -> nat
    decreases records.len() - s,
{
    if block_starts(records, keys, s) {
        1 + block_count(records, keys, block_end(records, keys, s))
    } else {
        0
    }
}

/// The key-block table of the blocks from record `s` on.
pub open spec fn key_table(records: Records, s: int) -> Seq<u8>
    decreases records.len() - s,
{
    if block_starts(records, true, s) {
        key_table_entry(records, s, block_end(records, true, s)) + key_table(
            records,
            block_end(records, true, s),
        )
    } else {
        Seq::empty()
    }
}

/// The key blocks from record `s` on, one after another.
pub open spec fn key_blocks_bytes(records: Records, s: int) -> Seq<u8>
    decreases records.len() - s,
{
    if block_starts(records, true, s) {
        framed(key_data(records, s, block_end(records, true, s))) + key_blocks_bytes(
            records,
            block_end(records, true, s),
        )
    } else {
        Seq::empty()
    }
}

/// The size table of the meaning blocks from record `s` on.
pub open spec fn size_table_bytes(records: Records, s: int) -> Seq<u8>
    decreases records.len() - s,
{
    if block_starts(records, false, s) {
        size_table_entry(records, s, block_end(records, false, s)) + size_table_bytes(
            records,
            block_end(records, false, s),
        )
    } else {
        Seq::empty()
    }
}

/// The meaning blocks from record `s` on, one after another.
pub open spec fn meaning_blocks_bytes(records: Records, s: int) -> Seq<u8>
    decreases records.len() - s,
{
    if block_starts(records, false, s) {
        framed(meaning_data(records, s, block_end(records, false, s))) + meaning_blocks_bytes(
            records,
            block_end(records, false, s),
        )
    } else {
        Seq::empty()
    }
}

/// The counts and sizes that precede the key-block table: the number of key
/// blocks, the number of keys, the size of the table as unpacked and as
/// stored, and the size of the key blocks.
pub open spec fn key_layout_bytes(records: Records) -> Seq<u8> {
    be_bytes(block_count(records, true, 0), 8) + be_bytes(records.len(), 8) + be_bytes(
        key_table(records, 0).len(),
        8,
    ) + be_bytes(framed(key_table(records, 0)).len(), 8) + be_bytes(
        key_blocks_bytes(records, 0).len(),
        8,
    )
}

/// The key section of the archive that holds `records`: the key layout with
/// its checksum, the key-block table behind its pack type and checksum, and
/// the key blocks.
pub open spec fn key_section(records: Records) -> Seq<u8> {
    key_layout_bytes(records) + be_bytes(adler32_spec(key_layout_bytes(records)), 4) + framed(
        key_table(records, 0),
    ) + key_blocks_bytes(records, 0)
}

/// The counts and sizes that precede the size table of the meanings: the
/// number of meaning blocks, the number of keys, the size of the size table,
/// and the size of the meaning blocks.
pub open spec fn meaning_layout_bytes(records: Records) -> Seq<u8> {
    be_bytes(block_count(records, false, 0), 8) + be_bytes(records.len(), 8) + be_bytes(
        size_table_bytes(records, 0).len(),
        8,
    ) + be_bytes(meaning_blocks_bytes(records, 0).len(), 8)
}

/// The meaning section of the archive that holds `records`: its counts and
/// sizes, the size table and the meaning blocks.
pub open spec fn meaning_section(records: Records) -> Seq<u8> {
    meaning_layout_bytes(records) + size_table_bytes(records, 0) + meaning_blocks_bytes(records, 0)
}

/// What follows the header of the archive that holds `records`: the key
/// section and the meaning section.
pub open spec fn archive_body(records: Records) -> Seq<u8> {
    key_section(records) + meaning_section(records)
}

/// Whether the sizes of an archive with the header text `text` and the
/// records `records` fit their fields: the header in four bytes, each key in
/// two, and the offset of every meaning in eight.
pub open spec fn archive_fits(text: Seq<char>, records: Records) -> bool {
    &&& units_bytes(utf16_encoded(text)).len() <= u32::MAX
    &&& forall|i: int| 0 <= i < records.len() ==> #[trigger] key_size(records, i) <= u16::MAX
    &&& meaning_offset(records, records.len() as int) <= u64::MAX
}

/// The offsets of meanings grow with the records.
pub proof fn lemma_meaning_offset_grows(records: Records, i: int, j: int)
    requires
        0 <= i <= j,
    ensures
        meaning_offset(records, i) <= meaning_offset(records, j),
    decreases j - i,
{
    if i < j {
        lemma_meaning_offset_grows(records, i, j - 1);
    }
}

/// Finds the end of the block that starts with record `start`.
fn find_block_end(records: &Vec<(String, String)>, keys: bool, start: usize) -> (end: usize)
    requires
        start < records@.len(),
    ensures
        end as int == block_end(pairs_view(records@), keys, start as int),
        block_starts(pairs_view(records@), keys, start as int),
{
    let ghost recs = pairs_view(records@);
    let first: usize = if keys {
        records[start].0.as_str().as_bytes().len()
    } else {
        records[start].1.as_str().as_bytes().len()
    };
    let count: usize = records.len();
    let mut total: usize = first;
    let mut end: usize = start + 1;
    while end < records.len()
        invariant
            recs == pairs_view(records@),
            start < end <= records@.len(),
            block_end(recs, keys, start as int) == group_end(recs, keys, end as int, total as nat),
        decreases records@.len() - end,
    {
        let size: usize = if keys {
            records[end].0.as_str().as_bytes().len()
        } else {
            records[end].1.as_str().as_bytes().len()
        };
        if size > MAX_MDX_ITEM_SIZE || total > MAX_MDX_ITEM_SIZE - size {
            return end;
        }
        total = total + size;
        end = end + 1;
    }
    end
}

/// Writes the data of the key block of the records from `s` up to `e`,
/// where `offset` is the offset of the meaning of record `s`. Returns the
/// data and the offset of the meaning of record `e`.
fn write_key_data(records: &Vec<(String, String)>, s: usize, e: usize, offset: u64) -> (written: (
    Vec<u8>,
    u64,
))
    requires
        s <= e <= records@.len(),
        offset == meaning_offset(pairs_view(records@), s as int),
        meaning_offset(pairs_view(records@), records@.len() as int) <= u64::MAX,
    ensures
        written.0@ == key_data(pairs_view(records@), s as int, e as int),
        written.1 == meaning_offset(pairs_view(records@), e as int),
{
    let ghost recs = pairs_view(records@);
    let mut data: Vec<u8> = Vec::new();
    let mut offset: u64 = offset;
    let mut i: usize = s;
    proof {
        assert(data@ + key_data(recs, s as int, e as int) =~= key_data(recs, s as int, e as int));
    }
    while i < e
        invariant
            recs == pairs_view(records@),
            s <= i <= e <= records@.len(),
            offset == meaning_offset(recs, i as int),
            meaning_offset(recs, records@.len() as int) <= u64::MAX,
            data@ + key_data(recs, i as int, e as int) == key_data(recs, s as int, e as int),
        decreases e - i,
    {
        let ghost before = data@;
        push_be(&mut data, offset, 8);
        data.extend_from_slice(records[i].0.as_str().as_bytes());
        data.push(0);
        proof {
            assert(data@ =~= before + key_record(recs, i as int));
            assert(data@ + key_data(recs, i + 1, e as int) =~= before + key_data(
                recs,
                i as int,
                e as int,
            ));
            lemma_meaning_offset_grows(recs, i + 1, records@.len() as int);
        }
        offset = offset + records[i].1.as_str().as_bytes().len() as u64;
        i = i + 1;
    }
    proof {
        assert(data@ + key_data(recs, e as int, e as int) =~= data@);
    }
    (data, offset)
}

/// Writes the data of the meaning block of the records from `s` up to `e`.
fn write_meaning_data(records: &Vec<(String, String)>, s: usize, e: usize) -> (data: Vec<u8>)
    requires
        s <= e <= records@.len(),
    ensures
        data@ == meaning_data(pairs_view(records@), s as int, e as int),
{
    let ghost recs = pairs_view(records@);
    let mut data: Vec<u8> = Vec::new();
    let mut i: usize = s;
    proof {
        assert(data@ + meaning_data(recs, s as int, e as int) =~= meaning_data(
            recs,
            s as int,
            e as int,
        ));
    }
    while i < e
        invariant
            recs == pairs_view(records@),
            s <= i <= e <= records@.len(),
            data@ + meaning_data(recs, i as int, e as int) == meaning_data(
                recs,
                s as int,
                e as int,
            ),
        decreases e - i,
    {
        let ghost before = data@;
        data.extend_from_slice(records[i].1.as_str().as_bytes());
        proof {
            assert(data@ + meaning_data(recs, i + 1, e as int) =~= before + meaning_data(
                recs,
                i as int,
                e as int,
            ));
        }
        i = i + 1;
    }
    proof {
        assert(data@ + meaning_data(recs, e as int, e as int) =~= data@);
    }
    data
}

/// Appends a key to the key-block table.
fn push_table_key(table: &mut Vec<u8>, key: &str)
    requires
        encode_utf8(key@).len() <= u16::MAX,
    ensures
        final(table)@ == old(table)@ + table_key(key@),
{
    let ghost before = table@;
    let bytes = key.as_bytes();
    push_be(table, bytes.len() as u64, 2);
    table.extend_from_slice(bytes);
    table.push(0);
    proof {
        assert(table@ =~= before + table_key(key@));
    }
}

/// Writes the key-block table, the key blocks, and their number.
fn write_key_blocks(records: &Vec<(String, String)>) -> (section: (Vec<u8>, Vec<u8>, u64))
    requires
        forall|i: int|
            0 <= i < records@.len() ==> #[trigger] key_size(pairs_view(records@), i) <= u16::MAX,
        meaning_offset(pairs_view(records@), records@.len() as int) <= u64::MAX,
    ensures
        section.0@ == key_table(pairs_view(records@), 0),
        section.1@ == key_blocks_bytes(pairs_view(records@), 0),
        section.2 == block_count(pairs_view(records@), true, 0),
{
    let ghost recs = pairs_view(records@);
    let mut table: Vec<u8> = Vec::new();
    let mut blocks: Vec<u8> = Vec::new();
    let mut count: u64 = 0;
    let mut offset: u64 = 0;
    let mut s: usize = 0;
    proof {
        assert(table@ + key_table(recs, 0) =~= key_table(recs, 0));
        assert(blocks@ + key_blocks_bytes(recs, 0) =~= key_blocks_bytes(recs, 0));
    }
    while s < records.len()
        invariant
            recs == pairs_view(records@),
            s <= records@.len(),
            count <= s,
            offset == meaning_offset(recs, s as int),
            forall|i: int| 0 <= i < records@.len() ==> #[trigger] key_size(recs, i) <= u16::MAX,
            meaning_offset(recs, records@.len() as int) <= u64::MAX,
            table@ + key_table(recs, s as int) == key_table(recs, 0),
            blocks@ + key_blocks_bytes(recs, s as int) == key_blocks_bytes(recs, 0),
            count + block_count(recs, true, s as int) == block_count(recs, true, 0),
        decreases records@.len() - s,
    {
        let e: usize = find_block_end(records, true, s);
        let (data, next) = write_key_data(records, s, e, offset);
        let mut block = frame_block(data.as_slice());
        let ghost old_table = table@;
        let ghost old_blocks = blocks@;
        proof {
            assert(key_size(recs, s as int) <= u16::MAX);
            assert(key_size(recs, e - 1) <= u16::MAX);
        }
        push_be(&mut table, (e - s) as u64, 8);
        push_table_key(&mut table, records[s].0.as_str());
        push_table_key(&mut table, records[e - 1].0.as_str());
        push_be(&mut table, block.len() as u64, 8);
        push_be(&mut table, data.len() as u64, 8);
        blocks.append(&mut block);
        proof {
            assert(table@ =~= old_table + key_table_entry(recs, s as int, e as int));
            assert(table@ + key_table(recs, e as int) =~= old_table + key_table(recs, s as int));
            assert(blocks@ + key_blocks_bytes(recs, e as int) =~= old_blocks + key_blocks_bytes(
                recs,
                s as int,
            ));
        }
        offset = next;
        count = count + 1;
        s = e;
    }
    proof {
        assert(table@ + key_table(recs, s as int) =~= table@);
        assert(blocks@ + key_blocks_bytes(recs, s as int) =~= blocks@);
    }
    (table, blocks, count)
}

/// Writes the size table of the meanings, the meaning blocks, and their
/// number.
fn write_meaning_blocks(records: &Vec<(String, String)>) -> (section: (Vec<u8>, Vec<u8>, u64))
    ensures
        section.0@ == size_table_bytes(pairs_view(records@), 0),
        section.1@ == meaning_blocks_bytes(pairs_view(records@), 0),
        section.2 == block_count(pairs_view(records@), false, 0),
{
    let ghost recs = pairs_view(records@);
    let mut table: Vec<u8> = Vec::new();
    let mut blocks: Vec<u8> = Vec::new();
    let mut count: u64 = 0;
    let mut s: usize = 0;
    proof {
        assert(table@ + size_table_bytes(recs, 0) =~= size_table_bytes(recs, 0));
        assert(blocks@ + meaning_blocks_bytes(recs, 0) =~= meaning_blocks_bytes(recs, 0));
    }
    while s < records.len()
        invariant
            recs == pairs_view(records@),
            s <= records@.len(),
            count <= s,
            table@ + size_table_bytes(recs, s as int) == size_table_bytes(recs, 0),
            blocks@ + meaning_blocks_bytes(recs, s as int) == meaning_blocks_bytes(recs, 0),
            count + block_count(recs, false, s as int) == block_count(recs, false, 0),
        decreases records@.len() - s,
    {
        let e: usize = find_block_end(records, false, s);
        let data = write_meaning_data(records, s, e);
        let mut block = frame_block(data.as_slice());
        let ghost old_table = table@;
        let ghost old_blocks = blocks@;
        push_be(&mut table, block.len() as u64, 8);
        push_be(&mut table, data.len() as u64, 8);
        blocks.append(&mut block);
        proof {
            assert(table@ =~= old_table + size_table_entry(recs, s as int, e as int));
            assert(table@ + size_table_bytes(recs, e as int) =~= old_table + size_table_bytes(
                recs,
                s as int,
            ));
            assert(blocks@ + meaning_blocks_bytes(recs, e as int) =~= old_blocks
                + meaning_blocks_bytes(recs, s as int));
        }
        count = count + 1;
        s = e;
    }
    proof {
        assert(table@ + size_table_bytes(recs, s as int) =~= table@);
        assert(blocks@ + meaning_blocks_bytes(recs, s as int) =~= blocks@);
    }
    (table, blocks, count)
}

/// Whether the keys of `records` fit their size field and the offsets of
/// the meanings fit theirs.
pub fn records_fit(records: &Vec<(String, String)>) -> (fit: bool)
    ensures
        fit == ((forall|i: int|
            0 <= i < records@.len() ==> #[trigger] key_size(pairs_view(records@), i) <= u16::MAX)
            && meaning_offset(pairs_view(records@), records@.len() as int) <= u64::MAX),
{
    let ghost recs = pairs_view(records@);
    let mut offset: u64 = 0;
    let mut i: usize = 0;
    while i < records.len()
        invariant
            recs == pairs_view(records@),
            i <= records@.len(),
            offset == meaning_offset(recs, i as int),
            forall|j: int| 0 <= j < i ==> #[trigger] key_size(recs, j) <= u16::MAX,
        decreases records@.len() - i,
    {
        if records[i].0.as_str().as_bytes().len() > 0xffff {
            proof {
                assert(key_size(recs, i as int) > u16::MAX);
            }
            return false;
        }
        let size: u64 = records[i].1.as_str().as_bytes().len() as u64;
        if size > u64::MAX - offset {
            proof {
                lemma_meaning_offset_grows(recs, i + 1, records@.len() as int);
            }
            return false;
        }
        offset = offset + size;
        i = i + 1;
    }
    true
}

/// Writes the header of an archive with the text `text`; `None` where the
/// size of the text does not fit its field.
pub fn write_header(text: &str) -> (header: Option<Vec<u8>>)
    ensures
        header is Some <==> units_bytes(utf16_encoded(text@)).len() <= u32::MAX,
        header is Some ==> header.unwrap()@ == header_bytes(text@),
{
    let units = encode_utf16(text);
    let body = units_to_bytes(units.as_slice());
    if body.len() > 0xffff_ffff {
        return None;
    }
    let mut out: Vec<u8> = Vec::new();
    push_be(&mut out, body.len() as u64, 4);
    out.extend_from_slice(body.as_slice());
    push_le_u32(&mut out, adler32(body.as_slice()));
    proof {
        assert(out@ =~= header_bytes(text@));
    }
    Some(out)
}

/// Writes what follows the header of the archive that holds `records`.
pub fn write_body(records: &Vec<(String, String)>) -> (body: Vec<u8>)
    requires
        forall|i: int|
            0 <= i < records@.len() ==> #[trigger] key_size(pairs_view(records@), i) <= u16::MAX,
        meaning_offset(pairs_view(records@), records@.len() as int) <= u64::MAX,
    ensures
        body@ == archive_body(pairs_view(records@)),
        framed(key_table(pairs_view(records@), 0)).len() <= usize::MAX,
        key_blocks_bytes(pairs_view(records@), 0).len() <= usize::MAX,
        meaning_blocks_bytes(pairs_view(records@), 0).len() <= usize::MAX,
{
    let ghost recs = pairs_view(records@);
    let (key_table, mut key_blocks, key_count) = write_key_blocks(records);
    let (mut size_table, mut meaning_blocks, meaning_count) = write_meaning_blocks(records);
    let mut table_block = frame_block(key_table.as_slice());
    let mut out: Vec<u8> = Vec::new();
    push_be(&mut out, key_count, 8);
    push_be(&mut out, records.len() as u64, 8);
    push_be(&mut out, key_table.len() as u64, 8);
    push_be(&mut out, table_block.len() as u64, 8);
    push_be(&mut out, key_blocks.len() as u64, 8);
    proof {
        assert(out@ =~= key_layout_bytes(recs));
    }
    let sum: u32 = adler32(out.as_slice());
    push_be(&mut out, sum as u64, 4);
    out.append(&mut table_block);
    out.append(&mut key_blocks);
    proof {
        assert(out@ =~= key_section(recs));
    }
    let ghost keys = out@;
    push_be(&mut out, meaning_count, 8);
    push_be(&mut out, records.len() as u64, 8);
    push_be(&mut out, size_table.len() as u64, 8);
    push_be(&mut out, meaning_blocks.len() as u64, 8);
    proof {
        assert(out@ =~= keys + meaning_layout_bytes(recs));
    }
    out.append(&mut size_table);
    out.append(&mut meaning_blocks);
    proof {
        assert(out@ =~= keys + meaning_section(recs));
    }
    out
}

/// Writes an MDX archive of version 2.0 that holds `records` under this
/// title, author and description, with `created` as the time of its
/// creation. The records are sorted by the bytes of their keys; every
/// record is kept, and records of one key stay in the order in which they
/// came. Keys and meanings are written in UTF-8 and without compression, in
/// blocks of at most two MiB (a longer key or meaning has a block of its
/// own). Fails where a size does not fit its field. Where no key holds a
/// zero byte, the reader of archives reads the sorted records back from
/// what is written.
pub fn create_mdx(
    title: &str,
    author: &str,
    description: &str,
    created: &str,
    records: &Vec<(String, String)>,
) -> (archive: Result<Vec<u8>, WikitError>)
    ensures
        archive is Ok <==> archive_fits(
            header_text(title@, author@, description@, created@),
            stable_form(pairs_view(records@)),
        ),
        archive is Ok ==> archive.unwrap()@ == header_bytes(
            header_text(title@, author@, description@, created@),
        ) + archive_body(stable_form(pairs_view(records@))),
        archive is Err ==> archive == Err::<Vec<u8>, WikitError>(WikitError::TooLarge),
        archive is Ok && keys_without_zero(stable_form(pairs_view(records@)))
            ==> records_after_header(
            archive.unwrap()@,
            header_bytes(header_text(title@, author@, description@, created@)).len() as int,
            written_info(),
        ) == Ok::<Records, WikitError>(read_back(stable_form(pairs_view(records@)), 0)),
        archive is Ok && keys_without_zero(stable_form(pairs_view(records@))) && header_is_found(
            header_text(title@, author@, description@, created@),
        ) ==> parsed_mdx(archive.unwrap()@, None) == Ok::<Records, WikitError>(
            read_back(stable_form(pairs_view(records@)), 0),
        ),
{
    let text = write_header_text(title, author, description, created);
    let mut out: Vec<u8> = match write_header(text.as_str()) {
        Some(header) => header,
        None => {
            return Err(WikitError::TooLarge);
        },
    };
    let sorted = stable_sort_records(records);
    if !records_fit(&sorted) {
        return Err(WikitError::TooLarge);
    }
    let mut body = write_body(&sorted);
    proof {
        if keys_without_zero(pairs_view(sorted@)) {
            lemma_written_archive_is_read_back(out@, pairs_view(sorted@));
            if header_is_found(text@) {
                lemma_created_archive_is_parsed(text@, pairs_view(sorted@));
            }
        }
    }
    out.append(&mut body);
    Ok(out)
}

} // verus!
