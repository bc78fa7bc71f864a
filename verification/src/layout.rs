//! What holds of the bytes of a dictionary image: where each part lies, and
//! that the parts are read back as they were written.

use crate::bytes::{
    be_bytes, bytes_lt, lemma_be_bytes_len, lemma_be_round_trip, lemma_bytes_lt_irreflexive,
    lemma_pow256_values, pow256, uint_at, window,
};
use crate::error::WikitError;
use crate::index::{
    built, format_of, holds, index_checked, index_image, keys_ascending, value_in,
};
use crate::records::{key_lt, Records};
use crate::util::without_nuls;
use crate::wikit::{
    data_region, dictionary_image, encoded_entry, entry_offset, entry_text, fits, head_bytes,
    framed_head, head_len, image_head, index_entries, index_region, loaded_head, magic_bytes,
    parsed_head,
    records_ascending, region_fields, regions_ok, resolved, sized_text, text_at, HeadView,
    LATEST_WIKIT_FMT_VERSION, PREAMBLE_SIZE,
};
use vstd::prelude::*;
use vstd::utf8::{encode_utf8, encode_utf8_decode_utf8, encode_utf8_valid_utf8};

verus! {

/// A part of a sequence that stands between two others is found at the
/// length of the first.
pub proof fn lemma_window_middle(a: Seq<u8>, b: Seq<u8>, c: Seq<u8>)
    ensures
        window(a + b + c, a.len() as int, b.len() as int) == Some(b),
{
    assert((a + b + c).subrange(a.len() as int, (a.len() + b.len()) as int) =~= b);
}

/// A number that stands between two sequences is read back.
pub proof fn lemma_uint_middle(a: Seq<u8>, x: nat, n: nat, c: Seq<u8>)
    requires
        n <= 8,
        x < pow256(n),
    ensures
        uint_at(a + be_bytes(x, n) + c, a.len() as int, n as int) == Some(x as u64),
{
    lemma_be_round_trip(x, n);
    lemma_window_middle(a, be_bytes(x, n), c);
    lemma_pow256_values();
    crate::bytes::lemma_pow256_monotone(n, 8);
}

/// A text that stands between two sequences is read back.
pub proof fn lemma_text_middle(a: Seq<u8>, text: Seq<char>, c: Seq<u8>)
    ensures
        text_at(a + encode_utf8(text) + c, a.len() as int, encode_utf8(text).len() as int) == Some(
            text,
        ),
{
    lemma_window_middle(a, encode_utf8(text), c);
    encode_utf8_valid_utf8(text);
    encode_utf8_decode_utf8(text);
}

/// The four positions and sizes of a header are read back.
pub proof fn lemma_region_fields(head: HeadView)
    ensures
        region_fields(head).len() == 32,
        uint_at(seq![1u8] + region_fields(head), 1, 8) == Some(head.ibase),
        uint_at(seq![1u8] + region_fields(head), 9, 8) == Some(head.isz),
        uint_at(seq![1u8] + region_fields(head), 17, 8) == Some(head.dbase),
        uint_at(seq![1u8] + region_fields(head), 25, 8) == Some(head.dsz),
{
    let one = seq![1u8];
    let a = be_bytes(head.ibase as nat, 8);
    let b = be_bytes(head.isz as nat, 8);
    let c = be_bytes(head.dbase as nat, 8);
    let d = be_bytes(head.dsz as nat, 8);
    lemma_be_bytes_len(head.ibase as nat, 8);
    lemma_be_bytes_len(head.isz as nat, 8);
    lemma_be_bytes_len(head.dbase as nat, 8);
    lemma_be_bytes_len(head.dsz as nat, 8);
    lemma_pow256_values();
    let all = one + region_fields(head);
    lemma_uint_middle(one, head.ibase as nat, 8, b + c + d);
    assert(all =~= one + a + (b + c + d));
    lemma_uint_middle(one + a, head.isz as nat, 8, c + d);
    assert(all =~= (one + a) + b + (c + d));
    lemma_uint_middle(one + a + b, head.dbase as nat, 8, d);
    assert(all =~= (one + a + b) + c + d);
    lemma_uint_middle(one + a + b + c, head.dsz as nat, 8, Seq::empty());
    assert(all =~= (one + a + b + c) + d + Seq::<u8>::empty());
}

/// Whether the texts of a header fit their size fields.
pub open spec fn head_fits(head: HeadView) -> bool {
    &&& encode_utf8(head.name).len() <= u16::MAX
    &&& encode_utf8(head.desc).len() <= u16::MAX
    &&& encode_utf8(head.script).len() <= u32::MAX
    &&& encode_utf8(head.style).len() <= u32::MAX
}

/// The bytes of a header behind its name.
pub open spec fn after_name(head: HeadView) -> Seq<u8> {
    sized_text(head.desc, 2) + after_desc(head)
}

/// The bytes of a header behind its description.
pub open spec fn after_desc(head: HeadView) -> Seq<u8> {
    seq![1u8] + region_fields(head) + after_regions(head)
}

/// The bytes of a header behind its regions.
pub open spec fn after_regions(head: HeadView) -> Seq<u8> {
    sized_text(head.script, 4) + sized_text(head.style, 4)
}

/// The parts of a header in the order in which they are read.
pub proof fn lemma_head_parts(head: HeadView)
    ensures
        head_bytes(head) == sized_text(head.name, 2) + after_name(head),
        sized_text(head.name, 2).len() == 2 + encode_utf8(head.name).len(),
        sized_text(head.desc, 2).len() == 2 + encode_utf8(head.desc).len(),
        sized_text(head.script, 4).len() == 4 + encode_utf8(head.script).len(),
        sized_text(head.style, 4).len() == 4 + encode_utf8(head.style).len(),
        region_fields(head).len() == 32,
        head_bytes(head).len() == head_len(head.name, head.desc, head.script, head.style),
{
    lemma_be_bytes_len(encode_utf8(head.name).len(), 2);
    lemma_be_bytes_len(encode_utf8(head.desc).len(), 2);
    lemma_be_bytes_len(encode_utf8(head.script).len(), 4);
    lemma_be_bytes_len(encode_utf8(head.style).len(), 4);
    lemma_region_fields(head);
    assert(head_bytes(head) =~= sized_text(head.name, 2) + after_name(head));
}

/// A text behind its size is read back, whatever stands around it.
pub proof fn lemma_sized_text(a: Seq<u8>, text: Seq<char>, width: nat, c: Seq<u8>)
    requires
        width == 2 || width == 4,
        encode_utf8(text).len() < pow256(width),
    ensures
        uint_at(a + sized_text(text, width) + c, a.len() as int, width as int) == Some(
            encode_utf8(text).len() as u64,
        ),
        text_at(
            a + sized_text(text, width) + c,
            (a.len() + width) as int,
            encode_utf8(text).len() as int,
        ) == Some(text),
        sized_text(text, width).len() == width + encode_utf8(text).len(),
{
    let bytes = encode_utf8(text);
    let size = be_bytes(bytes.len(), width);
    lemma_be_bytes_len(bytes.len(), width);
    let buf = a + sized_text(text, width) + c;
    lemma_uint_middle(a, bytes.len(), width, bytes + c);
    assert(buf =~= a + size + (bytes + c));
    lemma_text_middle(a + size, text, c);
    assert(buf =~= (a + size) + bytes + c);
}

/// A header whose texts fit their size fields is read back as it was
/// written.
pub proof fn lemma_head_round_trip(head: HeadView)
    requires
        head_fits(head),
    ensures
        parsed_head(head_bytes(head)) == Some(head),
        head_bytes(head).len() == head_len(head.name, head.desc, head.script, head.style),
{
    reveal(parsed_head);
    let buf = head_bytes(head);
    let empty = Seq::<u8>::empty();
    let name = sized_text(head.name, 2);
    let desc = sized_text(head.desc, 2);
    let regions = seq![1u8] + region_fields(head);
    let script = sized_text(head.script, 4);
    let style = sized_text(head.style, 4);
    let nl = encode_utf8(head.name).len() as int;
    let dl = encode_utf8(head.desc).len() as int;
    let sl = encode_utf8(head.script).len() as int;
    let tl = encode_utf8(head.style).len() as int;
    let fixed = 4 + nl + dl;
    lemma_head_parts(head);
    lemma_region_fields(head);
    lemma_pow256_values();
    assert(uint_at(buf, 0, 2) == Some(nl as u64) && text_at(buf, 2, nl) == Some(head.name)) by {
        lemma_sized_text(empty, head.name, 2, after_name(head));
        assert(buf =~= empty + name + after_name(head));
    }
    assert(uint_at(buf, 2 + nl, 2) == Some(dl as u64) && text_at(buf, 4 + nl, dl) == Some(
        head.desc,
    )) by {
        lemma_sized_text(name, head.desc, 2, after_desc(head));
        assert(buf =~= name + desc + after_desc(head));
    }
    assert(window(buf, fixed, 33) == Some(regions)) by {
        lemma_window_middle(name + desc, regions, after_regions(head));
        assert(buf =~= (name + desc) + regions + after_regions(head));
    }
    assert(uint_at(buf, fixed + 33, 4) == Some(sl as u64) && text_at(buf, fixed + 37, sl) == Some(
        head.script,
    )) by {
        lemma_sized_text(name + desc + regions, head.script, 4, style);
        assert(buf =~= (name + desc + regions) + script + style);
    }
    assert(uint_at(buf, fixed + 37 + sl, 4) == Some(tl as u64) && text_at(
        buf,
        fixed + 41 + sl,
        tl,
    ) == Some(head.style)) by {
        lemma_sized_text(name + desc + regions + script, head.style, 4, empty);
        assert(buf =~= (name + desc + regions + script) + style + empty);
    }
    assert(regions[0] == 1u8);
    assert(format_of(regions[0]) == Some(head.ifmt));
}

/// The data entries of the records from record `k` on.
pub open spec fn data_from(records: Records, k: int) -> Seq<u8>
    decreases records.len() - k,
{
    if k < 0 || k >= records.len() {
        Seq::empty()
    } else {
        encoded_entry(1, encode_utf8(records[k].1)) + data_from(records, k + 1)
    }
}

/// The data region is the entries of the first `k` records and then those of
/// the others.
pub proof fn lemma_data_region_split(records: Records, k: int)
    requires
        0 <= k <= records.len(),
    ensures
        data_region(records) == data_region(records.take(k)) + data_from(records, k),
    decreases records.len() - k,
{
    if k == records.len() {
        assert(records.take(k) =~= records);
        assert(data_region(records) =~= data_region(records) + Seq::<u8>::empty());
    } else {
        lemma_data_region_split(records, k + 1);
        assert(records.take(k + 1).drop_last() =~= records.take(k));
        assert(records.take(k + 1).last() == records[k]);
        let entry = encoded_entry(1, encode_utf8(records[k].1));
        assert(data_region(records.take(k + 1)) == data_region(records.take(k)) + entry);
        assert(data_region(records) =~= data_region(records.take(k)) + (entry + data_from(
            records,
            k + 1,
        )));
    }
}

/// The parts of a dictionary image in the order in which they stand.
pub open spec fn image_preamble(
    records: Records,
    name: Seq<char>,
    desc: Seq<char>,
    script: Seq<char>,
    style: Seq<char>,
) -> Seq<u8> {
    magic_bytes() + be_bytes(LATEST_WIKIT_FMT_VERSION as nat, 4) + be_bytes(
        head_len(name, desc, script, style) as nat,
        2,
    )
}

/// Where the parts of a dictionary image lie, and how long the image is: the
/// preamble, the header, the data region and the index follow each other and
/// make up the image, and the header says so.
pub proof fn lemma_image_layout(
    records: Records,
    name: Seq<char>,
    desc: Seq<char>,
    script: Seq<char>,
    style: Seq<char>,
)
    requires
        fits(records, name, desc, script, style),
    ensures
        ({
            let image = dictionary_image(records, name, desc, script, style);
            let head = image_head(records, name, desc, script, style);
            let size = head_len(name, desc, script, style);
            let index = index_image(index_entries(records, PREAMBLE_SIZE + size));
            &&& head.dbase == PREAMBLE_SIZE + size
            &&& head.dsz == data_region(records).len()
            &&& head.ibase == head.dbase + head.dsz
            &&& head.isz == index.len()
            &&& image.len() == PREAMBLE_SIZE + size + head.dsz + head.isz
            &&& image.take(8) == magic_bytes()
            &&& uint_at(image, 8, 4) == Some(LATEST_WIKIT_FMT_VERSION as u64)
            &&& uint_at(image, 12, 2) == Some(size as u64)
            &&& window(image, 14, size) == Some(head_bytes(head))
            &&& image.subrange(head.dbase as int, head.dbase + head.dsz) == data_region(records)
            &&& index_region(image, head) == index
            &&& regions_ok(head, PREAMBLE_SIZE + size, image.len() as int)
        }),
{
    reveal(dictionary_image);
    let image = dictionary_image(records, name, desc, script, style);
    let head = image_head(records, name, desc, script, style);
    let size = head_len(name, desc, script, style);
    let data = data_region(records);
    let index = index_image(index_entries(records, PREAMBLE_SIZE + size));
    let magic = magic_bytes();
    let version = be_bytes(LATEST_WIKIT_FMT_VERSION as nat, 4);
    let size_field = be_bytes(size as nat, 2);
    let hbytes = head_bytes(head);
    lemma_be_bytes_len(LATEST_WIKIT_FMT_VERSION as nat, 4);
    lemma_be_bytes_len(size as nat, 2);
    lemma_pow256_values();
    lemma_head_parts(head);
    assert(magic.len() == 8);
    assert(image =~= magic + version + size_field + hbytes + data + index);
    assert(image.take(8) =~= magic);
    assert(uint_at(image, 8, 4) == Some(LATEST_WIKIT_FMT_VERSION as u64)) by {
        lemma_uint_middle(magic, LATEST_WIKIT_FMT_VERSION as nat, 4, size_field + hbytes + data + index);
        assert(image =~= magic + version + (size_field + hbytes + data + index));
    }
    assert(uint_at(image, 12, 2) == Some(size as u64)) by {
        lemma_uint_middle(magic + version, size as nat, 2, hbytes + data + index);
        assert(image =~= (magic + version) + size_field + (hbytes + data + index));
    }
    assert(window(image, 14, size) == Some(hbytes)) by {
        lemma_window_middle(magic + version + size_field, hbytes, data + index);
        assert(image =~= (magic + version + size_field) + hbytes + (data + index));
    }
    assert(image.subrange(head.dbase as int, head.dbase + head.dsz) =~= data);
    assert(index_region(image, head) =~= index);
}

/// The image of a dictionary whose sizes fit is accepted by the loader, with
/// the header that the compiler wrote, where its index has the frame and the
/// checksum of a finite-state map.
pub proof fn lemma_compiled_image_loads(
    records: Records,
    name: Seq<char>,
    desc: Seq<char>,
    script: Seq<char>,
    style: Seq<char>,
)
    requires
        fits(records, name, desc, script, style),
        index_checked(
            index_image(
                index_entries(records, PREAMBLE_SIZE + head_len(name, desc, script, style)),
            ),
        ),
    ensures
        loaded_head(dictionary_image(records, name, desc, script, style)) == Ok::<
            HeadView,
            WikitError,
        >(image_head(records, name, desc, script, style)),
{
    reveal(framed_head);
    let head = image_head(records, name, desc, script, style);
    lemma_image_layout(records, name, desc, script, style);
    lemma_head_round_trip(head);
}

/// A text entry that stands between two sequences is read back without the
/// NUL characters of its text.
pub proof fn lemma_entry_between(front: Seq<u8>, text: Seq<char>, back: Seq<u8>)
    requires
        front.len() <= u64::MAX,
        encode_utf8(text).len() <= u32::MAX,
    ensures
        entry_text(front + encoded_entry(1, encode_utf8(text)) + back, front.len() as u64) == Some(
            without_nuls(text),
        ),
{
    let bytes = encode_utf8(text);
    let typ = seq![1u8];
    let size_field = be_bytes(bytes.len(), 4);
    let image = front + encoded_entry(1, bytes) + back;
    let offset = front.len() as int;
    lemma_be_bytes_len(bytes.len(), 4);
    lemma_pow256_values();
    assert(window(image, offset, 1) == Some(typ)) by {
        lemma_window_middle(front, typ, size_field + bytes + back);
        assert(image =~= front + typ + (size_field + bytes + back));
    }
    assert(uint_at(image, offset + 1, 4) == Some(bytes.len() as u64)) by {
        lemma_uint_middle(front + typ, bytes.len(), 4, bytes + back);
        assert(image =~= (front + typ) + size_field + (bytes + back));
    }
    assert(text_at(image, offset + 5, bytes.len() as int) == Some(text)) by {
        lemma_text_middle(front + typ + size_field, text, back);
        assert(image =~= (front + typ + size_field) + bytes + back);
    }
    assert(typ[0] == 1u8);
}

/// The data entry of record `k` holds the record's meaning: reading the
/// entry at its position gives the meaning without its NUL characters.
pub proof fn lemma_entry_text(
    records: Records,
    name: Seq<char>,
    desc: Seq<char>,
    script: Seq<char>,
    style: Seq<char>,
    k: int,
)
    requires
        fits(records, name, desc, script, style),
        0 <= k < records.len(),
    ensures
        ({
            let base = PREAMBLE_SIZE + head_len(name, desc, script, style);
            &&& entry_offset(records, base, k) <= u64::MAX
            &&& entry_text(
                dictionary_image(records, name, desc, script, style),
                entry_offset(records, base, k) as u64,
            ) == Some(without_nuls(records[k].1))
        }),
{
    reveal(dictionary_image);
    let image = dictionary_image(records, name, desc, script, style);
    let head = image_head(records, name, desc, script, style);
    let size = head_len(name, desc, script, style);
    let base = PREAMBLE_SIZE + size;
    let index = index_image(index_entries(records, base));
    let before = image_preamble(records, name, desc, script, style) + head_bytes(head);
    let earlier = data_region(records.take(k));
    let later = data_from(records, k + 1);
    let entry = encoded_entry(1, encode_utf8(records[k].1));
    assert(before.len() == base) by {
        lemma_head_parts(head);
        lemma_be_bytes_len(LATEST_WIKIT_FMT_VERSION as nat, 4);
        lemma_be_bytes_len(size as nat, 2);
        assert(magic_bytes().len() == 8);
    }
    assert(data_region(records) == earlier + (entry + later)) by {
        lemma_data_region_split(records, k);
    }
    crate::wikit::lemma_data_region_grows(records, k);
    assert(image =~= (before + earlier) + entry + (later + index));
    lemma_entry_between(before + earlier, records[k].1, later + index);
}

/// In entries with ascending keys, the offset of a key is the one that its
/// entry holds.
pub proof fn lemma_value_in_unique(entries: Seq<(Seq<u8>, u64)>, k: int)
    requires
        keys_ascending(entries),
        0 <= k < entries.len(),
    ensures
        value_in(entries, entries[k].0) == Some(entries[k].1),
    decreases entries.len(),
{
    let last = entries.len() - 1;
    if entries.last().0 == entries[k].0 {
        if k < last {
            assert(bytes_lt(entries[k].0, entries[last].0));
            lemma_bytes_lt_irreflexive(entries[k].0);
        }
    } else {
        let shorter = entries.drop_last();
        assert forall|i: int, j: int| 0 <= i < j < shorter.len() implies bytes_lt(
            shorter[i].0,
            shorter[j].0,
        ) by {
            assert(bytes_lt(entries[i].0, entries[j].0));
        }
        lemma_value_in_unique(shorter, k);
    }
}

/// The entries of the index of records with ascending keys have ascending
/// keys: the index holds each key once.
pub proof fn lemma_index_keys_ascending(records: Records, base: int)
    requires
        records_ascending(records),
    ensures
        keys_ascending(index_entries(records, base)),
{
    let entries = index_entries(records, base);
    assert forall|i: int, j: int| 0 <= i < j < entries.len() implies bytes_lt(
        entries[i].0,
        entries[j].0,
    ) by {
        assert(key_lt(records, i, j));
    }
}

/// The index region of a compiled image is a finite-state map that was
/// built: from the entries of the records that the image was compiled from.
pub proof fn lemma_compiled_index_is_built(
    records: Records,
    name: Seq<char>,
    desc: Seq<char>,
    script: Seq<char>,
    style: Seq<char>,
)
    requires
        records_ascending(records),
        fits(records, name, desc, script, style),
    ensures
        holds(
            index_region(
                dictionary_image(records, name, desc, script, style),
                image_head(records, name, desc, script, style),
            ),
            index_entries(records, PREAMBLE_SIZE + head_len(name, desc, script, style)),
        ),
        built(
            index_region(
                dictionary_image(records, name, desc, script, style),
                image_head(records, name, desc, script, style),
            ),
        ),
{
    lemma_image_layout(records, name, desc, script, style);
    lemma_index_keys_ascending(records, PREAMBLE_SIZE + head_len(name, desc, script, style));
    assert(holds(
        index_region(
            dictionary_image(records, name, desc, script, style),
            image_head(records, name, desc, script, style),
        ),
        index_entries(records, PREAMBLE_SIZE + head_len(name, desc, script, style)),
    ));
}

/// The header of an image that the loader accepts and that was compiled
/// from `records` is the header that the compiler wrote.
pub proof fn lemma_loaded_is_compiled(
    image: Seq<u8>,
    head: HeadView,
    records: Records,
    name: Seq<char>,
    desc: Seq<char>,
    script: Seq<char>,
    style: Seq<char>,
)
    requires
        loaded_head(image) == Ok::<HeadView, WikitError>(head),
        fits(records, name, desc, script, style),
        image == dictionary_image(records, name, desc, script, style),
    ensures
        head == image_head(records, name, desc, script, style),
{
    reveal(framed_head);
    lemma_image_layout(records, name, desc, script, style);
    lemma_head_round_trip(image_head(records, name, desc, script, style));
}

/// Whether `answer` is a record of `records`: its key with its meaning, from
/// which NUL characters are dropped.
pub open spec fn is_answer_of(records: Records, answer: (Seq<char>, Seq<char>)) -> bool {
    exists|k: int| 0 <= k < records.len() && answer == (records[k].0, without_nuls(records[k].1))
}

/// Whether `answers` answer a lookup of `key` in the dictionary of
/// `records`: the record with the key `key`, where there is one, comes
/// first, and every answer is a record of the dictionary.
pub open spec fn answers_agree(records: Records, key: Seq<char>, answers: Records) -> bool {
    &&& forall|k: int|
        0 <= k < records.len() && (#[trigger] records[k]).0 == key ==> answers.len() > 0
            && answers[0] == (key, without_nuls(records[k].1))
    &&& forall|i: int| 0 <= i < answers.len() ==> is_answer_of(records, #[trigger] answers[i])
}

/// Whether the candidate `found` resolves to `answer` in `image`.
pub open spec fn resolves_to(
    image: Seq<u8>,
    found: (Seq<char>, u64),
    answer: (Seq<char>, Seq<char>),
) -> bool {
    entry_text(image, found.1) == Some(answer.1) && found.0 == answer.0
}

/// What resolving candidates gives: the answers gathered before stay in
/// front, and every further answer is a candidate with the meaning at its
/// offset.
pub proof fn lemma_resolved(image: Seq<u8>, found: Seq<(Seq<char>, u64)>, i: int, acc: Records)
    requires
        0 <= i <= found.len(),
    ensures
        ({
            let all = resolved(image, found, i, acc);
            &&& acc.len() <= all.len()
            &&& forall|j: int| 0 <= j < acc.len() ==> all[j] == acc[j]
            &&& forall|j: int|
                acc.len() <= j < all.len() ==> exists|m: int|
                    i <= m < found.len() && resolves_to(image, found[m], #[trigger] all[j])
            &&& i < found.len() && entry_text(image, found[i].1) is Some ==> all.len() > acc.len()
                && all[acc.len() as int] == (found[i].0, entry_text(image, found[i].1).unwrap())
        }),
    decreases found.len() - i,
{
    if i < found.len() {
        let all = resolved(image, found, i, acc);
        match entry_text(image, found[i].1) {
            Some(meaning) => {
                let next = acc.push((found[i].0, meaning));
                lemma_resolved(image, found, i + 1, next);
                assert(all[acc.len() as int] == next[acc.len() as int]);
                assert forall|j: int| acc.len() <= j < all.len() implies exists|m: int|
                    i <= m < found.len() && resolves_to(image, found[m], #[trigger] all[j]) by {
                    if j == acc.len() {
                        assert(resolves_to(image, found[i], all[j]));
                    } else {
                        let m = choose|m: int|
                            i + 1 <= m < found.len() && resolves_to(image, found[m], all[j]);
                        assert(resolves_to(image, found[m], all[j]));
                    }
                }
                assert forall|j: int| 0 <= j < acc.len() implies all[j] == acc[j] by {
                    assert(all[j] == next[j]);
                }
            },
            None => {
                lemma_resolved(image, found, i + 1, acc);
                assert forall|j: int| acc.len() <= j < all.len() implies exists|m: int|
                    i <= m < found.len() && resolves_to(image, found[m], #[trigger] all[j]) by {
                    let m = choose|m: int|
                        i + 1 <= m < found.len() && resolves_to(image, found[m], all[j]);
                    assert(resolves_to(image, found[m], all[j]));
                }
            },
        }
    }
}

/// A lookup in a compiled dictionary answers with the dictionary's records:
/// where the candidates are entries of the index and the entry of `key`
/// comes first among them, the answers agree with the records.
pub proof fn lemma_lookup_agrees(
    records: Records,
    name: Seq<char>,
    desc: Seq<char>,
    script: Seq<char>,
    style: Seq<char>,
    key: Seq<char>,
    found: Seq<(Seq<char>, u64)>,
)
    requires
        records_ascending(records),
        fits(records, name, desc, script, style),
        ({
            let entries = index_entries(
                records,
                PREAMBLE_SIZE + head_len(name, desc, script, style),
            );
            &&& forall|i: int|
                0 <= i < found.len() ==> entries.contains(
                    (encode_utf8((#[trigger] found[i]).0), found[i].1),
                )
            &&& value_in(entries, encode_utf8(key)) is Some ==> found.len() > 0 && found[0] == (
                key,
                value_in(entries, encode_utf8(key)).unwrap(),
            )
        }),
    ensures
        answers_agree(
            records,
            key,
            resolved(
                dictionary_image(records, name, desc, script, style),
                found,
                0,
                Seq::empty(),
            ),
        ),
{
    let image = dictionary_image(records, name, desc, script, style);
    let base = PREAMBLE_SIZE + head_len(name, desc, script, style);
    let entries = index_entries(records, base);
    let answers = resolved(image, found, 0, Seq::empty());
    lemma_resolved(image, found, 0, Seq::empty());
    lemma_index_keys_ascending(records, base);
    assert forall|k: int| 0 <= k < records.len() && (#[trigger] records[k]).0 == key implies answers.len()
        > 0 && answers[0] == (key, without_nuls(records[k].1)) by {
        lemma_value_in_unique(entries, k);
        lemma_entry_text(records, name, desc, script, style, k);
        assert(entries[k] == (encode_utf8(key), entry_offset(records, base, k) as u64));
    }
    assert forall|i: int| 0 <= i < answers.len() implies is_answer_of(
        records,
        #[trigger] answers[i],
    ) by {
        let m = choose|m: int| 0 <= m < found.len() && resolves_to(image, found[m], answers[i]);
        let entry = (encode_utf8(found[m].0), found[m].1);
        assert(entries.contains(entry));
        let k = choose|k: int| 0 <= k < entries.len() && entries[k] == entry;
        lemma_entry_text(records, name, desc, script, style, k);
        encode_utf8_decode_utf8(found[m].0);
        encode_utf8_decode_utf8(records[k].0);
        assert(answers[i] == (records[k].0, without_nuls(records[k].1)));
    }
}

} // verus!
