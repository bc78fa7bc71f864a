//! The dictionary image: its header, its data entries and its index; the
//! compiler that writes an image, and the loader and the lookup that read it.

use crate::answers::{
    answers_selected, exact_answer, lemma_chosen_are_selected, lemma_exact_lookup_answer,
    lemma_lookup_answers, record_answers,
};
use crate::bytes::{be_bytes, bytes_lt, lemma_be_bytes_len, push_be, read_be, uint_at, window};
use crate::codec::utf8_to_string;
use crate::error::WikitError;
use crate::index::{
    built, check_index, entries_view, format_of, found_view, fuzziness,
    fuzzy_matches, holds, index_candidates, index_checked, index_image, keys_ascending, within,
    FSTIndex, IndexFormat,
};
use crate::layout::{
    answers_agree, lemma_compiled_image_loads, lemma_compiled_index_is_built, lemma_image_layout,
    lemma_index_keys_ascending, lemma_loaded_is_compiled, lemma_lookup_agrees, lemma_resolved,
    resolves_to,
};
use crate::mdict::pairs_view;
use crate::records::{key_lt, sort_records, sorted_first_wins, sorted_form, Records};
use crate::util::{drop_nuls, normalize_word, normalized, without_nuls};
use vstd::prelude::*;
use vstd::slice::slice_subrange;
use vstd::utf8::{decode_utf8, encode_utf8, is_ascii_chars, valid_utf8};

verus! {

/// The eight bytes that every dictionary image starts with.
pub const WIKIT_MAGIC: &'static str = "WIKIT516";

/// The format version that the compiler writes and the loader accepts.
pub const LATEST_WIKIT_FMT_VERSION: u32 = 0x0000_0001;

/// The number of bytes before the header: the magic, the format version and
/// the size of the header.
pub const PREAMBLE_SIZE: usize = 14;

/// The magic as bytes: `WIKIT516` in ASCII.
pub open spec fn magic_bytes() -> Seq<u8> {
    seq![0x57u8, 0x49u8, 0x4bu8, 0x49u8, 0x54u8, 0x35u8, 0x31u8, 0x36u8]
}

/// A dictionary that a server offers.
#[derive(Debug)]
pub struct DictList {
    /// The name of the dictionary.
    pub name: String,
    /// The identifier under which the server knows it.
    pub id: String,
}

/// What a data entry holds.
#[derive(Clone, Copy, Debug, PartialEq, Eq, Structural)]
pub enum DataEntryType {
    /// The text of a meaning.
    TXT,
    /// An SVG image.
    SVG,
    /// A PNG image.
    PNG,
    /// A JPEG image.
    JPG,
    /// MP3 sound.
    MP3,
    /// WAV sound.
    WAV,
    /// MP4 video.
    MP4,
}

impl DataEntryType {
    /// The byte that stands for the type in a data entry: 1 to 7.
    pub open spec fn spec_code(&self) -> u8 {
        match self {
            DataEntryType::TXT => 1,
            DataEntryType::SVG => 2,
            DataEntryType::PNG => 3,
            DataEntryType::JPG => 4,
            DataEntryType::MP3 => 5,
            DataEntryType::WAV => 6,
            DataEntryType::MP4 => 7,
        }
    }

    /// The byte that stands for the type in a data entry.
    pub fn code(&self) -> (v: u8)
        ensures
            v == self.spec_code(),
    {
        match self {
            DataEntryType::TXT => 1,
            DataEntryType::SVG => 2,
            DataEntryType::PNG => 3,
            DataEntryType::JPG => 4,
            DataEntryType::MP3 => 5,
            DataEntryType::WAV => 6,
            DataEntryType::MP4 => 7,
        }
    }

    /// The type that the byte `v` stands for; `None` for an unknown byte.
    pub fn from_code(v: u8) -> (typ: Option<DataEntryType>)
        ensures
            typ is Some <==> 1 <= v <= 7,
            typ is Some ==> typ.unwrap().spec_code() == v,
    {
        match v {
            1 => Some(DataEntryType::TXT),
            2 => Some(DataEntryType::SVG),
            3 => Some(DataEntryType::PNG),
            4 => Some(DataEntryType::JPG),
            5 => Some(DataEntryType::MP3),
            6 => Some(DataEntryType::WAV),
            7 => Some(DataEntryType::MP4),
            _ => None,
        }
    }
}

/// The kinds of source that a dictionary is compiled from.
#[derive(Clone, Copy, Debug, PartialEq, Eq, Structural)]
pub enum WikitSourceType {
    /// An MDX archive, with optional style sheet and script beside it.
    Mdict,
    /// A plain-text source, with optional media beside it.
    Wikit,
}

/// What a dictionary says of itself.
#[derive(Debug)]
pub struct WikitDictConf {
    /// The name of the dictionary.
    pub name: String,
    /// A description of the dictionary.
    pub desc: String,
    /// The author of the dictionary.
    pub author: String,
}

impl WikitDictConf {
    /// The description of a dictionary with the given name, description and
    /// author.
    pub fn new(name: &str, desc: &str, author: &str) -> (conf: WikitDictConf)
        ensures
            conf.name@ == name@,
            conf.desc@ == desc@,
            conf.author@ == author@,
    {
        WikitDictConf { name: name.to_owned(), desc: desc.to_owned(), author: author.to_owned() }
    }
}

/// The bytes of a data entry: its type, the size of its payload in four
/// bytes, big-endian, and the payload.
pub open spec fn encoded_entry(typ: u8, payload: Seq<u8>) -> Seq<u8> {
    seq![typ] + be_bytes(payload.len(), 4) + payload
}

/// A typed blob of the data region.
#[derive(Debug)]
pub struct DataEntry<'a> {
    typ: DataEntryType,
    sz: u32,
    buf: &'a [u8],
}

impl<'a> DataEntry<'a> {
    /// The type of the entry.
    pub closed spec fn spec_typ(&self) -> DataEntryType {
        self.typ
    }

    /// The size that the entry declares for its payload.
    pub closed spec fn spec_sz(&self) -> u32 {
        self.sz
    }

    /// The payload of the entry.
    pub closed spec fn payload(&self) -> Seq<u8> {
        self.buf@
    }

    /// An entry of type `typ` whose payload `buf` has `sz` bytes.
    pub fn new(typ: DataEntryType, sz: u32, buf: &'a [u8]) -> (entry: DataEntry<'a>)
        ensures
            entry.spec_typ() == typ,
            entry.spec_sz() == sz,
            entry.payload() == buf@,
    {
        DataEntry { typ, sz, buf }
    }

    /// Appends the entry to `out`. Returns the position at which the entry
    /// starts in `out` and the number of its bytes.
    pub fn write(&self, out: &mut Vec<u8>) -> (place: (u64, u64))
        requires
            self.spec_sz() == self.payload().len(),
        ensures
            final(out)@ == old(out)@ + encoded_entry(self.spec_typ().spec_code(), self.payload()),
            place.0 == old(out)@.len(),
            place.1 == 5 + self.payload().len(),
    {
        let start: u64 = out.len() as u64;
        let ghost before = out@;
        out.push(self.typ.code());
        push_be(out, self.sz as u64, 4);
        out.extend_from_slice(self.buf);
        proof {
            lemma_be_bytes_len(self.sz as nat, 4);
            assert(out@ =~= before + encoded_entry(self.typ.spec_code(), self.buf@));
        }
        (start, 5 + self.sz as u64)
    }
}

/// The header of a dictionary image, as plain values.
pub struct HeadView {
    /// The name of the dictionary.
    pub name: Seq<char>,
    /// A description of the dictionary.
    pub desc: Seq<char>,
    /// The format of the index.
    pub ifmt: IndexFormat,
    /// The position of the index in the image.
    pub ibase: u64,
    /// The number of bytes of the index.
    pub isz: u64,
    /// The position of the data region in the image.
    pub dbase: u64,
    /// The number of bytes of the data region.
    pub dsz: u64,
    /// The script that goes with the meanings.
    pub script: Seq<char>,
    /// The style sheet that goes with the meanings.
    pub style: Seq<char>,
}

/// The header of a dictionary image.
#[derive(Debug)]
pub struct WikitHead {
    /// The name of the dictionary.
    pub name: String,
    /// A description of the dictionary.
    pub desc: String,
    /// The format of the index.
    pub ifmt: IndexFormat,
    /// The position of the index in the image.
    pub ibase: u64,
    /// The number of bytes of the index.
    pub isz: u64,
    /// The position of the data region in the image.
    pub dbase: u64,
    /// The number of bytes of the data region.
    pub dsz: u64,
    /// The script that goes with the meanings.
    pub script: String,
    /// The style sheet that goes with the meanings.
    pub style: String,
}

impl View for WikitHead {
    type V = HeadView;

    open spec fn view(&self) -> HeadView {
        HeadView {
            name: self.name@,
            desc: self.desc@,
            ifmt: self.ifmt,
            ibase: self.ibase,
            isz: self.isz,
            dbase: self.dbase,
            dsz: self.dsz,
            script: self.script@,
            style: self.style@,
        }
    }
}

/// A text behind its size, which is written in `width` bytes.
pub open spec fn sized_text(text: Seq<char>, width: nat) -> Seq<u8> {
    be_bytes(encode_utf8(text).len(), width) + encode_utf8(text)
}

/// The four positions and sizes of a header: of the index, then of the data.
pub open spec fn region_fields(head: HeadView) -> Seq<u8> {
    be_bytes(head.ibase as nat, 8) + be_bytes(head.isz as nat, 8) + be_bytes(head.dbase as nat, 8)
        + be_bytes(head.dsz as nat, 8)
}

/// The bytes of a header: name and description, each behind its size in two
/// bytes; the code of the index format; the position and size of the index
/// and of the data region, eight bytes each; script and style sheet, each
/// behind its size in four bytes. All integers are big-endian.
pub open spec fn head_bytes(head: HeadView) -> Seq<u8> {
    sized_text(head.name, 2) + sized_text(head.desc, 2) + seq![1u8] + region_fields(head)
        + sized_text(head.script, 4) + sized_text(head.style, 4)
}

/// The text of `size` bytes at `pos` of `buf`; `None` where `buf` ends
/// before it or the bytes are no UTF-8.
pub open spec fn text_at(buf: Seq<u8>, pos: int, size: int) -> Option<Seq<char>> {
    match window(buf, pos, size) {
        Some(bytes) => if valid_utf8(bytes) {
            Some(decode_utf8(bytes))
        } else {
            None
        },
        None => None,
    }
}

/// The header that `buf` starts with; `None` where `buf` ends before the
/// header does, a text is no UTF-8 or the index format is unknown.
#[verifier::opaque]
pub open spec fn parsed_head(buf: Seq<u8>) -> Option<HeadView> {
    match uint_at(buf, 0, 2) {
        None => None,
        Some(name_size) => match (text_at(buf, 2, name_size as int), uint_at(buf, 2 + name_size, 2)) {
            (Some(name), Some(desc_size)) => {
                let fixed = 4 + name_size + desc_size;
                match (
                    text_at(buf, 4 + name_size, desc_size as int),
                    window(buf, fixed, 33),
                    uint_at(buf, fixed + 33, 4),
                ) {
                    (Some(desc), Some(regions), Some(script_size)) => match (
                        format_of(regions[0]),
                        text_at(buf, fixed + 37, script_size as int),
                        uint_at(buf, fixed + 37 + script_size, 4),
                    ) {
                        (Some(ifmt), Some(script), Some(style_size)) => match text_at(
                            buf,
                            fixed + 41 + script_size,
                            style_size as int,
                        ) {
                            Some(style) => Some(
                                HeadView {
                                    name,
                                    desc,
                                    ifmt,
                                    ibase: uint_at(regions, 1, 8).unwrap(),
                                    isz: uint_at(regions, 9, 8).unwrap(),
                                    dbase: uint_at(regions, 17, 8).unwrap(),
                                    dsz: uint_at(regions, 25, 8).unwrap(),
                                    script,
                                    style,
                                },
                            ),
                            None => None,
                        },
                        _ => None,
                    },
                    _ => None,
                }
            },
            _ => None,
        },
    }
}

/// Reads the text of `size` bytes at `pos` of `buf`.
fn read_text(buf: &[u8], pos: usize, size: u64) -> (text: Option<String>)
    requires
        pos <= buf@.len(),
    ensures
        text is Some <==> text_at(buf@, pos as int, size as int) is Some,
        text is Some ==> text.unwrap()@ == text_at(buf@, pos as int, size as int).unwrap(),
        text is Some ==> pos + size <= buf@.len(),
{
    if size > (buf.len() - pos) as u64 {
        return None;
    }
    utf8_to_string(slice_subrange(buf, pos, pos + size as usize))
}

impl WikitHead {
    /// Reads the header that `headbuf` starts with.
    pub fn new(headbuf: &[u8]) -> (head: Result<WikitHead, WikitError>)
        ensures
            head is Ok <==> parsed_head(headbuf@) is Some,
            head is Ok ==> head.unwrap()@ == parsed_head(headbuf@).unwrap(),
            head is Err ==> head == Err::<WikitHead, WikitError>(WikitError::HeaderTruncated),
    {
        proof {
            reveal(parsed_head);
        }
        let total: usize = headbuf.len();
        let name_size: u64 = match read_be(headbuf, 0, 2) {
            Some(size) => size,
            None => {
                return Err(WikitError::HeaderTruncated);
            },
        };
        let name: String = match read_text(headbuf, 2, name_size) {
            Some(name) => name,
            None => {
                return Err(WikitError::HeaderTruncated);
            },
        };
        let desc_pos: usize = 2 + name_size as usize;
        let desc_size: u64 = match read_be(headbuf, desc_pos, 2) {
            Some(size) => size,
            None => {
                return Err(WikitError::HeaderTruncated);
            },
        };
        proof {
            assert(window(headbuf@, desc_pos as int, 2) is Some);
        }
        let desc: String = match read_text(headbuf, desc_pos + 2, desc_size) {
            Some(desc) => desc,
            None => {
                return Err(WikitError::HeaderTruncated);
            },
        };
        let fixed: usize = desc_pos + 2 + desc_size as usize;
        if 33 > total - fixed {
            return Err(WikitError::HeaderTruncated);
        }
        let regions = slice_subrange(headbuf, fixed, fixed + 33);
        let script_size: u64 = match read_be(headbuf, fixed + 33, 4) {
            Some(size) => size,
            None => {
                return Err(WikitError::HeaderTruncated);
            },
        };
        proof {
            assert(window(headbuf@, fixed + 33, 4) is Some);
        }
        let ifmt: IndexFormat = match IndexFormat::new(regions[0]) {
            Some(ifmt) => ifmt,
            None => {
                return Err(WikitError::HeaderTruncated);
            },
        };
        let script: String = match read_text(headbuf, fixed + 37, script_size) {
            Some(script) => script,
            None => {
                return Err(WikitError::HeaderTruncated);
            },
        };
        let style_pos: usize = fixed + 37 + script_size as usize;
        let style_size: u64 = match read_be(headbuf, style_pos, 4) {
            Some(size) => size,
            None => {
                return Err(WikitError::HeaderTruncated);
            },
        };
        proof {
            assert(window(headbuf@, style_pos as int, 4) is Some);
        }
        let style: String = match read_text(headbuf, style_pos + 4, style_size) {
            Some(style) => style,
            None => {
                return Err(WikitError::HeaderTruncated);
            },
        };
        let ibase: u64 = match read_be(regions, 1, 8) {
            Some(v) => v,
            None => 0,
        };
        let isz: u64 = match read_be(regions, 9, 8) {
            Some(v) => v,
            None => 0,
        };
        let dbase: u64 = match read_be(regions, 17, 8) {
            Some(v) => v,
            None => 0,
        };
        let dsz: u64 = match read_be(regions, 25, 8) {
            Some(v) => v,
            None => 0,
        };
        Ok(WikitHead { name, desc, ifmt, ibase, isz, dbase, dsz, script, style })
    }

    /// Appends the bytes of the header to `out`.
    pub fn write(&self, out: &mut Vec<u8>)
        requires
            encode_utf8(self.name@).len() <= u16::MAX,
            encode_utf8(self.desc@).len() <= u16::MAX,
            encode_utf8(self.script@).len() <= u32::MAX,
            encode_utf8(self.style@).len() <= u32::MAX,
        ensures
            final(out)@ == old(out)@ + head_bytes(self@),
    {
        let ghost before = out@;
        let name = self.name.as_str().as_bytes();
        let desc = self.desc.as_str().as_bytes();
        let script = self.script.as_str().as_bytes();
        let style = self.style.as_str().as_bytes();
        push_be(out, name.len() as u64, 2);
        out.extend_from_slice(name);
        push_be(out, desc.len() as u64, 2);
        out.extend_from_slice(desc);
        out.push(self.ifmt.code());
        push_be(out, self.ibase, 8);
        push_be(out, self.isz, 8);
        push_be(out, self.dbase, 8);
        push_be(out, self.dsz, 8);
        push_be(out, script.len() as u64, 4);
        out.extend_from_slice(script);
        push_be(out, style.len() as u64, 4);
        out.extend_from_slice(style);
        proof {
            assert(out@ =~= before + head_bytes(self@));
        }
    }
}

/// The data region that holds the meanings of `records`, one text entry for
/// each record, in the order of the records.
pub open spec fn data_region(records: Records) -> Seq<u8>
    decreases records.len(),
{
    if records.len() == 0 {
        Seq::empty()
    } else {
        data_region(records.drop_last()) + encoded_entry(1, encode_utf8(records.last().1))
    }
}

/// The position of the data entry of record `k` in an image whose data
/// region starts at `base`.
pub open spec fn entry_offset(records: Records, base: int, k: int) -> int {
    base + data_region(records.take(k)).len()
}

/// The entries of the index of `records` in an image whose data region
/// starts at `base`: each key with the position of its data entry.
pub open spec fn index_entries(records: Records, base: int) -> Seq<(Seq<u8>, u64)> {
    Seq::new(
        records.len(),
        |k: int| (encode_utf8(records[k].0), entry_offset(records, base, k) as u64),
    )
}

/// The number of bytes of the header with these texts.
pub open spec fn head_len(name: Seq<char>, desc: Seq<char>, script: Seq<char>, style: Seq<char>) -> int {
    45 + encode_utf8(name).len() as int + encode_utf8(desc).len() + encode_utf8(script).len()
        + encode_utf8(style).len()
}

/// The header of the image that holds `records` under these texts: the data
/// region follows the header, and the index follows the data region.
pub open spec fn image_head(
    records: Records,
    name: Seq<char>,
    desc: Seq<char>,
    script: Seq<char>,
    style: Seq<char>,
) -> HeadView {
    let dbase = PREAMBLE_SIZE + head_len(name, desc, script, style);
    let dsz = data_region(records).len();
    HeadView {
        name,
        desc,
        ifmt: IndexFormat::FST,
        ibase: (dbase + dsz) as u64,
        isz: index_image(index_entries(records, dbase)).len() as u64,
        dbase: dbase as u64,
        dsz: dsz as u64,
        script,
        style,
    }
}

/// The image of the dictionary that holds `records` under these texts: the
/// magic, the format version, the size of the header, the header, the data
/// region and the index.
#[verifier::opaque]
pub open spec fn dictionary_image(
    records: Records,
    name: Seq<char>,
    desc: Seq<char>,
    script: Seq<char>,
    style: Seq<char>,
) -> Seq<u8> {
    let dbase = PREAMBLE_SIZE + head_len(name, desc, script, style);
    magic_bytes() + be_bytes(LATEST_WIKIT_FMT_VERSION as nat, 4) + be_bytes(
        head_len(name, desc, script, style) as nat,
        2,
    ) + head_bytes(image_head(records, name, desc, script, style)) + data_region(records)
        + index_image(index_entries(records, dbase))
}

/// Whether every size of the image that holds `records` under these texts
/// fits the field that the format has for it: name, description and the
/// header as a whole in two bytes, script, style sheet and each meaning in
/// four, and every position in eight.
pub open spec fn fits(
    records: Records,
    name: Seq<char>,
    desc: Seq<char>,
    script: Seq<char>,
    style: Seq<char>,
) -> bool {
    let dbase = PREAMBLE_SIZE + head_len(name, desc, script, style);
    &&& encode_utf8(name).len() <= u16::MAX
    &&& encode_utf8(desc).len() <= u16::MAX
    &&& encode_utf8(script).len() <= u32::MAX
    &&& encode_utf8(style).len() <= u32::MAX
    &&& head_len(name, desc, script, style) <= u16::MAX
    &&& forall|k: int| 0 <= k < records.len() ==> encode_utf8(#[trigger] records[k].1).len() <= u32::MAX
    &&& dbase + data_region(records).len() + index_image(index_entries(records, dbase)).len()
        <= u64::MAX
}

/// Whether the keys of `records` stand in strictly ascending byte order.
pub open spec fn records_ascending(records: Records) -> bool {
    forall|k: int, l: int| 0 <= k < l < records.len() ==> #[trigger] key_lt(records, k, l)
}

/// The data region of the first records is no longer than that of all.
pub proof fn lemma_data_region_grows(records: Records, k: int)
    requires
        0 <= k <= records.len(),
    ensures
        data_region(records.take(k)).len() <= data_region(records).len(),
    decreases records.len() - k,
{
    if k < records.len() {
        lemma_data_region_grows(records, k + 1);
        assert(records.take(k + 1).drop_last() =~= records.take(k));
    } else {
        assert(records.take(k) =~= records);
    }
}

/// Writes the image of the dictionary that holds `records`, whose keys
/// stand in strictly ascending order, under the texts of `conf`, `script`
/// and `style`. Fails where a size does not fit its field.
pub fn write_dictionary(
    records: &Vec<(String, String)>,
    conf: &WikitDictConf,
    script: &str,
    style: &str,
) -> (image: Result<Vec<u8>, WikitError>)
    requires
        records_ascending(pairs_view(records@)),
    ensures
        image is Ok <==> fits(pairs_view(records@), conf.name@, conf.desc@, script@, style@),
        image is Ok ==> image.unwrap()@ == dictionary_image(
            pairs_view(records@),
            conf.name@,
            conf.desc@,
            script@,
            style@,
        ),
        image is Ok ==> loaded_head(image.unwrap()@) == Ok::<HeadView, WikitError>(
            image_head(pairs_view(records@), conf.name@, conf.desc@, script@, style@),
        ),
        image is Err ==> image == Err::<Vec<u8>, WikitError>(WikitError::TooLarge),
{
    proof {
        reveal(dictionary_image);
    }
    let ghost recs = pairs_view(records@);
    let name_len: usize = conf.name.as_str().as_bytes().len();
    let desc_len: usize = conf.desc.as_str().as_bytes().len();
    let script_len: usize = script.as_bytes().len();
    let style_len: usize = style.as_bytes().len();
    if name_len > 0xffff || desc_len > 0xffff || script_len > 0xffff || style_len > 0xffff {
        proof {
            assert(head_len(conf.name@, conf.desc@, script@, style@) > u16::MAX);
        }
        return Err(WikitError::TooLarge);
    }
    let head_size: usize = 45 + name_len + desc_len + script_len + style_len;
    if head_size > 0xffff {
        return Err(WikitError::TooLarge);
    }
    let dbase: u64 = (PREAMBLE_SIZE + head_size) as u64;
    let mut data: Vec<u8> = Vec::new();
    let mut entries: Vec<(String, u64)> = Vec::new();
    let mut k: usize = 0;
    proof {
        assert(recs.take(0) =~= Seq::<(Seq<char>, Seq<char>)>::empty());
        assert(entries_view(entries@) =~= index_entries(recs, dbase as int).take(0));
    }
    while k < records.len()
        invariant
            recs == pairs_view(records@),
            k <= records@.len(),
            dbase == PREAMBLE_SIZE + head_len(conf.name@, conf.desc@, script@, style@),
            dbase <= 0x2_0000,
            data@ == data_region(recs.take(k as int)),
            entries_view(entries@) == index_entries(recs, dbase as int).take(k as int),
            forall|j: int| 0 <= j < k ==> encode_utf8(#[trigger] recs[j].1).len() <= u32::MAX,
        decreases records@.len() - k,
    {
        let meaning = records[k].1.as_str().as_bytes();
        if meaning.len() > 0xffff_ffff {
            proof {
                assert(encode_utf8(recs[k as int].1).len() > u32::MAX);
            }
            return Err(WikitError::TooLarge);
        }
        if data.len() as u64 > u64::MAX - dbase {
            proof {
                lemma_data_region_grows(recs, k as int);
            }
            return Err(WikitError::TooLarge);
        }
        let offset: u64 = dbase + data.len() as u64;
        let ghost old_entries = entries_view(entries@);
        entries.push((records[k].0.clone(), offset));
        let entry = DataEntry::new(DataEntryType::TXT, meaning.len() as u32, meaning);
        entry.write(&mut data);
        proof {
            assert(recs.take(k + 1).drop_last() =~= recs.take(k as int));
            assert(recs.take(k + 1).last() == recs[k as int]);
            assert(entries_view(entries@) =~= old_entries.push(
                (encode_utf8(recs[k as int].0), offset),
            ));
            assert(entries_view(entries@) =~= index_entries(recs, dbase as int).take(k + 1));
        }
        k = k + 1;
    }
    proof {
        assert(recs.take(k as int) =~= recs);
        assert(index_entries(recs, dbase as int).take(k as int) =~= index_entries(
            recs,
            dbase as int,
        ));
        assert forall|i: int, j: int| 0 <= i < j < entries_view(entries@).len() implies bytes_lt(
            entries_view(entries@)[i].0,
            entries_view(entries@)[j].0,
        ) by {
            assert(key_lt(recs, i, j));
        }
        assert(keys_ascending(entries_view(entries@)));
    }
    if data.len() as u64 > u64::MAX - dbase {
        return Err(WikitError::TooLarge);
    }
    let ibase: u64 = dbase + data.len() as u64;
    let mut index: Vec<u8> = Vec::new();
    let place = FSTIndex::write(&entries, &mut index);
    proof {
        assert(place is Ok);
        assert(index@ =~= index_image(index_entries(recs, dbase as int)));
    }
    if index.len() as u64 > u64::MAX - ibase {
        return Err(WikitError::TooLarge);
    }
    let head = WikitHead {
        name: conf.name.clone(),
        desc: conf.desc.clone(),
        ifmt: IndexFormat::FST,
        ibase,
        isz: index.len() as u64,
        dbase,
        dsz: data.len() as u64,
        script: script.to_owned(),
        style: style.to_owned(),
    };
    proof {
        assert(head@ == image_head(recs, conf.name@, conf.desc@, script@, style@));
    }
    proof {
        crate::layout::lemma_head_parts(head@);
    }
    let image = assemble_image(&head, data, index);
    proof {
        lemma_compiled_image_loads(recs, conf.name@, conf.desc@, script@, style@);
    }
    Ok(image)
}

/// Whether the regions that `head` describes lie in an image of `len`
/// bytes behind the header, which ends at `after_head`, and do not overlap.
pub open spec fn regions_ok(head: HeadView, after_head: int, len: int) -> bool {
    &&& after_head <= head.dbase
    &&& head.dbase + head.dsz <= len
    &&& after_head <= head.ibase
    &&& head.ibase + head.isz <= len
    &&& (head.dbase + head.dsz <= head.ibase || head.ibase + head.isz <= head.dbase)
}

/// The index region of `image` under `head`.
pub open spec fn index_region(image: Seq<u8>, head: HeadView) -> Seq<u8> {
    image.subrange(head.ibase as int, head.ibase + head.isz)
}

/// The header that the dictionary image `image` carries, or why it carries
/// none: the image does not start with the magic, its version is unknown,
/// or its header is cut short or damaged or describes regions that do not
/// lie in the image.
#[verifier::opaque]
pub open spec fn framed_head(image: Seq<u8>) -> Result<HeadView, WikitError> {
    if image.len() < 8 || image.take(8) != magic_bytes() {
        Err(WikitError::BadMagic)
    } else {
        match uint_at(image, 8, 4) {
            None => Err(WikitError::HeaderTruncated),
            Some(version) => if version != LATEST_WIKIT_FMT_VERSION {
                Err(WikitError::UnsupportedVersion)
            } else {
                match uint_at(image, 12, 2) {
                    None => Err(WikitError::HeaderTruncated),
                    Some(head_size) => match window(image, 14, head_size as int) {
                        None => Err(WikitError::HeaderTruncated),
                        Some(headbuf) => match parsed_head(headbuf) {
                            None => Err(WikitError::HeaderTruncated),
                            Some(head) => if !regions_ok(
                                head,
                                14 + head_size,
                                image.len() as int,
                            ) {
                                Err(WikitError::HeaderTruncated)
                            } else {
                                Ok(head)
                            },
                        },
                    },
                }
            },
        }
    }
}

/// The header of the dictionary image `image`, or why it is no dictionary
/// image: it carries no header, or its index lacks the frame or the
/// checksum of a finite-state map.
pub open spec fn loaded_head(image: Seq<u8>) -> Result<HeadView, WikitError> {
    match framed_head(image) {
        Err(e) => Err(e),
        Ok(head) => if index_checked(index_region(image, head)) {
            Ok(head)
        } else {
            Err(WikitError::BadIndex)
        },
    }
}

/// What holds of an image that carries a header: its regions lie in it
/// behind the preamble and do not overlap.
pub proof fn lemma_framed_image(image: Seq<u8>, head: HeadView)
    requires
        framed_head(image) == Ok::<HeadView, WikitError>(head),
    ensures
        head.ibase + head.isz <= image.len(),
        head.dbase + head.dsz <= image.len(),
        PREAMBLE_SIZE <= head.dbase,
        PREAMBLE_SIZE <= head.ibase,
        head.dbase + head.dsz <= head.ibase || head.ibase + head.isz <= head.dbase,
{
    reveal(framed_head);
    let head_size = uint_at(image, 12, 2).unwrap();
    let headbuf = window(image, 14, head_size as int).unwrap();
    assert(parsed_head(headbuf) == Some(head));
    assert(regions_ok(head, 14 + head_size, image.len() as int));
}

/// The meaning that the data entry at `offset` of `image` holds: its text,
/// without NUL characters. `None` where the entry does not lie in the image,
/// is no text entry or holds no UTF-8.
pub open spec fn entry_text(image: Seq<u8>, offset: u64) -> Option<Seq<char>> {
    match (window(image, offset as int, 1), uint_at(image, offset + 1, 4)) {
        (Some(typ), Some(size)) => if typ[0] != 1 {
            None
        } else {
            match text_at(image, offset + 5, size as int) {
                Some(text) => Some(without_nuls(text)),
                None => None,
            }
        },
        _ => None,
    }
}

/// The answers to a lookup: each candidate from candidate `i` on with the
/// meaning at its offset, after the answers `acc`. A candidate whose
/// meaning cannot be read is left out.
pub open spec fn resolved(image: Seq<u8>, found: Seq<(Seq<char>, u64)>, i: int, acc: Records) -> Records
    decreases found.len() - i,
{
    if i < 0 || i >= found.len() {
        acc
    } else {
        match entry_text(image, found[i].1) {
            Some(meaning) => resolved(image, found, i + 1, acc.push((found[i].0, meaning))),
            None => resolved(image, found, i + 1, acc),
        }
    }
}

/// The answers to a lookup of `word` in the dictionary image `image` with
/// the header `head`: the candidates that the index gives for the normal
/// form of `word`, each with its meaning.
#[verifier::opaque]
pub open spec fn lookup_results(image: Seq<u8>, head: HeadView, word: Seq<char>) -> Records {
    resolved(image, index_candidates(index_region(image, head), normalized(word)), 0, Seq::empty())
}

/// Whether `key` is `word` or lies within the number of edits of it that a
/// lookup of `word` allows.
pub open spec fn is_near(key: Seq<char>, word: Seq<char>) -> bool {
    key == word || within(encode_utf8(key), word, fuzziness(encode_utf8(word).len()))
}

/// Reads the meaning that the data entry at `offset` of `image` holds.
pub fn read_entry_text(image: &[u8], offset: u64) -> (text: Option<String>)
    ensures
        text is Some <==> entry_text(image@, offset) is Some,
        text is Some ==> text.unwrap()@ == entry_text(image@, offset).unwrap(),
{
    let total: usize = image.len();
    if offset >= total as u64 {
        return None;
    }
    let at: usize = offset as usize;
    let size: u64 = match read_be(image, at + 1, 4) {
        Some(size) => size,
        None => {
            return None;
        },
    };
    proof {
        assert(window(image@, at + 1, 4) is Some);
        assert(window(image@, at as int, 1).unwrap()[0] == image@[at as int]);
    }
    if image[at] != 1 {
        return None;
    }
    match read_text(image, at + 5, size) {
        Some(text) => Some(drop_nuls(text.as_str())),
        None => None,
    }
}

/// Reads the header that the dictionary image `image` carries: checks the
/// magic and the format version, reads the header, and checks that the
/// regions of data and index lie in the image behind the header and do not
/// overlap.
pub fn read_image_head(image: &[u8]) -> (head: Result<WikitHead, WikitError>)
    ensures
        head is Ok <==> framed_head(image@) is Ok,
        head is Ok ==> head.unwrap()@ == framed_head(image@).unwrap(),
        head is Err ==> Err::<HeadView, WikitError>(head.unwrap_err()) == framed_head(image@),
{
    proof {
        reveal(framed_head);
    }
    let total: usize = image.len();
    if total < 8 {
        return Err(WikitError::BadMagic);
    }
    let magic = slice_subrange(image, 0, 8);
    proof {
        assert(magic@ =~= image@.take(8));
    }
    if magic[0] != 0x57 || magic[1] != 0x49 || magic[2] != 0x4b || magic[3] != 0x49 || magic[4]
        != 0x54 || magic[5] != 0x35 || magic[6] != 0x31 || magic[7] != 0x36 {
        return Err(WikitError::BadMagic);
    }
    proof {
        assert(magic@ =~= magic_bytes());
    }
    let version: u64 = match read_be(image, 8, 4) {
        Some(version) => version,
        None => {
            return Err(WikitError::HeaderTruncated);
        },
    };
    if version != LATEST_WIKIT_FMT_VERSION as u64 {
        return Err(WikitError::UnsupportedVersion);
    }
    let head_size: u64 = match read_be(image, 12, 2) {
        Some(size) => size,
        None => {
            return Err(WikitError::HeaderTruncated);
        },
    };
    proof {
        assert(window(image@, 12, 2) is Some);
    }
    if head_size > (total - 14) as u64 {
        return Err(WikitError::HeaderTruncated);
    }
    let after_head: usize = 14 + head_size as usize;
    let head: WikitHead = match WikitHead::new(slice_subrange(image, 14, after_head)) {
        Ok(head) => head,
        Err(_) => {
            return Err(WikitError::HeaderTruncated);
        },
    };
    let len: u64 = total as u64;
    let data_fits: bool = after_head as u64 <= head.dbase && head.dbase <= len && head.dsz <= len
        - head.dbase;
    let index_fits: bool = after_head as u64 <= head.ibase && head.ibase <= len && head.isz <= len
        - head.ibase;
    if !data_fits || !index_fits {
        return Err(WikitError::HeaderTruncated);
    }
    if !(head.dbase + head.dsz <= head.ibase || head.ibase + head.isz <= head.dbase) {
        return Err(WikitError::HeaderTruncated);
    }
    Ok(head)
}

/// Reads the meanings of the candidates `found` from `image`: each candidate
/// whose data entry can be read gives an answer, in the order of the
/// candidates.
pub fn resolve_candidates(image: &[u8], found: &Vec<(String, u64)>) -> (answers: Vec<
    (String, String),
>)
    ensures
        pairs_view(answers@) == resolved(image@, found_view(found@), 0, Seq::empty()),
{
    let mut answers: Vec<(String, String)> = Vec::new();
    let mut i: usize = 0;
    proof {
        assert(pairs_view(answers@) =~= Seq::<(Seq<char>, Seq<char>)>::empty());
    }
    while i < found.len()
        invariant
            i <= found@.len(),
            resolved(image@, found_view(found@), 0, Seq::empty()) == resolved(
                image@,
                found_view(found@),
                i as int,
                pairs_view(answers@),
            ),
        decreases found@.len() - i,
    {
        if let Some(meaning) = read_entry_text(image, found[i].1) {
            let ghost before = pairs_view(answers@);
            answers.push((found[i].0.clone(), meaning));
            proof {
                assert(pairs_view(answers@) =~= before.push((found@[i as int].0@, meaning@)));
            }
        }
        i = i + 1;
    }
    answers
}

/// Puts an image together from its header, its data region and its index,
/// behind the magic, the format version and the size of the header.
pub fn assemble_image(head: &WikitHead, data: Vec<u8>, index: Vec<u8>) -> (image: Vec<u8>)
    requires
        encode_utf8(head.name@).len() <= u16::MAX,
        encode_utf8(head.desc@).len() <= u16::MAX,
        encode_utf8(head.script@).len() <= u32::MAX,
        encode_utf8(head.style@).len() <= u32::MAX,
        head_bytes(head@).len() <= u16::MAX,
    ensures
        image@ == magic_bytes() + be_bytes(LATEST_WIKIT_FMT_VERSION as nat, 4) + be_bytes(
            head_bytes(head@).len(),
            2,
        ) + head_bytes(head@) + data@ + index@,
{
    let mut data = data;
    let mut index = index;
    let mut head_part: Vec<u8> = Vec::new();
    head.write(&mut head_part);
    proof {
        assert(head_part@ =~= head_bytes(head@));
    }
    let mut image: Vec<u8> = Vec::new();
    image.push(0x57);
    image.push(0x49);
    image.push(0x4b);
    image.push(0x49);
    image.push(0x54);
    image.push(0x35);
    image.push(0x31);
    image.push(0x36);
    proof {
        assert(image@ =~= magic_bytes());
    }
    push_be(&mut image, LATEST_WIKIT_FMT_VERSION as u64, 4);
    push_be(&mut image, head_part.len() as u64, 2);
    image.append(&mut head_part);
    image.append(&mut data);
    image.append(&mut index);
    image
}

/// A dictionary that a server offers over HTTP.
#[derive(Debug)]
pub struct RemoteDictionary {
    /// The address of the server: scheme, host and port.
    pub url: String,
    /// The user that the server knows.
    pub user: String,
    /// The token that goes with the user.
    pub token: String,
}

impl RemoteDictionary {
    /// The address of the server.
    pub open spec fn spec_url(&self) -> Seq<char> {
        self.url@
    }

    /// The user that the server knows.
    pub open spec fn spec_user(&self) -> Seq<char> {
        self.user@
    }

    /// The token that goes with the user.
    pub open spec fn spec_token(&self) -> Seq<char> {
        self.token@
    }

    /// The dictionary that the server at `url` offers to `user`.
    pub fn new(url: String, user: String, token: String) -> (dict: RemoteDictionary)
        ensures
            dict.spec_url() == url@,
            dict.spec_user() == user@,
            dict.spec_token() == token@,
    {
        RemoteDictionary { url, user, token }
    }

    /// The address of the server.
    pub fn url(&self) -> (url: &String)
        ensures
            url@ == self.spec_url(),
    {
        &self.url
    }

    /// The user that the server knows.
    pub fn user(&self) -> (user: &String)
        ensures
            user@ == self.spec_user(),
    {
        &self.user
    }

    /// The token that goes with the user.
    pub fn token(&self) -> (token: &String)
        ensures
            token@ == self.spec_token(),
    {
        &self.token
    }
}

/// A dictionary whose image is at hand.
#[derive(Debug)]
pub struct LocalDictionary {
    /// The header of the image.
    pub head: WikitHead,
    /// The file that the image was read from.
    pub path: String,
    /// Where the index lies in the image.
    pub idx: FSTIndex,
    /// The bytes of the image.
    pub image: Vec<u8>,
}

/// A dictionary, at hand or on a server.
#[derive(Debug)]
pub enum WikitDictionary {
    /// A dictionary whose image is at hand.
    Local(LocalDictionary),
    /// A dictionary that a server offers.
    Remote(RemoteDictionary),
}

impl LocalDictionary {
    /// The bytes of the dictionary's image.
    pub open spec fn image(&self) -> Seq<u8> {
        self.image@
    }

    /// The header of the dictionary.
    pub open spec fn spec_head(&self) -> HeadView {
        self.head@
    }

    /// The file that the image was read from.
    pub open spec fn spec_path(&self) -> Seq<char> {
        self.path@
    }

    /// The header is the one that the image carries, and the index has the
    /// frame and the checksum of a finite-state map.
    pub open spec fn wf(&self) -> bool {
        &&& loaded_head(self.image@) == Ok::<HeadView, WikitError>(self.head@)
        &&& self.idx.spec_offset() == self.head.ibase
        &&& self.idx.spec_length() == self.head.isz
    }

    /// Whether the index of the dictionary is a finite-state map that was
    /// built. The index of a compiled image is.
    pub open spec fn indexed(&self) -> bool {
        built(index_region(self.image(), self.spec_head()))
    }

    /// Whether a lookup of `word` searches the index by edits: it does unless
    /// the word is too long for the automaton of such a search.
    pub open spec fn searched(&self, word: Seq<char>) -> bool {
        fuzzy_matches(
            index_region(self.image(), self.spec_head()),
            normalized(word),
            fuzziness(encode_utf8(normalized(word)).len()),
        ) is Some
    }

    /// Whether the dictionary's image was compiled from `sorted`, whose keys
    /// stand in ascending order, under the texts of the dictionary's header.
    pub open spec fn compiled_from(&self, sorted: Records) -> bool {
        let head = self.spec_head();
        &&& records_ascending(sorted)
        &&& fits(sorted, head.name, head.desc, head.script, head.style)
        &&& self.image() == dictionary_image(sorted, head.name, head.desc, head.script, head.style)
    }

    /// Compiles `records` into the image of a dictionary under the texts of
    /// `conf`, `script` and `style`. The records are sorted by the bytes of
    /// their keys; where several records have one key, the first of them
    /// stays. Fails where a size does not fit its field.
    pub fn create(
        records: &Vec<(String, String)>,
        conf: &WikitDictConf,
        script: &str,
        style: &str,
    ) -> (image: Result<Vec<u8>, WikitError>)
        ensures
            sorted_first_wins(pairs_view(records@), sorted_form(pairs_view(records@))),
            image is Ok <==> fits(
                sorted_form(pairs_view(records@)),
                conf.name@,
                conf.desc@,
                script@,
                style@,
            ),
            image is Ok ==> image.unwrap()@ == dictionary_image(
                sorted_form(pairs_view(records@)),
                conf.name@,
                conf.desc@,
                script@,
                style@,
            ),
            image is Ok ==> loaded_head(image.unwrap()@) == Ok::<HeadView, WikitError>(
                image_head(
                    sorted_form(pairs_view(records@)),
                    conf.name@,
                    conf.desc@,
                    script@,
                    style@,
                ),
            ),
            image is Ok ==> built(
                index_region(
                    image.unwrap()@,
                    image_head(
                        sorted_form(pairs_view(records@)),
                        conf.name@,
                        conf.desc@,
                        script@,
                        style@,
                    ),
                ),
            ),
            image is Err ==> image == Err::<Vec<u8>, WikitError>(WikitError::TooLarge),
            keys_ascending(
                index_entries(
                    sorted_form(pairs_view(records@)),
                    PREAMBLE_SIZE + head_len(conf.name@, conf.desc@, script@, style@),
                ),
            ),
    {
        let sorted = sort_records(records);
        proof {
            lemma_index_keys_ascending(
                pairs_view(sorted@),
                PREAMBLE_SIZE + head_len(conf.name@, conf.desc@, script@, style@),
            );
        }
        let image = write_dictionary(&sorted, conf, script, style);
        proof {
            if image is Ok {
                lemma_compiled_index_is_built(
                    pairs_view(sorted@),
                    conf.name@,
                    conf.desc@,
                    script@,
                    style@,
                );
            }
        }
        image
    }

    /// Takes `image`, which was read from the file `path`, as a dictionary,
    /// if it is the image of one: it carries a header, and its index has
    /// the frame and the checksum of a finite-state map. Neither shows that
    /// the index was built; see `lookup`.
    pub fn load(path: String, image: Vec<u8>) -> (dict: Result<LocalDictionary, WikitError>)
        ensures
            dict is Ok <==> loaded_head(image@) is Ok,
            dict is Ok ==> dict.unwrap().wf() && dict.unwrap().image() == image@
                && dict.unwrap().spec_head() == loaded_head(image@).unwrap()
                && dict.unwrap().spec_path() == path@,
            dict is Err ==> Err::<HeadView, WikitError>(dict.unwrap_err()) == loaded_head(image@),
    {
        let head: WikitHead = match read_image_head(image.as_slice()) {
            Ok(head) => head,
            Err(e) => {
                return Err(e);
            },
        };
        let total: usize = image.len();
        proof {
            lemma_framed_image(image@, head@);
        }
        let region = slice_subrange(
            image.as_slice(),
            head.ibase as usize,
            (head.ibase + head.isz) as usize,
        );
        if !check_index(region) {
            return Err(WikitError::BadIndex);
        }
        let idx = FSTIndex::new(path.clone(), head.ibase, head.isz);
        Ok(LocalDictionary { head, path, idx, image })
    }

    /// Looks `word` up: returns the record whose key is the normal form of
    /// `word`, where there is one, and behind it the records whose keys are
    /// within a few edits of it, in the order of the index; no more than
    /// twenty in all. Each answer is a key with its meaning, from which NUL
    /// characters are dropped. A word that the dictionary does not know has
    /// no answers. The neighbours stand in ascending order of their keys.
    /// For a word of ASCII characters no record near it is passed over; for
    /// a word with a character of several bytes the search may pass over
    /// some. A word that is too long for a search by edits is answered with
    /// its own record alone.
    ///
    /// The finite-state map walks the bytes of the index unchecked, so the
    /// index must be one that was built, as that of every image from `create`
    /// is. With an image from elsewhere, a caller has to be ready for a
    /// panic.
    pub fn lookup(&self, word: &str) -> (answers: Result<Vec<(String, String)>, WikitError>)
        requires
            self.wf(),
            self.indexed(),
        ensures
            answers is Ok,
            pairs_view(answers.unwrap()@) == lookup_results(
                self.image(),
                self.spec_head(),
                word@,
            ),
            forall|sorted: Records| #[trigger]
                self.compiled_from(sorted) && self.searched(word@) && is_ascii_chars(
                    normalized(word@),
                ) ==> pairs_view(answers.unwrap()@) == record_answers(sorted, normalized(word@)),
            forall|sorted: Records| #[trigger]
                self.compiled_from(sorted) && !self.searched(word@) ==> pairs_view(
                    answers.unwrap()@,
                ) == exact_answer(sorted, normalized(word@)),
            forall|sorted: Records| #[trigger]
                self.compiled_from(sorted) ==> answers_selected(
                    sorted,
                    normalized(word@),
                    pairs_view(answers.unwrap()@),
                ),
            forall|sorted: Records| #[trigger]
                self.compiled_from(sorted) ==> answers_agree(
                    sorted,
                    normalized(word@),
                    pairs_view(answers.unwrap()@),
                ),
            forall|i: int|
                0 <= i < answers.unwrap()@.len() ==> is_near(
                    (#[trigger] pairs_view(answers.unwrap()@)[i]).0,
                    normalized(word@),
                ),
    {
        let key: String = normalize_word(word);
        let total: usize = self.image.len();
        proof {
            reveal(lookup_results);
            lemma_framed_image(self.image@, self.head@);
        }
        let region = slice_subrange(
            self.image.as_slice(),
            self.head.ibase as usize,
            (self.head.ibase + self.head.isz) as usize,
        );
        let found: Vec<(String, u64)> = FSTIndex::lookup(region, key.as_str());
        let answers = resolve_candidates(self.image.as_slice(), &found);
        proof {
            lemma_resolved(self.image@, found_view(found@), 0, Seq::empty());
            assert forall|i: int| 0 <= i < answers@.len() implies is_near(
                (#[trigger] pairs_view(answers@)[i]).0,
                key@,
            ) by {
                let m = choose|m: int|
                    0 <= m < found@.len() && resolves_to(
                        self.image@,
                        found_view(found@)[m],
                        pairs_view(answers@)[i],
                    );
                assert(found@[m].0@ == key@ || within(
                    encode_utf8(found@[m].0@),
                    key@,
                    fuzziness(encode_utf8(key@).len()),
                ));
            }
            let head = self.head@;
            assert forall|sorted: Records| #[trigger] self.compiled_from(sorted) implies pairs_view(
                answers@,
            ) == (if !self.searched(word@) {
                exact_answer(sorted, key@)
            } else if is_ascii_chars(key@) {
                record_answers(sorted, key@)
            } else {
                pairs_view(answers@)
            }) by {
                let base = PREAMBLE_SIZE + head_len(head.name, head.desc, head.script, head.style);
                let entries = index_entries(sorted, base);
                lemma_loaded_is_compiled(
                    self.image@,
                    head,
                    sorted,
                    head.name,
                    head.desc,
                    head.script,
                    head.style,
                );
                lemma_compiled_index_is_built(
                    sorted,
                    head.name,
                    head.desc,
                    head.script,
                    head.style,
                );
                assert(holds(region@, entries));
                if self.searched(word@) {
                    lemma_lookup_answers(
                        sorted,
                        head.name,
                        head.desc,
                        head.script,
                        head.style,
                        key@,
                    );
                } else {
                    lemma_exact_lookup_answer(
                        sorted,
                        head.name,
                        head.desc,
                        head.script,
                        head.style,
                        key@,
                    );
                }
            }
            assert forall|sorted: Records| #[trigger] self.compiled_from(sorted) implies answers_selected(
                sorted,
                normalized(word@),
                pairs_view(answers@),
            ) by {
                let base = PREAMBLE_SIZE + head_len(head.name, head.desc, head.script, head.style);
                lemma_loaded_is_compiled(
                    self.image@,
                    head,
                    sorted,
                    head.name,
                    head.desc,
                    head.script,
                    head.style,
                );
                lemma_compiled_index_is_built(
                    sorted,
                    head.name,
                    head.desc,
                    head.script,
                    head.style,
                );
                assert(holds(region@, index_entries(sorted, base)));
                lemma_chosen_are_selected(
                    sorted,
                    head.name,
                    head.desc,
                    head.script,
                    head.style,
                    key@,
                    found_view(found@),
                );
            }
            assert forall|sorted: Records| #[trigger] self.compiled_from(sorted) implies answers_agree(
                sorted,
                normalized(word@),
                pairs_view(answers@),
            ) by {
                let base = PREAMBLE_SIZE + head_len(head.name, head.desc, head.script, head.style);
                let entries = index_entries(sorted, base);
                lemma_loaded_is_compiled(
                    self.image@,
                    head,
                    sorted,
                    head.name,
                    head.desc,
                    head.script,
                    head.style,
                );
                lemma_image_layout(sorted, head.name, head.desc, head.script, head.style);
                lemma_index_keys_ascending(sorted, base);
                assert(holds(region@, entries));
                assert forall|j: int| 0 <= j < found@.len() implies entries.contains(
                    (encode_utf8((#[trigger] found_view(found@)[j]).0), found_view(found@)[j].1),
                ) by {
                    assert(entries.contains((encode_utf8(found@[j].0@), found@[j].1)));
                }
                lemma_lookup_agrees(
                    sorted,
                    head.name,
                    head.desc,
                    head.script,
                    head.style,
                    key@,
                    found_view(found@),
                );
            }
        }
        Ok(answers)
    }

    /// The script that goes with the meanings.
    pub fn get_script(&self) -> (script: &str)
        ensures
            script@ == self.spec_head().script,
    {
        self.head.script.as_str()
    }

    /// The style sheet that goes with the meanings.
    pub fn get_style(&self) -> (style: &str)
        ensures
            style@ == self.spec_head().style,
    {
        self.head.style.as_str()
    }
}

/// Whether a lookup of `word` in the dictionary of `sorted` under these
/// texts searches the index by edits: it does unless the word is too long
/// for the automaton of such a search.
pub open spec fn search_by_edits(
    sorted: Records,
    name: Seq<char>,
    desc: Seq<char>,
    script: Seq<char>,
    style: Seq<char>,
    word: Seq<char>,
) -> bool {
    fuzzy_matches(
        index_image(index_entries(sorted, PREAMBLE_SIZE + head_len(name, desc, script, style))),
        normalized(word),
        fuzziness(encode_utf8(normalized(word)).len()),
    ) is Some
}

/// Compiles `records` into a dictionary under the texts of `conf`, `script`
/// and `style`, and looks `word` up in it. Fails where the dictionary cannot
/// be compiled: where a size does not fit its field. The answers are those
/// of `LocalDictionary::lookup` on the compiled image: the record of the
/// word first, then the records near it.
pub fn compile_and_lookup(
    records: &Vec<(String, String)>,
    conf: &WikitDictConf,
    script: &str,
    style: &str,
    word: &str,
) -> (answers: Result<Vec<(String, String)>, WikitError>)
    ensures
        answers is Ok <==> fits(
            sorted_form(pairs_view(records@)),
            conf.name@,
            conf.desc@,
            script@,
            style@,
        ),
        answers is Err ==> answers == Err::<Vec<(String, String)>, WikitError>(WikitError::TooLarge),
        answers is Ok ==> answers_selected(
            sorted_form(pairs_view(records@)),
            normalized(word@),
            pairs_view(answers.unwrap()@),
        ),
        answers is Ok ==> answers_agree(
            sorted_form(pairs_view(records@)),
            normalized(word@),
            pairs_view(answers.unwrap()@),
        ),
        answers is Ok ==> forall|i: int|
            0 <= i < answers.unwrap()@.len() ==> is_near(
                (#[trigger] pairs_view(answers.unwrap()@)[i]).0,
                normalized(word@),
            ),
        answers is Ok && is_ascii_chars(normalized(word@)) && search_by_edits(
            sorted_form(pairs_view(records@)),
            conf.name@,
            conf.desc@,
            script@,
            style@,
            word@,
        ) ==> pairs_view(answers.unwrap()@) == record_answers(
            sorted_form(pairs_view(records@)),
            normalized(word@),
        ),
        answers is Ok && !search_by_edits(
            sorted_form(pairs_view(records@)),
            conf.name@,
            conf.desc@,
            script@,
            style@,
            word@,
        ) ==> pairs_view(answers.unwrap()@) == exact_answer(
            sorted_form(pairs_view(records@)),
            normalized(word@),
        ),
{
    let image: Vec<u8> = match LocalDictionary::create(records, conf, script, style) {
        Ok(image) => image,
        Err(e) => {
            return Err(e);
        },
    };
    let ghost sorted = sorted_form(pairs_view(records@));
    let dict: LocalDictionary = match LocalDictionary::load(String::new(), image) {
        Ok(dict) => dict,
        Err(e) => {
            return Err(e);
        },
    };
    proof {
        lemma_image_layout(sorted, conf.name@, conf.desc@, script@, style@);
        assert(dict.compiled_from(sorted));
    }
    dict.lookup(word)
}

} // verus!
