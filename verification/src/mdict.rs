//! The reader of MDX archives: from the bytes of an archive to its records.

use crate::bytes::{
    bytes_equal, le32_at, lemma_uint_fits, read_be, read_le_u32, uint_at, window,
};
use crate::checksum::{adler32, adler32_spec};
use crate::codec::{
    bytes_to_units, decoded_text, decrypted, derive_key, inflate, key_seed, lzo1x_decompressed,
    lzo_decompress, mdx_decode, mdx_decrypt, ripemd128_digest, utf16_decoded, utf16_to_string,
    utf16_units, zlib_inflated, TextEncoding, MAX_CODEC_INPUT,
};
use crate::error::WikitError;
use crate::util::{drop_nuls, normalize_word, normalized, str_equal, without_nuls};
use vstd::prelude::*;
use vstd::slice::slice_subrange;
use vstd::string::StringExecFns;
use vstd::utf8::encode_utf8;

verus! {

/// What to read of an archive.
#[derive(Clone, Copy, Debug, PartialEq, Eq, Structural)]
pub enum ParseOption {
    /// Only the header: no records are read.
    OnlyHeader,
}

/// The attributes of an archive's header, as pairs of name and value, in the
/// order in which the header gives them.
pub open spec fn pairs_view(pairs: Seq<(String, String)>) -> Seq<(Seq<char>, Seq<char>)> {
    Seq::new(pairs.len(), |i: int| (pairs[i].0@, pairs[i].1@))
}

/// The value that the header gives for `name`: where a name occurs more than
/// once, its last value.
pub open spec fn attr_value(meta: Seq<(Seq<char>, Seq<char>)>, name: Seq<char>) -> Option<
    Seq<char>,
>
    decreases meta.len(),
{
    if meta.len() == 0 {
        None
    } else if meta.last().0 == name {
        Some(meta.last().1)
    } else {
        attr_value(meta.drop_last(), name)
    }
}

/// Looks up the value that the header gives for `name`.
pub fn find_attr<'a>(meta: &'a Vec<(String, String)>, name: &str) -> (value: Option<&'a String>)
    ensures
        value is Some <==> attr_value(pairs_view(meta@), name@) is Some,
        value is Some ==> value.unwrap()@ == attr_value(pairs_view(meta@), name@).unwrap(),
{
    let mut i: usize = meta.len();
    proof {
        assert(pairs_view(meta@).take(i as int) =~= pairs_view(meta@));
    }
    while i > 0
        invariant
            i <= meta@.len(),
            attr_value(pairs_view(meta@), name@) == attr_value(
                pairs_view(meta@).take(i as int),
                name@,
            ),
        decreases i,
    {
        let ghost prefix = pairs_view(meta@).take(i as int);
        proof {
            assert(prefix.drop_last() =~= pairs_view(meta@).take(i - 1));
            assert(prefix.last() == (meta@[i - 1].0@, meta@[i - 1].1@));
        }
        i = i - 1;
        if str_equal(meta[i].0.as_str(), name) {
            return Some(&meta[i].1);
        }
    }
    None
}

/// Whether a byte is an ASCII digit.
pub open spec fn is_digit(b: u8) -> bool {
    0x30 <= b <= 0x39
}

/// Whether all of `text` are ASCII digits.
pub open spec fn all_digits(text: Seq<u8>) -> bool {
    forall|i: int| 0 <= i < text.len() ==> is_digit(#[trigger] text[i])
}

/// The number that the decimal digits `text` write.
pub open spec fn digits_value(text: Seq<u8>) -> nat
    decreases text.len(),
{
    if text.len() == 0 {
        0
    } else {
        digits_value(text.drop_last()) * 10 + (text.last() - 0x30) as nat
    }
}

/// The number that `text` writes in decimal digits, with or without a plus
/// sign before them; `None` where `text` is anything else or the number does
/// not fit in 32 bits.
pub open spec fn parsed_u32(text: Seq<u8>) -> Option<u32> {
    let digits = if text.len() > 0 && text[0] == 0x2b {
        text.drop_first()
    } else {
        text
    };
    if digits.len() > 0 && all_digits(digits) && digits_value(digits) <= u32::MAX {
        Some(digits_value(digits) as u32)
    } else {
        None
    }
}

/// A longer row of digits writes no smaller number.
pub proof fn lemma_digits_value_grows(text: Seq<u8>, n: int)
    requires
        0 <= n <= text.len(),
        all_digits(text),
    ensures
        digits_value(text.take(n)) <= digits_value(text),
    decreases text.len() - n,
{
    if n < text.len() {
        lemma_digits_value_grows(text, n + 1);
        assert(text.take(n + 1).drop_last() =~= text.take(n));
    } else {
        assert(text.take(n) =~= text);
    }
}

/// Reads `text` as an unsigned decimal number of at most 32 bits.
#[verifier::loop_isolation(false)]
pub fn parse_u32(text: &[u8]) -> (value: Option<u32>)
    ensures
        value == parsed_u32(text@),
{
    let start: usize = if text.len() > 0 && text[0] == 0x2b { 1 } else { 0 };
    let ghost digits = text@.skip(start as int);
    proof {
        assert(start == 1 ==> text@.drop_first() =~= digits);
        assert(start == 0 ==> text@ =~= digits);
    }
    if start == text.len() {
        return None;
    }
    let mut acc: u64 = 0;
    let mut i: usize = start;
    proof {
        assert(digits.take(0) =~= Seq::<u8>::empty());
    }
    while i < text.len()
        invariant
            start <= i <= text@.len(),
            digits == text@.skip(start as int),
            all_digits(digits.take(i - start)),
            acc as nat == digits_value(digits.take(i - start)),
            acc <= u32::MAX,
        decreases text@.len() - i,
    {
        let b: u8 = text[i];
        let ghost longer = digits.take(i - start + 1);
        proof {
            assert(longer.drop_last() =~= digits.take(i - start));
            assert(longer.last() == b);
        }
        if b < 0x30 || b > 0x39 {
            proof {
                assert(!is_digit(digits[i - start]));
            }
            return None;
        }
        acc = acc * 10 + (b - 0x30) as u64;
        proof {
            assert forall|j: int| 0 <= j < longer.len() implies is_digit(#[trigger] longer[j]) by {
                if j < longer.len() - 1 {
                    assert(longer[j] == digits.take(i - start)[j]);
                }
            }
        }
        if acc > 0xffff_ffff {
            proof {
                if all_digits(digits) {
                    lemma_digits_value_grows(digits, i - start + 1);
                }
            }
            return None;
        }
        i = i + 1;
    }
    proof {
        assert(digits.take(i - start) =~= digits);
    }
    Some(acc as u32)
}

/// The first position at or after `from` where `buf` holds the byte `b`, or
/// the length of `buf` where there is none.
pub open spec fn index_of(buf: Seq<u8>, from: int, b: u8) -> int
    decreases buf.len() - from,
{
    if from < 0 || from >= buf.len() {
        buf.len() as int
    } else if buf[from] == b {
        from
    } else {
        index_of(buf, from + 1, b)
    }
}

/// Finds the first position at or after `from` where `buf` holds `b`.
pub fn find_byte(buf: &[u8], from: usize, b: u8) -> (at: usize)
    requires
        from <= buf@.len(),
    ensures
        at as int == index_of(buf@, from as int, b),
        from <= at <= buf@.len(),
{
    let mut i: usize = from;
    while i < buf.len()
        invariant
            from <= i <= buf@.len(),
            index_of(buf@, from as int, b) == index_of(buf@, i as int, b),
        decreases buf@.len() - i,
    {
        if buf[i] == b {
            return i;
        }
        i = i + 1;
    }
    i
}

/// Ten times the version that `text` writes as a decimal number with at most
/// one point, rounded down and held to 32 bits; `None` where `text` is not
/// such a number.
pub open spec fn version_tenths(text: Seq<u8>) -> Option<u32> {
    let dot = index_of(text, 0, 0x2e);
    let whole = text.take(dot);
    let fraction = if dot < text.len() {
        text.skip(dot + 1)
    } else {
        Seq::empty()
    };
    if whole.len() > 0 && all_digits(whole) && all_digits(fraction) {
        let tenths = digits_value(whole) * 10 + if fraction.len() > 0 {
            (fraction[0] - 0x30) as nat
        } else {
            0
        };
        Some(
            if tenths > u32::MAX {
                u32::MAX
            } else {
                tenths as u32
            },
        )
    } else {
        None
    }
}

/// Whether all bytes of `buf` from `from` on are ASCII digits.
fn digits_only(buf: &[u8], from: usize) -> (all: bool)
    requires
        from <= buf@.len(),
    ensures
        all == all_digits(buf@.skip(from as int)),
{
    let mut i: usize = from;
    while i < buf.len()
        invariant
            from <= i <= buf@.len(),
            forall|j: int| from <= j < i ==> is_digit(#[trigger] buf@[j]),
        decreases buf@.len() - i,
    {
        if buf[i] < 0x30 || buf[i] > 0x39 {
            proof {
                assert(!is_digit(buf@.skip(from as int)[i - from]));
            }
            return false;
        }
        i = i + 1;
    }
    proof {
        assert forall|j: int| 0 <= j < buf@.skip(from as int).len() implies is_digit(
            #[trigger] buf@.skip(from as int)[j],
        ) by {
            assert(is_digit(buf@[j + from]));
        }
    }
    true
}

/// Reads the engine version of a header, in tenths.
#[verifier::loop_isolation(false)]
pub fn parse_version(text: &[u8]) -> (tenths: Option<u32>)
    ensures
        tenths == version_tenths(text@),
{
    let dot: usize = find_byte(text, 0, 0x2e);
    let ghost whole = text@.take(dot as int);
    let ghost fraction = if dot < text@.len() {
        text@.skip(dot + 1)
    } else {
        Seq::<u8>::empty()
    };
    if dot == 0 {
        return None;
    }
    if dot < text.len() {
        if !digits_only(text, dot + 1) {
            return None;
        }
    }
    let mut acc: u64 = 0;
    let mut i: usize = 0;
    proof {
        assert(whole.take(0) =~= Seq::<u8>::empty());
    }
    while i < dot
        invariant
            i <= dot <= text@.len(),
            whole == text@.take(dot as int),
            all_digits(whole.take(i as int)),
            acc <= 0x1_0000_0000,
            acc < 0x1_0000_0000 ==> acc as nat == digits_value(whole.take(i as int)),
            acc == 0x1_0000_0000 ==> digits_value(whole.take(i as int)) >= 0x1_0000_0000,
        decreases dot - i,
    {
        let b: u8 = text[i];
        let ghost longer = whole.take(i + 1);
        proof {
            assert(longer.drop_last() =~= whole.take(i as int));
            assert(longer.last() == b);
        }
        if b < 0x30 || b > 0x39 {
            proof {
                assert(!is_digit(whole[i as int]));
            }
            return None;
        }
        acc = acc * 10 + (b - 0x30) as u64;
        if acc > 0x1_0000_0000 {
            acc = 0x1_0000_0000;
        }
        proof {
            assert forall|j: int| 0 <= j < longer.len() implies is_digit(#[trigger] longer[j]) by {
                if j < longer.len() - 1 {
                    assert(longer[j] == whole.take(i as int)[j]);
                }
            }
        }
        i = i + 1;
    }
    proof {
        assert(whole.take(dot as int) =~= whole);
    }
    let first: u64 = if dot < text.len() && dot + 1 < text.len() {
        proof {
            assert(fraction[0] == text@[dot + 1]);
            assert(is_digit(fraction[0]));
        }
        (text[dot + 1] - 0x30) as u64
    } else {
        proof {
            assert(fraction.len() == 0);
        }
        0
    };
    let tenths: u64 = acc * 10 + first;
    if tenths > 0xffff_ffff {
        Some(0xffff_ffff)
    } else {
        Some(tenths as u32)
    }
}

/// Whether `hay` holds `needle` at position `at`.
pub open spec fn holds_at(hay: Seq<u8>, needle: Seq<u8>, at: int) -> bool {
    0 <= at && at + needle.len() <= hay.len() && hay.subrange(at, at + needle.len()) == needle
}

/// Whether `hay` holds `needle` somewhere.
pub open spec fn contains_bytes(hay: Seq<u8>, needle: Seq<u8>) -> bool {
    exists|at: int| holds_at(hay, needle, at)
}

/// Whether `hay` holds `needle` somewhere.
pub fn bytes_contain(hay: &[u8], needle: &[u8]) -> (found: bool)
    ensures
        found == contains_bytes(hay@, needle@),
{
    if needle.len() > hay.len() {
        return false;
    }
    let last: usize = hay.len() - needle.len();
    let mut at: usize = 0;
    loop
        invariant
            at <= last,
            last == hay@.len() - needle@.len(),
            needle@.len() <= hay@.len() <= usize::MAX,
            forall|j: int| 0 <= j < at ==> !holds_at(hay@, needle@, j),
        ensures
            forall|j: int| 0 <= j <= last ==> !holds_at(hay@, needle@, j),
        decreases last - at,
    {
        if bytes_equal(slice_subrange(hay, at, at + needle.len()), needle) {
            proof {
                assert(holds_at(hay@, needle@, at as int));
            }
            return true;
        }
        if at == last {
            break ;
        }
        at = at + 1;
    }
    false
}

/// What an archive's header says of how the archive is to be read.
#[derive(Clone, Copy, Debug, PartialEq, Eq, Structural)]
pub struct MDXInfo {
    /// The version of the engine that wrote the archive, in tenths.
    pub version: u32,
    /// The encoding of keys and meanings.
    pub encoding: TextEncoding,
    /// The number of bytes of an integer: 4 before version 2.0, then 8.
    pub integersz: u32,
    /// How the archive is encrypted: 0 not at all, 1 its key blocks, 2 its
    /// key-block table.
    pub encid: u32,
}

/// The encoding that the header's `Encoding` attribute names. GBK and GB2312
/// stand for GB18030; an unknown name, or none, stands for UTF-8.
pub open spec fn encoding_of(name: Option<Seq<char>>) -> TextEncoding {
    match name {
        None => TextEncoding::Utf8,
        Some(name) => if contains_bytes(encode_utf8(name), encode_utf8("GBK"@)) || contains_bytes(
            encode_utf8(name),
            encode_utf8("GB2312"@),
        ) || name == "GB18030"@ {
            TextEncoding::Gb18030
        } else if name == "UTF-16"@ {
            TextEncoding::Utf16
        } else {
            TextEncoding::Utf8
        },
    }
}

/// How the archive is encrypted, as the header's `Encrypted` attribute says.
pub open spec fn encryption_of(value: Option<Seq<char>>) -> u32 {
    match value {
        None => 0,
        Some(value) => if value == "Yes"@ || value == "yes"@ {
            1
        } else if value == "No"@ || value == "no"@ {
            0
        } else {
            match parsed_u32(encode_utf8(value)) {
                Some(kind) => kind,
                None => 0,
            }
        },
    }
}

/// What the attributes `meta` say of how the archive is to be read; an
/// archive without a readable engine version is refused.
pub open spec fn mdx_info(meta: Seq<(Seq<char>, Seq<char>)>) -> Result<MDXInfo, WikitError> {
    match attr_value(meta, "GeneratedByEngineVersion"@) {
        None => Err(WikitError::SourceFormat),
        Some(text) => match version_tenths(encode_utf8(text)) {
            None => Err(WikitError::SourceFormat),
            Some(version) => Ok(
                MDXInfo {
                    version,
                    encoding: encoding_of(attr_value(meta, "Encoding"@)),
                    integersz: if version < 20 {
                        4
                    } else {
                        8
                    },
                    encid: encryption_of(attr_value(meta, "Encrypted"@)),
                },
            ),
        },
    }
}

impl MDXInfo {
    /// The integer width goes with the version.
    pub open spec fn wf(&self) -> bool {
        self.integersz == if self.version < 20 {
            4u32
        } else {
            8u32
        }
    }

    /// Whether text is UTF-16, whose NUL has two bytes.
    pub open spec fn wide(&self) -> bool {
        self.encoding == TextEncoding::Utf16
    }

    /// Reads from the header's attributes how the archive is to be read.
    pub fn new(meta: &Vec<(String, String)>) -> (info: Result<MDXInfo, WikitError>)
        ensures
            info == mdx_info(pairs_view(meta@)),
            info is Ok ==> info.unwrap().wf(),
    {
        let version: u32 = match find_attr(meta, "GeneratedByEngineVersion") {
            None => {
                return Err(WikitError::SourceFormat);
            },
            Some(text) => match parse_version(text.as_str().as_bytes()) {
                None => {
                    return Err(WikitError::SourceFormat);
                },
                Some(version) => version,
            },
        };
        let integersz: u32 = if version < 20 { 4 } else { 8 };
        let encoding: TextEncoding = match find_attr(meta, "Encoding") {
            None => TextEncoding::Utf8,
            Some(name) => {
                let bytes = name.as_str().as_bytes();
                if bytes_contain(bytes, "GBK".as_bytes()) || bytes_contain(
                    bytes,
                    "GB2312".as_bytes(),
                ) || str_equal(name.as_str(), "GB18030") {
                    TextEncoding::Gb18030
                } else if str_equal(name.as_str(), "UTF-16") {
                    TextEncoding::Utf16
                } else {
                    TextEncoding::Utf8
                }
            },
        };
        let encid: u32 = match find_attr(meta, "Encrypted") {
            None => 0,
            Some(value) => {
                let value = value.as_str();
                if str_equal(value, "Yes") || str_equal(value, "yes") {
                    1
                } else if str_equal(value, "No") || str_equal(value, "no") {
                    0
                } else {
                    match parse_u32(value.as_bytes()) {
                        Some(kind) => kind,
                        None => 0,
                    }
                }
            },
        };
        Ok(MDXInfo { version, encoding, integersz, encid })
    }
}

/// What matching `pattern` against `text` gives: for each match, in order,
/// the texts of its first and second group; `None` where `pattern` is no
/// regular expression.
pub uninterp spec fn regex_pairs(pattern: Seq<char>, text: Seq<char>) -> Option<
    Seq<(Seq<char>, Seq<char>)>,
>;

/// Calls `regex::Regex::new` on `pattern` and `captures_iter` on `text`, and
/// takes the first two groups of each match (an absent group as empty).
/// Trusted: the call fails exactly where `regex_pairs` is `None`, and
/// otherwise returns the pairs that it names.
#[verifier::external_body]
pub(crate) fn match_pairs(pattern: &str, text: &str) -> (pairs: Option<Vec<(String, String)>>)
    ensures
        pairs is Some <==> regex_pairs(pattern@, text@) is Some,
        pairs is Some ==> pairs_view(pairs.unwrap()@) == regex_pairs(pattern@, text@).unwrap(),
{
    let re = regex::Regex::new(pattern).ok()?;
    let group = |found: &regex::Captures, n: usize| -> String {
        found.get(n).map_or(String::new(), |m| m.as_str().to_string())
    };
    Some(re.captures_iter(text).map(|found| (group(&found, 1), group(&found, 2))).collect())
}

/// The regular expression of one attribute of the header: white space, a
/// name, and a value between double quotes.
pub const ATTRIBUTE_PATTERN: &'static str = "\\s{1}(\\w+)=\"(.*?)\"";

/// The attributes of the header that `buf` starts with, and the position
/// after the header. The header is a length of four bytes, that many bytes of
/// UTF-16 text, and the text's Adler-32 checksum in little-endian order.
#[verifier::opaque]
pub open spec fn header_meta(buf: Seq<u8>) -> Result<(Seq<(Seq<char>, Seq<char>)>, int), WikitError> {
    match uint_at(buf, 0, 4) {
        None => Err(WikitError::SourceFormat),
        Some(size) => match (window(buf, 4, size as int), le32_at(buf, 4 + size)) {
            (Some(text), Some(sum)) => if adler32_spec(text) != sum {
                Err(WikitError::SourceChecksum)
            } else {
                match utf16_decoded(utf16_units(text)) {
                    None => Err(WikitError::DecodeError),
                    Some(chars) => match regex_pairs(ATTRIBUTE_PATTERN@, without_nuls(chars)) {
                        None => Err(WikitError::SourceFormat),
                        Some(meta) => Ok((meta, 8 + size)),
                    },
                }
            },
            _ => Err(WikitError::SourceFormat),
        },
    }
}

/// Whether what `read_header` returned is what `header_meta` says.
pub open spec fn header_matches(
    got: Result<(Vec<(String, String)>, usize), WikitError>,
    want: Result<(Seq<(Seq<char>, Seq<char>)>, int), WikitError>,
) -> bool {
    match (got, want) {
        (Ok(got), Ok(want)) => pairs_view(got.0@) == want.0 && got.1 == want.1,
        (Err(got), Err(want)) => got == want,
        _ => false,
    }
}

/// Reads the header that `buf` starts with: its attributes, and the position
/// of the first byte after it.
pub fn read_header(buf: &[u8]) -> (header: Result<(Vec<(String, String)>, usize), WikitError>)
    ensures
        header_matches(header, header_meta(buf@)),
        header is Ok ==> header.unwrap().1 <= buf@.len(),
{
    proof {
        reveal(header_meta);
    }
    let size: usize = match read_be(buf, 0, 4) {
        None => {
            return Err(WikitError::SourceFormat);
        },
        Some(size) => {
            proof {
                lemma_uint_fits(window(buf@, 0, 4).unwrap());
            }
            if size > (buf.len() - 4) as u64 {
                return Err(WikitError::SourceFormat);
            }
            size as usize
        },
    };
    let sum: u32 = match read_le_u32(buf, 4 + size) {
        None => {
            return Err(WikitError::SourceFormat);
        },
        Some(sum) => sum,
    };
    let text = slice_subrange(buf, 4, 4 + size);
    if adler32(text) != sum {
        return Err(WikitError::SourceChecksum);
    }
    let units = bytes_to_units(text);
    let chars: String = match utf16_to_string(units.as_slice()) {
        None => {
            return Err(WikitError::DecodeError);
        },
        Some(chars) => chars,
    };
    let clean: String = drop_nuls(chars.as_str());
    match match_pairs(ATTRIBUTE_PATTERN, clean.as_str()) {
        None => Err(WikitError::SourceFormat),
        Some(meta) => Ok((meta, 8 + size)),
    }
}

/// Whether a reader returned the bytes, or the error, that the format of
/// the archive gives.
pub open spec fn bytes_match(got: Result<Vec<u8>, WikitError>, want: Result<Seq<u8>, WikitError>) -> bool {
    match (got, want) {
        (Ok(got), Ok(want)) => got@ == want,
        (Err(got), Err(want)) => got == want,
        _ => false,
    }
}

/// The payload of a block, unpacked as its `pack_type` says: 0 is raw, 1 is
/// LZO1X, 2 is zlib; any other type is refused.
pub open spec fn unpacked_payload(pack_type: u32, payload: Seq<u8>, unpacked: u64) -> Result<
    Seq<u8>,
    WikitError,
> {
    if pack_type == 0 {
        Ok(payload)
    } else if pack_type == 1 {
        if unpacked <= MAX_CODEC_INPUT {
            match lzo1x_decompressed(payload, unpacked as nat) {
                Some(data) => Ok(data),
                None => Err(WikitError::SourceFormat),
            }
        } else {
            Err(WikitError::SourceFormat)
        }
    } else if pack_type == 2 {
        match zlib_inflated(payload) {
            Some(data) => Ok(data),
            None => Err(WikitError::SourceFormat),
        }
    } else {
        Err(WikitError::SourceFormat)
    }
}

/// Unpacks the payload of a block as its `pack_type` says.
pub fn unpack_payload(pack_type: u32, payload: &[u8], unpacked: u64) -> (data: Result<
    Vec<u8>,
    WikitError,
>)
    ensures
        bytes_match(data, unpacked_payload(pack_type, payload@, unpacked)),
{
    if pack_type == 0 {
        let mut data: Vec<u8> = Vec::new();
        data.extend_from_slice(payload);
        proof {
            assert(data@ =~= payload@);
        }
        Ok(data)
    } else if pack_type == 1 {
        if unpacked <= MAX_CODEC_INPUT as u64 {
            match lzo_decompress(payload, unpacked as usize) {
                Some(data) => Ok(data),
                None => Err(WikitError::SourceFormat),
            }
        } else {
            Err(WikitError::SourceFormat)
        }
    } else if pack_type == 2 {
        match inflate(payload) {
            Some(data) => Ok(data),
            None => Err(WikitError::SourceFormat),
        }
    } else {
        Err(WikitError::SourceFormat)
    }
}

/// Whether the checksum of a block is verified: always from version 2.0 on,
/// and before it for zlib blocks.
pub open spec fn checksum_checked(version: u32, pack_type: u32) -> bool {
    version >= 20 || pack_type == 2
}

/// The data of the block of `packed` bytes that stands at `pos` of `region`.
/// A block is its `pack_type` (four bytes, little-endian), the Adler-32
/// checksum of its unpacked data (four bytes, big-endian) and its payload.
pub open spec fn block_data(
    region: Seq<u8>,
    pos: int,
    packed: u64,
    unpacked: u64,
    version: u32,
) -> Result<Seq<u8>, WikitError> {
    if packed < 8 {
        Err(WikitError::SourceFormat)
    } else {
        match window(region, pos, packed as int) {
            None => Err(WikitError::SourceFormat),
            Some(frame) => {
                let pack_type = le32_at(frame, 0).unwrap();
                let sum = uint_at(frame, 4, 4).unwrap();
                match unpacked_payload(pack_type, frame.skip(8), unpacked) {
                    Err(e) => Err(e),
                    Ok(data) => checked_data(data, sum as u32, version, pack_type),
                }
            },
        }
    }
}

/// The data of a block once unpacked, where its checksum is right or is not
/// verified.
pub open spec fn checked_data(data: Seq<u8>, sum: u32, version: u32, pack_type: u32) -> Result<
    Seq<u8>,
    WikitError,
> {
    if checksum_checked(version, pack_type) && adler32_spec(data) != sum {
        Err(WikitError::SourceChecksum)
    } else {
        Ok(data)
    }
}

/// Holds the unpacked data of a block against the checksum `sum` that the
/// block carries, where the checksum of such a block is verified.
pub fn check_block(data: Vec<u8>, sum: u32, version: u32, pack_type: u32) -> (checked: Result<
    Vec<u8>,
    WikitError,
>)
    ensures
        bytes_match(checked, checked_data(data@, sum, version, pack_type)),
{
    if (version >= 20 || pack_type == 2) && adler32(data.as_slice()) != sum {
        Err(WikitError::SourceChecksum)
    } else {
        Ok(data)
    }
}

/// Reads the block of `packed` bytes that stands at `pos` of `region`.
pub fn unpack_block(region: &[u8], pos: usize, packed: u64, unpacked: u64, version: u32) -> (data:
    Result<Vec<u8>, WikitError>)
    requires
        pos <= region@.len(),
    ensures
        bytes_match(data, block_data(region@, pos as int, packed, unpacked, version)),
{
    if packed < 8 || packed > (region.len() - pos) as u64 {
        return Err(WikitError::SourceFormat);
    }
    let frame = slice_subrange(region, pos, pos + packed as usize);
    let pack_type: u32 = match read_le_u32(frame, 0) {
        Some(pack_type) => pack_type,
        None => {
            return Err(WikitError::SourceFormat);
        },
    };
    let sum: u64 = match read_be(frame, 4, 4) {
        Some(sum) => sum,
        None => {
            return Err(WikitError::SourceFormat);
        },
    };
    let payload = slice_subrange(frame, 8, frame.len());
    proof {
        assert(payload@ =~= frame@.skip(8));
    }
    let data: Vec<u8> = match unpack_payload(pack_type, payload, unpacked) {
        Err(e) => {
            return Err(e);
        },
        Ok(data) => data,
    };
    proof {
        lemma_uint_fits(window(frame@, 4, 4).unwrap());
    }
    check_block(data, sum as u32, version, pack_type)
}

/// A block of version 2.0 or later with a wrong checksum is never read.
pub proof fn lemma_wrong_checksum_is_refused(
    region: Seq<u8>,
    pos: int,
    packed: u64,
    unpacked: u64,
    version: u32,
)
    requires
        packed >= 8,
        window(region, pos, packed as int) is Some,
        ({
            let frame = window(region, pos, packed as int).unwrap();
            let pack_type = le32_at(frame, 0).unwrap();
            &&& checksum_checked(version, pack_type)
            &&& unpacked_payload(pack_type, frame.skip(8), unpacked) matches Ok(data)
            &&& adler32_spec(data) != uint_at(frame, 4, 4).unwrap()
        }),
    ensures
        block_data(region, pos, packed, unpacked, version) == Err::<Seq<u8>, WikitError>(
            WikitError::SourceChecksum,
        ),
{
    let frame = window(region, pos, packed as int).unwrap();
    lemma_uint_fits(window(frame, 4, 4).unwrap());
}

/// A block whose checksum is verified is read only where its data has that
/// checksum: no damaged data passes.
pub proof fn lemma_read_block_has_its_checksum(
    region: Seq<u8>,
    pos: int,
    packed: u64,
    unpacked: u64,
    version: u32,
)
    requires
        block_data(region, pos, packed, unpacked, version) is Ok,
    ensures
        ({
            let frame = window(region, pos, packed as int).unwrap();
            let data = block_data(region, pos, packed, unpacked, version).unwrap();
            &&& packed >= 8
            &&& window(region, pos, packed as int) is Some
            &&& unpacked_payload(le32_at(frame, 0).unwrap(), frame.skip(8), unpacked) == Ok::<
                Seq<u8>,
                WikitError,
            >(data)
            &&& checksum_checked(version, le32_at(frame, 0).unwrap()) ==> adler32_spec(data)
                == uint_at(frame, 4, 4).unwrap()
        }),
{
    let frame = window(region, pos, packed as int).unwrap();
    lemma_uint_fits(window(frame, 4, 4).unwrap());
}

/// A raw block and a zlib block that hold the same data under the same
/// checksum give the same result, where the checksum of both is verified.
pub proof fn lemma_raw_block_as_zlib_block(
    raw: Seq<u8>,
    zlib: Seq<u8>,
    unpacked: u64,
    version: u32,
)
    requires
        version >= 20,
        8 <= raw.len() <= u64::MAX,
        8 <= zlib.len() <= u64::MAX,
        le32_at(raw, 0) == Some(0u32),
        le32_at(zlib, 0) == Some(2u32),
        uint_at(raw, 4, 4) == uint_at(zlib, 4, 4),
        zlib_inflated(zlib.skip(8)) == Some(raw.skip(8)),
    ensures
        block_data(raw, 0, raw.len() as u64, unpacked, version) == block_data(
            zlib,
            0,
            zlib.len() as u64,
            unpacked,
            version,
        ),
{
    assert(window(raw, 0, raw.len() as int).unwrap() =~= raw);
    assert(window(zlib, 0, zlib.len() as int).unwrap() =~= zlib);
}

/// The counts and sizes that precede the key blocks.
#[derive(Clone, Copy, Debug, PartialEq, Eq, Structural)]
pub struct KeyLayout {
    /// The number of key blocks.
    pub block_count: u64,
    /// The number of keys.
    pub key_count: u64,
    /// The size of the key-block table once unpacked (0 before version 2.0).
    pub info_unpacked: u64,
    /// The size of the key-block table as stored.
    pub info_size: u64,
    /// The size of all key blocks as stored.
    pub blocks_size: u64,
}

/// The number of bytes of the key layout: 16 before version 2.0; from then
/// on 44, of which the last four are a checksum.
pub open spec fn layout_len(info: MDXInfo) -> int {
    if info.version < 20 {
        16
    } else {
        44
    }
}

/// The key layout that stands at `pos` of `buf`.
pub open spec fn key_layout(buf: Seq<u8>, pos: int, info: MDXInfo) -> Result<KeyLayout, WikitError> {
    match window(buf, pos, layout_len(info)) {
        None => Err(WikitError::SourceFormat),
        Some(block) => if info.version < 20 {
            Ok(
                KeyLayout {
                    block_count: uint_at(block, 0, 4).unwrap(),
                    key_count: uint_at(block, 4, 4).unwrap(),
                    info_unpacked: 0,
                    info_size: uint_at(block, 8, 4).unwrap(),
                    blocks_size: uint_at(block, 12, 4).unwrap(),
                },
            )
        } else if adler32_spec(block.take(40)) != uint_at(block, 40, 4).unwrap() {
            Err(WikitError::SourceChecksum)
        } else {
            Ok(
                KeyLayout {
                    block_count: uint_at(block, 0, 8).unwrap(),
                    key_count: uint_at(block, 8, 8).unwrap(),
                    info_unpacked: uint_at(block, 16, 8).unwrap(),
                    info_size: uint_at(block, 24, 8).unwrap(),
                    blocks_size: uint_at(block, 32, 8).unwrap(),
                },
            )
        },
    }
}

/// A key layout of version 2.0 or later with a wrong checksum is refused
/// as such.
pub proof fn lemma_wrong_layout_checksum_is_refused(buf: Seq<u8>, pos: int, info: MDXInfo)
    requires
        info.version >= 20,
        window(buf, pos, 44) is Some,
        adler32_spec(window(buf, pos, 44).unwrap().take(40)) != uint_at(
            window(buf, pos, 44).unwrap(),
            40,
            4,
        ).unwrap(),
    ensures
        key_layout(buf, pos, info) == Err::<KeyLayout, WikitError>(WikitError::SourceChecksum),
{
}

/// Reads the integer of `width` bytes at `pos` of `buf`, which is known to
/// lie in `buf`.
fn read_known(buf: &[u8], pos: usize, width: usize) -> (value: u64)
    requires
        width <= 8,
        pos + width <= buf@.len(),
    ensures
        Some(value) == uint_at(buf@, pos as int, width as int),
{
    match read_be(buf, pos, width) {
        Some(value) => value,
        None => 0,
    }
}

/// Reads the key layout that stands at `pos` of `buf`.
pub fn read_key_layout(buf: &[u8], pos: usize, info: &MDXInfo) -> (layout: Result<
    KeyLayout,
    WikitError,
>)
    requires
        pos <= buf@.len(),
    ensures
        layout == key_layout(buf@, pos as int, *info),
        layout is Ok ==> pos + layout_len(*info) <= buf@.len(),
{
    let len: usize = if info.version < 20 { 16 } else { 44 };
    if len > buf.len() - pos {
        return Err(WikitError::SourceFormat);
    }
    let block = slice_subrange(buf, pos, pos + len);
    if info.version < 20 {
        Ok(
            KeyLayout {
                block_count: read_known(block, 0, 4),
                key_count: read_known(block, 4, 4),
                info_unpacked: 0,
                info_size: read_known(block, 8, 4),
                blocks_size: read_known(block, 12, 4),
            },
        )
    } else {
        let body = slice_subrange(block, 0, 40);
        proof {
            assert(body@ =~= block@.take(40));
        }
        if adler32(body) as u64 != read_known(block, 40, 4) {
            return Err(WikitError::SourceChecksum);
        }
        Ok(
            KeyLayout {
                block_count: read_known(block, 0, 8),
                key_count: read_known(block, 8, 8),
                info_unpacked: read_known(block, 16, 8),
                info_size: read_known(block, 24, 8),
                blocks_size: read_known(block, 32, 8),
            },
        )
    }
}

/// The key-block table as it is to be read: as stored before version 2.0;
/// from then on without its first eight bytes (the `pack_type` and a
/// checksum), deciphered where the table is encrypted (`encid` is 2), and
/// unpacked as the `pack_type` says.
pub open spec fn key_info_blob(table: Seq<u8>, layout: KeyLayout, info: MDXInfo) -> Result<
    Seq<u8>,
    WikitError,
> {
    if info.version < 20 {
        Ok(table)
    } else {
        match (le32_at(table, 0), window(table, 4, 4)) {
            (Some(pack_type), Some(seed)) => {
                let body = table.skip(8);
                let clear = if info.encid == 2 {
                    decrypted(body, ripemd128_digest(key_seed(seed)))
                } else {
                    body
                };
                unpacked_payload(pack_type, clear, layout.info_unpacked)
            },
            _ => Err(WikitError::SourceFormat),
        }
    }
}

/// Brings the key-block table into the form in which it is read.
pub fn open_key_info(table: &[u8], layout: &KeyLayout, info: &MDXInfo) -> (blob: Result<
    Vec<u8>,
    WikitError,
>)
    ensures
        bytes_match(blob, key_info_blob(table@, *layout, *info)),
{
    if info.version < 20 {
        let mut blob: Vec<u8> = Vec::new();
        blob.extend_from_slice(table);
        proof {
            assert(blob@ =~= table@);
        }
        return Ok(blob);
    }
    let pack_type: u32 = match read_le_u32(table, 0) {
        Some(pack_type) => pack_type,
        None => {
            return Err(WikitError::SourceFormat);
        },
    };
    if table.len() < 8 {
        return Err(WikitError::SourceFormat);
    }
    let seed = slice_subrange(table, 4, 8);
    let mut body: Vec<u8> = Vec::new();
    body.extend_from_slice(slice_subrange(table, 8, table.len()));
    proof {
        assert(body@ =~= table@.skip(8));
    }
    let clear: Vec<u8> = if info.encid == 2 {
        mdx_decrypt(body, derive_key(seed))
    } else {
        body
    };
    unpack_payload(pack_type, clear.as_slice(), layout.info_unpacked)
}

/// What the key-block table says of one key block.
#[derive(Clone, Copy, Debug, PartialEq, Eq, Structural)]
pub struct BlockInfo {
    /// The number of keys in the block.
    pub entries: u64,
    /// The size of the block as stored.
    pub packed: u64,
    /// The size of the block's data once unpacked.
    pub unpacked: u64,
}

/// The number of bytes that the table gives to a key whose size field holds
/// `size`: `size` before version 2.0; from then on one character more, and
/// two bytes for each character of UTF-16.
pub open spec fn key_len(size: u64, info: MDXInfo) -> int {
    if info.version < 20 {
        size as int
    } else if info.wide() {
        (size + 1) * 2
    } else {
        size + 1
    }
}

/// The entries of the key-block table `blob` from `pos` on, after those of
/// `acc`, up to `count` in all. An entry is the number of keys of a block,
/// the block's first and last key, each behind its size, and the block's
/// packed and unpacked size.
pub open spec fn info_records(
    blob: Seq<u8>,
    pos: int,
    count: u64,
    info: MDXInfo,
    acc: Seq<BlockInfo>,
) -> Result<Seq<BlockInfo>, WikitError>
    decreases count - acc.len(),
{
    let w = info.integersz as int;
    let sw = w / 4;
    if acc.len() >= count {
        Ok(acc)
    } else {
        match (uint_at(blob, pos, w), uint_at(blob, pos + w, sw)) {
            (Some(entries), Some(first)) => {
                let second = pos + w + sw + key_len(first, info);
                match uint_at(blob, second, sw) {
                    Some(last) => {
                        let sizes = second + sw + key_len(last, info);
                        match (uint_at(blob, sizes, w), uint_at(blob, sizes + w, w)) {
                            (Some(packed), Some(unpacked)) => info_records(
                                blob,
                                sizes + 2 * w,
                                count,
                                info,
                                acc.push(BlockInfo { entries, packed, unpacked }),
                            ),
                            _ => Err(WikitError::SourceFormat),
                        }
                    },
                    None => Err(WikitError::SourceFormat),
                }
            },
            _ => Err(WikitError::SourceFormat),
        }
    }
}

/// Whether a reader returned the entries, or the error, that the format of
/// the archive gives.
pub open spec fn infos_match(
    got: Result<Vec<BlockInfo>, WikitError>,
    want: Result<Seq<BlockInfo>, WikitError>,
) -> bool {
    match (got, want) {
        (Ok(got), Ok(want)) => got@ == want,
        (Err(got), Err(want)) => got == want,
        _ => false,
    }
}

/// The number of bytes of a key in the key-block table; `None` where the
/// table ends before the key does.
fn key_bytes(size: u64, info: &MDXInfo, room: usize) -> (len: Option<usize>)
    requires
        size <= u16::MAX,
    ensures
        len is Some <==> key_len(size, *info) <= room,
        len is Some ==> len.unwrap() == key_len(size, *info),
{
    let len: u64 = if info.version < 20 {
        size
    } else if info.encoding == TextEncoding::Utf16 {
        (size + 1) * 2
    } else {
        size + 1
    };
    if len > room as u64 {
        None
    } else {
        Some(len as usize)
    }
}

/// Reads the `count` entries of the key-block table `blob`.
pub fn read_info_records(blob: &[u8], count: u64, info: &MDXInfo) -> (infos: Result<
    Vec<BlockInfo>,
    WikitError,
>)
    requires
        info.wf(),
    ensures
        infos_match(infos, info_records(blob@, 0, count, *info, Seq::empty())),
{
    let w: usize = info.integersz as usize;
    let sw: usize = w / 4;
    let total: usize = blob.len();
    let mut infos: Vec<BlockInfo> = Vec::new();
    let mut pos: usize = 0;
    let mut i: u64 = 0;
    while i < count
        invariant
            info.wf(),
            w == info.integersz,
            sw == w / 4,
            pos <= blob@.len() == total,
            i <= count,
            infos@.len() == i,
            info_records(blob@, 0, count, *info, Seq::empty()) == info_records(
                blob@,
                pos as int,
                count,
                *info,
                infos@,
            ),
        decreases count - i,
    {
        let entries: u64 = match read_be(blob, pos, w) {
            Some(entries) => entries,
            None => {
                return Err(WikitError::SourceFormat);
            },
        };
        proof {
            assert(window(blob@, pos as int, w as int) is Some);
        }
        let first: u64 = match read_be(blob, pos + w, sw) {
            Some(first) => first,
            None => {
                return Err(WikitError::SourceFormat);
            },
        };
        proof {
            assert(window(blob@, pos + w, sw as int) is Some);
            lemma_uint_fits(window(blob@, pos + w, sw as int).unwrap());
        }
        let after_first: usize = pos + w + sw;
        let second: usize = match key_bytes(first, info, blob.len() - after_first) {
            Some(len) => after_first + len,
            None => {
                return Err(WikitError::SourceFormat);
            },
        };
        let last: u64 = match read_be(blob, second, sw) {
            Some(last) => last,
            None => {
                return Err(WikitError::SourceFormat);
            },
        };
        proof {
            assert(window(blob@, second as int, sw as int) is Some);
            lemma_uint_fits(window(blob@, second as int, sw as int).unwrap());
        }
        let after_last: usize = second + sw;
        let sizes: usize = match key_bytes(last, info, blob.len() - after_last) {
            Some(len) => after_last + len,
            None => {
                return Err(WikitError::SourceFormat);
            },
        };
        let packed: u64 = match read_be(blob, sizes, w) {
            Some(packed) => packed,
            None => {
                return Err(WikitError::SourceFormat);
            },
        };
        proof {
            assert(window(blob@, sizes as int, w as int) is Some);
        }
        let unpacked: u64 = match read_be(blob, sizes + w, w) {
            Some(unpacked) => unpacked,
            None => {
                return Err(WikitError::SourceFormat);
            },
        };
        infos.push(BlockInfo { entries, packed, unpacked });
        pos = sizes + 2 * w;
        i = i + 1;
    }
    Ok(infos)
}

/// The keys of an archive with the offsets of their meanings.
pub open spec fn keys_view(keys: Seq<(String, u64)>) -> Seq<(Seq<char>, u64)> {
    Seq::new(keys.len(), |i: int| (keys[i].0@, keys[i].1))
}

/// Whether a reader returned the keys, or the error, that the format of the
/// archive gives.
pub open spec fn keys_match(
    got: Result<Vec<(String, u64)>, WikitError>,
    want: Result<Seq<(Seq<char>, u64)>, WikitError>,
) -> bool {
    match (got, want) {
        (Ok(got), Ok(want)) => keys_view(got@) == want,
        (Err(got), Err(want)) => got == want,
        _ => false,
    }
}

/// The first even step from `from` at which `buf` holds two zero bytes, or
/// the length of `buf` where there is none: the end of a UTF-16 key.
pub open spec fn index_of_pair(buf: Seq<u8>, from: int) -> int
    decreases buf.len() - from,
{
    if from < 0 || from + 1 >= buf.len() {
        buf.len() as int
    } else if buf[from] == 0 && buf[from + 1] == 0 {
        from
    } else {
        index_of_pair(buf, from + 2)
    }
}

/// Finds the two zero bytes that end the UTF-16 key at `from` of `buf`.
pub fn find_pair(buf: &[u8], from: usize) -> (at: usize)
    requires
        from <= buf@.len(),
    ensures
        at as int == index_of_pair(buf@, from as int),
        from <= at <= buf@.len(),
        at < buf@.len() ==> at + 2 <= buf@.len(),
{
    let mut i: usize = from;
    while i < buf.len() && 1 < buf.len() - i
        invariant
            from <= i <= buf@.len(),
            index_of_pair(buf@, from as int) == index_of_pair(buf@, i as int),
        decreases buf@.len() - i,
    {
        if buf[i] == 0 && buf[i + 1] == 0 {
            return i;
        }
        i = i + 2;
    }
    buf.len()
}

/// The position of the NUL that ends the key at `from` of `data`.
pub open spec fn key_end(data: Seq<u8>, from: int, info: MDXInfo) -> int {
    if info.wide() {
        index_of_pair(data, from)
    } else {
        index_of(data, from, 0)
    }
}

/// The number of bytes of a NUL.
pub open spec fn nul_len(info: MDXInfo) -> int {
    if info.wide() {
        2
    } else {
        1
    }
}

/// The keys of the unpacked key block `data` from `pos` on, after those of
/// `acc`. Each key stands behind the offset of its meaning and ends in NUL.
pub open spec fn block_keys(
    data: Seq<u8>,
    pos: int,
    info: MDXInfo,
    acc: Seq<(Seq<char>, u64)>,
) -> Result<Seq<(Seq<char>, u64)>, WikitError>
    decreases data.len() - pos,
{
    if pos < 0 || pos >= data.len() {
        Ok(acc)
    } else {
        match uint_at(data, pos, info.integersz as int) {
            None => Err(WikitError::SourceFormat),
            Some(offset) => {
                let start = pos + info.integersz;
                let end = key_end(data, start, info);
                if end < start || end + nul_len(info) > data.len() {
                    Err(WikitError::SourceFormat)
                } else {
                    match decoded_text(info.encoding, data.subrange(start, end)) {
                        None => Err(WikitError::DecodeError),
                        Some(key) => block_keys(
                            data,
                            end + nul_len(info),
                            info,
                            acc.push((key, offset)),
                        ),
                    }
                }
            },
        }
    }
}

/// Reads the keys of the unpacked key block `data` and appends them to
/// `keys`.
pub fn read_block_keys(data: &[u8], info: &MDXInfo, keys: Vec<(String, u64)>) -> (all: Result<
    Vec<(String, u64)>,
    WikitError,
>)
    requires
        info.wf(),
    ensures
        keys_match(all, block_keys(data@, 0, *info, keys_view(keys@))),
{
    let w: usize = info.integersz as usize;
    let wide: bool = info.encoding == TextEncoding::Utf16;
    let mut all = keys;
    let mut pos: usize = 0;
    while pos < data.len()
        invariant
            info.wf(),
            w == info.integersz,
            wide == info.wide(),
            pos <= data@.len(),
            block_keys(data@, 0, *info, keys_view(keys@)) == block_keys(
                data@,
                pos as int,
                *info,
                keys_view(all@),
            ),
        decreases data@.len() - pos,
    {
        let offset: u64 = match read_be(data, pos, w) {
            Some(offset) => offset,
            None => {
                return Err(WikitError::SourceFormat);
            },
        };
        proof {
            assert(window(data@, pos as int, w as int) is Some);
        }
        let start: usize = pos + w;
        let end: usize = if wide {
            find_pair(data, start)
        } else {
            find_byte(data, start, 0)
        };
        if end >= data.len() {
            return Err(WikitError::SourceFormat);
        }
        let key: String = match mdx_decode(info.encoding, slice_subrange(data, start, end)) {
            Some(key) => key,
            None => {
                return Err(WikitError::DecodeError);
            },
        };
        let ghost old_keys = keys_view(all@);
        all.push((key, offset));
        proof {
            assert(keys_view(all@) =~= old_keys.push((key@, offset)));
        }
        pos = if wide { end + 2 } else { end + 1 };
    }
    Ok(all)
}

/// The keys of the key blocks in `region` from block `i` on, which stands at
/// `pos`, after those of `acc`. Reading stops where `region` ends.
pub open spec fn key_blocks(
    region: Seq<u8>,
    pos: int,
    infos: Seq<BlockInfo>,
    i: int,
    info: MDXInfo,
    acc: Seq<(Seq<char>, u64)>,
) -> Result<Seq<(Seq<char>, u64)>, WikitError>
    decreases infos.len() - i,
{
    if i < 0 || i >= infos.len() || pos >= region.len() {
        Ok(acc)
    } else {
        match block_data(region, pos, infos[i].packed, infos[i].unpacked, info.version) {
            Err(e) => Err(e),
            Ok(data) => match block_keys(data, 0, info, acc) {
                Err(e) => Err(e),
                Ok(keys) => key_blocks(region, pos + infos[i].packed, infos, i + 1, info, keys),
            },
        }
    }
}

/// Reads the keys of all key blocks in `region`.
pub fn read_key_blocks(region: &[u8], infos: &Vec<BlockInfo>, info: &MDXInfo) -> (keys: Result<
    Vec<(String, u64)>,
    WikitError,
>)
    requires
        info.wf(),
    ensures
        keys_match(keys, key_blocks(region@, 0, infos@, 0, *info, Seq::empty())),
{
    let mut keys: Vec<(String, u64)> = Vec::new();
    let mut pos: usize = 0;
    let mut i: usize = 0;
    proof {
        assert(keys_view(keys@) =~= Seq::<(Seq<char>, u64)>::empty());
    }
    while i < infos.len() && pos < region.len()
        invariant
            info.wf(),
            i <= infos@.len(),
            pos <= region@.len(),
            key_blocks(region@, 0, infos@, 0, *info, Seq::empty()) == key_blocks(
                region@,
                pos as int,
                infos@,
                i as int,
                *info,
                keys_view(keys@),
            ),
        decreases infos@.len() - i,
    {
        let block: BlockInfo = infos[i];
        let data: Vec<u8> = match unpack_block(
            region,
            pos,
            block.packed,
            block.unpacked,
            info.version,
        ) {
            Ok(data) => data,
            Err(e) => {
                return Err(e);
            },
        };
        keys = match read_block_keys(data.as_slice(), info, keys) {
            Ok(keys) => keys,
            Err(e) => {
                return Err(e);
            },
        };
        pos = pos + block.packed as usize;
        i = i + 1;
    }
    Ok(keys)
}

/// The packed and unpacked sizes of the meaning blocks, read from `pos` of
/// `buf` on, after those of `acc`, up to `count` in all.
pub open spec fn size_table(buf: Seq<u8>, pos: int, count: u64, w: int, acc: Seq<(u64, u64)>) -> Result<
    Seq<(u64, u64)>,
    WikitError,
>
    decreases count - acc.len(),
{
    if acc.len() >= count {
        Ok(acc)
    } else {
        match (uint_at(buf, pos, w), uint_at(buf, pos + w, w)) {
            (Some(packed), Some(unpacked)) => size_table(
                buf,
                pos + 2 * w,
                count,
                w,
                acc.push((packed, unpacked)),
            ),
            _ => Err(WikitError::SourceFormat),
        }
    }
}

/// The data of the meaning blocks in `region` from block `i` on, which
/// stands at `pos`, after the data `acc`.
pub open spec fn meaning_blocks(
    region: Seq<u8>,
    pos: int,
    sizes: Seq<(u64, u64)>,
    i: int,
    version: u32,
    acc: Seq<u8>,
) -> Result<Seq<u8>, WikitError>
    decreases sizes.len() - i,
{
    if i < 0 || i >= sizes.len() {
        Ok(acc)
    } else {
        match block_data(region, pos, sizes[i].0, sizes[i].1, version) {
            Err(e) => Err(e),
            Ok(data) => meaning_blocks(region, pos + sizes[i].0, sizes, i + 1, version, acc + data),
        }
    }
}

/// The bytes of all meanings, one after another, read from the meaning
/// section that stands at `pos` of `buf`: four integers (the number of
/// blocks, the number of keys, the size of the size table, the size of the
/// blocks), the size table, and the blocks.
pub open spec fn meaning_bytes(buf: Seq<u8>, pos: int, info: MDXInfo) -> Result<Seq<u8>, WikitError> {
    let w = info.integersz as int;
    match (uint_at(buf, pos, w), uint_at(buf, pos + 3 * w, w)) {
        (Some(count), Some(blocks_size)) => match size_table(
            buf,
            pos + 4 * w,
            count,
            w,
            Seq::empty(),
        ) {
            Err(e) => Err(e),
            Ok(sizes) => match window(buf, pos + 4 * w + count * 2 * w, blocks_size as int) {
                None => Err(WikitError::SourceFormat),
                Some(region) => meaning_blocks(region, 0, sizes, 0, info.version, Seq::empty()),
            },
        },
        _ => Err(WikitError::SourceFormat),
    }
}

/// Reads the meaning section that stands at `pos` of `buf`.
#[verifier::loop_isolation(false)]
pub fn read_meanings(buf: &[u8], pos: usize, info: &MDXInfo) -> (meanings: Result<
    Vec<u8>,
    WikitError,
>)
    requires
        info.wf(),
        pos <= buf@.len(),
    ensures
        bytes_match(meanings, meaning_bytes(buf@, pos as int, *info)),
{
    let w: usize = info.integersz as usize;
    let total: usize = buf.len();
    let count: u64 = match read_be(buf, pos, w) {
        Some(count) => count,
        None => {
            return Err(WikitError::SourceFormat);
        },
    };
    if 4 * w > total - pos {
        return Err(WikitError::SourceFormat);
    }
    let blocks_size: u64 = read_known(buf, pos + 3 * w, w);
    let start: usize = pos + 4 * w;
    let mut sizes: Vec<(u64, u64)> = Vec::new();
    let mut at: usize = start;
    let mut i: u64 = 0;
    proof {
        assert(i * 2 * w == 0) by (nonlinear_arith)
            requires
                i == 0,
        ;
    }
    while i < count
        invariant
            w == info.integersz,
            info.wf(),
            total == buf@.len(),
            start <= at <= total,
            at == start + i * 2 * w,
            i <= count,
            sizes@.len() == i,
            size_table(buf@, start as int, count, w as int, Seq::empty()) == size_table(
                buf@,
                at as int,
                count,
                w as int,
                sizes@,
            ),
        decreases count - i,
    {
        let packed: u64 = match read_be(buf, at, w) {
            Some(packed) => packed,
            None => {
                return Err(WikitError::SourceFormat);
            },
        };
        proof {
            assert(window(buf@, at as int, w as int) is Some);
        }
        let unpacked: u64 = match read_be(buf, at + w, w) {
            Some(unpacked) => unpacked,
            None => {
                return Err(WikitError::SourceFormat);
            },
        };
        proof {
            assert(window(buf@, at + w, w as int) is Some);
            assert((i + 1) * 2 * w == i * 2 * w + 2 * w) by (nonlinear_arith);
        }
        sizes.push((packed, unpacked));
        at = at + 2 * w;
        i = i + 1;
    }
    if blocks_size > (total - at) as u64 {
        return Err(WikitError::SourceFormat);
    }
    let region = slice_subrange(buf, at, at + blocks_size as usize);
    let mut meanings: Vec<u8> = Vec::new();
    let mut rpos: usize = 0;
    let mut k: usize = 0;
    while k < sizes.len()
        invariant
            k <= sizes@.len(),
            rpos <= region@.len(),
            meaning_blocks(region@, 0, sizes@, 0, info.version, Seq::empty()) == meaning_blocks(
                region@,
                rpos as int,
                sizes@,
                k as int,
                info.version,
                meanings@,
            ),
        decreases sizes@.len() - k,
    {
        let (packed, unpacked) = sizes[k];
        let mut data: Vec<u8> = match unpack_block(region, rpos, packed, unpacked, info.version) {
            Ok(data) => data,
            Err(e) => {
                return Err(e);
            },
        };
        proof {
            assert(window(region@, rpos as int, packed as int) is Some);
        }
        let ghost before = meanings@;
        let ghost added = data@;
        meanings.append(&mut data);
        proof {
            assert(meanings@ =~= before + added);
        }
        rpos = rpos + packed as usize;
        k = k + 1;
    }
    Ok(meanings)
}

/// Whether a reader returned the records, or the error, that the format of
/// the archive gives.
pub open spec fn records_match(
    got: Result<Vec<(String, String)>, WikitError>,
    want: Result<Seq<(Seq<char>, Seq<char>)>, WikitError>,
) -> bool {
    match (got, want) {
        (Ok(got), Ok(want)) => pairs_view(got@) == want,
        (Err(got), Err(want)) => got == want,
        _ => false,
    }
}

/// The records of the keys from key `i` on, after those of `acc`. The
/// meaning of a key is the bytes of `meanings` from the key's offset up to
/// the offset of the next key, or up to the end for the last key; its key is
/// brought into normal form.
pub open spec fn joined(
    keys: Seq<(Seq<char>, u64)>,
    meanings: Seq<u8>,
    encoding: TextEncoding,
    i: int,
    acc: Seq<(Seq<char>, Seq<char>)>,
) -> Result<Seq<(Seq<char>, Seq<char>)>, WikitError>
    decreases keys.len() - i,
{
    if i < 0 || i >= keys.len() {
        Ok(acc)
    } else {
        let start = keys[i].1 as int;
        let end = if i + 1 < keys.len() {
            keys[i + 1].1 as int
        } else {
            meanings.len() as int
        };
        if start > end || end > meanings.len() {
            Err(WikitError::SourceFormat)
        } else {
            match decoded_text(encoding, meanings.subrange(start, end)) {
                None => Err(WikitError::DecodeError),
                Some(meaning) => joined(
                    keys,
                    meanings,
                    encoding,
                    i + 1,
                    acc.push((normalized(keys[i].0), meaning)),
                ),
            }
        }
    }
}

/// Joins each key with its meaning.
pub fn join_records(keys: &Vec<(String, u64)>, meanings: &[u8], encoding: TextEncoding) -> (records:
    Result<Vec<(String, String)>, WikitError>)
    ensures
        records_match(records, joined(keys_view(keys@), meanings@, encoding, 0, Seq::empty())),
{
    let mut records: Vec<(String, String)> = Vec::new();
    let total: usize = meanings.len();
    let mut i: usize = 0;
    proof {
        assert(pairs_view(records@) =~= Seq::<(Seq<char>, Seq<char>)>::empty());
    }
    while i < keys.len()
        invariant
            i <= keys@.len(),
            total == meanings@.len(),
            joined(keys_view(keys@), meanings@, encoding, 0, Seq::empty()) == joined(
                keys_view(keys@),
                meanings@,
                encoding,
                i as int,
                pairs_view(records@),
            ),
        decreases keys@.len() - i,
    {
        let start: u64 = keys[i].1;
        let end: u64 = if i + 1 < keys.len() {
            keys[i + 1].1
        } else {
            total as u64
        };
        if start > end || end > total as u64 {
            return Err(WikitError::SourceFormat);
        }
        let part = slice_subrange(meanings, start as usize, end as usize);
        let meaning: String = match mdx_decode(encoding, part) {
            Some(meaning) => meaning,
            None => {
                return Err(WikitError::DecodeError);
            },
        };
        let key: String = normalize_word(keys[i].0.as_str());
        let ghost before = pairs_view(records@);
        records.push((key, meaning));
        proof {
            assert(pairs_view(records@) =~= before.push((key@, meaning@)));
        }
        i = i + 1;
    }
    Ok(records)
}

/// The records of the archive whose header ends at `pos` of `buf` and says
/// `info`: the key layout, the key-block table, the key blocks, then the
/// meaning section. An archive whose key blocks are encrypted is refused.
#[verifier::opaque]
pub open spec fn records_after_header(buf: Seq<u8>, pos: int, info: MDXInfo) -> Result<
    Seq<(Seq<char>, Seq<char>)>,
    WikitError,
> {
    if info.encid == 1 {
        Err(WikitError::SourceEncrypted)
    } else {
        match key_layout(buf, pos, info) {
            Err(e) => Err(e),
            Ok(layout) => {
                let table_pos = pos + layout_len(info);
                let blocks_pos = table_pos + layout.info_size;
                match window(buf, table_pos, layout.info_size as int) {
                    None => Err(WikitError::SourceFormat),
                    Some(table) => match key_info_blob(table, layout, info) {
                        Err(e) => Err(e),
                        Ok(blob) => match info_records(
                            blob,
                            0,
                            layout.block_count,
                            info,
                            Seq::empty(),
                        ) {
                            Err(e) => Err(e),
                            Ok(infos) => match window(buf, blocks_pos, layout.blocks_size as int) {
                                None => Err(WikitError::SourceFormat),
                                Some(region) => match key_blocks(
                                    region,
                                    0,
                                    infos,
                                    0,
                                    info,
                                    Seq::empty(),
                                ) {
                                    Err(e) => Err(e),
                                    Ok(keys) => match meaning_bytes(
                                        buf,
                                        blocks_pos + layout.blocks_size,
                                        info,
                                    ) {
                                        Err(e) => Err(e),
                                        Ok(meanings) => joined(
                                            keys,
                                            meanings,
                                            info.encoding,
                                            0,
                                            Seq::empty(),
                                        ),
                                    },
                                },
                            },
                        },
                    },
                }
            },
        }
    }
}

/// Reads the records of the archive whose header ends at `pos` of `buf`.
pub fn read_records(buf: &[u8], pos: usize, info: &MDXInfo) -> (records: Result<
    Vec<(String, String)>,
    WikitError,
>)
    requires
        info.wf(),
        pos <= buf@.len(),
    ensures
        records_match(records, records_after_header(buf@, pos as int, *info)),
{
    proof {
        reveal(records_after_header);
    }
    if info.encid == 1 {
        return Err(WikitError::SourceEncrypted);
    }
    let layout: KeyLayout = match read_key_layout(buf, pos, info) {
        Ok(layout) => layout,
        Err(e) => {
            return Err(e);
        },
    };
    let total: usize = buf.len();
    let table_pos: usize = pos + if info.version < 20 { 16 } else { 44 };
    if layout.info_size > (total - table_pos) as u64 {
        return Err(WikitError::SourceFormat);
    }
    let blocks_pos: usize = table_pos + layout.info_size as usize;
    let table = slice_subrange(buf, table_pos, blocks_pos);
    let blob: Vec<u8> = match open_key_info(table, &layout, info) {
        Ok(blob) => blob,
        Err(e) => {
            return Err(e);
        },
    };
    let infos: Vec<BlockInfo> = match read_info_records(blob.as_slice(), layout.block_count, info) {
        Ok(infos) => infos,
        Err(e) => {
            return Err(e);
        },
    };
    if layout.blocks_size > (total - blocks_pos) as u64 {
        return Err(WikitError::SourceFormat);
    }
    let meaning_pos: usize = blocks_pos + layout.blocks_size as usize;
    let region = slice_subrange(buf, blocks_pos, meaning_pos);
    let keys: Vec<(String, u64)> = match read_key_blocks(region, &infos, info) {
        Ok(keys) => keys,
        Err(e) => {
            return Err(e);
        },
    };
    let meanings: Vec<u8> = match read_meanings(buf, meaning_pos, info) {
        Ok(meanings) => meanings,
        Err(e) => {
            return Err(e);
        },
    };
    join_records(&keys, meanings.as_slice(), info.encoding)
}

/// The records of the archive `buf`; none where only the header is asked
/// for. The keys are in normal form and stand in the archive's order, and a
/// key may occur more than once.
pub open spec fn parsed_mdx(buf: Seq<u8>, option: Option<ParseOption>) -> Result<
    Seq<(Seq<char>, Seq<char>)>,
    WikitError,
> {
    match header_meta(buf) {
        Err(e) => Err(e),
        Ok(header) => if option == Some(ParseOption::OnlyHeader) {
            Ok(Seq::empty())
        } else {
            match mdx_info(header.0) {
                Err(e) => Err(e),
                Ok(info) => records_after_header(buf, header.1, info),
            }
        },
    }
}

/// Reads the MDX archive `buf` into its records of key and meaning, in the
/// archive's order and with the keys in normal form. With `OnlyHeader` the
/// header is checked and no record is read.
pub fn parse_mdx(buf: &[u8], option: Option<ParseOption>) -> (records: Result<
    Vec<(String, String)>,
    WikitError,
>)
    ensures
        records_match(records, parsed_mdx(buf@, option)),
{
    let (meta, pos) = match read_header(buf) {
        Ok(header) => header,
        Err(e) => {
            return Err(e);
        },
    };
    if option.is_some() {
        let records: Vec<(String, String)> = Vec::new();
        proof {
            assert(option == Some(ParseOption::OnlyHeader));
            assert(pairs_view(records@) =~= Seq::<(Seq<char>, Seq<char>)>::empty());
        }
        return Ok(records);
    }
    let info: MDXInfo = match MDXInfo::new(&meta) {
        Ok(info) => info,
        Err(e) => {
            return Err(e);
        },
    };
    read_records(buf, pos, &info)
}

/// An archive whose header does not match its checksum is refused as such,
/// whatever is asked of it.
pub proof fn lemma_wrong_header_checksum_is_refused(buf: Seq<u8>, option: Option<ParseOption>)
    requires
        uint_at(buf, 0, 4) is Some,
        window(buf, 4, uint_at(buf, 0, 4).unwrap() as int) is Some,
        le32_at(buf, 4 + uint_at(buf, 0, 4).unwrap()) is Some,
        adler32_spec(window(buf, 4, uint_at(buf, 0, 4).unwrap() as int).unwrap()) != le32_at(
            buf,
            4 + uint_at(buf, 0, 4).unwrap(),
        ).unwrap(),
    ensures
        parsed_mdx(buf, option) == Err::<Seq<(Seq<char>, Seq<char>)>, WikitError>(
            WikitError::SourceChecksum,
        ),
{
    reveal(header_meta);
}

/// The stanzas of the records from record `i` on, behind the text `acc`: for
/// each record its key, its meaning and the closing line `</>`.
pub open spec fn stanzas_text(records: Seq<(Seq<char>, Seq<char>)>, i: int, acc: Seq<char>) -> Seq<
    char,
>
    decreases records.len() - i,
{
    if i < 0 || i >= records.len() {
        acc
    } else {
        stanzas_text(records, i + 1, acc + records[i].0 + "\n"@ + records[i].1 + "\n</>\n"@)
    }
}

/// Writes records as the stanzas of a plain-text source.
pub fn write_into_text(dict: &Vec<(String, String)>) -> (text: String)
    ensures
        text@ == stanzas_text(pairs_view(dict@), 0, Seq::empty()),
{
    let mut text: String = String::new();
    let mut i: usize = 0;
    while i < dict.len()
        invariant
            i <= dict@.len(),
            stanzas_text(pairs_view(dict@), 0, Seq::empty()) == stanzas_text(
                pairs_view(dict@),
                i as int,
                text@,
            ),
        decreases dict@.len() - i,
    {
        let ghost before = text@;
        text.append(dict[i].0.as_str());
        text.append("\n");
        text.append(dict[i].1.as_str());
        text.append("\n</>\n");
        proof {
            assert(text@ =~= before + dict@[i as int].0@ + "\n"@ + dict@[i as int].1@ + "\n</>\n"@);
        }
        i = i + 1;
    }
    text
}

} // verus!
