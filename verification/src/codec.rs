//! The codecs of MDX archives: the stream cipher of the key-block table, the
//! block decompressors and the text decoders.

use crate::util::{drop_nuls, without_nuls};
use ripemd128::Digest;
use vstd::prelude::*;
use vstd::utf8::{decode_utf8, valid_utf8};

verus! {

/// The largest size that a decompressed block or a text to decode may have.
pub const MAX_CODEC_INPUT: usize = 0x3fff_ffff;

/// One byte of clear text: the cipher byte `c` with its nibbles swapped,
/// combined with the cipher byte before it, the low byte of its position and
/// the key byte for its position.
pub open spec fn decrypt_byte(c: u8, previous: u8, position: nat, k: u8) -> u8 {
    (((c as u64 >> 4 | (c as u64) << 4) & 0xff) ^ (previous as u64) ^ ((position as u64) & 0xff)
        ^ (k as u64)) as u8
}

/// The clear text of `cipher` under `key`. Each byte is deciphered with the
/// cipher byte that precedes it; the first with `0x36`.
pub open spec fn decrypted(cipher: Seq<u8>, key: Seq<u8>) -> Seq<u8> {
    Seq::new(
        cipher.len(),
        |i: int|
            decrypt_byte(
                cipher[i],
                if i == 0 {
                    0x36
                } else {
                    cipher[i - 1]
                },
                i as nat,
                key[i % key.len() as int],
            ),
    )
}

/// Deciphers `cipher` under `key` with the stream cipher of MDX archives.
pub fn mdx_decrypt(cipher: Vec<u8>, key: Vec<u8>) -> (plain: Vec<u8>)
    requires
        key@.len() > 0,
    ensures
        plain@ == decrypted(cipher@, key@),
{
    let mut plain = cipher;
    let ghost cipher = plain@;
    let mut previous: u8 = 0x36;
    let mut i: usize = 0;
    while i < plain.len()
        invariant
            i <= plain@.len(),
            plain@.len() == cipher.len(),
            key@.len() > 0,
            previous == if i == 0 { 0x36u8 } else { cipher[i - 1] },
            forall|j: int| 0 <= j < i ==> plain@[j] == decrypted(cipher, key@)[j],
            forall|j: int| i <= j < cipher.len() ==> plain@[j] == cipher[j],
        decreases plain@.len() - i,
    {
        let c: u8 = plain[i];
        let k: u8 = key[i % key.len()];
        let position: u64 = i as u64;
        let mixed: u64 = ((c as u64 >> 4 | (c as u64) << 4) & 0xff) ^ (previous as u64) ^ (position
            & 0xff) ^ (k as u64);
        assert(mixed < 256) by (bit_vector)
            requires
                mixed == ((c as u64 >> 4 | (c as u64) << 4) & 0xff) ^ (previous as u64) ^ (position
                    & 0xff) ^ (k as u64),
        ;
        plain.set(i, mixed as u8);
        previous = c;
        i = i + 1;
    }
    proof {
        assert(plain@ =~= decrypted(cipher, key@));
    }
    plain
}

/// The RIPEMD-128 digest of a message: sixteen bytes.
pub uninterp spec fn ripemd128_digest(message: Seq<u8>) -> Seq<u8>;

/// Calls `ripemd128::Ripemd128` (`new`, `input`, `result`) on `message`.
/// Trusted: the result is the digest of the message, and it has the sixteen
/// bytes that the crate fixes as its output size.
#[verifier::external_body]
pub(crate) fn ripemd128(message: &[u8]) -> (digest: Vec<u8>)
    ensures
        digest@ == ripemd128_digest(message@),
        digest@.len() == 16,
{
    let mut state = ripemd128::Ripemd128::new();
    state.input(message);
    state.result().to_vec()
}

/// The message from which the key of the key-block table is derived: the
/// four checksum bytes of the table, then `95 36 00 00`.
pub open spec fn key_seed(checksum: Seq<u8>) -> Seq<u8> {
    checksum + seq![0x95u8, 0x36u8, 0x00u8, 0x00u8]
}

/// Derives the sixteen-byte key of the key-block table from the four
/// checksum bytes that precede the table.
pub fn derive_key(checksum: &[u8]) -> (key: Vec<u8>)
    requires
        checksum@.len() == 4,
    ensures
        key@ == ripemd128_digest(key_seed(checksum@)),
        key@.len() == 16,
{
    let mut message: Vec<u8> = Vec::new();
    message.extend_from_slice(checksum);
    message.push(0x95);
    message.push(0x36);
    message.push(0x00);
    message.push(0x00);
    proof {
        assert(message@ =~= key_seed(checksum@));
    }
    ripemd128(message.as_slice())
}

/// What inflating a zlib stream gives; `None` where the stream is not sound.
pub uninterp spec fn zlib_inflated(stream: Seq<u8>) -> Option<Seq<u8>>;

/// Calls `miniz_oxide::inflate::decompress_to_vec_zlib` on `stream`. This
/// decoder answers every stream that is not sound with an error: blocks
/// come from files that nobody has checked, and a decoder that may panic on
/// them would not do.
/// Trusted: the call fails exactly where `zlib_inflated` is `None`, and
/// otherwise returns the inflated bytes.
#[verifier::external_body]
pub(crate) fn inflate(stream: &[u8]) -> (out: Option<Vec<u8>>)
    ensures
        out is Some <==> zlib_inflated(stream@) is Some,
        out is Some ==> out.unwrap()@ == zlib_inflated(stream@).unwrap(),
{
    miniz_oxide::inflate::decompress_to_vec_zlib(stream).ok()
}

/// What decompressing an LZO1X block into `size` bytes gives; `None` where
/// the block is not sound or does not fit.
pub uninterp spec fn lzo1x_decompressed(packed: Seq<u8>, size: nat) -> Option<Seq<u8>>;

/// Calls `minilzo_rs::LZO::init` and `decompress_safe` on `packed`.
/// Trusted: the call fails exactly where `lzo1x_decompressed` is `None`, and
/// otherwise returns the decompressed bytes, in the buffer of `size` bytes
/// that the crate allocates for them.
#[verifier::external_body]
pub(crate) fn lzo_decompress(packed: &[u8], size: usize) -> (out: Option<Vec<u8>>)
    requires
        size <= MAX_CODEC_INPUT,
    ensures
        out is Some <==> lzo1x_decompressed(packed@, size as nat) is Some,
        out is Some ==> out.unwrap()@ == lzo1x_decompressed(packed@, size as nat).unwrap(),
        out is Some ==> out.unwrap()@.len() == size,
{
    match minilzo_rs::LZO::init() {
        Ok(lzo) => lzo.decompress_safe(packed, size).ok(),
        Err(_) => None,
    }
}

/// Calls `String::from_utf8` on a copy of `bytes`.
/// Trusted: the call succeeds exactly on valid UTF-8 and then returns the
/// characters that the bytes encode.
#[verifier::external_body]
pub(crate) fn utf8_to_string(bytes: &[u8]) -> (text: Option<String>)
    ensures
        text is Some <==> valid_utf8(bytes@),
        text is Some ==> text.unwrap()@ == decode_utf8(bytes@),
{
    String::from_utf8(bytes.to_vec()).ok()
}

/// Whether a code unit is the first of a surrogate pair.
pub open spec fn is_high_surrogate(u: u16) -> bool {
    0xd800 <= u <= 0xdbff
}

/// Whether a code unit is the second of a surrogate pair.
pub open spec fn is_low_surrogate(u: u16) -> bool {
    0xdc00 <= u <= 0xdfff
}

/// The character that a surrogate pair encodes.
pub open spec fn pair_char(high: u16, low: u16) -> char {
    ((0x10000 + (high - 0xd800) * 0x400 + (low - 0xdc00)) as u32) as char
}

/// What a sequence of UTF-16 code units decodes to: a code unit that is no
/// surrogate is a character, and so is a high surrogate with the low
/// surrogate behind it. `None` where a surrogate stands alone.
pub open spec fn utf16_decoded(units: Seq<u16>) -> Option<Seq<char>>
    decreases units.len(),
{
    if units.len() == 0 {
        Some(Seq::empty())
    } else if !is_high_surrogate(units[0]) && !is_low_surrogate(units[0]) {
        match utf16_decoded(units.skip(1)) {
            Some(rest) => Some(seq![(units[0] as u32) as char] + rest),
            None => None,
        }
    } else if is_high_surrogate(units[0]) && units.len() >= 2 && is_low_surrogate(units[1]) {
        match utf16_decoded(units.skip(2)) {
            Some(rest) => Some(seq![pair_char(units[0], units[1])] + rest),
            None => None,
        }
    } else {
        None
    }
}

/// Calls `String::from_utf16` on `units`.
/// Trusted: the call fails exactly where a surrogate stands alone, and
/// otherwise returns the characters that the code units encode, as
/// `utf16_decoded` defines them.
#[verifier::external_body]
pub(crate) fn utf16_to_string(units: &[u16]) -> (text: Option<String>)
    ensures
        text is Some <==> utf16_decoded(units@) is Some,
        text is Some ==> text.unwrap()@ == utf16_decoded(units@).unwrap(),
{
    String::from_utf16(units).ok()
}

/// What GB18030 bytes decode to; `None` where a sequence is malformed.
pub uninterp spec fn gb18030_decoded(bytes: Seq<u8>) -> Option<Seq<char>>;

/// Calls `decode_without_bom_handling_and_without_replacement` of
/// `encoding_rs::GB18030` on `bytes`.
/// Trusted: the call fails exactly where `gb18030_decoded` is `None`, and
/// otherwise returns the decoded characters.
#[verifier::external_body]
pub(crate) fn gb18030_to_string(bytes: &[u8]) -> (text: Option<String>)
    requires
        bytes@.len() <= MAX_CODEC_INPUT,
    ensures
        text is Some <==> gb18030_decoded(bytes@) is Some,
        text is Some ==> text.unwrap()@ == gb18030_decoded(bytes@).unwrap(),
{
    encoding_rs::GB18030.decode_without_bom_handling_and_without_replacement(bytes).map(
        |text| text.into_owned(),
    )
}

/// The character encodings that an MDX archive may declare.
#[derive(Clone, Copy, Debug, PartialEq, Eq, Structural)]
pub enum TextEncoding {
    /// UTF-8, which also stands for every encoding that is not named here.
    Utf8,
    /// UTF-16, little-endian.
    Utf16,
    /// GB18030, which also stands for GBK and GB2312.
    Gb18030,
}

/// The code units of little-endian UTF-16 bytes; a last odd byte is left out.
pub open spec fn utf16_units(bytes: Seq<u8>) -> Seq<u16> {
    Seq::new(
        (bytes.len() / 2) as nat,
        |i: int| (bytes[2 * i] as u16 + 256 * bytes[2 * i + 1] as u16) as u16,
    )
}

/// The characters that `bytes` hold under `encoding`, before NULs are
/// dropped; `None` where they cannot be decoded.
pub open spec fn decoded_raw(encoding: TextEncoding, bytes: Seq<u8>) -> Option<Seq<char>> {
    match encoding {
        TextEncoding::Utf8 => if valid_utf8(bytes) {
            Some(decode_utf8(bytes))
        } else {
            None
        },
        TextEncoding::Utf16 => utf16_decoded(utf16_units(bytes)),
        TextEncoding::Gb18030 => if bytes.len() <= MAX_CODEC_INPUT {
            gb18030_decoded(bytes)
        } else {
            None
        },
    }
}

/// The text that `bytes` hold under `encoding`: their characters without the
/// NULs among them; `None` where the bytes cannot be decoded.
pub open spec fn decoded_text(encoding: TextEncoding, bytes: Seq<u8>) -> Option<Seq<char>> {
    match decoded_raw(encoding, bytes) {
        Some(chars) => Some(without_nuls(chars)),
        None => None,
    }
}

/// Reads little-endian UTF-16 bytes as code units.
pub fn bytes_to_units(bytes: &[u8]) -> (units: Vec<u16>)
    ensures
        units@ == utf16_units(bytes@),
{
    let count: usize = bytes.len() / 2;
    let mut units: Vec<u16> = Vec::new();
    let mut i: usize = 0;
    while i < count
        invariant
            i <= count,
            count == bytes@.len() / 2,
            bytes@.len() <= usize::MAX,
            units@.len() == i,
            forall|j: int| 0 <= j < i ==> units@[j] == utf16_units(bytes@)[j],
        decreases count - i,
    {
        let low: u16 = bytes[2 * i] as u16;
        let high: u16 = bytes[2 * i + 1] as u16;
        units.push(low + 256 * high);
        i = i + 1;
    }
    proof {
        assert(units@ =~= utf16_units(bytes@));
    }
    units
}

/// Decodes the text of a key or of a meaning under the encoding that the
/// archive declares, and drops the NUL characters from it.
pub fn mdx_decode(encoding: TextEncoding, bytes: &[u8]) -> (text: Option<String>)
    ensures
        text is Some <==> decoded_text(encoding, bytes@) is Some,
        text is Some ==> text.unwrap()@ == decoded_text(encoding, bytes@).unwrap(),
{
    let raw: Option<String> = match encoding {
        TextEncoding::Utf8 => utf8_to_string(bytes),
        TextEncoding::Utf16 => {
            let units = bytes_to_units(bytes);
            utf16_to_string(units.as_slice())
        },
        TextEncoding::Gb18030 => {
            if bytes.len() <= MAX_CODEC_INPUT {
                gb18030_to_string(bytes)
            } else {
                None
            }
        },
    };
    match raw {
        Some(text) => Some(drop_nuls(text.as_str())),
        None => None,
    }
}

} // verus!
