use ripemd128::Digest;
use wikit::bytes::bytes_to_u64;
use wikit::codec::{mdx_decode, mdx_decrypt, TextEncoding};
use wikit::error::WikitError;
use wikit::mdict::{
    parse_mdx, parse_u32, parse_version, read_header, MDXInfo, ParseOption,
};
use wikit::wikit::{LocalDictionary, WikitDictConf};

fn pair(key: &str, meaning: &str) -> (String, String) {
    (key.to_string(), meaning.to_string())
}

fn adler(data: &[u8]) -> u32 {
    let mut state = adler::Adler32::new();
    state.write_slice(data);
    state.checksum()
}

fn zlib(data: &[u8]) -> Vec<u8> {
    miniz_oxide::deflate::compress_to_vec_zlib(data, 6)
}

fn lzo(data: &[u8]) -> Vec<u8> {
    minilzo_rs::LZO::init().unwrap().compress(data).unwrap()
}

fn encrypt(plain: &[u8], key: &[u8]) -> Vec<u8> {
    let mut cipher = Vec::new();
    let mut previous = 0x36u8;
    for (i, p) in plain.iter().enumerate() {
        let swapped = p ^ previous ^ (i as u8) ^ key[i % key.len()];
        let c = (swapped >> 4) | (swapped << 4);
        cipher.push(c);
        previous = c;
    }
    cipher
}

fn ripemd(message: &[u8]) -> Vec<u8> {
    let mut state = ripemd128::Ripemd128::new();
    state.input(message);
    state.result().to_vec()
}

struct Archive {
    version: &'static str,
    encoding: &'static str,
    encrypted: &'static str,
    pack_type: u32,
    info_pack_type: u32,
    records: Vec<(String, String)>,
    keys_per_block: usize,
    corrupt_meaning: bool,
    corrupt_key_block: bool,
    extra_attrs: &'static str,
}

impl Archive {
    fn new(records: Vec<(String, String)>) -> Archive {
        Archive {
            version: "2.0",
            encoding: "UTF-8",
            encrypted: "0",
            pack_type: 2,
            info_pack_type: 2,
            records,
            keys_per_block: 2,
            corrupt_meaning: false,
            corrupt_key_block: false,
            extra_attrs: "",
        }
    }

    fn v2(&self) -> bool {
        !self.version.starts_with('1')
    }

    fn uint(&self, v: u64) -> Vec<u8> {
        if self.v2() {
            v.to_be_bytes().to_vec()
        } else {
            (v as u32).to_be_bytes().to_vec()
        }
    }

    fn text(&self, text: &str) -> Vec<u8> {
        match self.encoding {
            "UTF-16" => text.encode_utf16().flat_map(|u| u.to_le_bytes()).collect(),
            "GBK" | "GB2312" | "GB18030" => encoding_rs::GB18030.encode(text).0.into_owned(),
            _ => text.as_bytes().to_vec(),
        }
    }

    fn nul(&self) -> Vec<u8> {
        if self.encoding == "UTF-16" {
            vec![0, 0]
        } else {
            vec![0]
        }
    }

    fn pack(&self, pack_type: u32, data: &[u8]) -> Vec<u8> {
        match pack_type {
            1 => lzo(data),
            2 => zlib(data),
            _ => data.to_vec(),
        }
    }

    fn block(&self, pack_type: u32, data: &[u8], sum: u32) -> Vec<u8> {
        let mut block = pack_type.to_le_bytes().to_vec();
        block.extend(sum.to_be_bytes());
        block.extend(self.pack(pack_type, data));
        block
    }

    fn header(&self) -> Vec<u8> {
        let attrs = format!(
            "<Dictionary GeneratedByEngineVersion=\"{}\" RequiredEngineVersion=\"{}\" \
             Encrypted=\"{}\" Encoding=\"{}\" Format=\"Html\" Title=\"Test archive\" {}/>\r\n\0",
            self.version, self.version, self.encrypted, self.encoding, self.extra_attrs
        );
        let text: Vec<u8> = attrs.encode_utf16().flat_map(|u| u.to_le_bytes()).collect();
        let mut header = (text.len() as u32).to_be_bytes().to_vec();
        header.extend(&text);
        header.extend(adler(&text).to_le_bytes());
        header
    }

    fn build(&self) -> Vec<u8> {
        let mut out = self.header();
        // Meanings and their offsets.
        let mut meanings = Vec::new();
        let mut offsets = Vec::new();
        for (_, meaning) in &self.records {
            offsets.push(meanings.len() as u64);
            meanings.extend(self.text(meaning));
            meanings.extend(self.nul());
        }
        // Key blocks and their table.
        let mut table = Vec::new();
        let mut blocks = Vec::new();
        let mut block_count = 0u64;
        for (chunk, chunk_offsets) in
            self.records.chunks(self.keys_per_block).zip(offsets.chunks(self.keys_per_block))
        {
            let mut data = Vec::new();
            for ((key, _), offset) in chunk.iter().zip(chunk_offsets) {
                data.extend(self.uint(*offset));
                data.extend(self.text(key));
                data.extend(self.nul());
            }
            let sum = adler(&data);
            if self.corrupt_key_block {
                let last = data.len() - 2;
                data[last] ^= 0x01;
            }
            let block = self.block(self.pack_type, &data, sum);
            table.extend(self.uint(chunk.len() as u64));
            for key in [&chunk[0].0, &chunk[chunk.len() - 1].0] {
                let count = if self.encoding == "UTF-16" {
                    key.encode_utf16().count()
                } else {
                    self.text(key).len()
                };
                if self.v2() {
                    table.extend((count as u16).to_be_bytes());
                    table.extend(self.text(key));
                    table.extend(self.nul());
                } else {
                    table.push(count as u8);
                    table.extend(&self.text(key)[..count.min(self.text(key).len())]);
                }
            }
            table.extend(self.uint(block.len() as u64));
            table.extend(self.uint(data.len() as u64));
            blocks.extend(block);
            block_count += 1;
        }
        let info = if self.v2() {
            let sum = adler(&table).to_be_bytes();
            let mut body = self.pack(self.info_pack_type, &table);
            if self.encrypted == "2" {
                let mut message = sum.to_vec();
                message.extend([0x95, 0x36, 0x00, 0x00]);
                body = encrypt(&body, &ripemd(&message));
            }
            let mut info = self.info_pack_type.to_le_bytes().to_vec();
            info.extend(sum);
            info.extend(body);
            info
        } else {
            table.clone()
        };
        let mut layout = Vec::new();
        layout.extend(self.uint(block_count));
        layout.extend(self.uint(self.records.len() as u64));
        if self.v2() {
            layout.extend(self.uint(table.len() as u64));
        }
        layout.extend(self.uint(info.len() as u64));
        layout.extend(self.uint(blocks.len() as u64));
        if self.v2() {
            let sum = adler(&layout);
            layout.extend(sum.to_be_bytes());
        }
        out.extend(layout);
        out.extend(info);
        out.extend(blocks);
        // The meaning section: one block.
        let sum = adler(&meanings);
        if self.corrupt_meaning {
            meanings[1] ^= 0x20;
        }
        let block = self.block(self.pack_type, &meanings, sum);
        out.extend(self.uint(1));
        out.extend(self.uint(self.records.len() as u64));
        out.extend(self.uint(2 * self.uint(0).len() as u64));
        out.extend(self.uint(block.len() as u64));
        out.extend(self.uint(block.len() as u64));
        out.extend(self.uint(meanings.len() as u64));
        out.extend(block);
        out
    }
}

fn sample() -> Vec<(String, String)> {
    vec![
        pair("Apple", "<b>a fruit</b>"),
        pair("banana", "yellow"),
        pair("Cherry", "red"),
        pair("apple", "again"),
        pair("date", "sweet"),
    ]
}

fn normal(records: &[(String, String)]) -> Vec<(String, String)> {
    records.iter().map(|(key, meaning)| (key.to_lowercase(), meaning.clone())).collect()
}

#[test]
fn legacy_v2_zlib_round_trip() {
    let archive = Archive::new(sample());
    let records = parse_mdx(&archive.build(), None).unwrap();
    assert_eq!(records, normal(&sample()));
    let conf = WikitDictConf::new("legacy", "", "");
    let image = LocalDictionary::create(&records, &conf, "", "").unwrap();
    let dict = LocalDictionary::load("legacy.wikit".to_string(), image).unwrap();
    assert_eq!(dict.lookup("Apple").unwrap()[0], pair("apple", "<b>a fruit</b>"));
    assert_eq!(dict.lookup("banana").unwrap()[0], pair("banana", "yellow"));
    assert_eq!(dict.lookup("CHERRY").unwrap()[0], pair("cherry", "red"));
    assert_eq!(dict.lookup("date").unwrap()[0], pair("date", "sweet"));
    let mut seen = Vec::new();
    for (key, _) in &records {
        for answer in dict.lookup(key).unwrap() {
            if !seen.contains(&answer) {
                seen.push(answer);
            }
        }
    }
    seen.sort();
    assert_eq!(
        seen,
        vec![
            pair("apple", "<b>a fruit</b>"),
            pair("banana", "yellow"),
            pair("cherry", "red"),
            pair("date", "sweet"),
        ]
    );
}

#[test]
fn checksum_fault_in_meaning_block_is_source_checksum() {
    let mut archive = Archive::new(sample());
    archive.corrupt_meaning = true;
    assert_eq!(parse_mdx(&archive.build(), None), Err(WikitError::SourceChecksum));
    archive.pack_type = 0;
    assert_eq!(parse_mdx(&archive.build(), None), Err(WikitError::SourceChecksum));
}

#[test]
fn checksum_fault_in_key_block_is_source_checksum() {
    let mut archive = Archive::new(sample());
    archive.corrupt_key_block = true;
    assert_eq!(parse_mdx(&archive.build(), None), Err(WikitError::SourceChecksum));
}

#[test]
fn checksum_fault_in_header_is_source_checksum() {
    let mut bytes = Archive::new(sample()).build();
    bytes[10] ^= 0x01;
    assert_eq!(parse_mdx(&bytes, None), Err(WikitError::SourceChecksum));
    assert_eq!(parse_mdx(&bytes, Some(ParseOption::OnlyHeader)), Err(WikitError::SourceChecksum));
}

#[test]
fn checksum_fault_in_key_layout_is_source_checksum() {
    let archive = Archive::new(sample());
    let mut bytes = archive.build();
    let at = archive.header().len() + 9;
    bytes[at] ^= 0x01;
    assert_eq!(parse_mdx(&bytes, None), Err(WikitError::SourceChecksum));
}

#[test]
fn raw_block_is_read_like_zlib_block() {
    let mut archive = Archive::new(sample());
    let packed = parse_mdx(&archive.build(), None).unwrap();
    archive.pack_type = 0;
    archive.info_pack_type = 0;
    let raw = parse_mdx(&archive.build(), None).unwrap();
    assert_eq!(raw, packed);
    assert_eq!(raw, normal(&sample()));
}

#[test]
fn lzo_blocks_are_read() {
    let mut archive = Archive::new(sample());
    archive.pack_type = 1;
    assert_eq!(parse_mdx(&archive.build(), None).unwrap(), normal(&sample()));
}

#[test]
fn version_1_archive_is_read_with_four_byte_integers() {
    let mut archive = Archive::new(sample());
    archive.version = "1.2";
    for pack_type in [0u32, 1, 2] {
        archive.pack_type = pack_type;
        assert_eq!(parse_mdx(&archive.build(), None).unwrap(), normal(&sample()));
    }
}

#[test]
fn version_1_checks_only_zlib_blocks() {
    let mut archive = Archive::new(sample());
    archive.version = "1.2";
    archive.corrupt_meaning = true;
    archive.pack_type = 2;
    assert_eq!(parse_mdx(&archive.build(), None), Err(WikitError::SourceChecksum));
    archive.pack_type = 0;
    let records = parse_mdx(&archive.build(), None).unwrap();
    assert_eq!(records[0], pair("apple", "<B>a fruit</b>"));
}

#[test]
fn encrypted_key_table_is_deciphered() {
    let mut archive = Archive::new(sample());
    archive.encrypted = "2";
    assert_eq!(parse_mdx(&archive.build(), None).unwrap(), normal(&sample()));
}

#[test]
fn encrypted_key_blocks_are_refused() {
    let mut archive = Archive::new(sample());
    for kind in ["1", "Yes", "yes"] {
        archive.encrypted = kind;
        assert_eq!(parse_mdx(&archive.build(), None), Err(WikitError::SourceEncrypted));
    }
    assert_eq!(parse_mdx(&archive.build(), Some(ParseOption::OnlyHeader)), Ok(Vec::new()));
}

#[test]
fn unsupported_compression_is_source_format() {
    let mut archive = Archive::new(sample());
    archive.pack_type = 3;
    assert_eq!(parse_mdx(&archive.build(), None), Err(WikitError::SourceFormat));
}

#[test]
fn truncated_archive_is_source_format() {
    let bytes = Archive::new(sample()).build();
    assert_eq!(parse_mdx(&bytes[..bytes.len() - 1], None), Err(WikitError::SourceFormat));
    assert_eq!(parse_mdx(&bytes[..bytes.len() / 2], None), Err(WikitError::SourceFormat));
    assert_eq!(parse_mdx(&bytes[..3], None), Err(WikitError::SourceFormat));
    assert_eq!(parse_mdx(&[], None), Err(WikitError::SourceFormat));
    assert_eq!(parse_mdx(&bytes[..100], None), Err(WikitError::SourceFormat));
}

#[test]
fn damaged_zlib_stream_is_source_format() {
    let archive = Archive::new(sample());
    let mut bytes = archive.build();
    let last = bytes.len() - 6;
    bytes[last] ^= 0xff;
    let parsed = parse_mdx(&bytes, None);
    assert!(parsed == Err(WikitError::SourceFormat) || parsed == Err(WikitError::SourceChecksum));
    assert!(parsed.is_err());
}

#[test]
fn undecodable_key_is_decode_error() {
    let mut archive = Archive::new(vec![pair("caf\u{e9}", "coffee")]);
    archive.encoding = "UTF-8";
    let good = archive.build();
    assert!(parse_mdx(&good, None).is_ok());
    // Latin-1 bytes under a UTF-8 header.
    let mut latin = Archive::new(vec![pair("caf\u{e9}", "coffee")]);
    latin.pack_type = 0;
    latin.info_pack_type = 0;
    let bytes = latin.build();
    let needle = "caf\u{e9}".as_bytes();
    let at = bytes.windows(needle.len()).rposition(|w| w == needle).unwrap();
    let mut bad = bytes.clone();
    bad[at + 3] = 0xe9;
    bad[at + 4] = 0x21;
    // The key block's checksum no longer matches; repair it.
    let block_start = at - 8 - 8;
    let data = bad[block_start + 8..at + 5 + 1].to_vec();
    bad[block_start + 4..block_start + 8].copy_from_slice(&adler(&data).to_be_bytes());
    assert_eq!(parse_mdx(&bad, None), Err(WikitError::DecodeError));
}

#[test]
fn utf16_archive_is_read() {
    let mut archive = Archive::new(vec![pair("\u{4f60}\u{597d}", "hello"), pair("World", "\u{4e16}\u{754c}")]);
    archive.encoding = "UTF-16";
    assert_eq!(
        parse_mdx(&archive.build(), None).unwrap(),
        vec![pair("\u{4f60}\u{597d}", "hello"), pair("world", "\u{4e16}\u{754c}")]
    );
}

#[test]
fn gbk_archive_is_read_as_gb18030() {
    for encoding in ["GBK", "GB2312", "GB18030"] {
        let mut archive = Archive::new(vec![pair("\u{4f60}\u{597d}", "hello"), pair("World", "\u{4e16}\u{754c}")]);
        archive.encoding = encoding;
        assert_eq!(
            parse_mdx(&archive.build(), None).unwrap(),
            vec![pair("\u{4f60}\u{597d}", "hello"), pair("world", "\u{4e16}\u{754c}")]
        );
    }
}

#[test]
fn only_header_reads_no_records() {
    let archive = Archive::new(sample());
    assert_eq!(parse_mdx(&archive.build(), Some(ParseOption::OnlyHeader)), Ok(Vec::new()));
    let header = archive.header();
    assert_eq!(parse_mdx(&header, Some(ParseOption::OnlyHeader)), Ok(Vec::new()));
    assert_eq!(parse_mdx(&header, None), Err(WikitError::SourceFormat));
}

#[test]
fn header_attributes_are_read_in_order() {
    let mut archive = Archive::new(sample());
    archive.extra_attrs = "Description=\"a &lt;b&gt; c\" Empty=\"\" ";
    let bytes = archive.build();
    let (meta, pos) = read_header(&bytes).unwrap();
    assert_eq!(pos, archive.header().len());
    assert_eq!(
        meta,
        vec![
            pair("GeneratedByEngineVersion", "2.0"),
            pair("RequiredEngineVersion", "2.0"),
            pair("Encrypted", "0"),
            pair("Encoding", "UTF-8"),
            pair("Format", "Html"),
            pair("Title", "Test archive"),
            pair("Description", "a &lt;b&gt; c"),
            pair("Empty", ""),
        ]
    );
}

#[test]
fn mdx_info_is_read_from_attributes() {
    let info = MDXInfo::new(&vec![pair("GeneratedByEngineVersion", "2.0")]).unwrap();
    assert_eq!(
        info,
        MDXInfo { version: 20, encoding: TextEncoding::Utf8, integersz: 8, encid: 0 }
    );
    let info = MDXInfo::new(&vec![
        pair("GeneratedByEngineVersion", "1.2"),
        pair("Encoding", "GBK"),
        pair("Encrypted", "2"),
    ])
    .unwrap();
    assert_eq!(
        info,
        MDXInfo { version: 12, encoding: TextEncoding::Gb18030, integersz: 4, encid: 2 }
    );
    let info = MDXInfo::new(&vec![
        pair("Encoding", "UTF-16"),
        pair("Encrypted", "Yes"),
        pair("GeneratedByEngineVersion", "1.0"),
        pair("GeneratedByEngineVersion", "2.1"),
    ])
    .unwrap();
    assert_eq!(
        info,
        MDXInfo { version: 21, encoding: TextEncoding::Utf16, integersz: 8, encid: 1 }
    );
    let info = MDXInfo::new(&vec![
        pair("GeneratedByEngineVersion", "2.0"),
        pair("Encoding", "xGB2312x"),
        pair("Encrypted", "No"),
    ])
    .unwrap();
    assert_eq!(info.encoding, TextEncoding::Gb18030);
    assert_eq!(info.encid, 0);
    let info = MDXInfo::new(&vec![
        pair("GeneratedByEngineVersion", "2.0"),
        pair("Encoding", "BIG5"),
        pair("Encrypted", "maybe"),
    ])
    .unwrap();
    assert_eq!(info.encoding, TextEncoding::Utf8);
    assert_eq!(info.encid, 0);
    assert_eq!(MDXInfo::new(&vec![pair("Encoding", "UTF-8")]), Err(WikitError::SourceFormat));
    assert_eq!(
        MDXInfo::new(&vec![pair("GeneratedByEngineVersion", "two")]),
        Err(WikitError::SourceFormat)
    );
}

#[test]
fn versions_are_read_in_tenths() {
    assert_eq!(parse_version(b"2.0"), Some(20));
    assert_eq!(parse_version(b"1.2"), Some(12));
    assert_eq!(parse_version(b"2"), Some(20));
    assert_eq!(parse_version(b"2."), Some(20));
    assert_eq!(parse_version(b"2.05"), Some(20));
    assert_eq!(parse_version(b"1.99"), Some(19));
    assert_eq!(parse_version(b"10.9"), Some(109));
    assert_eq!(parse_version(b"0.0"), Some(0));
    assert_eq!(parse_version(b"429496729.5"), Some(4294967295));
    assert_eq!(parse_version(b"429496729.6"), Some(4294967295));
    assert_eq!(parse_version(b"99999999999999999999999999"), Some(4294967295));
    assert_eq!(parse_version(b""), None);
    assert_eq!(parse_version(b".5"), None);
    assert_eq!(parse_version(b"2.0.1"), None);
    assert_eq!(parse_version(b"v2"), None);
    assert_eq!(parse_version(b" 2.0"), None);
    assert_eq!(parse_version(b"2.x"), None);
}

#[test]
fn numbers_are_read_in_decimal() {
    assert_eq!(parse_u32(b"0"), Some(0));
    assert_eq!(parse_u32(b"2"), Some(2));
    assert_eq!(parse_u32(b"+17"), Some(17));
    assert_eq!(parse_u32(b"0042"), Some(42));
    assert_eq!(parse_u32(b"4294967295"), Some(4294967295));
    assert_eq!(parse_u32(b"4294967296"), None);
    assert_eq!(parse_u32(b""), None);
    assert_eq!(parse_u32(b"+"), None);
    assert_eq!(parse_u32(b"-1"), None);
    assert_eq!(parse_u32(b"1a"), None);
}

#[test]
fn decrypt_follows_the_formula() {
    assert_eq!(mdx_decrypt(vec![0x00], vec![0x00]), vec![0x36]);
    assert_eq!(mdx_decrypt(vec![0x12, 0x34], vec![0xab]), vec![0xbc, 0xfb]);
    assert_eq!(mdx_decrypt(Vec::new(), vec![1, 2, 3]), Vec::<u8>::new());
    let plain: Vec<u8> = (0..600u32).map(|i| (i * 7 % 251) as u8).collect();
    let key = ripemd(b"0123\x95\x36\x00\x00");
    assert_eq!(key.len(), 16);
    assert_eq!(mdx_decrypt(encrypt(&plain, &key), key), plain);
}

#[test]
fn bytes_are_read_as_integers() {
    assert_eq!(bytes_to_u64(&[], true), 0);
    assert_eq!(bytes_to_u64(&[0x12], true), 0x12);
    assert_eq!(bytes_to_u64(&[0x12, 0x34], true), 0x1234);
    assert_eq!(bytes_to_u64(&[0x12, 0x34], false), 0x3412);
    assert_eq!(bytes_to_u64(&[1, 2, 3, 4, 5, 6, 7, 8], true), 0x0102030405060708);
    assert_eq!(bytes_to_u64(&[1, 2, 3, 4, 5, 6, 7, 8], false), 0x0807060504030201);
    assert_eq!(bytes_to_u64(&[1, 2, 3, 4, 5, 6, 7, 8, 9], true), 0x0102030405060708);
    assert_eq!(bytes_to_u64(&[0xff; 8], true), u64::MAX);
}

#[test]
fn text_is_decoded_without_nul() {
    assert_eq!(mdx_decode(TextEncoding::Utf8, b"a\0b\0"), Some("ab".to_string()));
    assert_eq!(mdx_decode(TextEncoding::Utf8, b"\xff"), None);
    assert_eq!(mdx_decode(TextEncoding::Utf16, b"a\0\0\0b\0"), Some("ab".to_string()));
    assert_eq!(mdx_decode(TextEncoding::Utf16, b"\x00\xd8"), None);
    assert_eq!(mdx_decode(TextEncoding::Utf16, b"a\0b"), Some("a".to_string()));
    assert_eq!(mdx_decode(TextEncoding::Gb18030, b"\xc4\xe3\xba\xc3\0"), Some("\u{4f60}\u{597d}".to_string()));
    assert_eq!(mdx_decode(TextEncoding::Gb18030, b"\xc4"), None);
}

#[test]
fn adler32_of_known_texts() {
    assert_eq!(wikit::checksum::adler32(b""), 1);
    assert_eq!(wikit::checksum::adler32(b"a"), 0x0062_0062);
    assert_eq!(wikit::checksum::adler32(b"Wikipedia"), 0x11e6_0398);
    assert_eq!(wikit::checksum::adler32(&[0, 1, 2, 3, 4, 5]), 0x0029_0010);
    let long: Vec<u8> = (0..100_000u32).map(|i| (i * 31 % 256) as u8).collect();
    assert_eq!(wikit::checksum::adler32(&long), adler(&long));
    assert_eq!(wikit::checksum::adler32(&[0xff; 70_000]), adler(&[0xff; 70_000]));
}
