use wikit::config::MAX_MDX_ITEM_SIZE;
use wikit::error::WikitError;
use wikit::index::{FSTIndex, IndexFormat};
use wikit::reader::MDXSource;
use wikit::records::sort_records;
use wikit::util::normalize_word;
use wikit::wikit::{
    DataEntry, DataEntryType, LocalDictionary, WikitDictConf, WikitHead, LATEST_WIKIT_FMT_VERSION,
    PREAMBLE_SIZE, WIKIT_MAGIC,
};

fn lines_of(text: &str) -> Vec<String> {
    text.lines().map(|line| line.to_string()).collect()
}

fn records_of(text: &str) -> Vec<(String, String)> {
    MDXSource::new(lines_of(text)).collect()
}

fn pair(key: &str, meaning: &str) -> (String, String) {
    (key.to_string(), meaning.to_string())
}

fn conf() -> WikitDictConf {
    WikitDictConf::new("demo", "this dictionary has no description", "anonymous")
}

fn compile(records: &Vec<(String, String)>) -> LocalDictionary {
    let image = LocalDictionary::create(records, &conf(), "", "").unwrap();
    LocalDictionary::load("demo.wikit".to_string(), image).unwrap()
}

fn be64(image: &[u8], at: usize) -> u64 {
    let mut bytes = [0u8; 8];
    bytes.copy_from_slice(&image[at..at + 8]);
    u64::from_be_bytes(bytes)
}

#[test]
fn plain_text_compile_and_exact_lookup() {
    let dict = compile(&records_of("hello\nworld\n</>\nfoo\nbar\n</>\n"));
    assert_eq!(dict.lookup("hello").unwrap(), vec![pair("hello", "world")]);
    assert_eq!(dict.lookup("foo").unwrap(), vec![pair("foo", "bar")]);
    assert_eq!(dict.lookup("missing").unwrap(), Vec::<(String, String)>::new());
}

#[test]
fn reader_appends_nul_to_meaning_and_normalizes_key() {
    let records = records_of("Hello\nworld\n</>\n");
    assert_eq!(records, vec![pair("hello", "world\0")]);
}

#[test]
fn reader_joins_trimmed_lines_and_skips_leading_empty_lines() {
    let records = records_of("\n  \n  Key One \n  first  \n\tsecond\n\n </> \n");
    assert_eq!(records, vec![pair("key one", "firstsecond\0")]);
}

#[test]
fn reader_drops_a_stanza_that_is_not_closed() {
    let records = records_of("a\n1\n</>\nb\n2\n");
    assert_eq!(records, vec![pair("a", "1\0")]);
    let mut source = MDXSource::new(lines_of("a\n1\n"));
    assert_eq!(source.next(), None);
    assert_eq!(source.next(), None);
}

#[test]
fn reader_reads_stanza_by_stanza() {
    let mut source = MDXSource::new(lines_of("a\n1\n</>\nb\n2\n3\n</>\n"));
    assert_eq!(source.next(), Some(pair("a", "1\0")));
    assert_eq!(source.next(), Some(pair("b", "23\0")));
    assert_eq!(source.next(), None);
}

#[test]
fn reader_trims_unicode_white_space() {
    let records = records_of("\u{3000}key\u{a0}\n\u{2003}meaning\u{3000}\n</>\n");
    assert_eq!(records, vec![pair("key", "meaning\0")]);
}

#[test]
fn meaning_of_exactly_the_cap_passes_uncut() {
    let meaning = "m".repeat(MAX_MDX_ITEM_SIZE);
    let records = MDXSource::new(vec!["key".to_string(), meaning.clone(), "</>".to_string()])
        .collect();
    assert_eq!(records.len(), 1);
    assert_eq!(records[0].1.len(), MAX_MDX_ITEM_SIZE + 1);
    assert_eq!(&records[0].1[..MAX_MDX_ITEM_SIZE], meaning.as_str());
    assert!(records[0].1.ends_with('\0'));
}

#[test]
fn meaning_of_one_byte_over_the_cap_is_truncated() {
    let meaning = "m".repeat(MAX_MDX_ITEM_SIZE + 1);
    let records = MDXSource::new(vec!["key".to_string(), meaning, "</>".to_string()]).collect();
    assert_eq!(records[0].1.len(), MAX_MDX_ITEM_SIZE + 1);
    assert_eq!(&records[0].1[..MAX_MDX_ITEM_SIZE], "m".repeat(MAX_MDX_ITEM_SIZE).as_str());
    assert!(records[0].1.ends_with('\0'));
}

#[test]
fn cap_cuts_at_the_start_of_a_character() {
    let lines = vec!["k\u{e9}y".to_string(), "ab\u{20ac}cd".to_string(), "</>".to_string()];
    let records = MDXSource::with_limit(lines, 4).collect();
    assert_eq!(records, vec![pair("k\u{e9}y", "ab\0")]);
    let lines = vec!["k\u{e9}y".to_string(), "ab\u{20ac}cd".to_string(), "</>".to_string()];
    let records = MDXSource::with_limit(lines, 2).collect();
    assert_eq!(records, vec![pair("k", "ab\0")]);
    let lines = vec!["key".to_string(), "\u{20ac}".to_string(), "</>".to_string()];
    let records = MDXSource::with_limit(lines, 0).collect();
    assert_eq!(records, vec![pair("", "\0")]);
}

#[test]
fn case_normalization_first_record_wins() {
    let dict = compile(&records_of("Hello\nA\n</>\nhello\nB\n</>\n"));
    let answers = dict.lookup("HELLO").unwrap();
    assert_eq!(answers, vec![pair("hello", "A")]);
}

#[test]
fn fuzzy_tolerance() {
    let dict = compile(&vec![pair("helo", "X"), pair("hello", "Y"), pair("jello", "Z")]);
    let answers = dict.lookup("hello").unwrap();
    assert_eq!(answers, vec![pair("hello", "Y"), pair("helo", "X"), pair("jello", "Z")]);
}

#[test]
fn fuzziness_grows_with_the_length_of_the_word() {
    let dict = compile(&vec![
        pair("ab", "1"),
        pair("abc", "2"),
        pair("abcd", "3"),
        pair("abcdefg", "4"),
        pair("abcdefghi", "5"),
    ]);
    assert_eq!(dict.lookup("ab").unwrap(), vec![pair("ab", "1")]);
    assert_eq!(dict.lookup("ac").unwrap(), Vec::<(String, String)>::new());
    assert_eq!(dict.lookup("abc").unwrap(), vec![pair("abc", "2"), pair("ab", "1"), pair("abcd", "3")]);
    assert_eq!(dict.lookup("abcdefgh").unwrap(), vec![pair("abcdefg", "4"), pair("abcdefghi", "5")]);
    assert_eq!(dict.lookup("abcdef").unwrap(), vec![pair("abcd", "3"), pair("abcdefg", "4")]);
}

#[test]
fn lookup_returns_at_most_twenty_answers() {
    let mut records = Vec::new();
    for c in b'a'..=b'z' {
        if c != b'd' {
            records.push(pair(&format!("wor{}", c as char), "m"));
        }
    }
    records.push(pair("word", "exact"));
    let dict = compile(&records);
    let answers = dict.lookup("word").unwrap();
    assert_eq!(answers.len(), 20);
    assert_eq!(answers[0], pair("word", "exact"));
    assert_eq!(answers.iter().filter(|answer| answer.0 == "word").count(), 1);
    assert_eq!(answers[1], pair("wora", "m"));
}

#[test]
fn empty_record_stream_compiles_and_answers_nothing() {
    let dict = compile(&Vec::new());
    assert_eq!(dict.lookup("").unwrap(), Vec::<(String, String)>::new());
    assert_eq!(dict.lookup("a").unwrap(), Vec::<(String, String)>::new());
    assert_eq!(dict.lookup("anything").unwrap(), Vec::<(String, String)>::new());
    assert_eq!(dict.head.dsz, 0);
}

#[test]
fn single_record_round_trips() {
    let dict = compile(&vec![pair("key", "<b>meaning</b>")]);
    assert_eq!(dict.lookup("key").unwrap(), vec![pair("key", "<b>meaning</b>")]);
    assert_eq!(dict.lookup("KEY\0").unwrap(), vec![pair("key", "<b>meaning</b>")]);
}

#[test]
fn unicode_keys_round_trip() {
    let dict = compile(&vec![pair("\u{4e2d}\u{6587}", "chinese"), pair("\u{e9}t\u{e9}", "summer")]);
    assert_eq!(dict.lookup("\u{c9}T\u{c9}").unwrap()[0], pair("\u{e9}t\u{e9}", "summer"));
    assert_eq!(dict.lookup("\u{4e2d}\u{6587}").unwrap()[0], pair("\u{4e2d}\u{6587}", "chinese"));
}

#[test]
fn sort_is_by_bytes_and_keeps_the_first_of_equal_keys() {
    let sorted = sort_records(&vec![
        pair("b", "1"),
        pair("a", "2"),
        pair("b", "3"),
        pair("\u{e9}", "4"),
        pair("Z", "5"),
        pair("a", "6"),
        pair("ab", "7"),
        pair("", "8"),
    ]);
    assert_eq!(
        sorted,
        vec![
            pair("", "8"),
            pair("Z", "5"),
            pair("a", "2"),
            pair("ab", "7"),
            pair("b", "1"),
            pair("\u{e9}", "4"),
        ]
    );
}

#[test]
fn image_layout_adds_up() {
    let records = vec![pair("b", "second"), pair("a", "first"), pair("c", "")];
    let image = LocalDictionary::create(&records, &conf(), "let x = 1;", "p { }").unwrap();
    assert_eq!(&image[..8], WIKIT_MAGIC.as_bytes());
    assert_eq!(&image[..8], b"WIKIT516");
    assert_eq!(&image[8..12], &LATEST_WIKIT_FMT_VERSION.to_be_bytes());
    let header_size = u16::from_be_bytes([image[12], image[13]]) as usize;
    let head = WikitHead::new(&image[14..14 + header_size]).unwrap();
    assert_eq!(head.name, "demo");
    assert_eq!(head.desc, "this dictionary has no description");
    assert_eq!(head.script, "let x = 1;");
    assert_eq!(head.style, "p { }");
    assert_eq!(head.ifmt, IndexFormat::FST);
    assert_eq!(header_size, 45 + 4 + 34 + 10 + 5);
    assert_eq!(head.dbase as usize, PREAMBLE_SIZE + header_size);
    assert_eq!(head.dsz as usize, (5 + 5) + (5 + 6) + 5);
    assert_eq!(head.ibase, head.dbase + head.dsz);
    assert_eq!(
        header_size + head.dsz as usize + head.isz as usize + PREAMBLE_SIZE,
        image.len()
    );
    let data = &image[head.dbase as usize..(head.dbase + head.dsz) as usize];
    assert_eq!(data, b"\x01\x00\x00\x00\x05first\x01\x00\x00\x00\x06second\x01\x00\x00\x00\x00");
    let fixed = 14 + 2 + 4 + 2 + 34;
    assert_eq!(image[fixed], 1);
    assert_eq!(be64(&image, fixed + 1), head.ibase);
    assert_eq!(be64(&image, fixed + 9), head.isz);
    assert_eq!(be64(&image, fixed + 17), head.dbase);
    assert_eq!(be64(&image, fixed + 25), head.dsz);
}

#[test]
fn index_holds_keys_in_ascending_order_with_entry_offsets() {
    let records = vec![pair("b", "second"), pair("a", "first"), pair("b", "third")];
    let image = LocalDictionary::create(&records, &conf(), "", "").unwrap();
    let dict = LocalDictionary::load("demo.wikit".to_string(), image.clone()).unwrap();
    let region = &image[dict.head.ibase as usize..(dict.head.ibase + dict.head.isz) as usize];
    let found = FSTIndex::lookup(region, "a");
    assert_eq!(found, vec![("a".to_string(), dict.head.dbase)]);
    let found = FSTIndex::lookup(region, "b");
    assert_eq!(found, vec![("b".to_string(), dict.head.dbase + 10)]);
    let found = FSTIndex::lookup(region, "abc");
    assert_eq!(found, Vec::<(String, u64)>::new());
    let found = FSTIndex::lookup(region, "abcdef");
    assert_eq!(found, Vec::<(String, u64)>::new());
}

#[test]
fn index_write_refuses_keys_out_of_order() {
    let mut out = vec![1u8, 2, 3];
    let entries = vec![("b".to_string(), 1u64), ("a".to_string(), 2u64)];
    assert_eq!(FSTIndex::write(&entries, &mut out), Err(WikitError::IndexBuildOrder));
    assert_eq!(out, vec![1u8, 2, 3]);
    let entries = vec![("a".to_string(), 1u64), ("a".to_string(), 2u64)];
    assert_eq!(FSTIndex::write(&entries, &mut out), Err(WikitError::IndexBuildOrder));
    let entries = vec![("a".to_string(), 1u64), ("b".to_string(), 2u64)];
    let (start, length) = FSTIndex::write(&entries, &mut out).unwrap();
    assert_eq!(start, 3);
    assert_eq!(length as usize, out.len() - 3);
    assert_eq!(FSTIndex::lookup(&out[3..], "b"), vec![("b".to_string(), 2u64)]);
}

#[test]
fn data_entry_is_type_size_payload() {
    let mut out = vec![9u8];
    let entry = DataEntry::new(DataEntryType::PNG, 3, b"abc");
    assert_eq!(entry.write(&mut out), (1, 8));
    assert_eq!(out, vec![9u8, 3, 0, 0, 0, 3, b'a', b'b', b'c']);
    assert_eq!(DataEntryType::from_code(1), Some(DataEntryType::TXT));
    assert_eq!(DataEntryType::from_code(7), Some(DataEntryType::MP4));
    assert_eq!(DataEntryType::from_code(0), None);
    assert_eq!(DataEntryType::from_code(8), None);
    assert_eq!(DataEntryType::WAV.code(), 6);
}

#[test]
fn corrupted_magic_is_bad_magic() {
    let mut image = LocalDictionary::create(&vec![pair("a", "b")], &conf(), "", "").unwrap();
    image[3] = b'X';
    let loaded = LocalDictionary::load("x".to_string(), image);
    assert_eq!(loaded.err(), Some(WikitError::BadMagic));
    let loaded = LocalDictionary::load("x".to_string(), b"WIKIT51".to_vec());
    assert_eq!(loaded.err(), Some(WikitError::BadMagic));
    let loaded = LocalDictionary::load("x".to_string(), Vec::new());
    assert_eq!(loaded.err(), Some(WikitError::BadMagic));
}

#[test]
fn unknown_version_is_unsupported() {
    let mut image = LocalDictionary::create(&vec![pair("a", "b")], &conf(), "", "").unwrap();
    image[11] = 2;
    let loaded = LocalDictionary::load("x".to_string(), image);
    assert_eq!(loaded.err(), Some(WikitError::UnsupportedVersion));
}

#[test]
fn truncated_header_is_header_truncated() {
    let image = LocalDictionary::create(&vec![pair("a", "b")], &conf(), "", "").unwrap();
    for len in [8usize, 11, 12, 13, 14, 20, 60] {
        let loaded = LocalDictionary::load("x".to_string(), image[..len].to_vec());
        assert_eq!(loaded.err(), Some(WikitError::HeaderTruncated), "length {}", len);
    }
    let header_size = u16::from_be_bytes([image[12], image[13]]) as usize;
    let loaded = LocalDictionary::load("x".to_string(), image[..14 + header_size].to_vec());
    assert_eq!(loaded.err(), Some(WikitError::HeaderTruncated));
    let loaded = LocalDictionary::load("x".to_string(), image[..image.len() - 1].to_vec());
    assert_eq!(loaded.err(), Some(WikitError::HeaderTruncated));
}

#[test]
fn overlapping_regions_are_refused() {
    let mut image = LocalDictionary::create(&vec![pair("a", "b")], &conf(), "", "").unwrap();
    let fixed = 14 + 2 + 4 + 2 + 34;
    let dbase = be64(&image, fixed + 17);
    let ibase = be64(&image, fixed + 1);
    assert!(dbase < ibase);
    let longer = (ibase - dbase + 1).to_be_bytes();
    image[fixed + 25..fixed + 33].copy_from_slice(&longer);
    let loaded = LocalDictionary::load("x".to_string(), image);
    assert_eq!(loaded.err(), Some(WikitError::HeaderTruncated));
}

#[test]
fn damaged_index_is_bad_index() {
    let mut image = LocalDictionary::create(&vec![pair("abc", "b")], &conf(), "", "").unwrap();
    let last = image.len() - 1;
    image[last] ^= 0xff;
    let loaded = LocalDictionary::load("x".to_string(), image);
    assert_eq!(loaded.err(), Some(WikitError::BadIndex));
}

#[test]
fn unknown_index_format_is_refused() {
    let mut image = LocalDictionary::create(&vec![pair("a", "b")], &conf(), "", "").unwrap();
    let fixed = 14 + 2 + 4 + 2 + 34;
    image[fixed] = 2;
    let loaded = LocalDictionary::load("x".to_string(), image);
    assert_eq!(loaded.err(), Some(WikitError::HeaderTruncated));
}

#[test]
fn too_large_texts_are_refused() {
    let long = "n".repeat(0x1_0000);
    let named = WikitDictConf::new(&long, "d", "a");
    assert_eq!(
        LocalDictionary::create(&Vec::new(), &named, "", "").err(),
        Some(WikitError::TooLarge)
    );
    let described = WikitDictConf::new("n", &long, "a");
    assert_eq!(
        LocalDictionary::create(&Vec::new(), &described, "", "").err(),
        Some(WikitError::TooLarge)
    );
    assert_eq!(
        LocalDictionary::create(&Vec::new(), &conf(), &long, "").err(),
        Some(WikitError::TooLarge)
    );
    let almost = "n".repeat(0xffff - 45 - 4 - 34);
    assert!(LocalDictionary::create(&Vec::new(), &conf(), &almost, "").is_ok());
    assert_eq!(
        LocalDictionary::create(&Vec::new(), &conf(), &almost, "s").err(),
        Some(WikitError::TooLarge)
    );
}

#[test]
fn lookup_skips_entries_that_are_no_text() {
    let mut image = LocalDictionary::create(&vec![pair("a", "one"), pair("b", "two")], &conf(), "", "")
        .unwrap();
    let fixed = 14 + 2 + 4 + 2 + 34;
    let dbase = be64(&image, fixed + 17) as usize;
    image[dbase] = 3;
    let bad = dbase + 5 + 3 + 5;
    image[bad] = 0xff;
    let dict = LocalDictionary::load("x".to_string(), image).unwrap();
    assert_eq!(dict.lookup("a").unwrap(), Vec::<(String, String)>::new());
    assert_eq!(dict.lookup("b").unwrap(), Vec::<(String, String)>::new());
}

#[test]
fn script_and_style_are_those_of_the_header() {
    let image = LocalDictionary::create(&Vec::new(), &conf(), "alert(1)", "b { }").unwrap();
    let dict = LocalDictionary::load("x".to_string(), image).unwrap();
    assert_eq!(dict.get_script(), "alert(1)");
    assert_eq!(dict.get_style(), "b { }");
    assert_eq!(dict.path, "x");
}

#[test]
fn normalize_strips_one_nul_and_lowercases() {
    assert_eq!(normalize_word("Hello\0"), "hello");
    assert_eq!(normalize_word("HeLLo WoRLD!"), "hello world!");
    assert_eq!(normalize_word("a\0\0"), "a\0");
    assert_eq!(normalize_word("\u{c9}COLE"), "\u{e9}cole");
    assert_eq!(normalize_word(""), "");
    assert_eq!(normalize_word(" a b "), " a b ");
}

#[test]
fn normalize_is_idempotent_on_words() {
    for word in ["Hello", "WORLD\0", "\u{c9}t\u{e9}", "\u{3a3}\u{3a3}", "mixed Case 123", ""] {
        let once = normalize_word(word);
        assert_eq!(normalize_word(&once), once);
    }
}

#[test]
fn every_error_has_a_message() {
    let errors = [
        WikitError::BadMagic,
        WikitError::UnsupportedVersion,
        WikitError::HeaderTruncated,
        WikitError::BadIndex,
        WikitError::SourceFormat,
        WikitError::SourceChecksum,
        WikitError::SourceEncrypted,
        WikitError::DecodeError,
        WikitError::IndexBuildOrder,
        WikitError::TooLarge,
    ];
    for (i, error) in errors.iter().enumerate() {
        assert!(!error.message().is_empty());
        for other in errors.iter().skip(i + 1) {
            assert_ne!(error.message(), other.message());
        }
    }
    assert_eq!(WikitError::BadMagic.message(), "wrong wikit magic");
}

#[test]
fn large_dictionary_round_trips() {
    let mut records = Vec::new();
    let mut seed: u64 = 12345;
    for i in 0..20_000u32 {
        seed = seed.wrapping_mul(6364136223846793005).wrapping_add(1442695040888963407);
        let key = format!("k{:08x}{}", (seed >> 32) as u32, i % 7);
        records.push(pair(&key, &format!("<p>meaning {}</p>", i)));
    }
    let image = LocalDictionary::create(&records, &conf(), "", "").unwrap();
    let dict = LocalDictionary::load("big.wikit".to_string(), image).unwrap();
    for i in [0usize, 1, 777, 19_999] {
        let answers = dict.lookup(&records[i].0).unwrap();
        assert_eq!(answers[0], records[i]);
        assert!(answers.len() <= 20);
    }
    let sorted = sort_records(&records);
    assert_eq!(sorted.len(), 20_000);
    for window in sorted.windows(2) {
        assert!(window[0].0.as_bytes() < window[1].0.as_bytes());
    }
    let archive = wikit::archive::create_mdx("t", "a", "d", "now", &records).unwrap();
    assert_eq!(wikit::mdict::parse_mdx(&archive, None).unwrap(), sorted);
}

#[test]
fn text_is_split_into_lines_as_std_does() {
    for text in [
        "",
        "\n",
        "a",
        "a\n",
        "a\nb",
        "a\r\nb\r\n",
        "a\r",
        "\r\n",
        "\r",
        "a\n\nb\n\n",
        "a\r\r\nb",
        "hello\nworld\n</>\nfoo\nbar\n</>\n",
        "\u{4e2d}\u{6587}\r\n\u{e9}\n",
    ] {
        let want: Vec<String> = text.lines().map(|line| line.to_string()).collect();
        assert_eq!(wikit::reader::split_lines(text), want, "{:?}", text);
    }
}

#[test]
fn source_is_read_from_text() {
    let records = MDXSource::from_text("hello\r\nworld\r\n</>\r\nfoo\nbar\n</>").collect();
    assert_eq!(records, vec![pair("hello", "world\0"), pair("foo", "bar\0")]);
    let dict = compile(&MDXSource::from_text("hello\nworld\n</>\nfoo\nbar\n</>\n").collect());
    assert_eq!(dict.lookup("hello").unwrap(), vec![pair("hello", "world")]);
    assert_eq!(dict.lookup("foo").unwrap(), vec![pair("foo", "bar")]);
    assert_eq!(dict.lookup("missing").unwrap(), Vec::<(String, String)>::new());
}

#[test]
fn index_search_gives_the_exact_match_then_its_neighbours() {
    let entries = vec![("hello".to_string(), 20u64), ("helo".to_string(), 10u64), ("jello".to_string(), 30u64)];
    assert_eq!(
        FSTIndex::search(&entries, "hello"),
        Some(vec![("hello".to_string(), 20u64), ("helo".to_string(), 10u64), ("jello".to_string(), 30u64)])
    );
    assert_eq!(
        FSTIndex::search(&entries, "jello"),
        Some(vec![("jello".to_string(), 30u64), ("hello".to_string(), 20u64)])
    );
    assert_eq!(
        FSTIndex::search(&entries, "hallo"),
        Some(vec![("hello".to_string(), 20u64)])
    );
    assert_eq!(FSTIndex::search(&entries, "he"), Some(Vec::new()));
    assert_eq!(FSTIndex::search(&Vec::new(), "hello"), Some(Vec::new()));
}

#[test]
fn index_search_refuses_keys_out_of_order() {
    let entries = vec![("b".to_string(), 1u64), ("a".to_string(), 2u64)];
    assert_eq!(FSTIndex::search(&entries, "a"), None);
    let entries = vec![("a".to_string(), 1u64), ("a".to_string(), 2u64)];
    assert_eq!(FSTIndex::search(&entries, "a"), None);
}

#[test]
fn index_search_gives_every_near_key_up_to_the_limit() {
    let letters = "abcdefghijklmnopqrstuvwxyz";
    let mut entries: Vec<(String, u64)> = Vec::new();
    for (i, c) in letters.chars().take(19).enumerate() {
        entries.push((format!("wor{}", c), i as u64));
    }
    let found = FSTIndex::search(&entries, "word").unwrap();
    assert_eq!(found.len(), 19);
    assert_eq!(found[0], ("word".to_string(), 3u64));
    let mut rest: Vec<(String, u64)> = entries.clone();
    rest.remove(3);
    assert_eq!(found[1..].to_vec(), rest);
    for c in letters.chars().skip(19) {
        entries.push((format!("wor{}", c), 99));
    }
    let found = FSTIndex::search(&entries, "word").unwrap();
    assert_eq!(found.len(), 20);
    assert_eq!(found[0], ("word".to_string(), 3u64));
    let mut first: Vec<(String, u64)> = entries[..20].to_vec();
    first.remove(3);
    assert_eq!(found[1..].to_vec(), first);
}

fn edits(a: &str, b: &str) -> usize {
    let a: Vec<char> = a.chars().collect();
    let b: Vec<char> = b.chars().collect();
    let mut row: Vec<usize> = (0..=b.len()).collect();
    for i in 1..=a.len() {
        let mut next = vec![i];
        for j in 1..=b.len() {
            let replace = row[j - 1] + if a[i - 1] == b[j - 1] { 0 } else { 1 };
            next.push(replace.min(row[j] + 1).min(next[j - 1] + 1));
        }
        row = next;
    }
    row[b.len()]
}

#[test]
fn ascii_word_finds_neighbours_with_other_characters() {
    let records = vec![
        pair("cafe", "plain"),
        pair("caf\u{e9}", "acute"),
        pair("caf\u{eb}", "dots"),
        pair("caf\u{e9}\u{e9}\u{e9}", "far"),
        pair("\u{e7}afe", "cedilla"),
    ];
    let dict = compile(&records);
    assert_eq!(
        dict.lookup("cafe").unwrap(),
        vec![
            pair("cafe", "plain"),
            pair("caf\u{e9}", "acute"),
            pair("caf\u{eb}", "dots"),
            pair("\u{e7}afe", "cedilla"),
        ]
    );
    assert_eq!(
        dict.lookup("cafa").unwrap(),
        vec![pair("cafe", "plain"), pair("caf\u{e9}", "acute"), pair("caf\u{eb}", "dots")]
    );
}

#[test]
fn word_with_other_characters_is_answered_from_the_records_near_it() {
    let records = vec![
        pair("cafe", "plain"),
        pair("caf\u{e9}", "acute"),
        pair("caf\u{eb}", "dots"),
        pair("\u{e8}a", "grave"),
        pair("\u{e9}a", "acute a"),
        pair("\u{e9}\u{e8}", "both"),
    ];
    let dict = compile(&records);
    for word in ["caf\u{e9}", "\u{e9}a", "\u{e9}\u{e8}", "\u{e8}a", "caf\u{eb}"] {
        let answers = dict.lookup(word).unwrap();
        let allowed = if word.len() <= 2 { 0 } else if word.len() <= 5 { 1 } else { 2 };
        assert_eq!(answers[0].0, word);
        for (i, answer) in answers.iter().enumerate() {
            assert!(records.contains(answer));
            assert!(edits(&answer.0, word) <= allowed);
            if i > 0 {
                assert_ne!(answer.0, word);
            }
            if i > 1 {
                assert!(answers[i - 1].0.as_bytes() < answer.0.as_bytes());
            }
        }
    }
}

#[test]
fn white_space_is_what_unicode_says() {
    for code in 0..=0x10ffffu32 {
        if let Some(c) = char::from_u32(code) {
            assert_eq!(wikit::util::is_white_space(c), c.is_whitespace(), "{:x}", code);
        }
    }
}

#[test]
fn compile_and_lookup_answers_like_a_loaded_dictionary() {
    let records = vec![pair("jello", "Z"), pair("helo", "X"), pair("hello", "Y"), pair("hello", "late")];
    let answers = wikit::wikit::compile_and_lookup(&records, &conf(), "", "", "HELLO\0").unwrap();
    assert_eq!(answers, vec![pair("hello", "Y"), pair("helo", "X"), pair("jello", "Z")]);
    assert_eq!(answers, compile(&records).lookup("HELLO\0").unwrap());
    assert_eq!(
        wikit::wikit::compile_and_lookup(&records, &conf(), "", "", "nothing"),
        Ok(Vec::new())
    );
    let long = "n".repeat(70_000);
    let named = WikitDictConf::new(&long, "d", "a");
    assert_eq!(
        wikit::wikit::compile_and_lookup(&records, &named, "", "", "hello"),
        Err(WikitError::TooLarge)
    );
}
