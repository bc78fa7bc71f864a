//! The ordered index of a dictionary: from each key to the offset of its
//! data entry, with exact and fuzzy search.

use crate::bytes::bytes_lt;
use crate::codec::utf8_to_string;
use crate::error::WikitError;
use crate::util::str_equal;
use fst::{IntoStreamer, Streamer};
use vstd::prelude::*;
use vstd::utf8::{decode_utf8, encode_utf8, is_ascii_chars, valid_utf8};

verus! {

/// The formats that the index of a dictionary may have.
#[derive(Clone, Copy, Debug, PartialEq, Eq, Structural)]
pub enum IndexFormat {
    /// An ordered finite-state map; its code in a dictionary's header is 1.
    FST,
}

/// The format that the code `v` stands for in a dictionary's header.
pub open spec fn format_of(v: u8) -> Option<IndexFormat> {
    if v == 1 {
        Some(IndexFormat::FST)
    } else {
        None
    }
}

impl IndexFormat {
    /// The format that the code `v` stands for.
    pub fn new(v: u8) -> (format: Option<IndexFormat>)
        ensures
            format == format_of(v),
    {
        if v == 1 {
            Some(IndexFormat::FST)
        } else {
            None
        }
    }

    /// The code that stands for the format in a dictionary's header.
    pub fn code(&self) -> (v: u8)
        ensures
            v == 1,
            format_of(v) == Some(*self),
    {
        1
    }
}

/// The entries of an index: keys as bytes, each with its offset.
pub open spec fn entries_view(entries: Seq<(String, u64)>) -> Seq<(Seq<u8>, u64)> {
    Seq::new(entries.len(), |i: int| (encode_utf8(entries[i].0@), entries[i].1))
}

/// Whether the keys of `entries` stand in strictly ascending byte order, so
/// that no key occurs twice.
pub open spec fn keys_ascending(entries: Seq<(Seq<u8>, u64)>) -> bool {
    forall|i: int, j: int| 0 <= i < j < entries.len() ==> bytes_lt(entries[i].0, entries[j].0)
}

/// The offset that `entries` give for `key`.
pub open spec fn value_in(entries: Seq<(Seq<u8>, u64)>, key: Seq<u8>) -> Option<u64>
    decreases entries.len(),
{
    if entries.len() == 0 {
        None
    } else if entries.last().0 == key {
        Some(entries.last().1)
    } else {
        value_in(entries.drop_last(), key)
    }
}

/// The bytes of the finite-state map that holds `entries`.
pub uninterp spec fn index_image(entries: Seq<(Seq<u8>, u64)>) -> Seq<u8>;

/// Whether `image` has the frame and the checksum of a finite-state map.
pub uninterp spec fn index_checked(image: Seq<u8>) -> bool;

/// The offset that the finite-state map `image` gives for `key`.
pub uninterp spec fn index_value(image: Seq<u8>, key: Seq<u8>) -> Option<u64>;

/// The entries of the finite-state map `image` whose keys the automaton for
/// `query` and `distance` accepts, in the order of the map; `None` where
/// the automaton grows beyond its limit. The automaton accepts only keys
/// within `distance` edits of `query`. For a query of ASCII characters it
/// accepts all of them; for a query with a character of several bytes it
/// may pass over some.
pub uninterp spec fn fuzzy_matches(image: Seq<u8>, query: Seq<char>, distance: u32) -> Option<
    Seq<(Seq<u8>, u64)>,
>;

/// The number of edits that turn `a` into `b`, where an edit inserts,
/// deletes or replaces one character.
pub open spec fn edit_distance(a: Seq<char>, b: Seq<char>) -> nat
    decreases a.len() + b.len(),
{
    if a.len() == 0 {
        b.len()
    } else if b.len() == 0 {
        a.len()
    } else {
        let replace = edit_distance(a.drop_last(), b.drop_last()) + if a.last() == b.last() {
            0nat
        } else {
            1nat
        };
        let delete = edit_distance(a.drop_last(), b) + 1;
        let insert = edit_distance(a, b.drop_last()) + 1;
        if replace <= delete && replace <= insert {
            replace
        } else if delete <= insert {
            delete
        } else {
            insert
        }
    }
}

/// Whether `key` is text that lies within `distance` edits of `query`.
pub open spec fn within(key: Seq<u8>, query: Seq<char>, distance: u32) -> bool {
    valid_utf8(key) && edit_distance(decode_utf8(key), query) <= distance
}

/// The test of an entry: that its key lies within `distance` edits of
/// `query`.
pub open spec fn near(query: Seq<char>, distance: u32) -> spec_fn((Seq<u8>, u64)) -> bool {
    |e: (Seq<u8>, u64)| within(e.0, query, distance)
}

/// Whether `image` is the finite-state map that holds `entries`.
pub open spec fn holds(image: Seq<u8>, entries: Seq<(Seq<u8>, u64)>) -> bool {
    keys_ascending(entries) && image == index_image(entries)
}

/// Whether `image` is a finite-state map that was built from entries.
pub open spec fn built(image: Seq<u8>) -> bool {
    exists|entries: Seq<(Seq<u8>, u64)>| holds(image, entries)
}

/// The pairs of a search, as plain values.
pub open spec fn matches_view(found: Seq<(Vec<u8>, u64)>) -> Seq<(Seq<u8>, u64)> {
    Seq::new(found.len(), |i: int| (found[i].0@, found[i].1))
}

/// Calls `fst::MapBuilder::memory`, `insert` for each entry in turn, and
/// `into_inner`.
/// Trusted: building succeeds exactly where each key is greater than the one
/// before it; the bytes are then those that `index_image` names, and they
/// carry the frame and checksum that `index_checked` asks for.
#[verifier::external_body]
pub(crate) fn build_index(entries: &Vec<(String, u64)>) -> (image: Option<Vec<u8>>)
    ensures
        image is Some <==> keys_ascending(entries_view(entries@)),
        image is Some ==> image.unwrap()@ == index_image(entries_view(entries@)),
        image is Some ==> index_checked(image.unwrap()@),
{
    let mut builder = fst::MapBuilder::memory();
    for (key, value) in entries.iter() {
        builder.insert(key.as_bytes(), *value).ok()?;
    }
    builder.into_inner().ok()
}

/// Calls `fst::Map::new` on `image` and `verify` on the map's automaton.
/// Trusted: the result says whether both accept `image`.
#[verifier::external_body]
pub(crate) fn check_index(image: &[u8]) -> (framed: bool)
    ensures
        framed == index_checked(image@),
{
    match fst::Map::new(image) {
        Ok(map) => map.as_fst().verify().is_ok(),
        Err(_) => false,
    }
}

/// Calls `fst::Map::new` on `image` and `get` on the map.
/// Trusted: the result is the offset that `index_value` names, and where
/// `image` was built from `entries` it is the offset that they give for
/// `key`. The crate walks the bytes of the map without checking them, and
/// neither its frame nor its checksum tells a map from other bytes: `image`
/// must be a map that `build_index` gave.
#[verifier::external_body]
pub(crate) fn index_get(image: &[u8], key: &[u8]) -> (value: Option<u64>)
    requires
        built(image@),
    ensures
        value == index_value(image@, key@),
        forall|entries: Seq<(Seq<u8>, u64)>| #[trigger]
            holds(image@, entries) ==> value == value_in(entries, key@),
{
    match fst::Map::new(image) {
        Ok(map) => map.get(key),
        Err(_) => None,
    }
}

/// Calls `fst::Map::new` on `image`, `fst::automaton::Levenshtein::new` on
/// `query` and `distance`, and `search` on the map, and takes the first
/// `limit` pairs of the stream.
/// Trusted: the call fails exactly where `fuzzy_matches` is `None`, and
/// otherwise returns the first `limit` of the pairs that it names, whose
/// keys lie within `distance` edits of `query`. Where `image` was built from
/// `entries`, the pairs that `fuzzy_matches` names are entries within that
/// distance, in ascending order of their keys; for a query of ASCII
/// characters they are all such entries. (For a character of several bytes
/// the automaton keeps one path for each leading byte, so a key that
/// differs from the query in such a character may be passed over.) As for
/// `index_get`, `image` must be a map that `build_index` gave.
#[verifier::external_body]
pub(crate) fn index_search(image: &[u8], query: &str, distance: u32, limit: usize) -> (found:
    Option<Vec<(Vec<u8>, u64)>>)
    requires
        built(image@),
    ensures
        found is Some <==> fuzzy_matches(image@, query@, distance) is Some,
        found is Some ==> matches_view(found.unwrap()@) == ({
            let all = fuzzy_matches(image@, query@, distance).unwrap();
            all.take(if limit < all.len() { limit as int } else { all.len() as int })
        }),
        found is Some ==> forall|i: int|
            0 <= i < found.unwrap()@.len() ==> within(
                (#[trigger] matches_view(found.unwrap()@)[i]).0,
                query@,
                distance,
            ),
        forall|entries: Seq<(Seq<u8>, u64)>| #[trigger]
            holds(image@, entries) && found is Some ==> ({
                let all = fuzzy_matches(image@, query@, distance).unwrap();
                &&& keys_ascending(all)
                &&& forall|i: int|
                    0 <= i < all.len() ==> entries.contains(#[trigger] all[i]) && within(
                        all[i].0,
                        query@,
                        distance,
                    )
            }),
        forall|entries: Seq<(Seq<u8>, u64)>| #[trigger]
            holds(image@, entries) && found is Some && is_ascii_chars(query@) ==> fuzzy_matches(
                image@,
                query@,
                distance,
            ).unwrap() == entries.filter(near(query@, distance)),
{
    let map = fst::Map::new(image).ok()?;
    let query = fst::automaton::Levenshtein::new(query, distance).ok()?;
    let mut stream = map.search(&query).into_stream();
    let mut found = Vec::new();
    while found.len() < limit {
        match stream.next() {
            Some((key, value)) => found.push((key.to_vec(), value)),
            None => break,
        }
    }
    Some(found)
}

/// The number of edits that a search for a word of `len` bytes allows.
pub open spec fn fuzziness(len: nat) -> u32 {
    if len <= 2 {
        0
    } else if len <= 5 {
        1
    } else {
        2
    }
}

/// The largest number of candidates that a search returns.
pub const LOOKUP_LIMIT: usize = 20;

/// The neighbours that a search adds behind the exact match: the fuzzy
/// matches from match `i` on whose keys are text and differ from `word`,
/// after those of `acc`, as long as fewer than the limit are gathered.
pub open spec fn neighbours(
    fuzzy: Seq<(Seq<u8>, u64)>,
    i: int,
    word: Seq<char>,
    acc: Seq<(Seq<char>, u64)>,
) -> Seq<(Seq<char>, u64)>
    decreases fuzzy.len() - i,
{
    if i < 0 || i >= fuzzy.len() || acc.len() >= LOOKUP_LIMIT {
        acc
    } else if valid_utf8(fuzzy[i].0) && decode_utf8(fuzzy[i].0) != word {
        neighbours(fuzzy, i + 1, word, acc.push((decode_utf8(fuzzy[i].0), fuzzy[i].1)))
    } else {
        neighbours(fuzzy, i + 1, word, acc)
    }
}

/// The candidates of a search for `word`: the exact match first, where
/// there is one, then its neighbours, up to the limit in all.
pub open spec fn candidates(exact: Option<u64>, fuzzy: Seq<(Seq<u8>, u64)>, word: Seq<char>) -> Seq<
    (Seq<char>, u64),
> {
    neighbours(
        fuzzy,
        0,
        word,
        match exact {
            Some(offset) => seq![(word, offset)],
            None => Seq::empty(),
        },
    )
}

/// The candidates of a search for `keyword` in the finite-state map `image`.
pub open spec fn index_candidates(image: Seq<u8>, keyword: Seq<char>) -> Seq<(Seq<char>, u64)> {
    candidates(
        index_value(image, encode_utf8(keyword)),
        match fuzzy_matches(image, keyword, fuzziness(encode_utf8(keyword).len())) {
            Some(all) => all.take(
                if LOOKUP_LIMIT < all.len() {
                    LOOKUP_LIMIT as int
                } else {
                    all.len() as int
                },
            ),
            None => Seq::empty(),
        },
        keyword,
    )
}

/// The keys of a search with their offsets.
pub open spec fn found_view(found: Seq<(String, u64)>) -> Seq<(Seq<char>, u64)> {
    Seq::new(found.len(), |i: int| (found[i].0@, found[i].1))
}

/// The entries of `entries` that a search for `keyword` looks at: those
/// whose keys lie within the edits that the keyword allows, in the order of
/// the entries, and no more than the limit.
pub open spec fn near_entries(entries: Seq<(Seq<u8>, u64)>, keyword: Seq<char>) -> Seq<
    (Seq<u8>, u64),
> {
    let all = entries.filter(near(keyword, fuzziness(encode_utf8(keyword).len())));
    all.take(
        if LOOKUP_LIMIT < all.len() {
            LOOKUP_LIMIT as int
        } else {
            all.len() as int
        },
    )
}

/// The candidates of a search for `keyword` in an index of `entries`: the
/// entry of the keyword first, where there is one, then the entries near
/// it, in their order and without the keyword itself, up to the limit in
/// all.
pub open spec fn entry_candidates(entries: Seq<(Seq<u8>, u64)>, keyword: Seq<char>) -> Seq<
    (Seq<char>, u64),
> {
    candidates(value_in(entries, encode_utf8(keyword)), near_entries(entries, keyword), keyword)
}

/// Whether `found` are candidates that a search for `keyword` may give
/// from an index of `entries`: the entry of the keyword first, where there
/// is one; behind it entries near the keyword other than its own, in
/// ascending order of their keys; and no more than the limit in all. A
/// search that passes over nothing gives `entry_candidates`, which are such
/// candidates.
pub open spec fn chosen(
    entries: Seq<(Seq<u8>, u64)>,
    keyword: Seq<char>,
    found: Seq<(Seq<char>, u64)>,
) -> bool {
    let first = candidates(value_in(entries, encode_utf8(keyword)), Seq::empty(), keyword);
    &&& first.len() <= found.len() <= LOOKUP_LIMIT
    &&& forall|m: int| 0 <= m < first.len() ==> #[trigger] found[m] == first[m]
    &&& forall|m: int|
        first.len() <= m < found.len() ==> (#[trigger] found[m]).0 != keyword && entries.contains(
            (encode_utf8(found[m].0), found[m].1),
        ) && within(encode_utf8(found[m].0), keyword, fuzziness(encode_utf8(keyword).len()))
    &&& forall|m: int, n: int|
        #![trigger found[m], found[n]]
        first.len() <= m < n < found.len() ==> bytes_lt(
            encode_utf8(found[m].0),
            encode_utf8(found[n].0),
        )
}

/// What the neighbours of a search are, where the fuzzy matches stand in
/// ascending order of their keys and their keys are text: the candidates
/// gathered before stay in front; every further candidate is a match whose
/// key differs from the word; the further candidates stand in ascending
/// order of their keys; and the limit is kept.
pub proof fn lemma_neighbours(
    fuzzy: Seq<(Seq<u8>, u64)>,
    i: int,
    word: Seq<char>,
    acc: Seq<(Seq<char>, u64)>,
)
    requires
        0 <= i <= fuzzy.len(),
        keys_ascending(fuzzy),
        forall|k: int| 0 <= k < fuzzy.len() ==> valid_utf8((#[trigger] fuzzy[k]).0),
    ensures
        ({
            let out = neighbours(fuzzy, i, word, acc);
            &&& acc.len() <= out.len()
            &&& acc.len() <= LOOKUP_LIMIT ==> out.len() <= LOOKUP_LIMIT
            &&& forall|m: int| 0 <= m < acc.len() ==> #[trigger] out[m] == acc[m]
            &&& forall|m: int|
                acc.len() <= m < out.len() ==> (#[trigger] out[m]).0 != word && exists|j: int|
                    i <= j < fuzzy.len() && fuzzy[j] == (encode_utf8(out[m].0), out[m].1)
            &&& forall|m: int, n: int|
                #![trigger out[m], out[n]]
                acc.len() <= m < n < out.len() ==> bytes_lt(
                    encode_utf8(out[m].0),
                    encode_utf8(out[n].0),
                )
        }),
    decreases fuzzy.len() - i,
{
    let out = neighbours(fuzzy, i, word, acc);
    if i < fuzzy.len() && acc.len() < LOOKUP_LIMIT {
        assert(valid_utf8(fuzzy[i].0));
        if decode_utf8(fuzzy[i].0) != word {
            let x = (decode_utf8(fuzzy[i].0), fuzzy[i].1);
            let more = acc.push(x);
            lemma_neighbours(fuzzy, i + 1, word, more);
            vstd::utf8::decode_utf8_encode_utf8(fuzzy[i].0);
            assert(out == neighbours(fuzzy, i + 1, word, more));
            assert forall|m: int| 0 <= m < acc.len() implies #[trigger] out[m] == acc[m] by {
                assert(out[m] == more[m]);
            }
            assert(out[acc.len() as int] == more[acc.len() as int]);
            assert forall|m: int| acc.len() <= m < out.len() implies (#[trigger] out[m]).0 != word
                && exists|j: int|
                i <= j < fuzzy.len() && fuzzy[j] == (encode_utf8(out[m].0), out[m].1) by {
                if m == acc.len() {
                    assert(fuzzy[i] == (encode_utf8(out[m].0), out[m].1));
                } else {
                    let j = choose|j: int|
                        i + 1 <= j < fuzzy.len() && fuzzy[j] == (encode_utf8(out[m].0), out[m].1);
                    assert(fuzzy[j] == (encode_utf8(out[m].0), out[m].1));
                }
            }
            assert forall|m: int, n: int|
                #![trigger out[m], out[n]]
                acc.len() <= m < n < out.len() implies bytes_lt(
                encode_utf8(out[m].0),
                encode_utf8(out[n].0),
            ) by {
                if m == acc.len() {
                    let j = choose|j: int|
                        i + 1 <= j < fuzzy.len() && fuzzy[j] == (encode_utf8(out[n].0), out[n].1);
                    assert(bytes_lt(fuzzy[i].0, fuzzy[j].0));
                }
            }
        } else {
            lemma_neighbours(fuzzy, i + 1, word, acc);
            assert(out == neighbours(fuzzy, i + 1, word, acc));
            assert forall|m: int| acc.len() <= m < out.len() implies (#[trigger] out[m]).0 != word
                && exists|j: int|
                i <= j < fuzzy.len() && fuzzy[j] == (encode_utf8(out[m].0), out[m].1) by {
                let j = choose|j: int|
                    i + 1 <= j < fuzzy.len() && fuzzy[j] == (encode_utf8(out[m].0), out[m].1);
                assert(fuzzy[j] == (encode_utf8(out[m].0), out[m].1));
            }
        }
    }
}

/// Where the index of a dictionary lies in the dictionary's file.
#[derive(Debug)]
pub struct FSTIndex {
    path: String,
    offset: u64,
    length: u64,
}

impl FSTIndex {
    /// The file that holds the index.
    pub closed spec fn spec_path(&self) -> Seq<char> {
        self.path@
    }

    /// The position of the index's first byte in the file.
    pub closed spec fn spec_offset(&self) -> u64 {
        self.offset
    }

    /// The number of bytes of the index.
    pub closed spec fn spec_length(&self) -> u64 {
        self.length
    }

    /// The index of `length` bytes that lies at `offset` of the file `path`.
    pub fn new(path: String, offset: u64, length: u64) -> (index: FSTIndex)
        ensures
            index.spec_path() == path@,
            index.spec_offset() == offset,
            index.spec_length() == length,
    {
        FSTIndex { path, offset, length }
    }

    /// The format of the index.
    pub fn format(&self) -> (format: IndexFormat)
        ensures
            format == IndexFormat::FST,
    {
        IndexFormat::FST
    }

    /// The position of the index's first byte in the file.
    pub fn offset(&self) -> (offset: u64)
        ensures
            offset == self.spec_offset(),
    {
        self.offset
    }

    /// The number of bytes of the index.
    pub fn length(&self) -> (length: u64)
        ensures
            length == self.spec_length(),
    {
        self.length
    }

    /// The file that holds the index.
    pub fn path(&self) -> (path: &String)
        ensures
            path@ == self.spec_path(),
    {
        &self.path
    }

    /// Builds the index of `entries` and appends it to `out`. Returns the
    /// position at which the index starts in `out` and its number of bytes.
    /// The keys must stand in strictly ascending byte order; where they do
    /// not, `out` is left as it is.
    pub fn write(entries: &Vec<(String, u64)>, out: &mut Vec<u8>) -> (place: Result<
        (u64, u64),
        WikitError,
    >)
        ensures
            place is Ok <==> keys_ascending(entries_view(entries@)),
            place is Err ==> place == Err::<(u64, u64), WikitError>(WikitError::IndexBuildOrder)
                && final(out)@ == old(out)@,
            place is Ok ==> final(out)@ == old(out)@ + index_image(entries_view(entries@)),
            place is Ok ==> place.unwrap().0 == old(out)@.len() && place.unwrap().1 == index_image(
                entries_view(entries@),
            ).len(),
            place is Ok ==> index_checked(index_image(entries_view(entries@))),
    {
        match build_index(entries) {
            None => Err(WikitError::IndexBuildOrder),
            Some(mut image) => {
                let start: u64 = out.len() as u64;
                let length: u64 = image.len() as u64;
                out.append(&mut image);
                Ok((start, length))
            },
        }
    }

    /// Builds the index of `entries` in memory and searches it for `keyword`
    /// as `lookup` does. `None` where the keys of `entries` do not stand in
    /// strictly ascending byte order.
    pub fn search(entries: &Vec<(String, u64)>, keyword: &str) -> (found: Option<
        Vec<(String, u64)>,
    >)
        ensures
            found is Some <==> keys_ascending(entries_view(entries@)),
            found is Some ==> found_view(found.unwrap()@) == index_candidates(
                index_image(entries_view(entries@)),
                keyword@,
            ),
            found is Some && is_ascii_chars(keyword@) && fuzzy_matches(
                index_image(entries_view(entries@)),
                keyword@,
                fuzziness(encode_utf8(keyword@).len()),
            ) is Some ==> found_view(found.unwrap()@) == entry_candidates(
                entries_view(entries@),
                keyword@,
            ),
            found is Some ==> chosen(entries_view(entries@), keyword@, found_view(found.unwrap()@)),
    {
        match build_index(entries) {
            None => None,
            Some(image) => {
                proof {
                    assert(holds(image@, entries_view(entries@)));
                }
                Some(FSTIndex::lookup(image.as_slice(), keyword))
            },
        }
    }

    /// Searches the finite-state map `image` for `keyword`: the exact match
    /// first, then the keys within a few edits of `keyword` (none for a
    /// keyword of up to two bytes, one edit up to five bytes, two beyond), in
    /// the order of the index and without the keyword itself, up to twenty
    /// candidates in all. Every candidate is an entry that `image` was built
    /// from. For a keyword of ASCII characters no entry near it is passed
    /// over; for a keyword with a character of several bytes the search may
    /// pass over some. Where the keyword is too long for a search by edits,
    /// the exact match stands alone.
    ///
    /// The finite-state map walks its bytes unchecked, so `image` must be a
    /// map that `write` gave.
    pub fn lookup(image: &[u8], keyword: &str) -> (found: Vec<(String, u64)>)
        requires
            built(image@),
        ensures
            found_view(found@) == index_candidates(image@, keyword@),
            forall|entries: Seq<(Seq<u8>, u64)>| #[trigger]
                holds(image@, entries) && is_ascii_chars(keyword@) && fuzzy_matches(
                    image@,
                    keyword@,
                    fuzziness(encode_utf8(keyword@).len()),
                ) is Some ==> found_view(found@) == entry_candidates(entries, keyword@),
            forall|entries: Seq<(Seq<u8>, u64)>| #[trigger]
                holds(image@, entries) && fuzzy_matches(
                    image@,
                    keyword@,
                    fuzziness(encode_utf8(keyword@).len()),
                ) is None ==> found_view(found@) == candidates(
                    value_in(entries, encode_utf8(keyword@)),
                    Seq::empty(),
                    keyword@,
                ),
            forall|entries: Seq<(Seq<u8>, u64)>| #[trigger]
                holds(image@, entries) ==> chosen(entries, keyword@, found_view(found@)),
            forall|entries: Seq<(Seq<u8>, u64)>| #[trigger]
                holds(image@, entries) ==> forall|i: int|
                    0 <= i < found@.len() ==> entries.contains(
                        (encode_utf8(#[trigger] found@[i].0@), found@[i].1),
                    ),
            forall|entries: Seq<(Seq<u8>, u64)>| #[trigger]
                holds(image@, entries) ==> (value_in(entries, encode_utf8(keyword@)) matches Some(
                    offset,
                ) ==> found@.len() > 0 && found@[0].0@ == keyword@ && found@[0].1 == offset),
            forall|i: int|
                0 <= i < found@.len() ==> #[trigger] found@[i].0@ == keyword@ || within(
                    encode_utf8(found@[i].0@),
                    keyword@,
                    fuzziness(encode_utf8(keyword@).len()),
                ),
    {
        let distance: u32 = fuzziness_of(keyword);
        let exact: Option<u64> = index_get(image, keyword.as_bytes());
        let fuzzy: Vec<(Vec<u8>, u64)> = match index_search(image, keyword, distance, LOOKUP_LIMIT) {
            Some(fuzzy) => fuzzy,
            None => Vec::new(),
        };
        proof {
            assert(matches_view(fuzzy@) =~= match fuzzy_matches(image@, keyword@, distance) {
                Some(all) => all.take(
                    if LOOKUP_LIMIT < all.len() {
                        LOOKUP_LIMIT as int
                    } else {
                        all.len() as int
                    },
                ),
                None => Seq::empty(),
            });
        }
        let found = gather_candidates(exact, &fuzzy, keyword);
        proof {
            assert forall|i: int| 0 <= i < found@.len() implies #[trigger] found@[i].0@ == keyword@
                || within(encode_utf8(found@[i].0@), keyword@, distance) by {
                if found@[i].0@ != keyword@ {
                    let j = choose|j: int|
                        0 <= j < fuzzy@.len() && matches_view(fuzzy@)[j] == (
                            encode_utf8(found@[i].0@),
                            found@[i].1,
                        );
                    assert(within(matches_view(fuzzy@)[j].0, keyword@, distance));
                }
            }
            assert forall|entries: Seq<(Seq<u8>, u64)>| #[trigger]
                holds(image@, entries) implies chosen(entries, keyword@, found_view(found@)) by {
                let near_by = matches_view(fuzzy@);
                let first = candidates(exact, Seq::empty(), keyword@);
                assert(exact == value_in(entries, encode_utf8(keyword@)));
                assert(first == match exact {
                    Some(offset) => seq![(keyword@, offset)],
                    None => Seq::empty(),
                });
                assert forall|k: int| 0 <= k < near_by.len() implies valid_utf8(
                    (#[trigger] near_by[k]).0,
                ) by {
                    assert(within(near_by[k].0, keyword@, distance));
                }
                assert(keys_ascending(near_by)) by {
                    if fuzzy_matches(image@, keyword@, distance) is Some {
                        let all = fuzzy_matches(image@, keyword@, distance).unwrap();
                        assert(keys_ascending(all));
                        assert forall|a: int, b: int| 0 <= a < b < near_by.len() implies bytes_lt(
                            near_by[a].0,
                            near_by[b].0,
                        ) by {
                            assert(near_by[a] == all[a] && near_by[b] == all[b]);
                        }
                    }
                }
                lemma_neighbours(near_by, 0, keyword@, first);
                let out = found_view(found@);
                assert(out == neighbours(near_by, 0, keyword@, first));
                assert forall|m: int| first.len() <= m < out.len() implies (#[trigger] out[m]).0
                    != keyword@ && entries.contains((encode_utf8(out[m].0), out[m].1)) && within(
                    encode_utf8(out[m].0),
                    keyword@,
                    fuzziness(encode_utf8(keyword@).len()),
                ) by {
                    let j = choose|j: int|
                        0 <= j < near_by.len() && near_by[j] == (encode_utf8(out[m].0), out[m].1);
                    let all = fuzzy_matches(image@, keyword@, distance).unwrap();
                    assert(near_by[j] == all[j]);
                    assert(entries.contains(all[j]));
                    assert(within(near_by[j].0, keyword@, distance));
                }
            }
            assert forall|entries: Seq<(Seq<u8>, u64)>| #[trigger]
                holds(image@, entries) implies forall|i: int|
                0 <= i < found@.len() ==> entries.contains(
                    (encode_utf8(#[trigger] found@[i].0@), found@[i].1),
                ) by {
                lemma_value_in_contains(entries, encode_utf8(keyword@));
                assert forall|i: int| 0 <= i < found@.len() implies entries.contains(
                    (encode_utf8(#[trigger] found@[i].0@), found@[i].1),
                ) by {
                    if !(encode_utf8(found@[i].0@) == encode_utf8(keyword@) && exact == Some(
                        found@[i].1,
                    )) {
                        let j = choose|j: int|
                            0 <= j < fuzzy@.len() && matches_view(fuzzy@)[j] == (
                                encode_utf8(found@[i].0@),
                                found@[i].1,
                            );
                        let all = fuzzy_matches(image@, keyword@, distance).unwrap();
                        assert(all[j] == matches_view(fuzzy@)[j]);
                        assert(entries.contains(all[j]));
                    }
                }
            }
        }
        found
    }
}

/// The number of edits that a search for `keyword` allows: none for a
/// keyword of up to two bytes, one up to five bytes, two beyond.
pub fn fuzziness_of(keyword: &str) -> (distance: u32)
    ensures
        distance == fuzziness(encode_utf8(keyword@).len()),
{
    let len: usize = keyword.as_bytes().len();
    if len <= 2 {
        0
    } else if len <= 5 {
        1
    } else {
        2
    }
}

/// Puts the candidates of a search for `keyword` together from what the
/// index gave: the offset `exact` of the keyword itself, where it has one,
/// and the pairs `fuzzy` near it. The keyword comes first; the pairs follow
/// in their order, without the keyword itself and without keys that are no
/// UTF-8, until twenty candidates are gathered. Each candidate is the
/// keyword with its offset or one of the pairs.
pub fn gather_candidates(exact: Option<u64>, fuzzy: &Vec<(Vec<u8>, u64)>, keyword: &str) -> (found:
    Vec<(String, u64)>)
    ensures
        found_view(found@) == candidates(exact, matches_view(fuzzy@), keyword@),
        exact matches Some(offset) ==> found@.len() > 0 && found@[0].0@ == keyword@ && found@[0].1
            == offset,
        forall|i: int|
            0 <= i < found@.len() ==> (#[trigger] found@[i].0@ == keyword@ && exact == Some(
                found@[i].1,
            )) || exists|j: int|
                0 <= j < fuzzy@.len() && matches_view(fuzzy@)[j] == (
                    encode_utf8(found@[i].0@),
                    found@[i].1,
                ),
{
    let mut found: Vec<(String, u64)> = Vec::new();
    if let Some(offset) = exact {
        found.push((keyword.to_owned(), offset));
    }
    let ghost first = found_view(found@);
    proof {
        assert(first =~= match exact {
            Some(offset) => seq![(keyword@, offset)],
            None => Seq::empty(),
        });
    }
    let mut i: usize = 0;
    while i < fuzzy.len() && found.len() < LOOKUP_LIMIT
        invariant
            i <= fuzzy@.len(),
            first.len() <= found@.len(),
            forall|j: int| 0 <= j < first.len() ==> found_view(found@)[j] == first[j],
            neighbours(matches_view(fuzzy@), 0, keyword@, first) == neighbours(
                matches_view(fuzzy@),
                i as int,
                keyword@,
                found_view(found@),
            ),
            forall|k: int|
                0 <= k < found@.len() ==> (#[trigger] found@[k].0@ == keyword@ && exact == Some(
                    found@[k].1,
                )) || exists|j: int|
                    0 <= j < fuzzy@.len() && matches_view(fuzzy@)[j] == (
                        encode_utf8(found@[k].0@),
                        found@[k].1,
                    ),
        decreases fuzzy@.len() - i,
    {
        let ghost before = found_view(found@);
        let ghost old_found = found@;
        if let Some(key) = utf8_to_string(fuzzy[i].0.as_slice()) {
            if !str_equal(key.as_str(), keyword) {
                let offset: u64 = fuzzy[i].1;
                proof {
                    vstd::utf8::decode_utf8_encode_utf8(fuzzy@[i as int].0@);
                    assert(matches_view(fuzzy@)[i as int] == (encode_utf8(key@), offset));
                }
                found.push((key, offset));
                proof {
                    assert(found_view(found@) =~= before.push((key@, offset)));
                    assert forall|k: int| 0 <= k < found@.len() implies (#[trigger] found@[k].0@
                        == keyword@ && exact == Some(found@[k].1)) || exists|j: int|
                        0 <= j < fuzzy@.len() && matches_view(fuzzy@)[j] == (
                            encode_utf8(found@[k].0@),
                            found@[k].1,
                        ) by {
                        if k < old_found.len() {
                            assert(found@[k] == old_found[k]);
                        }
                    }
                }
            }
        }
        i = i + 1;
    }
    proof {
        if exact is Some {
            assert(first.len() == 1);
            assert(found_view(found@)[0] == first[0]);
        }
    }
    found
}

/// An offset that `value_in` finds stands in the entries with its key.
pub proof fn lemma_value_in_contains(entries: Seq<(Seq<u8>, u64)>, key: Seq<u8>)
    ensures
        value_in(entries, key) matches Some(offset) ==> entries.contains((key, offset)),
    decreases entries.len(),
{
    if entries.len() > 0 {
        if entries.last().0 == key {
            assert(entries[entries.len() - 1] == (key, entries.last().1));
        } else {
            lemma_value_in_contains(entries.drop_last(), key);
            if value_in(entries, key) is Some {
                let offset = value_in(entries, key).unwrap();
                let i = choose|i: int|
                    0 <= i < entries.drop_last().len() && entries.drop_last()[i] == (key, offset);
                assert(entries[i] == (key, offset));
            }
        }
    }
}

} // verus!
