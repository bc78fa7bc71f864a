//! The reader of plain-text sources: stanzas of a key line, meaning lines
//! and a closing line `</>`.

use crate::config::MAX_MDX_ITEM_SIZE;
use crate::records::Records;
use crate::mdict::pairs_view;
use crate::util::{
    chars_to_string, copy_chars, lemma_trimmed_end, lemma_trimmed_start, measure, normalize_word,
    normalized, str_chars, str_equal, trim_chars, trimmed, trimmed_end, trimmed_start,
};
use vstd::prelude::*;
use vstd::string::StringExecFns;
use vstd::utf8::{
    decode_utf8, encode_utf8, encode_utf8_decode_utf8, encode_utf8_valid_utf8, is_char_boundary,
    is_char_boundary_start_end_of_seq,
};

verus! {

/// The lines of a source, as plain values.
pub open spec fn lines_view(lines: Seq<String>) -> Seq<Seq<char>> {
    Seq::new(lines.len(), |i: int| lines[i]@)
}

/// A line without the carriage return at its end, where it has one.
pub open spec fn without_cr(line: Seq<char>) -> Seq<char> {
    if line.len() > 0 && line.last() == '\r' {
        line.drop_last()
    } else {
        line
    }
}

/// The lines of `text` from position `pos` on, behind the lines `acc`, where
/// `line` holds the characters of the line that is being read. A line ends
/// with a line feed, before which a carriage return is dropped; the last
/// line need not end with a line feed.
pub open spec fn text_lines(text: Seq<char>, pos: int, line: Seq<char>, acc: Seq<Seq<char>>) -> Seq<
    Seq<char>,
>
    decreases text.len() - pos,
{
    if pos < 0 || pos >= text.len() {
        if line.len() > 0 {
            acc.push(line)
        } else {
            acc
        }
    } else if text[pos] == '\n' {
        text_lines(text, pos + 1, Seq::empty(), acc.push(without_cr(line)))
    } else {
        text_lines(text, pos + 1, line.push(text[pos]), acc)
    }
}

/// Splits a text into its lines.
pub fn split_lines(text: &str) -> (lines: Vec<String>)
    ensures
        lines_view(lines@) == text_lines(text@, 0, Seq::empty(), Seq::empty()),
{
    let chars = str_chars(text);
    let mut lines: Vec<String> = Vec::new();
    let mut line: Vec<char> = Vec::new();
    let mut pos: usize = 0;
    proof {
        assert(lines_view(lines@) =~= Seq::<Seq<char>>::empty());
    }
    while pos < chars.len()
        invariant
            pos <= chars@.len(),
            chars@ == text@,
            text_lines(text@, 0, Seq::empty(), Seq::empty()) == text_lines(
                text@,
                pos as int,
                line@,
                lines_view(lines@),
            ),
        decreases chars@.len() - pos,
    {
        let c: char = chars[pos];
        if c == '\n' {
            let len: usize = line.len();
            let end: usize = if len > 0 && line[len - 1] == '\r' { len - 1 } else { len };
            let kept = copy_chars(line.as_slice(), 0, end);
            proof {
                assert(kept@ =~= without_cr(line@));
            }
            let ghost before = lines_view(lines@);
            let whole = chars_to_string(kept.as_slice());
            lines.push(whole);
            proof {
                assert(lines_view(lines@) =~= before.push(without_cr(line@)));
            }
            line = Vec::new();
        } else {
            line.push(c);
        }
        pos = pos + 1;
    }
    if line.len() > 0 {
        let ghost before = lines_view(lines@);
        let whole = chars_to_string(line.as_slice());
        lines.push(whole);
        proof {
            assert(lines_view(lines@) =~= before.push(line@));
        }
    }
    lines
}

/// The last position up to `at` at which a character of the UTF-8 text
/// `bytes` starts.
pub open spec fn boundary_floor(bytes: Seq<u8>, at: int) -> int
    decreases at,
{
    if at <= 0 {
        0
    } else if is_char_boundary(bytes, at) {
        at
    } else {
        boundary_floor(bytes, at - 1)
    }
}

/// `text` cut to at most `cap` bytes of UTF-8: the longest run of its first
/// characters that fits.
pub open spec fn capped(text: Seq<char>, cap: int) -> Seq<char> {
    if encode_utf8(text).len() <= cap {
        text
    } else {
        decode_utf8(encode_utf8(text).take(boundary_floor(encode_utf8(text), cap)))
    }
}

/// Cuts `text` to at most `cap` bytes, at the start of a character.
pub fn cap_text(text: String, cap: usize) -> (cut: String)
    ensures
        cut@ == capped(text@, cap as int),
{
    let len: usize = text.as_str().as_bytes().len();
    if len <= cap {
        return text;
    }
    let ghost bytes = encode_utf8(text@);
    proof {
        encode_utf8_valid_utf8(text@);
        is_char_boundary_start_end_of_seq(bytes);
    }
    let mut at: usize = cap;
    while at > 0 && !text.as_str().is_char_boundary(at)
        invariant
            at <= cap < bytes.len(),
            bytes == encode_utf8(text@),
            boundary_floor(bytes, at as int) == boundary_floor(bytes, cap as int),
        decreases at,
    {
        at = at - 1;
    }
    let (head, _) = text.as_str().split_at(at);
    proof {
        assert(at as int == boundary_floor(bytes, cap as int));
        assert(bytes.subrange(0, at as int) =~= bytes.take(at as int));
        encode_utf8_decode_utf8(head@);
    }
    head.to_owned()
}

/// What a trimmed line does to the stanza that is being read: the line
/// `</>` closes it, the first line that is not empty is its key, and every
/// other line is added to its meaning.
pub open spec fn line_step(word: Seq<char>, meaning: Seq<char>, line: Seq<char>) -> (
    Seq<char>,
    Seq<char>,
    bool,
) {
    if line == "</>"@ {
        (word, meaning, true)
    } else if word.len() == 0 {
        (line, meaning, false)
    } else {
        (word, meaning + line, false)
    }
}

/// Takes the trimmed line `line` into the stanza that is being read, of
/// which `word` holds the key and `meaning` the meaning so far. Says whether
/// the line closes the stanza.
pub fn take_line(word: &mut String, meaning: &mut String, line: &str) -> (closed: bool)
    ensures
        (final(word)@, final(meaning)@, closed) == line_step(old(word)@, old(meaning)@, line@),
{
    if str_equal(line, "</>") {
        true
    } else if word.as_str().as_bytes().len() == 0 {
        proof {
            lemma_empty_bytes(word@);
        }
        *word = line.to_owned();
        false
    } else {
        proof {
            lemma_empty_bytes(word@);
        }
        meaning.append(line);
        false
    }
}

/// The key and the meaning of the stanza that is being read at line `pos`,
/// where `word` and `meaning` hold what the lines before gave, and the
/// position after the stanza's closing line. The first line that is not
/// empty is the key; the lines after it, joined, are the meaning; each line
/// is trimmed first. `None` where the lines end before the stanza is closed.
pub open spec fn stanza(lines: Seq<Seq<char>>, pos: int, word: Seq<char>, meaning: Seq<char>) -> Option<
    (Seq<char>, Seq<char>, int),
>
    decreases lines.len() - pos,
{
    if pos < 0 || pos >= lines.len() {
        None
    } else if trimmed(lines[pos]) == "</>"@ {
        Some((word, meaning, pos + 1))
    } else if word.len() == 0 {
        stanza(lines, pos + 1, trimmed(lines[pos]), meaning)
    } else {
        stanza(lines, pos + 1, word, meaning + trimmed(lines[pos]))
    }
}

/// The record of a stanza with the key line `word` and the meaning
/// `meaning`: both are cut to `limit` bytes and closed with NUL, and the key
/// is brought into normal form.
pub open spec fn stanza_record(word: Seq<char>, meaning: Seq<char>, limit: int) -> (
    Seq<char>,
    Seq<char>,
) {
    (normalized(capped(word, limit).push('\0')), capped(meaning, limit).push('\0'))
}

/// The records of the stanzas from line `pos` on, after those of `acc`.
pub open spec fn stanza_records(lines: Seq<Seq<char>>, pos: int, limit: int, acc: Records) -> Records
    decreases lines.len() - pos,
{
    match stanza(lines, pos, Seq::empty(), Seq::empty()) {
        None => acc,
        Some(found) => if pos < found.2 <= lines.len() {
            stanza_records(
                lines,
                found.2,
                limit,
                acc.push(stanza_record(found.0, found.1, limit)),
            )
        } else {
            acc
        },
    }
}

/// A stanza ends behind the line at which it is read.
pub proof fn lemma_stanza_advances(lines: Seq<Seq<char>>, pos: int, word: Seq<char>, meaning: Seq<char>)
    ensures
        stanza(lines, pos, word, meaning) matches Some(found) ==> pos < found.2 <= lines.len(),
    decreases lines.len() - pos,
{
    if 0 <= pos < lines.len() && trimmed(lines[pos]) != "</>"@ {
        if word.len() == 0 {
            lemma_stanza_advances(lines, pos + 1, trimmed(lines[pos]), meaning);
        } else {
            lemma_stanza_advances(lines, pos + 1, word, meaning + trimmed(lines[pos]));
        }
    }
}

/// The records of a plain-text source, read stanza by stanza.
pub struct MDXSource {
    lines: Vec<String>,
    pos: usize,
    limit: usize,
}

impl MDXSource {
    /// The lines of the source.
    pub closed spec fn lines(&self) -> Seq<Seq<char>> {
        lines_view(self.lines@)
    }

    /// The line at which the next stanza is read.
    pub closed spec fn pos(&self) -> int {
        self.pos as int
    }

    /// The largest number of bytes of a key or a meaning.
    pub closed spec fn limit(&self) -> int {
        self.limit as int
    }

    /// The position lies in the lines.
    pub closed spec fn wf(&self) -> bool {
        self.pos <= self.lines@.len()
    }

    /// A reader at the first of `lines`, which cuts keys and meanings to
    /// two MiB.
    pub fn new(lines: Vec<String>) -> (source: MDXSource)
        ensures
            source.wf(),
            source.lines() == lines_view(lines@),
            source.pos() == 0,
            source.limit() == MAX_MDX_ITEM_SIZE,
    {
        MDXSource { lines, pos: 0, limit: MAX_MDX_ITEM_SIZE }
    }

    /// A reader at the first line of `text`, which cuts keys and meanings to
    /// two MiB.
    pub fn from_text(text: &str) -> (source: MDXSource)
        ensures
            source.wf(),
            source.lines() == text_lines(text@, 0, Seq::empty(), Seq::empty()),
            source.pos() == 0,
            source.limit() == MAX_MDX_ITEM_SIZE,
    {
        MDXSource::new(split_lines(text))
    }

    /// A reader at the first of `lines`, which cuts keys and meanings to
    /// `limit` bytes.
    pub fn with_limit(lines: Vec<String>, limit: usize) -> (source: MDXSource)
        ensures
            source.wf(),
            source.lines() == lines_view(lines@),
            source.pos() == 0,
            source.limit() == limit,
    {
        MDXSource { lines, pos: 0, limit }
    }

    /// Reads the next stanza; `None` where the lines end before a stanza is
    /// closed, and then all lines are consumed.
    pub fn next(&mut self) -> (record: Option<(String, String)>)
        requires
            old(self).wf(),
        ensures
            final(self).wf(),
            final(self).lines() == old(self).lines(),
            final(self).limit() == old(self).limit(),
            match stanza(old(self).lines(), old(self).pos(), Seq::empty(), Seq::empty()) {
                None => record is None && final(self).pos() == old(self).lines().len(),
                Some(found) => record is Some && (record.unwrap().0@, record.unwrap().1@)
                    == stanza_record(found.0, found.1, old(self).limit()) && final(self).pos()
                    == found.2,
            },
    {
        let mut word: String = String::new();
        let mut meaning: String = String::new();
        let ghost start = self.pos as int;
        let ghost lines = lines_view(self.lines@);
        let mut at: usize = self.pos;
        let mut closed: bool = false;
        while at < self.lines.len() && !closed
            invariant
                self.lines@ == old(self).lines@,
                self.limit == old(self).limit,
                lines == lines_view(self.lines@),
                at <= self.lines@.len(),
                !closed ==> stanza(lines, start, Seq::empty(), Seq::empty()) == stanza(
                    lines,
                    at as int,
                    word@,
                    meaning@,
                ),
                closed ==> stanza(lines, start, Seq::empty(), Seq::empty()) == Some(
                    (word@, meaning@, at as int),
                ),
            decreases self.lines@.len() - at + if closed { 0int } else { 1int },
        {
            let chars = str_chars(self.lines[at].as_str());
            let line = chars_to_string(trim_chars(chars.as_slice()).as_slice());
            proof {
                assert(lines[at as int] == self.lines@[at as int]@);
            }
            closed = take_line(&mut word, &mut meaning, line.as_str());
            at = at + 1;
        }
        self.pos = at;
        if !closed {
            return None;
        }
        let mut word = cap_text(word, self.limit);
        let mut meaning = cap_text(meaning, self.limit);
        let ghost cut_word = word@;
        let ghost cut_meaning = meaning@;
        proof {
            reveal_strlit("\0");
        }
        word.append("\0");
        meaning.append("\0");
        proof {
            assert("\0"@ =~= seq!['\0']);
            assert(word@ =~= cut_word.push('\0'));
            assert(meaning@ =~= cut_meaning.push('\0'));
        }
        Some((normalize_word(word.as_str()), meaning))
    }

    /// Reads all stanzas that are left.
    pub fn collect(&mut self) -> (records: Vec<(String, String)>)
        requires
            old(self).wf(),
        ensures
            final(self).wf(),
            final(self).lines() == old(self).lines(),
            pairs_view(records@) == stanza_records(
                old(self).lines(),
                old(self).pos(),
                old(self).limit(),
                Seq::empty(),
            ),
    {
        let mut records: Vec<(String, String)> = Vec::new();
        proof {
            assert(pairs_view(records@) =~= Seq::<(Seq<char>, Seq<char>)>::empty());
        }
        loop
            invariant
                self.wf(),
                self.lines() == old(self).lines(),
                self.limit() == old(self).limit(),
                stanza_records(
                    old(self).lines(),
                    old(self).pos(),
                    old(self).limit(),
                    Seq::empty(),
                ) == stanza_records(self.lines(), self.pos(), self.limit(), pairs_view(records@)),
            ensures
                pairs_view(records@) == stanza_records(
                    old(self).lines(),
                    old(self).pos(),
                    old(self).limit(),
                    Seq::empty(),
                ),
                self.wf(),
                self.lines() == old(self).lines(),
            decreases self.lines().len() - self.pos(),
        {
            let ghost before = pairs_view(records@);
            let ghost from = self.pos();
            proof {
                lemma_stanza_advances(self.lines(), from, Seq::empty(), Seq::empty());
            }
            match self.next() {
                None => {
                    break ;
                },
                Some(record) => {
                    records.push(record);
                    proof {
                        assert(pairs_view(records@) =~= before.push((record.0@, record.1@)));
                    }
                },
            }
        }
        records
    }
}

/// A text without bytes has no characters, and the other way round.
pub proof fn lemma_empty_bytes(text: Seq<char>)
    ensures
        encode_utf8(text).len() == 0 <==> text.len() == 0,
{
    encode_utf8_decode_utf8(text);
    if encode_utf8(text).len() == 0 {
        assert(encode_utf8(text) =~= Seq::<u8>::empty());
        assert(decode_utf8(Seq::<u8>::empty()) =~= Seq::<char>::empty());
    }
}

/// The header of an item of a structured source.
#[derive(Debug)]
pub struct WikitSourceItemHeader {
    /// The name of the item.
    pub name: String,
    /// The kind of the item.
    pub typ: String,
    /// The media type of the item's body.
    pub mime: String,
}

/// An item of a structured source.
#[derive(Debug)]
pub struct WikitSourceItem {
    /// The header of the item.
    pub header: WikitSourceItemHeader,
    /// The body of the item.
    pub body: String,
}

/// Where the reader of a structured source stands in an item.
#[derive(Clone, Copy, Debug, PartialEq, Eq, Structural)]
pub enum ItemPart {
    /// Before the item: the line `(` is awaited.
    Idle,
    /// In the header, which the line `) {` ends.
    Header,
    /// In the body, which the line `}` ends.
    Body,
    /// Behind the item.
    Done,
    /// At a line that is indented by one, two or three characters.
    Failed,
}

/// The number of white-space characters that `line` starts with.
pub open spec fn indent_of(line: Seq<char>) -> nat {
    (line.len() - trimmed_start(line).len()) as nat
}

/// Whether `content` is the line that ends a header: `)`, then spaces or
/// none, then `{`.
pub open spec fn ends_header(content: Seq<char>) -> bool {
    &&& content.len() >= 2
    &&& content[0] == ')'
    &&& content.last() == '{'
    &&& forall|i: int| 0 < i < content.len() - 1 ==> content[i] == ' '
}

/// The text that a line of a header or of a body gives: its content without
/// the first four characters, where the line is indented by four or more.
pub open spec fn item_text(indent: nat, content: Seq<char>) -> Seq<char> {
    if indent >= 4 && content.len() >= 4 {
        content.skip(4)
    } else {
        content
    }
}

/// What a line does to the item that is being read: where the reader
/// stands after it, and the texts of header and body. `indent` is the number
/// of white-space characters that the line starts with, and `content` the
/// line without the white space at its end.
pub open spec fn item_step(
    part: ItemPart,
    header: Seq<char>,
    body: Seq<char>,
    indent: nat,
    content: Seq<char>,
) -> (ItemPart, Seq<char>, Seq<char>) {
    match part {
        ItemPart::Idle => if content == seq!['('] {
            (ItemPart::Header, header, body)
        } else {
            (ItemPart::Idle, header, body)
        },
        ItemPart::Header => if ends_header(content) {
            (ItemPart::Body, header, body)
        } else if 0 < indent < 4 {
            (ItemPart::Failed, header, body)
        } else {
            (ItemPart::Header, header + item_text(indent, content) + seq!['\n'], body)
        },
        ItemPart::Body => if content == seq!['}'] {
            (ItemPart::Done, header, body)
        } else if 0 < indent < 4 {
            (ItemPart::Failed, header, body)
        } else {
            (ItemPart::Body, header, body + item_text(indent, content) + seq!['\n'])
        },
        _ => (part, header, body),
    }
}

/// Takes a line into the item that is being read.
pub fn take_item_line(
    part: ItemPart,
    header: &mut Vec<char>,
    body: &mut Vec<char>,
    indent: usize,
    content: &[char],
) -> (next: ItemPart)
    ensures
        (next, final(header)@, final(body)@) == item_step(
            part,
            old(header)@,
            old(body)@,
            indent as nat,
            content@,
        ),
{
    match part {
        ItemPart::Idle => {
            if content.len() == 1 && content[0] == '(' {
                proof {
                    assert(content@ =~= seq!['(']);
                }
                ItemPart::Header
            } else {
                ItemPart::Idle
            }
        },
        ItemPart::Header => {
            if is_header_end(content) {
                ItemPart::Body
            } else if 0 < indent && indent < 4 {
                ItemPart::Failed
            } else {
                push_item_text(header, indent, content);
                ItemPart::Header
            }
        },
        ItemPart::Body => {
            if content.len() == 1 && content[0] == '}' {
                proof {
                    assert(content@ =~= seq!['}']);
                }
                ItemPart::Done
            } else if 0 < indent && indent < 4 {
                ItemPart::Failed
            } else {
                push_item_text(body, indent, content);
                ItemPart::Body
            }
        },
        ItemPart::Done => ItemPart::Done,
        ItemPart::Failed => ItemPart::Failed,
    }
}

/// Whether `content` is the line that ends a header.
fn is_header_end(content: &[char]) -> (ends: bool)
    ensures
        ends == ends_header(content@),
{
    let len: usize = content.len();
    if len < 2 || content[0] != ')' || content[len - 1] != '{' {
        return false;
    }
    let mut i: usize = 1;
    while i < len - 1
        invariant
            2 <= len == content@.len(),
            1 <= i <= len - 1,
            forall|j: int| 0 < j < i ==> content@[j] == ' ',
        decreases len - i,
    {
        if content[i] != ' ' {
            return false;
        }
        i = i + 1;
    }
    true
}

/// Appends the text of a line and a line feed to `text`.
fn push_item_text(text: &mut Vec<char>, indent: usize, content: &[char])
    ensures
        final(text)@ == old(text)@ + item_text(indent as nat, content@) + seq!['\n'],
{
    let ghost before = text@;
    let start: usize = if indent >= 4 && content.len() >= 4 { 4 } else { 0 };
    let mut i: usize = start;
    while i < content.len()
        invariant
            start <= i <= content@.len(),
            text@ == before + content@.subrange(start as int, i as int),
        decreases content@.len() - i,
    {
        text.push(content[i]);
        proof {
            assert(content@.subrange(start as int, i + 1) =~= content@.subrange(
                start as int,
                i as int,
            ).push(content@[i as int]));
        }
        i = i + 1;
    }
    text.push('\n');
    proof {
        assert(content@.subrange(start as int, content@.len() as int) =~= item_text(
            indent as nat,
            content@,
        ));
        assert(text@ =~= before + item_text(indent as nat, content@) + seq!['\n']);
    }
}

/// Measures a line: the number of white-space characters that it starts
/// with, and its characters without the white space at its end.
pub fn measure_line(line: &[char]) -> (measure: (usize, Vec<char>))
    ensures
        measure.0 == indent_of(line@),
        measure.1@ == trimmed_end(line@),
{
    let (indent, end) = measure(line);
    proof {
        lemma_trimmed_start(line@, 0);
        lemma_trimmed_end(line@, line@.len() as int);
        assert(line@.skip(0) =~= line@);
        assert(line@.take(line@.len() as int) =~= line@);
        assert(line@.skip(indent as int).len() == line@.len() - indent);
        assert(line@.subrange(0, end as int) =~= line@.take(end as int));
    }
    (indent, copy_chars(line, 0, end))
}

/// The item that is being read at line `pos`, where the reader stands at
/// `part` and `header` and `body` hold what the lines before gave: the texts
/// of its header and its body and the position behind its last line. `None`
/// where the lines end before the item does, or a line of the item is
/// indented by one, two or three characters; then all lines up to that one
/// are consumed.
pub open spec fn item(
    lines: Seq<Seq<char>>,
    pos: int,
    part: ItemPart,
    header: Seq<char>,
    body: Seq<char>,
) -> (Option<(Seq<char>, Seq<char>)>, int)
    decreases lines.len() - pos,
{
    if part == ItemPart::Done {
        (Some((header, body)), pos)
    } else if part == ItemPart::Failed || pos < 0 || pos >= lines.len() {
        (None, pos)
    } else {
        let next = item_step(part, header, body, indent_of(lines[pos]), trimmed_end(lines[pos]));
        item(lines, pos + 1, next.0, next.1, next.2)
    }
}

/// The items of a structured source, read one by one. An item is a line
/// `(`, the lines of its header, a line `) {`, the lines of its body and a
/// line `}`. A line of header or body is indented by four characters, which
/// are dropped, or not at all.
pub struct WikitSource {
    lines: Vec<String>,
    lineno: usize,
}

impl WikitSource {
    /// The lines of the source.
    pub closed spec fn lines(&self) -> Seq<Seq<char>> {
        lines_view(self.lines@)
    }

    /// The number of lines that are consumed.
    pub closed spec fn lineno(&self) -> int {
        self.lineno as int
    }

    /// The position lies in the lines.
    pub closed spec fn wf(&self) -> bool {
        self.lineno <= self.lines@.len()
    }

    /// A reader at the first of `lines`.
    pub fn new(lines: Vec<String>) -> (source: WikitSource)
        ensures
            source.wf(),
            source.lines() == lines_view(lines@),
            source.lineno() == 0,
    {
        WikitSource { lines, lineno: 0 }
    }

    /// Reads the next item: the text of its header and the text of its body,
    /// each line closed by a line feed. `None` where no item is left, where
    /// an item breaks off or is wrongly indented, and where the header of an
    /// item is empty.
    pub fn next(&mut self) -> (raw: Option<(String, String)>)
        requires
            old(self).wf(),
        ensures
            final(self).wf(),
            final(self).lines() == old(self).lines(),
            final(self).lineno() == item(
                old(self).lines(),
                old(self).lineno(),
                ItemPart::Idle,
                Seq::empty(),
                Seq::empty(),
            ).1,
            match item(
                old(self).lines(),
                old(self).lineno(),
                ItemPart::Idle,
                Seq::empty(),
                Seq::empty(),
            ).0 {
                Some(found) => if found.0.len() > 0 {
                    raw is Some && raw.unwrap().0@ == found.0 && raw.unwrap().1@ == found.1
                } else {
                    raw is None
                },
                None => raw is None,
            },
    {
        let mut header: Vec<char> = Vec::new();
        let mut body: Vec<char> = Vec::new();
        let mut part: ItemPart = ItemPart::Idle;
        let ghost lines = lines_view(self.lines@);
        let ghost start = self.lineno as int;
        let mut at: usize = self.lineno;
        while at < self.lines.len() && part != ItemPart::Done && part != ItemPart::Failed
            invariant
                self.lines@ == old(self).lines@,
                lines == lines_view(self.lines@),
                at <= self.lines@.len(),
                item(lines, start, ItemPart::Idle, Seq::empty(), Seq::empty()) == item(
                    lines,
                    at as int,
                    part,
                    header@,
                    body@,
                ),
            decreases self.lines@.len() - at,
        {
            let chars = str_chars(self.lines[at].as_str());
            let (indent, content) = measure_line(chars.as_slice());
            proof {
                assert(lines[at as int] == self.lines@[at as int]@);
            }
            part = take_item_line(part, &mut header, &mut body, indent, content.as_slice());
            at = at + 1;
        }
        self.lineno = at;
        if part == ItemPart::Done && header.len() > 0 {
            Some((chars_to_string(header.as_slice()), chars_to_string(body.as_slice())))
        } else {
            None
        }
    }
}

} // verus!
