//! Key normalization, small string helpers, and the splitter of command lines.

use crate::bytes::bytes_equal;
use vstd::prelude::*;
use vstd::utf8::encode_utf8_decode_utf8;

verus! {

/// The lowercase form of a text, as Unicode defines it.
pub uninterp spec fn lowercased(text: Seq<char>) -> Seq<char>;

/// Whether a character has Unicode's `White_Space` property: the controls
/// from tab to carriage return, the space, the next-line control, the
/// no-break space, the Ogham space mark, the spaces from en quad to hair
/// space, the line and paragraph separators, the narrow no-break space, the
/// medium mathematical space and the ideographic space.
pub open spec fn white_space(c: char) -> bool {
    let code = c as u32;
    ||| 0x09 <= code <= 0x0d
    ||| code == 0x20
    ||| code == 0x85
    ||| code == 0xa0
    ||| code == 0x1680
    ||| 0x2000 <= code <= 0x200a
    ||| code == 0x2028
    ||| code == 0x2029
    ||| code == 0x202f
    ||| code == 0x205f
    ||| code == 0x3000
}

/// `text` without its leading white space.
pub open spec fn trimmed_start(text: Seq<char>) -> Seq<char>
    decreases text.len(),
{
    if text.len() > 0 && white_space(text[0]) {
        trimmed_start(text.drop_first())
    } else {
        text
    }
}

/// `text` without its trailing white space.
pub open spec fn trimmed_end(text: Seq<char>) -> Seq<char>
    decreases text.len(),
{
    if text.len() > 0 && white_space(text.last()) {
        trimmed_end(text.drop_last())
    } else {
        text
    }
}

/// `text` without the white space at its two ends.
pub open spec fn trimmed(text: Seq<char>) -> Seq<char> {
    trimmed_end(trimmed_start(text))
}

/// `text` without one NUL at its end, where it ends in one.
pub open spec fn strip_nul(text: Seq<char>) -> Seq<char> {
    if text.len() > 0 && text.last() == '\0' {
        text.drop_last()
    } else {
        text
    }
}

/// The normal form of a key: one trailing NUL removed, then lowercased.
pub open spec fn normalized(key: Seq<char>) -> Seq<char> {
    lowercased(strip_nul(key))
}

/// Calls `str::to_lowercase` on `text`.
/// Trusted: the result is the lowercase form that `lowercased` names.
#[verifier::external_body]
pub(crate) fn to_lowercase(text: &str) -> (lower: String)
    ensures
        lower@ == lowercased(text@),
{
    text.to_lowercase()
}

/// Tells whether `c` has Unicode's `White_Space` property.
pub fn is_white_space(c: char) -> (white: bool)
    ensures
        white == white_space(c),
{
    let code: u32 = c as u32;
    (0x09 <= code && code <= 0x0d) || code == 0x20 || code == 0x85 || code == 0xa0 || code
        == 0x1680 || (0x2000 <= code && code <= 0x200a) || code == 0x2028 || code == 0x2029
        || code == 0x202f || code == 0x205f || code == 0x3000
}

/// The characters of a text.
pub fn str_chars(text: &str) -> (chars: Vec<char>)
    ensures
        chars@ == text@,
{
    let mut chars: Vec<char> = Vec::new();
    for c in it: text.chars()
        invariant
            chars@ == it.seq().take(it.index() as int),
            it.seq() == text@,
    {
        chars.push(c);
    }
    chars
}

/// Calls `String::push` on `text` with `c`.
/// Trusted: `text` then ends in `c`, behind what it held.
#[verifier::external_body]
pub(crate) fn push_char(text: &mut String, c: char)
    ensures
        final(text)@ == old(text)@.push(c),
{
    text.push(c)
}

/// The text that holds the characters `chars`.
pub fn chars_to_string(chars: &[char]) -> (text: String)
    ensures
        text@ == chars@,
{
    let mut text: String = String::new();
    let mut i: usize = 0;
    while i < chars.len()
        invariant
            i <= chars@.len(),
            text@ == chars@.take(i as int),
        decreases chars@.len() - i,
    {
        push_char(&mut text, chars[i]);
        proof {
            assert(chars@.take(i + 1) =~= chars@.take(i as int).push(chars@[i as int]));
        }
        i = i + 1;
    }
    proof {
        assert(chars@.take(i as int) =~= chars@);
    }
    text
}

/// A text without its NUL characters.
pub open spec fn without_nuls(text: Seq<char>) -> Seq<char> {
    text.filter(|c: char| c != '\0')
}

/// Drops the NUL characters from a text.
pub fn drop_nuls(text: &str) -> (clean: String)
    ensures
        clean@ == without_nuls(text@),
{
    let chars = str_chars(text);
    let mut kept: Vec<char> = Vec::new();
    let mut i: usize = 0;
    proof {
        reveal(Seq::filter);
        assert(chars@.take(0) =~= Seq::<char>::empty());
    }
    while i < chars.len()
        invariant
            i <= chars@.len(),
            kept@ == without_nuls(chars@.take(i as int)),
        decreases chars@.len() - i,
    {
        proof {
            reveal(Seq::filter);
            assert(chars@.take(i + 1).drop_last() =~= chars@.take(i as int));
            assert(chars@.take(i + 1).last() == chars@[i as int]);
        }
        if chars[i] != '\0' {
            kept.push(chars[i]);
        }
        i = i + 1;
    }
    proof {
        assert(chars@.take(i as int) =~= chars@);
    }
    chars_to_string(kept.as_slice())
}

/// The position of the first character of `line` from `from` on that is no
/// white space, or the length of `line`.
pub open spec fn first_ink(line: Seq<char>, from: int) -> int
    decreases line.len() - from,
{
    if from < 0 || from > line.len() {
        line.len() as int
    } else if from == line.len() || !white_space(line[from]) {
        from
    } else {
        first_ink(line, from + 1)
    }
}

/// The text behind the leading white space of a line starts at the line's
/// first character that is no white space.
pub proof fn lemma_trimmed_start(line: Seq<char>, from: int)
    requires
        0 <= from <= line.len(),
    ensures
        from <= first_ink(line, from) <= line.len(),
        trimmed_start(line.skip(from)) == line.skip(first_ink(line, from)),
    decreases line.len() - from,
{
    if from < line.len() && white_space(line[from]) {
        lemma_trimmed_start(line, from + 1);
        assert(line.skip(from).drop_first() =~= line.skip(from + 1));
    }
}

/// The position behind the last character of `line` before `end` that is no
/// white space, or 0.
pub open spec fn last_ink(line: Seq<char>, end: int) -> int
    decreases end,
{
    if end <= 0 || end > line.len() {
        0
    } else if !white_space(line[end - 1]) {
        end
    } else {
        last_ink(line, end - 1)
    }
}

/// The text before the trailing white space of a line ends behind the
/// line's last character that is no white space.
pub proof fn lemma_trimmed_end(line: Seq<char>, end: int)
    requires
        0 <= end <= line.len(),
    ensures
        0 <= last_ink(line, end) <= end,
        trimmed_end(line.take(end)) == line.take(last_ink(line, end)),
    decreases end,
{
    if end > 0 && white_space(line[end - 1]) {
        lemma_trimmed_end(line, end - 1);
        assert(line.take(end).drop_last() =~= line.take(end - 1));
    }
}

/// The characters of `chars` from `start` up to `end`.
pub fn copy_chars(chars: &[char], start: usize, end: usize) -> (part: Vec<char>)
    requires
        start <= end <= chars@.len(),
    ensures
        part@ == chars@.subrange(start as int, end as int),
{
    let mut part: Vec<char> = Vec::new();
    let mut i: usize = start;
    while i < end
        invariant
            start <= i <= end <= chars@.len(),
            part@ == chars@.subrange(start as int, i as int),
        decreases end - i,
    {
        part.push(chars[i]);
        proof {
            assert(chars@.subrange(start as int, i + 1) =~= chars@.subrange(
                start as int,
                i as int,
            ).push(chars@[i as int]));
        }
        i = i + 1;
    }
    part
}

/// Measures a line: the number of white-space characters that it starts
/// with, and the position behind its last character that is no white space.
pub fn measure(line: &[char]) -> (ends: (usize, usize))
    ensures
        ends.0 as int == first_ink(line@, 0),
        ends.1 as int == last_ink(line@, line@.len() as int),
        ends.0 <= line@.len(),
        ends.1 <= line@.len(),
{
    let len: usize = line.len();
    let mut start: usize = 0;
    while start < len && is_white_space(line[start])
        invariant
            start <= len == line@.len(),
            first_ink(line@, 0) == first_ink(line@, start as int),
        decreases len - start,
    {
        start = start + 1;
    }
    let mut end: usize = len;
    while end > 0 && is_white_space(line[end - 1])
        invariant
            end <= len == line@.len(),
            last_ink(line@, len as int) == last_ink(line@, end as int),
        decreases end,
    {
        end = end - 1;
    }
    (start, end)
}

/// White space is found from the two ends alike: where a line holds a
/// character that is no white space, the first such stands before the last.
pub proof fn lemma_ink_order(line: Seq<char>)
    ensures
        first_ink(line, 0) < line.len() ==> first_ink(line, 0) < last_ink(line, line.len() as int),
        first_ink(line, 0) >= line.len() ==> last_ink(line, line.len() as int) == 0,
{
    lemma_first_ink(line, 0);
    lemma_last_ink(line, line.len() as int);
    let first = first_ink(line, 0);
    let last = last_ink(line, line.len() as int);
    if first < line.len() {
        if last <= first {
            assert(white_space(line[first]));
        }
    } else if last > 0 {
        assert(white_space(line[last - 1]));
    }
}

/// Before the first character that is no white space stands white space
/// only.
pub proof fn lemma_first_ink(line: Seq<char>, from: int)
    requires
        0 <= from <= line.len(),
    ensures
        from <= first_ink(line, from) <= line.len(),
        forall|i: int| from <= i < first_ink(line, from) ==> white_space(line[i]),
        first_ink(line, from) < line.len() ==> !white_space(line[first_ink(line, from)]),
    decreases line.len() - from,
{
    if from < line.len() && white_space(line[from]) {
        lemma_first_ink(line, from + 1);
    }
}

/// Behind the last character that is no white space stands white space
/// only.
pub proof fn lemma_last_ink(line: Seq<char>, end: int)
    requires
        0 <= end <= line.len(),
    ensures
        0 <= last_ink(line, end) <= end,
        forall|i: int| last_ink(line, end) <= i < end ==> white_space(line[i]),
        last_ink(line, end) > 0 ==> !white_space(line[last_ink(line, end) - 1]),
    decreases end,
{
    if end > 0 && white_space(line[end - 1]) {
        lemma_last_ink(line, end - 1);
    }
}

/// The trailing white space of a text is that of any of its ends that
/// starts before the text's last character that is no white space.
pub proof fn lemma_trimmed_end_of_skip(line: Seq<char>, from: int)
    requires
        0 <= from <= last_ink(line, line.len() as int),
        from <= line.len(),
    ensures
        trimmed_end(line.skip(from)) == line.subrange(from, last_ink(line, line.len() as int)),
{
    let rest = line.skip(from);
    let last = last_ink(line, line.len() as int);
    lemma_last_ink(line, line.len() as int);
    lemma_last_ink(rest, rest.len() as int);
    lemma_trimmed_end(rest, rest.len() as int);
    let inner = last_ink(rest, rest.len() as int);
    assert(rest.take(rest.len() as int) =~= rest);
    if inner < last - from {
        assert(white_space(rest[last - from - 1]));
    } else if inner > last - from {
        assert(white_space(line[from + inner - 1]));
    }
    assert(rest.take(inner) =~= line.subrange(from, last));
}

/// Removes the white space at the two ends of a text.
pub fn trim_chars(chars: &[char]) -> (inner: Vec<char>)
    ensures
        inner@ == trimmed(chars@),
{
    let (start, end) = measure(chars);
    proof {
        lemma_ink_order(chars@);
        lemma_trimmed_start(chars@, 0);
        assert(chars@.skip(0) =~= chars@);
    }
    if start >= chars.len() {
        proof {
            assert(chars@.skip(start as int) =~= Seq::<char>::empty());
        }
        return Vec::new();
    }
    proof {
        lemma_trimmed_end_of_skip(chars@, start as int);
    }
    copy_chars(chars, start, end)
}

/// Whether `a` and `b` hold the same characters.
pub fn str_equal(a: &str, b: &str) -> (same: bool)
    ensures
        same == (a@ == b@),
{
    let same = bytes_equal(a.as_bytes(), b.as_bytes());
    proof {
        encode_utf8_decode_utf8(a@);
        encode_utf8_decode_utf8(b@);
    }
    same
}

/// Brings a key into its normal form: removes one trailing NUL, where there
/// is one, and lowercases the rest.
pub fn normalize_word(word: &str) -> (key: String)
    ensures
        key@ == normalized(word@),
{
    let chars = str_chars(word);
    let len: usize = chars.len();
    if len > 0 && chars[len - 1] == '\0' {
        let rest = copy_chars(chars.as_slice(), 0, len - 1);
        proof {
            assert(rest@ =~= word@.drop_last());
        }
        to_lowercase(chars_to_string(rest.as_slice()).as_str())
    } else {
        to_lowercase(word)
    }
}

/// Splits a command line into its arguments. Arguments are separated by
/// spaces; a part between two equal quote characters (`'` or `"`) belongs to
/// one argument with its spaces, and the quote characters are dropped.
pub struct ArgParser {
    chars: Vec<char>,
    consumed: usize,
    total: usize,
}

/// The argument that starts at `pos` of `chars`, and the position after it.
/// `quote` says whether `pos` lies inside a quoted part that `quotech`
/// opened, `spaced` whether the spaces that end the argument have begun, and
/// `arg` holds what was gathered before `pos`.
pub open spec fn scan_arg(
    chars: Seq<char>,
    pos: int,
    quote: bool,
    quotech: char,
    spaced: bool,
    arg: Seq<char>,
) -> (Seq<char>, int)
    decreases chars.len() - pos,
{
    if pos < 0 || pos >= chars.len() {
        (arg, chars.len() as int)
    } else {
        let c = chars[pos];
        if quote || c == '\'' || c == '"' {
            if spaced {
                (arg, pos)
            } else if quote {
                if c == quotech {
                    scan_arg(chars, pos + 1, false, quotech, spaced, arg)
                } else {
                    scan_arg(chars, pos + 1, true, quotech, spaced, arg.push(c))
                }
            } else {
                scan_arg(chars, pos + 1, true, c, spaced, arg)
            }
        } else if c == ' ' {
            scan_arg(chars, pos + 1, quote, quotech, true, arg)
        } else if spaced {
            (arg, pos)
        } else {
            scan_arg(chars, pos + 1, quote, quotech, spaced, arg.push(c))
        }
    }
}

/// The argument that starts at `pos` of `chars`, and the position after it.
pub open spec fn next_arg(chars: Seq<char>, pos: int) -> (Seq<char>, int) {
    scan_arg(chars, pos, false, ' ', false, Seq::empty())
}

impl ArgParser {
    /// The characters of the command line, without the white space at its
    /// two ends.
    pub closed spec fn chars(&self) -> Seq<char> {
        self.chars@
    }

    /// How many characters have been consumed.
    pub closed spec fn consumed(&self) -> int {
        self.consumed as int
    }

    /// The position never passes the end of the line.
    pub closed spec fn wf(&self) -> bool {
        &&& self.total == self.chars@.len()
        &&& self.consumed <= self.total
    }

    /// A parser at the start of `buf`, which is trimmed first.
    pub fn new(buf: &str) -> (parser: ArgParser)
        ensures
            parser.wf(),
            parser.chars() == trimmed(buf@),
            parser.consumed() == 0,
    {
        let chars = trim_chars(str_chars(buf).as_slice());
        let total: usize = chars.len();
        ArgParser { chars, consumed: 0, total }
    }

    /// The next argument; `None` once the line is consumed.
    pub fn next(&mut self) -> (arg: Option<String>)
        requires
            old(self).wf(),
        ensures
            final(self).wf(),
            final(self).chars() == old(self).chars(),
            old(self).consumed() >= old(self).chars().len() ==> arg is None,
            old(self).consumed() >= old(self).chars().len() ==> final(self).consumed() == old(self).consumed(),
            old(self).consumed() < old(self).chars().len() ==> arg is Some,
            old(self).consumed() < old(self).chars().len() ==> arg.unwrap()@ == next_arg(
                old(self).chars(),
                old(self).consumed(),
            ).0,
            old(self).consumed() < old(self).chars().len() ==> final(self).consumed() == next_arg(
                old(self).chars(),
                old(self).consumed(),
            ).1,
    {
        if self.consumed >= self.total {
            return None;
        }
        let ghost start = self.consumed as int;
        let mut arg: Vec<char> = Vec::new();
        let mut quote: bool = false;
        let mut quotech: char = ' ';
        let mut spaced: bool = false;
        let mut pos: usize = self.consumed;
        let mut done: bool = false;
        while pos < self.total && !done
            invariant
                self.total == self.chars@.len(),
                self.chars@ == old(self).chars@,
                pos <= self.total,
                done ==> (arg@, pos as int) == next_arg(self.chars@, start),
                !done ==> next_arg(self.chars@, start) == scan_arg(
                    self.chars@,
                    pos as int,
                    quote,
                    quotech,
                    spaced,
                    arg@,
                ),
            decreases self.total - pos + if done { 0int } else { 1int },
        {
            let c: char = self.chars[pos];
            if quote || c == '\'' || c == '"' {
                if spaced {
                    done = true;
                } else if quote {
                    if c == quotech {
                        quote = false;
                    } else {
                        arg.push(c);
                    }
                    pos = pos + 1;
                } else {
                    quote = true;
                    quotech = c;
                    pos = pos + 1;
                }
            } else if c == ' ' {
                spaced = true;
                pos = pos + 1;
            } else if spaced {
                done = true;
            } else {
                arg.push(c);
                pos = pos + 1;
            }
        }
        self.consumed = pos;
        Some(chars_to_string(arg.as_slice()))
    }
}

} // verus!
