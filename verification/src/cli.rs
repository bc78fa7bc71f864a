//! What the command line tells of a dictionary: the kind of a resource, and
//! the description of an MDX archive that is to be written.

use crate::bytes::bytes_equal;
use vstd::prelude::*;
use vstd::slice::slice_subrange;
use vstd::string::StringExecFns;
use vstd::utf8::encode_utf8;

verus! {

/// What an MDX archive says of itself.
#[derive(Debug)]
pub struct MDXMeta {
    /// The title of the dictionary.
    pub title: String,
    /// The author of the dictionary.
    pub author: String,
    /// A description of the dictionary.
    pub description: String,
}

/// The text of a description: its three fields between parentheses, one on
/// each line.
pub open spec fn meta_text(title: Seq<char>, author: Seq<char>, description: Seq<char>) -> Seq<char> {
    "(\n    title: \""@ + title + "\",\n    author: \""@ + author + "\",\n    description: \""@
        + description + "\",\n)"@
}

impl MDXMeta {
    /// The description of a dictionary of which nothing is known.
    pub fn default() -> (meta: MDXMeta)
        ensures
            meta.title@ == "A generic MDX dictionary"@,
            meta.author@ == "An anonymous hero"@,
            meta.description@ == "Just for fun"@,
    {
        MDXMeta {
            title: "A generic MDX dictionary".to_owned(),
            author: "An anonymous hero".to_owned(),
            description: "Just for fun".to_owned(),
        }
    }

    /// The description as text, in the form in which a meta file holds it.
    pub fn to_string(&self) -> (text: String)
        ensures
            text@ == meta_text(self.title@, self.author@, self.description@),
    {
        let mut text: String = "(\n    title: \"".to_owned();
        text.append(self.title.as_str());
        text.append("\",\n    author: \"");
        text.append(self.author.as_str());
        text.append("\",\n    description: \"");
        text.append(self.description.as_str());
        text.append("\",\n)");
        proof {
            assert(text@ =~= meta_text(self.title@, self.author@, self.description@));
        }
        text
    }
}

/// The kinds of resource that the command line reads and writes.
#[derive(Clone, Copy, Debug, PartialEq, Eq, Structural)]
pub enum ResourceFormat {
    /// A plain-text source: `.txt`.
    TEXT,
    /// A dictionary image: `.wikit`.
    WIKIT,
    /// An MDX archive: `.mdx`.
    MDX,
    /// A table of a PostgreSQL database: `postgresql://`.
    POSTGRES,
    /// A dictionary bundle of macOS: `.dictionary`.
    MACDICT,
}

/// The last position at which `buf` holds `b` before `end`, or -1 where
/// there is none.
pub open spec fn last_index_of(buf: Seq<u8>, end: int, b: u8) -> int
    decreases end,
{
    if end <= 0 || end > buf.len() {
        -1
    } else if buf[end - 1] == b {
        end - 1
    } else {
        last_index_of(buf, end - 1, b)
    }
}

/// Where the name of the file ends in `path`, seen from `end`: slashes at
/// the end of a path do not count, and neither does a lone point behind a
/// slash, which stands for the directory itself.
pub open spec fn name_end(path: Seq<u8>, end: int) -> int
    decreases end,
{
    if end <= 0 || end > path.len() {
        0
    } else if path[end - 1] == 0x2f {
        name_end(path, end - 1)
    } else if path[end - 1] == 0x2e && (end == 1 || path[end - 2] == 0x2f) {
        name_end(path, end - 1)
    } else {
        end
    }
}

/// The name of the file that `path` names: its last part between slashes
/// that is neither empty nor a lone point.
pub open spec fn file_name(path: Seq<u8>) -> Seq<u8> {
    let end = name_end(path, path.len() as int);
    path.subrange(last_index_of(path, end, 0x2f) + 1, end)
}

/// The extension of the file that `path` names: what follows the last point
/// of the file's name. `None` where the name has no point, only starts
/// with its one point, or is `..`.
pub open spec fn extension(path: Seq<u8>) -> Option<Seq<u8>> {
    let name = file_name(path);
    let dot = last_index_of(name, name.len() as int, 0x2e);
    if dot <= 0 || name == seq![0x2eu8, 0x2eu8] {
        None
    } else {
        Some(name.skip(dot + 1))
    }
}

/// Whether `text` starts with `prefix`.
pub open spec fn starts_with(text: Seq<u8>, prefix: Seq<u8>) -> bool {
    prefix.len() <= text.len() && text.take(prefix.len() as int) == prefix
}

/// The kind of the resource that `input` names: a database for an address
/// that starts with `postgresql://`, and otherwise what the extension of the
/// file says.
pub open spec fn resource_format(input: Seq<char>) -> Option<ResourceFormat> {
    let bytes = encode_utf8(input);
    if starts_with(bytes, encode_utf8("postgresql://"@)) {
        Some(ResourceFormat::POSTGRES)
    } else {
        match extension(bytes) {
            None => None,
            Some(ext) => if ext == encode_utf8("txt"@) || ext == encode_utf8("TXT"@) {
                Some(ResourceFormat::TEXT)
            } else if ext == encode_utf8("mdx"@) || ext == encode_utf8("MDX"@) {
                Some(ResourceFormat::MDX)
            } else if ext == encode_utf8("wikit"@) || ext == encode_utf8("WIKIT"@) {
                Some(ResourceFormat::WIKIT)
            } else if ext == encode_utf8("dictionary"@) {
                Some(ResourceFormat::MACDICT)
            } else {
                None
            },
        }
    }
}

/// Finds the last position before `end` at which `buf` holds `b`; `end`
/// where there is none.
fn find_last(buf: &[u8], end: usize, b: u8) -> (at: usize)
    requires
        end <= buf@.len(),
    ensures
        at < end ==> at as int == last_index_of(buf@, end as int, b),
        at >= end ==> at == end && last_index_of(buf@, end as int, b) == -1,
{
    let mut at: usize = end;
    while at > 0
        invariant
            at <= end <= buf@.len(),
            last_index_of(buf@, end as int, b) == last_index_of(buf@, at as int, b),
        decreases at,
    {
        if buf[at - 1] == b {
            return at - 1;
        }
        at = at - 1;
    }
    end
}

/// Finds where the name of the file ends in `path`.
fn find_name_end(path: &[u8]) -> (end: usize)
    ensures
        end as int == name_end(path@, path@.len() as int),
        end <= path@.len(),
{
    let mut end: usize = path.len();
    while end > 0 && (path[end - 1] == 0x2f || (path[end - 1] == 0x2e && (end == 1 || path[end - 2]
        == 0x2f)))
        invariant
            end <= path@.len(),
            name_end(path@, path@.len() as int) == name_end(path@, end as int),
        decreases end,
    {
        end = end - 1;
    }
    end
}

impl ResourceFormat {
    /// Tells the kind of the resource that `input` names.
    pub fn new(input: &str) -> (format: Option<ResourceFormat>)
        ensures
            format == resource_format(input@),
    {
        let bytes = input.as_bytes();
        let scheme = "postgresql://".as_bytes();
        if scheme.len() <= bytes.len() {
            let head = slice_subrange(bytes, 0, scheme.len());
            proof {
                assert(head@ =~= bytes@.take(scheme@.len() as int));
            }
            if bytes_equal(head, scheme) {
                return Some(ResourceFormat::POSTGRES);
            }
        }
        let end: usize = find_name_end(bytes);
        let slash: usize = find_last(bytes, end, 0x2f);
        let start: usize = if slash < end { slash + 1 } else { 0 };
        let name = slice_subrange(bytes, start, end);
        proof {
            assert(name@ =~= file_name(bytes@));
        }
        let dot: usize = find_last(name, name.len(), 0x2e);
        if dot >= name.len() || dot == 0 {
            return None;
        }
        if name.len() == 2 && name[0] == 0x2e && name[1] == 0x2e {
            proof {
                assert(name@ =~= seq![0x2eu8, 0x2eu8]);
            }
            return None;
        }
        let ext = slice_subrange(name, dot + 1, name.len());
        proof {
            assert(name@ != seq![0x2eu8, 0x2eu8]) by {
                if name@.len() == 2 {
                    assert(seq![0x2eu8, 0x2eu8][0] == 0x2e && seq![0x2eu8, 0x2eu8][1] == 0x2e);
                }
            }
            assert(ext@ =~= name@.skip(dot + 1));
        }
        if bytes_equal(ext, "txt".as_bytes()) || bytes_equal(ext, "TXT".as_bytes()) {
            Some(ResourceFormat::TEXT)
        } else if bytes_equal(ext, "mdx".as_bytes()) || bytes_equal(ext, "MDX".as_bytes()) {
            Some(ResourceFormat::MDX)
        } else if bytes_equal(ext, "wikit".as_bytes()) || bytes_equal(ext, "WIKIT".as_bytes()) {
            Some(ResourceFormat::WIKIT)
        } else if bytes_equal(ext, "dictionary".as_bytes()) {
            Some(ResourceFormat::MACDICT)
        } else {
            None
        }
    }
}

} // verus!
