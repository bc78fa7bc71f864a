//! What a server and its clients tell each other of dictionaries.

use vstd::prelude::*;

verus! {

/// A dictionary as a server lists it.
#[derive(Debug)]
pub struct DictMeta {
    /// The name of the dictionary.
    pub name: String,
    /// The identifier under which the server knows it.
    pub id: String,
}

/// The answer to a lookup, as a client shows it.
#[derive(Debug)]
pub struct LookupResponse {
    /// The answers: keys with their meanings.
    pub words: Vec<(String, String)>,
    /// The tag that loads the dictionary's script.
    pub script: String,
    /// The tag that loads the dictionary's style sheet.
    pub style: String,
}

impl LookupResponse {
    /// An answer with these words and tags.
    pub fn new(words: Vec<(String, String)>, script: String, style: String) -> (response:
        LookupResponse)
        ensures
            response.words@ == words@,
            response.script@ == script@,
            response.style@ == style@,
    {
        LookupResponse { words, script, style }
    }
}

} // verus!
