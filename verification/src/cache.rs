//! What a process keeps of dictionaries between lookups.

use crate::wikit::WikitDictionary;
use vstd::prelude::*;

verus! {

/// A value that is kept under a name.
#[derive(Debug)]
pub enum CacheValue {
    /// A list of texts.
    StringList(Vec<String>),
    /// A dictionary.
    WikitDictionary(WikitDictionary),
}

} // verus!
