//! A dictionary engine: reads MDX archives and plain-text sources, compiles
//! them into a random-access dictionary image, and answers lookups on it.
//!
//! Sources are read by `mdict` (MDX archives, with the codecs of `codec` and
//! the checksum of `checksum`) and by `reader` (plain text). `records` brings
//! their records into the order of a dictionary, `wikit` compiles them into
//! an image, loads an image and looks words up in it, and `index` holds the
//! ordered index of the image. `archive` writes records as an MDX archive,
//! in the order that `stable` gives them, which keeps every record.
//!
//! `layout`, `answers`, `laws` and `readback` hold what is proved of the
//! whole: where the parts of an image lie, which records a dictionary
//! answers with, that a damaged archive is refused, and that an archive is
//! read back as it was written.
//!
//! Keys are kept in normal form (`util::normalize_word`). Where a source
//! holds several records with one key, a dictionary keeps the first of
//! them.

pub mod answers;
pub mod archive;
pub mod bytes;
pub mod cache;
pub mod checksum;
pub mod cli;
pub mod codec;
pub mod config;
pub mod error;
pub mod index;
pub mod laws;
pub mod layout;
pub mod mdict;
pub mod proto;
pub mod readback;
pub mod reader;
pub mod records;
pub mod stable;
pub mod uri;
pub mod util;
pub mod wikit;
