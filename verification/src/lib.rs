//! A daily work-journal library: dated entry files holding a TODO section
//! whose uncompleted items roll over into the next day's entry.
//!
//! The library is pure logic: parsing and serializing todo lines and entry
//! documents, decoding and ordering the date tokens that name entry files,
//! and building a new entry from the most recent prior one. All file system
//! access and editor handling live outside the library and hand it plain
//! values.

pub mod dates;
pub mod journal;
pub mod laws;
pub mod text;
