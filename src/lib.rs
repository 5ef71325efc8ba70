//! An embedded sensor database built on memory-mapped, append-only vectors.
//!
//! Each sensor key owns an [`mmav::MMAV`]: a logical append-only sequence of
//! opaque byte records, stored as a chain of fixed-size [`mmav_unit::MMAVUnit`]
//! segments. [`database::MMAVDatabase`] multiplexes one vector per key and
//! keeps a metadata blob and an aggregate blob beside it.
//!
//! The library never touches the file system itself: the caller hands it
//! memory maps through an opener and takes them back through a closer.

pub mod codec;
pub mod database;
pub mod errors;
pub mod json;
pub mod keys;
pub mod laws;
pub mod mapped;
pub mod mmav;
pub mod mmav_unit;
pub mod names;
