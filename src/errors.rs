//! The failure kinds of the storage layers.

use vstd::prelude::*;

verus! {

/// A failure of a segment operation.
#[derive(Debug, Clone, Copy, PartialEq, Eq, Structural)]
pub enum Error {
    /// On open: the map's length is not the segment size (or leaves no room
    /// for the index), or the persisted data seek lies outside the data
    /// region (past the segment's end, or before the data start).
    SizeCorrupted,
    /// On open: the persisted index seek lies outside the index region (past
    /// the data start, or below 8) or is not aligned to its pairs.
    SeekCorrupted,
    /// The record does not fit in what is left of the data region.
    FileFull,
    /// The segment already holds its maximum number of records.
    ArrayFull,
    /// The segment holds no record.
    ArrayEmpty,
    /// The index is past the segment's capacity, or its index entry is invalid.
    IndexOutOfRange,
    /// The index is past the segment's current record count.
    IndexOutOfBounds,
    /// The storage could not provide a segment's memory map.
    Unavailable,
}

/// A failure of an append to, or a read from, an open segment.
#[derive(Debug, Clone, Copy, PartialEq, Eq, Structural)]
pub enum MMAVError {
    /// The record does not fit in what is left of the data region.
    FileFull,
    /// The segment already holds its maximum number of records.
    ArrayFull,
    /// The segment holds no record.
    ArrayEmpty,
    /// The index is past the segment's capacity, or its index entry is invalid.
    IndexOutOfRange,
    /// The index is past the segment's current record count.
    IndexOutOfBounds,
}

impl MMAVError {
    /// A short human-readable description of the failure.
    pub fn message(&self) -> (r: &'static str) {
        match self {
            MMAVError::FileFull => "File is full",
            MMAVError::ArrayFull => "Array is full",
            MMAVError::ArrayEmpty => "Array is empty",
            MMAVError::IndexOutOfRange => "Index out of range",
            MMAVError::IndexOutOfBounds => "Index out of bounds",
        }
    }
}

impl Error {
    /// A short human-readable description of the failure.
    pub fn message(&self) -> (r: &'static str) {
        match self {
            Error::SizeCorrupted => "Size corrupted",
            Error::SeekCorrupted => "Seek corrupted",
            Error::FileFull => "File is full",
            Error::ArrayFull => "Array is full",
            Error::ArrayEmpty => "Array is empty",
            Error::IndexOutOfRange => "Index out of range",
            Error::IndexOutOfBounds => "Index out of bounds",
            Error::Unavailable => "Segment unavailable",
        }
    }
}

} // verus!
