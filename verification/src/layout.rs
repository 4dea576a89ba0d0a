//! The byte layout of a page and the errors its operations report.
//!
//! ```text
//! | header, 24 bytes | slot directory -> | free space | <- cells |
//! ```
//!
//! The header holds one byte of flags and the number of cells. The slot
//! directory holds one offset for each cell. A cell holds one byte of flags,
//! the length of the key, the length of the value, the key and the value.
//! Every multi-byte number is stored lowest byte first.

use vstd::prelude::*;

verus! {

/// Number of storage blocks that make up one page.
pub const BLOCKS_PER_PAGE: usize = 8;

/// Size of one storage block in bytes.
pub const BYTES_PER_BLOCK: usize = 512;

/// Size of a page in bytes.
pub const PAGE_SIZE: usize = BLOCKS_PER_PAGE * BYTES_PER_BLOCK;

/// Position of the page flags within the header.
pub const FLAGS_OFFSET: usize = 0;

/// Position of the cell count within the header.
pub const NUM_OF_CELLS_OFFSET: usize = 1;

/// Size of the page header in bytes.
pub const HEADER_SIZE: usize = 24;

/// Size of one entry of the slot directory in bytes.
pub const BYTES_PER_OFFSET: usize = 4;

/// Position of the key length within a cell.
pub const CELL_KEY_SIZE_OFFSET: usize = 1;

/// Position of the value length within a cell.
pub const CELL_VALUE_SIZE_OFFSET: usize = 5;

/// Position of the key bytes within a cell.
pub const CELL_KEY_OFFSET: usize = 9;

/// Size of the fixed part of a cell in bytes.
pub const CELL_METADATA_SIZE: usize = 9;

/// What an operation on a page can report instead of a result.
#[derive(Debug, Clone, Copy, PartialEq, Eq, Structural)]
pub enum PageError {
    /// A read or write of a number would cross the end of the page.
    OutOfBounds,
    /// The free space of the page cannot take the record.
    CapacityExceeded,
    /// No cell of the page holds the key.
    KeyNotFound,
    /// A slot points outside the page, or the lengths that a cell declares
    /// run past the end of the page.
    MalformedCell,
    /// The key of a record to insert is empty.
    EmptyKey,
    /// The stored bytes asked for as text are not UTF-8.
    InvalidUtf8,
}

/// The bytes of a page that holds no record.
pub open spec fn blank_bytes() -> Seq<u8> {
    Seq::new(PAGE_SIZE as nat, |i: int| 0u8)
}

} // verus!
