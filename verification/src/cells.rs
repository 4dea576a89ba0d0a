//! The cell store: records packed from the end of the page downwards.
//!
//! A cell is one byte of flags, the length of the key, the length of the
//! value, the key and the value. The free space lies between the end of the
//! slot directory and the cell placed last.

use vstd::prelude::*;
use crate::codec::{_to_u32, le_bytes, load_u32, store_u32, u32_at};
use crate::header::cell_count;
use crate::laws::lemma_same_records;
use crate::layout::{
    PageError, CELL_KEY_OFFSET, CELL_KEY_SIZE_OFFSET, CELL_METADATA_SIZE, CELL_VALUE_SIZE_OFFSET,
    NUM_OF_CELLS_OFFSET, PAGE_SIZE,
};
use crate::model::{records, well_formed};
use crate::range::{copy_range, overwrite, same_bytes, write_range};
use crate::slots::{directory_end, slot_entry, slot_offset, MAX_SLOTS};

verus! {

/// A record as read out of a page.
#[derive(Debug, PartialEq, Eq)]
pub struct Cell {
    pub flags: u8,
    pub key: Vec<u8>,
    pub value: Vec<u8>,
}

/// The flags byte of the cell at `offset`.
pub open spec fn cell_flags(bytes: Seq<u8>, offset: int) -> u8 {
    bytes[offset]
}

/// The key length that the cell at `offset` declares.
pub open spec fn cell_key_len(bytes: Seq<u8>, offset: int) -> u32 {
    u32_at(bytes, offset + CELL_KEY_SIZE_OFFSET)
}

/// The value length that the cell at `offset` declares.
pub open spec fn cell_value_len(bytes: Seq<u8>, offset: int) -> u32 {
    u32_at(bytes, offset + CELL_VALUE_SIZE_OFFSET)
}

/// Number of bytes that a cell with such a key and value takes.
pub open spec fn cell_size(key_len: int, value_len: int) -> int {
    CELL_METADATA_SIZE + key_len + value_len
}

/// Where the cell at `offset` ends, by the lengths it declares.
pub open spec fn cell_end(bytes: Seq<u8>, offset: int) -> int {
    offset + cell_size(cell_key_len(bytes, offset) as int, cell_value_len(bytes, offset) as int)
}

/// Whether the cell at `offset`, with the lengths it declares, lies within
/// the page.
pub open spec fn cell_fits(bytes: Seq<u8>, offset: int) -> bool {
    &&& 0 <= offset
    &&& offset + CELL_METADATA_SIZE <= PAGE_SIZE
    &&& cell_end(bytes, offset) <= PAGE_SIZE
}

/// The key bytes of the cell at `offset`.
pub open spec fn cell_key(bytes: Seq<u8>, offset: int) -> Seq<u8> {
    bytes.subrange(
        offset + CELL_KEY_OFFSET,
        offset + CELL_KEY_OFFSET + cell_key_len(bytes, offset),
    )
}

/// The value bytes of the cell at `offset`.
pub open spec fn cell_value(bytes: Seq<u8>, offset: int) -> Seq<u8> {
    bytes.subrange(offset + CELL_KEY_OFFSET + cell_key_len(bytes, offset), cell_end(bytes, offset))
}

/// The bytes of a cell with the given flags, key and value.
pub open spec fn cell_image(flags: u8, key: Seq<u8>, value: Seq<u8>) -> Seq<u8> {
    seq![flags] + le_bytes(key.len() as u32) + le_bytes(value.len() as u32) + key + value
}

/// Where the cell region starts: at the cell placed last, or at the end of
/// the page while there is none.
pub open spec fn cell_region_start(bytes: Seq<u8>) -> int {
    if cell_count(bytes) == 0 {
        PAGE_SIZE as int
    } else {
        slot_entry(bytes, cell_count(bytes) - 1) as int
    }
}

/// Whether the slot directory ends at or before the start of the cell
/// region, and the cell region starts within the page.
pub open spec fn regions_intact(bytes: Seq<u8>) -> bool {
    directory_end(bytes) <= cell_region_start(bytes) <= PAGE_SIZE
}

/// Number of bytes between the slot directory and the cell region.
pub open spec fn free_space(bytes: Seq<u8>) -> int {
    cell_region_start(bytes) - directory_end(bytes)
}

/// A cell image written into a page reads back as the flags, key and value
/// it was made of.
pub proof fn lemma_cell_image_reads_back(
    bytes: Seq<u8>,
    offset: int,
    flags: u8,
    key: Seq<u8>,
    value: Seq<u8>,
)
    requires
        bytes.len() == PAGE_SIZE,
        0 <= offset,
        offset + cell_size(key.len() as int, value.len() as int) <= PAGE_SIZE,
    ensures
        ({
            let written = overwrite(bytes, offset, cell_image(flags, key, value));
            &&& written.len() == PAGE_SIZE
            &&& cell_fits(written, offset)
            &&& cell_flags(written, offset) == flags
            &&& cell_key_len(written, offset) == key.len()
            &&& cell_value_len(written, offset) == value.len()
            &&& cell_end(written, offset) == offset + cell_size(
                key.len() as int,
                value.len() as int,
            )
            &&& cell_key(written, offset) == key
            &&& cell_value(written, offset) == value
        }),
{
    let image = cell_image(flags, key, value);
    let written = overwrite(bytes, offset, image);
    assert forall|i: int| 0 <= i < image.len() implies written[offset + i] == image[i] by {}
    assert(cell_key_len(written, offset) == key.len());
    assert(cell_value_len(written, offset) == value.len());
    assert(cell_key(written, offset) =~= key);
    assert(cell_value(written, offset) =~= value);
}

/// A cell that lies in a run of bytes that two pages share is the same cell
/// in both.
pub proof fn lemma_same_cell(a: Seq<u8>, b: Seq<u8>, offset: int)
    requires
        a.len() == PAGE_SIZE,
        b.len() == PAGE_SIZE,
        cell_fits(a, offset),
        same_bytes(a, b, offset, cell_end(a, offset)),
    ensures
        cell_fits(b, offset),
        cell_flags(b, offset) == cell_flags(a, offset),
        cell_key_len(b, offset) == cell_key_len(a, offset),
        cell_value_len(b, offset) == cell_value_len(a, offset),
        cell_end(b, offset) == cell_end(a, offset),
        cell_key(b, offset) == cell_key(a, offset),
        cell_value(b, offset) == cell_value(a, offset),
{
    assert(cell_key_len(b, offset) == cell_key_len(a, offset));
    assert(cell_value_len(b, offset) == cell_value_len(a, offset));
    assert(cell_key(b, offset) =~= cell_key(a, offset));
    assert(cell_value(b, offset) =~= cell_value(a, offset));
}

/// Returns the free space of the page as the position where it starts and
/// the position where it ends.
///
/// Fails with `MalformedCell` exactly when the slot directory runs into the
/// cell region or the cell placed last is said to start behind the page.
pub fn cell_byte_range(page: &[u8; PAGE_SIZE]) -> (r: Result<(usize, usize), PageError>)
    ensures
        regions_intact(page@) ==> r == Ok::<(usize, usize), PageError>(
            (directory_end(page@) as usize, cell_region_start(page@) as usize),
        ),
        !regions_intact(page@) ==> r == Err::<(usize, usize), PageError>(
            PageError::MalformedCell,
        ),
{
    let count: u32 = load_u32(page, NUM_OF_CELLS_OFFSET);
    if count > MAX_SLOTS {
        return Err(PageError::MalformedCell);
    }
    let start: usize = slot_offset(count as usize);
    let end: usize = if count == 0 {
        PAGE_SIZE
    } else {
        load_u32(page, slot_offset((count - 1) as usize)) as usize
    };
    if end < start || end > PAGE_SIZE {
        return Err(PageError::MalformedCell);
    }
    Ok((start, end))
}

/// Writes a cell with the given flags, key and value right below the cell
/// region and returns where it starts. The slot directory is left as it
/// was: the caller registers the cell there. Until then a well-formed page
/// stays well formed and holds the records it held.
///
/// Fails with `MalformedCell` exactly when the free space of the page cannot
/// be told, and otherwise with `CapacityExceeded` exactly when the cell is
/// larger than the free space. A failed call leaves the page as it was.
pub fn append_cell(page: &mut [u8; PAGE_SIZE], flags: u8, key: &[u8], value: &[u8]) -> (r: Result<
    usize,
    PageError,
>)
    ensures
        !regions_intact(old(page)@) ==> r == Err::<usize, PageError>(PageError::MalformedCell),
        regions_intact(old(page)@) && free_space(old(page)@) < cell_size(
            key@.len() as int,
            value@.len() as int,
        ) ==> r == Err::<usize, PageError>(PageError::CapacityExceeded),
        regions_intact(old(page)@) && free_space(old(page)@) >= cell_size(
            key@.len() as int,
            value@.len() as int,
        ) ==> r == Ok::<usize, PageError>(
            (cell_region_start(old(page)@) - cell_size(
                key@.len() as int,
                value@.len() as int,
            )) as usize,
        ),
        r is Err ==> *final(page) == *old(page),
        r is Ok ==> final(page)@ == overwrite(
            old(page)@,
            r->Ok_0 as int,
            cell_image(flags, key@, value@),
        ),
        well_formed(old(page)@) ==> well_formed(final(page)@) && records(final(page)@) == records(
            old(page)@,
        ),
{
    let (start, end) = match cell_byte_range(page) {
        Ok(range) => range,
        Err(e) => {
            return Err(e);
        },
    };
    let free: usize = end - start;
    let key_size: usize = key.len();
    let value_size: usize = value.len();
    if key_size > free || value_size > free || CELL_METADATA_SIZE + key_size + value_size > free {
        return Err(PageError::CapacityExceeded);
    }
    let cell_offset: usize = end - (CELL_METADATA_SIZE + key_size + value_size);
    let key_offset: usize = cell_offset + CELL_KEY_OFFSET;
    page[cell_offset] = flags;
    store_u32(page, cell_offset + CELL_KEY_SIZE_OFFSET, _to_u32(key_size));
    store_u32(page, cell_offset + CELL_VALUE_SIZE_OFFSET, _to_u32(value_size));
    write_range(page, key_offset, key);
    write_range(page, key_offset + key_size, value);
    proof {
        let image = cell_image(flags, key@, value@);
        assert(image.len() == CELL_METADATA_SIZE + key_size + value_size);
        assert(page@ =~= overwrite(old(page)@, cell_offset as int, image));
        if well_formed(old(page)@) {
            lemma_same_records(old(page)@, page@);
        }
    }
    Ok(cell_offset)
}

/// Returns the key length and the value length that the cell at
/// `cell_byte_offset` declares.
///
/// Fails with `MalformedCell` exactly when the cell, by those lengths, does
/// not lie within the page.
pub fn cell_extent(page: &[u8; PAGE_SIZE], cell_byte_offset: usize) -> (r: Result<
    (usize, usize),
    PageError,
>)
    ensures
        cell_fits(page@, cell_byte_offset as int) ==> r == Ok::<(usize, usize), PageError>(
            (
                cell_key_len(page@, cell_byte_offset as int) as usize,
                cell_value_len(page@, cell_byte_offset as int) as usize,
            ),
        ),
        !cell_fits(page@, cell_byte_offset as int) ==> r == Err::<(usize, usize), PageError>(
            PageError::MalformedCell,
        ),
{
    if cell_byte_offset > PAGE_SIZE - CELL_METADATA_SIZE {
        return Err(PageError::MalformedCell);
    }
    let room: usize = PAGE_SIZE - CELL_METADATA_SIZE - cell_byte_offset;
    let key_size: u32 = load_u32(page, cell_byte_offset + CELL_KEY_SIZE_OFFSET);
    let value_size: u32 = load_u32(page, cell_byte_offset + CELL_VALUE_SIZE_OFFSET);
    if key_size as usize > room || value_size as usize > room - key_size as usize {
        return Err(PageError::MalformedCell);
    }
    Ok((key_size as usize, value_size as usize))
}

/// Reads the cell that starts at `cell_byte_offset`.
///
/// Fails with `MalformedCell` exactly when the cell, by the lengths it
/// declares, does not lie within the page.
pub fn read_cell(page: &[u8; PAGE_SIZE], cell_byte_offset: usize) -> (r: Result<Cell, PageError>)
    ensures
        match r {
            Ok(cell) => {
                &&& cell_fits(page@, cell_byte_offset as int)
                &&& cell.flags == cell_flags(page@, cell_byte_offset as int)
                &&& cell.key@ == cell_key(page@, cell_byte_offset as int)
                &&& cell.value@ == cell_value(page@, cell_byte_offset as int)
            },
            Err(e) => !cell_fits(page@, cell_byte_offset as int) && e == PageError::MalformedCell,
        },
{
    let (key_size, value_size) = match cell_extent(page, cell_byte_offset) {
        Ok(extent) => extent,
        Err(e) => {
            return Err(e);
        },
    };
    let key_offset: usize = cell_byte_offset + CELL_KEY_OFFSET;
    let key: Vec<u8> = copy_range(page, key_offset, key_size);
    let value: Vec<u8> = copy_range(page, key_offset + key_size, value_size);
    Ok(Cell { flags: page[cell_byte_offset], key, value })
}

} // verus!
