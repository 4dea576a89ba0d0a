//! The slot directory: one stored offset for each cell, in order of insertion,
//! starting right behind the header.

use vstd::prelude::*;
use crate::codec::{lemma_u32_elsewhere, lemma_u32_round_trip, load_u32, store_u32, u32_at, with_u32};
use crate::header::{_set_num_of_cells, cell_count};
use crate::layout::{PageError, BYTES_PER_OFFSET, HEADER_SIZE, NUM_OF_CELLS_OFFSET, PAGE_SIZE};

verus! {

/// Number of slots that fit between the header and the end of the page.
pub const MAX_SLOTS: u32 = 1018;

/// Where the directory entry with the given index starts.
pub open spec fn slot_position(index: int) -> int {
    HEADER_SIZE + BYTES_PER_OFFSET * index
}

/// Whether the directory entry with the given index lies within the page.
pub open spec fn slot_in_page(index: int) -> bool {
    0 <= index && slot_position(index) + BYTES_PER_OFFSET <= PAGE_SIZE
}

/// The offset stored in the directory entry with the given index.
pub open spec fn slot_entry(bytes: Seq<u8>, index: int) -> u32 {
    u32_at(bytes, slot_position(index))
}

/// Where the slot directory ends and the free space begins.
pub open spec fn directory_end(bytes: Seq<u8>) -> int {
    slot_position(cell_count(bytes) as int)
}

/// `bytes` with one more directory entry, which holds `cell_offset`.
pub open spec fn with_slot(bytes: Seq<u8>, cell_offset: u32) -> Seq<u8> {
    with_u32(
        with_u32(bytes, directory_end(bytes), cell_offset),
        NUM_OF_CELLS_OFFSET as int,
        (cell_count(bytes) + 1) as u32,
    )
}

/// A new directory entry raises the count by one, holds the offset given and
/// leaves the entries before it as they were.
pub proof fn lemma_with_slot(bytes: Seq<u8>, cell_offset: u32)
    requires
        bytes.len() == PAGE_SIZE,
        slot_in_page(cell_count(bytes) as int),
    ensures
        with_slot(bytes, cell_offset).len() == PAGE_SIZE,
        cell_count(with_slot(bytes, cell_offset)) == cell_count(bytes) + 1,
        slot_entry(with_slot(bytes, cell_offset), cell_count(bytes) as int) == cell_offset,
        forall|i: int|
            0 <= i < cell_count(bytes) ==> slot_entry(with_slot(bytes, cell_offset), i)
                == #[trigger] slot_entry(bytes, i),
        forall|i: int|
            directory_end(bytes) + BYTES_PER_OFFSET <= i < PAGE_SIZE ==> with_slot(
                bytes,
                cell_offset,
            )[i] == bytes[i],
{
    let count = cell_count(bytes);
    let end = directory_end(bytes);
    let mid = with_u32(bytes, end, cell_offset);
    lemma_u32_round_trip(bytes, end, cell_offset);
    lemma_u32_round_trip(mid, NUM_OF_CELLS_OFFSET as int, (count + 1) as u32);
    lemma_u32_elsewhere(mid, NUM_OF_CELLS_OFFSET as int, (count + 1) as u32, end);
    assert forall|i: int| 0 <= i < count implies slot_entry(with_slot(bytes, cell_offset), i)
        == #[trigger] slot_entry(bytes, i) by {
        lemma_u32_elsewhere(mid, NUM_OF_CELLS_OFFSET as int, (count + 1) as u32, slot_position(i));
        lemma_u32_elsewhere(bytes, end, cell_offset, slot_position(i));
    }
}

/// Returns where the directory entry with the given index starts.
pub fn slot_offset(slot_index: usize) -> (offset: usize)
    requires
        HEADER_SIZE + BYTES_PER_OFFSET * slot_index <= usize::MAX,
    ensures
        offset == slot_position(slot_index as int),
{
    HEADER_SIZE + slot_index * BYTES_PER_OFFSET
}

/// Reads the cell offset that the directory entry with the given index holds.
///
/// Fails with `OutOfBounds` exactly when the index is not below the cell
/// count or the entry does not lie within the page.
pub fn read_slot(page: &[u8; PAGE_SIZE], slot_index: u32) -> (r: Result<u32, PageError>)
    ensures
        slot_index < cell_count(page@) && slot_in_page(slot_index as int) ==> r == Ok::<
            u32,
            PageError,
        >(slot_entry(page@, slot_index as int)),
        !(slot_index < cell_count(page@) && slot_in_page(slot_index as int)) ==> r == Err::<
            u32,
            PageError,
        >(PageError::OutOfBounds),
{
    let count: u32 = load_u32(page, NUM_OF_CELLS_OFFSET);
    if slot_index >= count || slot_index >= MAX_SLOTS {
        return Err(PageError::OutOfBounds);
    }
    Ok(load_u32(page, slot_offset(slot_index as usize)))
}

/// Adds a directory entry that holds `cell_byte_offset` and raises the cell
/// count by one.
///
/// Fails with `OutOfBounds` exactly when the new entry would not lie within
/// the page, and then leaves the page as it was.
pub fn append_slot(page: &mut [u8; PAGE_SIZE], cell_byte_offset: u32) -> (r: Result<
    (),
    PageError,
>)
    ensures
        slot_in_page(cell_count(old(page)@) as int) ==> r == Ok::<(), PageError>(())
            && final(page)@ == with_slot(old(page)@, cell_byte_offset),
        !slot_in_page(cell_count(old(page)@) as int) ==> r == Err::<(), PageError>(
            PageError::OutOfBounds,
        ) && *final(page) == *old(page),
{
    let count: u32 = load_u32(page, NUM_OF_CELLS_OFFSET);
    if count >= MAX_SLOTS {
        return Err(PageError::OutOfBounds);
    }
    store_u32(page, slot_offset(count as usize), cell_byte_offset);
    _set_num_of_cells(page, count + 1);
    Ok(())
}

} // verus!
