//! Pages and the two operations on their records: insert and lookup.

use vstd::prelude::*;
use crate::cells::{append_cell, cell_byte_range, cell_extent, cell_image};
use crate::codec::{_to_u32, load_u32};
use crate::header::cell_count;
use crate::laws::{
    lemma_blank_page, lemma_capacity_boundary, lemma_insert_well_formed, lemma_lookup_well_formed,
};
use crate::layout::{
    blank_bytes, PageError, BYTES_PER_OFFSET, CELL_KEY_OFFSET, CELL_METADATA_SIZE,
    NUM_OF_CELLS_OFFSET, PAGE_SIZE,
};
use crate::model::{
    first_value, insert_outcome, lemma_broken, lemma_found, lemma_missing, lookup_outcome,
    records, scan_passes, slot_key, slot_ok, well_formed, Record,
};
use crate::range::{copy_range, overwrite, range_equals};
use crate::slots::{append_slot, slot_offset, MAX_SLOTS};

verus! {

/// Returns a page of zero bytes: no flags set, no cells. It is well formed
/// and holds no record.
pub fn gen_blank_page() -> (page: [u8; PAGE_SIZE])
    ensures
        page@ == blank_bytes(),
        well_formed(page@),
        records(page@) == Seq::<Record>::empty(),
{
    let page: [u8; PAGE_SIZE] = [0; PAGE_SIZE];
    assert(page@ =~= blank_bytes());
    proof {
        lemma_blank_page();
    }
    page
}

/// Adds a record to the page: its cell right below the cell region, and a
/// slot for it at the end of the directory.
///
/// Fails with `EmptyKey` when the key is empty; otherwise with
/// `MalformedCell` when the free space of the page cannot be told; otherwise
/// with `CapacityExceeded` when the free space is smaller than the cell and
/// its slot. A failed call leaves the page as it was.
///
/// A well-formed page stays well formed, is never taken for malformed, and
/// after a successful call holds the records from before and then the new
/// one.
pub fn insert(page: &mut [u8; PAGE_SIZE], key: &[u8], value: &[u8]) -> (r: Result<(), PageError>)
    ensures
        match r {
            Ok(()) => insert_outcome(old(page)@, key@, value@) == Ok::<Seq<u8>, PageError>(
                final(page)@,
            ),
            Err(e) => insert_outcome(old(page)@, key@, value@) == Err::<Seq<u8>, PageError>(e)
                && *final(page) == *old(page),
        },
        well_formed(old(page)@) ==> well_formed(final(page)@),
        well_formed(old(page)@) ==> r != Err::<(), PageError>(PageError::MalformedCell),
        well_formed(old(page)@) && r is Ok ==> records(final(page)@) == records(old(page)@).push(
            Record { key: key@, value: value@ },
        ),
{
    proof {
        if well_formed(page@) {
            lemma_capacity_boundary(page@, key@, value@);
            if insert_outcome(page@, key@, value@) is Ok {
                lemma_insert_well_formed(page@, key@, value@);
            }
        }
    }
    let key_size: usize = key.len();
    let value_size: usize = value.len();
    if key_size == 0 {
        return Err(PageError::EmptyKey);
    }
    let (start, end) = match cell_byte_range(page) {
        Ok(range) => range,
        Err(e) => {
            return Err(e);
        },
    };
    let free: usize = end - start;
    if key_size > free || value_size > free || CELL_METADATA_SIZE + key_size + value_size
        + BYTES_PER_OFFSET > free {
        return Err(PageError::CapacityExceeded);
    }
    let cell_offset: usize = match append_cell(page, 0, key, value) {
        Ok(offset) => offset,
        Err(e) => {
            return Err(e);
        },
    };
    proof {
        let written = overwrite(old(page)@, cell_offset as int, cell_image(0, key@, value@));
        assert(page@ == written);
        assert(cell_count(written) == cell_count(old(page)@));
    }
    match append_slot(page, _to_u32(cell_offset)) {
        Ok(()) => Ok(()),
        Err(e) => Err(e),
    }
}

/// Returns a copy of the value of the first slot whose cell holds `key`.
///
/// Fails with `MalformedCell` when a slot or its cell does not lie within
/// the page and no slot before it holds the key, and with `KeyNotFound` when
/// every slot is sound and none holds the key.
///
/// In a well-formed page that is the value of the first record with the key,
/// or `KeyNotFound` when no record has it.
pub fn lookup(page: &[u8; PAGE_SIZE], key: &[u8]) -> (r: Result<Vec<u8>, PageError>)
    ensures
        match r {
            Ok(value) => lookup_outcome(page@, key@) == Ok::<Seq<u8>, PageError>(value@),
            Err(e) => lookup_outcome(page@, key@) == Err::<Seq<u8>, PageError>(e),
        },
        well_formed(page@) ==> match first_value(records(page@), key@) {
            Some(value) => r is Ok && r->Ok_0@ == value,
            None => r == Err::<Vec<u8>, PageError>(PageError::KeyNotFound),
        },
{
    proof {
        if well_formed(page@) {
            lemma_lookup_well_formed(page@, key@);
        }
    }
    let count: u32 = load_u32(page, NUM_OF_CELLS_OFFSET);
    let mut index: u32 = 0;
    while index < count
        invariant
            index <= count,
            count == cell_count(page@),
            scan_passes(page@, key@, index as int),
            well_formed(page@) ==> lookup_outcome(page@, key@) == (match first_value(
                records(page@),
                key@,
            ) {
                Some(value) => Ok::<Seq<u8>, PageError>(value),
                None => Err::<Seq<u8>, PageError>(PageError::KeyNotFound),
            }),
        decreases count - index,
    {
        if index >= MAX_SLOTS {
            proof {
                lemma_broken(page@, key@, index as int);
            }
            return Err(PageError::MalformedCell);
        }
        let cell_offset: usize = load_u32(page, slot_offset(index as usize)) as usize;
        let (key_size, value_size) = match cell_extent(page, cell_offset) {
            Ok(extent) => extent,
            Err(e) => {
                proof {
                    lemma_broken(page@, key@, index as int);
                }
                return Err(e);
            },
        };
        let key_offset: usize = cell_offset + CELL_KEY_OFFSET;
        if range_equals(page, key_offset, key_size, key) {
            proof {
                lemma_found(page@, key@, index as int);
            }
            return Ok(copy_range(page, key_offset + key_size, value_size));
        }
        assert(slot_ok(page@, index as int) && slot_key(page@, index as int) != key@);
        index += 1;
    }
    proof {
        lemma_missing(page@, key@);
    }
    Err(PageError::KeyNotFound)
}

} // verus!
