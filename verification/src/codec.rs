//! Unsigned 32-bit numbers as four bytes, lowest byte first.

use vstd::prelude::*;
use crate::layout::{PageError, PAGE_SIZE};
use crate::range::overwrite;

verus! {

/// The four bytes that stand for `value`, lowest byte first.
pub open spec fn le_bytes(value: u32) -> Seq<u8> {
    seq![
        (value % 256) as u8,
        (value / 256 % 256) as u8,
        (value / 65536 % 256) as u8,
        (value / 16777216) as u8,
    ]
}

/// The number that the four bytes from `offset` on stand for.
pub open spec fn u32_at(bytes: Seq<u8>, offset: int) -> u32
    recommends
        0 <= offset,
        offset + 4 <= bytes.len(),
{
    (bytes[offset] + 256 * bytes[offset + 1] + 65536 * bytes[offset + 2] + 16777216 * bytes[offset
        + 3]) as u32
}

/// `bytes` with `value` stored in the four bytes from `offset` on.
pub open spec fn with_u32(bytes: Seq<u8>, offset: int, value: u32) -> Seq<u8> {
    overwrite(bytes, offset, le_bytes(value))
}

/// A number read back from where it was stored is the number stored.
pub proof fn lemma_u32_round_trip(bytes: Seq<u8>, offset: int, value: u32)
    requires
        0 <= offset,
        offset + 4 <= bytes.len(),
    ensures
        u32_at(with_u32(bytes, offset, value), offset) == value,
        with_u32(bytes, offset, value).len() == bytes.len(),
        with_u32(bytes, offset, value).subrange(offset, offset + 4) == le_bytes(value),
{
    assert(with_u32(bytes, offset, value).subrange(offset, offset + 4) =~= le_bytes(value));
}

/// Storing a number changes the four bytes it occupies and no others.
pub proof fn lemma_u32_elsewhere(bytes: Seq<u8>, offset: int, value: u32, other: int)
    requires
        0 <= offset,
        offset + 4 <= bytes.len(),
        0 <= other,
        other + 4 <= offset || offset + 4 <= other,
        other + 4 <= bytes.len(),
    ensures
        u32_at(with_u32(bytes, offset, value), other) == u32_at(bytes, other),
{
}

/// Converts a length to the width in which the page stores it.
pub fn _to_u32(n: usize) -> (r: u32)
    requires
        n <= u32::MAX,
    ensures
        r == n,
{
    n as u32
}

/// Reads the number stored at `offset`, which the caller knows to lie within
/// the page.
pub fn load_u32(page: &[u8; PAGE_SIZE], offset: usize) -> (value: u32)
    requires
        offset + 4 <= PAGE_SIZE,
    ensures
        value == u32_at(page@, offset as int),
{
    let b0: u32 = page[offset] as u32;
    let b1: u32 = page[offset + 1] as u32;
    let b2: u32 = page[offset + 2] as u32;
    let b3: u32 = page[offset + 3] as u32;
    b0 + 256 * b1 + 65536 * b2 + 16777216 * b3
}

/// Stores `value` at `offset`, which the caller knows to lie within the page.
pub fn store_u32(page: &mut [u8; PAGE_SIZE], offset: usize, value: u32)
    requires
        offset + 4 <= PAGE_SIZE,
    ensures
        final(page)@ == with_u32(old(page)@, offset as int, value),
{
    page[offset] = (value % 256) as u8;
    page[offset + 1] = (value / 256 % 256) as u8;
    page[offset + 2] = (value / 65536 % 256) as u8;
    page[offset + 3] = (value / 16777216) as u8;
    assert(page@ =~= with_u32(old(page)@, offset as int, value));
}

/// Reads the number stored in the four bytes from `offset` on.
///
/// Fails with `OutOfBounds` exactly when the four bytes do not all lie within
/// the page.
pub fn _read_int(page: [u8; PAGE_SIZE], offset: usize) -> (r: Result<u32, PageError>)
    ensures
        offset + 4 <= PAGE_SIZE ==> r == Ok::<u32, PageError>(u32_at(page@, offset as int)),
        offset + 4 > PAGE_SIZE ==> r == Err::<u32, PageError>(PageError::OutOfBounds),
{
    if offset > PAGE_SIZE - 4 {
        return Err(PageError::OutOfBounds);
    }
    Ok(load_u32(&page, offset))
}

/// Stores `num` in the four bytes from `offset` on, lowest byte first.
///
/// Fails with `OutOfBounds` exactly when the four bytes do not all lie within
/// the page, and then leaves the page as it was.
pub fn _write_int(page: &mut [u8; PAGE_SIZE], offset: usize, num: u32) -> (r: Result<
    (),
    PageError,
>)
    ensures
        offset + 4 <= PAGE_SIZE ==> r == Ok::<(), PageError>(()) && final(page)@ == with_u32(
            old(page)@,
            offset as int,
            num,
        ) && u32_at(final(page)@, offset as int) == num,
        offset + 4 > PAGE_SIZE ==> r == Err::<(), PageError>(PageError::OutOfBounds)
            && *final(page) == *old(page),
{
    if offset > PAGE_SIZE - 4 {
        return Err(PageError::OutOfBounds);
    }
    store_u32(page, offset, num);
    proof {
        lemma_u32_round_trip(old(page)@, offset as int, num);
    }
    Ok(())
}

} // verus!
