//! Runs of bytes within a page.

use vstd::prelude::*;
use crate::layout::PAGE_SIZE;

verus! {

/// `bytes` with `data` written over it from position `at` on.
pub open spec fn overwrite(bytes: Seq<u8>, at: int, data: Seq<u8>) -> Seq<u8> {
    Seq::new(
        bytes.len(),
        |i: int|
            if at <= i < at + data.len() {
                data[i - at]
            } else {
                bytes[i]
            },
    )
}

/// Whether two pages hold the same bytes from `from` up to `to`.
pub open spec fn same_bytes(a: Seq<u8>, b: Seq<u8>, from: int, to: int) -> bool {
    forall|i: int| from <= i < to ==> a[i] == b[i]
}

/// Copies `size` bytes of the page, from `offset` on, into a vector.
pub fn copy_range(page: &[u8; PAGE_SIZE], offset: usize, size: usize) -> (out: Vec<u8>)
    requires
        offset + size <= PAGE_SIZE,
    ensures
        out@ == page@.subrange(offset as int, offset + size),
{
    let mut out: Vec<u8> = Vec::with_capacity(size);
    let mut i: usize = 0;
    while i < size
        invariant
            i <= size,
            offset + size <= PAGE_SIZE,
            out@ == page@.subrange(offset as int, offset + i),
        decreases size - i,
    {
        out.push(page[offset + i]);
        i += 1;
        assert(out@ =~= page@.subrange(offset as int, offset + i));
    }
    out
}

/// Writes `data` into the page from `offset` on.
pub fn write_range(page: &mut [u8; PAGE_SIZE], offset: usize, data: &[u8])
    requires
        offset + data@.len() <= PAGE_SIZE,
    ensures
        final(page)@ == overwrite(old(page)@, offset as int, data@),
{
    let size: usize = data.len();
    let mut i: usize = 0;
    while i < size
        invariant
            i <= size,
            size == data@.len(),
            offset + size <= PAGE_SIZE,
            page@ == overwrite(old(page)@, offset as int, data@.subrange(0, i as int)),
        decreases size - i,
    {
        page[offset + i] = data[i];
        i += 1;
        assert(page@ =~= overwrite(old(page)@, offset as int, data@.subrange(0, i as int)));
    }
    assert(data@.subrange(0, size as int) =~= data@);
}

/// Whether the `size` bytes of the page from `offset` on equal `data`.
pub fn range_equals(page: &[u8; PAGE_SIZE], offset: usize, size: usize, data: &[u8]) -> (same:
    bool)
    requires
        offset + size <= PAGE_SIZE,
    ensures
        same == (page@.subrange(offset as int, offset + size) == data@),
{
    if data.len() != size {
        return false;
    }
    let mut i: usize = 0;
    while i < size
        invariant
            i <= size,
            size == data@.len(),
            offset + size <= PAGE_SIZE,
            page@.subrange(offset as int, offset + i) == data@.subrange(0, i as int),
        decreases size - i,
    {
        if page[offset + i] != data[i] {
            assert(page@.subrange(offset as int, offset + size)[i as int] != data@[i as int]);
            return false;
        }
        i += 1;
        assert(page@.subrange(offset as int, offset + i) =~= data@.subrange(0, i as int));
    }
    assert(data@.subrange(0, size as int) =~= data@);
    true
}

} // verus!
