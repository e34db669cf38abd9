//! Slotted-page primitives shared by leaf and interior pages, and the leaf
//! cells and interior cells built on top of them.
//!
//! Layout: header, pointer array (growing up), free space, cell contents
//! (growing down towards the checksum).

use vstd::prelude::*;

use crate::codec;
use crate::codec::{
    i64_to_bytes, read_i64, read_u16, read_u32, read_vec, u32_to_bytes, write_bytes, write_u16,
    write_u32, write_u8,
};
use crate::error;
use crate::error::{buffer_bounds, PinaxError};
use crate::page;
use crate::page::{PAGE_TYPE_INTERIOR, PAGE_TYPE_LEAF};

verus! {

/// The number of cells on a slotted page.
pub open spec fn cell_count(b: Seq<u8>) -> int {
    codec::be_u16(b, 1) as int
}

/// Where the cell contents of a slotted page start.
pub open spec fn content_start_of(b: Seq<u8>) -> int {
    codec::be_u16(b, 3) as int
}

/// Entry `i` of the pointer array that follows a header of `header` bytes.
pub open spec fn pointer(b: Seq<u8>, header: int, i: int) -> int {
    codec::be_u16(b, header + 2 * i) as int
}

/// The pointer array.
pub open spec fn pointers(b: Seq<u8>, header: int) -> Seq<int> {
    Seq::new(cell_count(b) as nat, |i: int| pointer(b, header, i))
}

/// The bytes between pointer array and cell contents.
pub open spec fn free_bytes(b: Seq<u8>, header: int) -> int {
    let free = content_start_of(b) - (header + 2 * cell_count(b));
    if free > 0 {
        free
    } else {
        0
    }
}

/// The pointer array ends before the cell contents start, on the page.
pub open spec fn slotted(b: Seq<u8>, header: int) -> bool {
    &&& header + 2 * cell_count(b) <= content_start_of(b)
    &&& content_start_of(b) <= b.len()
}

/// There is room for one more cell of `len` bytes, and `index` is a place
/// in the pointer array or its end.
pub open spec fn cell_fits(b: Seq<u8>, header: int, index: int, len: int) -> bool {
    &&& 5 <= b.len()
    &&& index <= cell_count(b)
    &&& header + 2 * (cell_count(b) + 1) + len <= content_start_of(b)
    &&& content_start_of(b) <= b.len()
}

/// `new` is `old` with `cell` below its other cell contents, and a pointer
/// to it put into the pointer array at `index`.
pub open spec fn cell_inserted(
    old_page: Seq<u8>,
    new_page: Seq<u8>,
    header: int,
    index: int,
    cell: Seq<u8>,
) -> bool {
    let start = content_start_of(old_page) - cell.len();
    &&& new_page.len() == old_page.len()
    &&& new_page[0] == old_page[0]
    &&& forall|k: int| 5 <= k < header ==> #[trigger] new_page[k] == old_page[k]
    &&& cell_count(new_page) == cell_count(old_page) + 1
    &&& content_start_of(new_page) == start
    &&& pointers(new_page, header) == pointers(old_page, header).insert(index, start)
    &&& new_page.subrange(start, start + cell.len()) == cell
    &&& forall|k: int|
        header + 2 * cell_count(old_page) + 2 <= k < start ==> #[trigger] new_page[k]
            == old_page[k]
    &&& forall|k: int|
        content_start_of(old_page) <= k < old_page.len() ==> #[trigger] new_page[k] == old_page[k]
}

/// What is free between pointer array and cell contents is zero.
pub open spec fn free_is_zero(b: Seq<u8>, header: int) -> bool {
    forall|k: int|
        header + 2 * cell_count(b) <= k < content_start_of(b) ==> #[trigger] b[k] == 0
}

/// `new` is `old` without entry `index` of its pointer array.
pub open spec fn cell_removed(
    old_page: Seq<u8>,
    new_page: Seq<u8>,
    header: int,
    index: int,
) -> bool {
    &&& new_page.len() == old_page.len()
    &&& new_page[0] == old_page[0]
    &&& forall|k: int| 5 <= k < header ==> #[trigger] new_page[k] == old_page[k]
    &&& cell_count(new_page) == cell_count(old_page) - 1
    &&& content_start_of(new_page) == content_start_of(old_page)
    &&& pointers(new_page, header) == pointers(old_page, header).remove(index)
    &&& forall|k: int|
        header + 2 * cell_count(old_page) - 2 <= k < old_page.len() ==> #[trigger] new_page[k]
            == old_page[k]
}

/// Where the cell contents of an empty page of `len` bytes start: before
/// the checksum, and within the 16 bits of an offset.
pub open spec fn empty_content_start(len: int) -> int {
    if len <= 0xFFFF {
        len - page::CHECKSUM_LEN
    } else {
        0xFFFF - page::CHECKSUM_LEN
    }
}

/// Make the page an empty slotted page of the given type.
fn init_slotted(buf: &mut [u8], page_type: u8) -> (r: Result<(), PinaxError>)
    requires
        old(buf)@.len() >= page::CHECKSUM_LEN,
    ensures
        r is Ok,
        final(buf)@.len() == old(buf)@.len(),
        final(buf)@[0] == page_type,
        cell_count(final(buf)@) == 0,
        content_start_of(final(buf)@) == empty_content_start(old(buf)@.len() as int),
        forall|k: int| 5 <= k < old(buf)@.len() ==> #[trigger] final(buf)@[k] == old(buf)@[k],
{
    let len: usize = buf.len();
    let usable: u16 = if len <= 0xFFFF {
        (len - 8) as u16
    } else {
        0xFFFF - 8
    };
    write_u8(buf, 0, page_type)?;
    write_u16(buf, 1, 0)?;
    write_u16(buf, 3, usable)
}

/// The number of cells on the page.
pub fn num_cells(buf: &[u8]) -> (r: Result<u16, PinaxError>)
    ensures
        match r {
            Ok(n) => buf@.len() >= 3 && n == cell_count(buf@),
            Err(e) => buf@.len() < 3 && e == error::bounds_error(1, 2, buf@.len() as int),
        },
{
    read_u16(buf, 1)
}

/// Where the cell contents of a page start.
fn content_start(buf: &[u8]) -> (r: Result<u16, PinaxError>)
    ensures
        match r {
            Ok(n) => buf@.len() >= 5 && n == content_start_of(buf@),
            Err(e) => buf@.len() < 5 && e == error::bounds_error(3, 2, buf@.len() as int),
        },
{
    read_u16(buf, 3)
}

/// Entry `index` of the pointer array lies on the page.
pub open spec fn pointer_readable(b: Seq<u8>, header: int, index: int) -> bool {
    header + 2 * index + 2 <= b.len()
}

/// `e` says that entry `index` of the pointer array is not on the page.
pub open spec fn is_pointer_error(e: PinaxError, b: Seq<u8>, header: int, index: int) -> bool {
    &&& error::is_bounds_error(e)
    &&& header + 2 * index <= usize::MAX ==> e == error::bounds_error(
        header + 2 * index,
        2,
        b.len() as int,
    )
}

/// `e` says that the pointer of cell `index`, or the `len` bytes that stand
/// `skip` bytes behind where it points to, are not on the page.
pub open spec fn is_cell_error(
    e: PinaxError,
    b: Seq<u8>,
    header: int,
    index: int,
    skip: int,
    len: int,
) -> bool {
    if pointer_readable(b, header, index) {
        e == error::bounds_error(pointer(b, header, index) + skip, len, b.len() as int)
    } else {
        is_pointer_error(e, b, header, index)
    }
}

/// Entry `index` of the pointer array.
pub fn pointer_at(buf: &[u8], header_len: usize, index: usize) -> (r: Result<u16, PinaxError>)
    ensures
        match r {
            Ok(p) => pointer_readable(buf@, header_len as int, index as int) && p == pointer(
                buf@,
                header_len as int,
                index as int,
            ),
            Err(e) => !pointer_readable(buf@, header_len as int, index as int)
                && is_pointer_error(e, buf@, header_len as int, index as int),
        },
{
    if index > (usize::MAX - header_len) / 2 {
        return Err(buffer_bounds(usize::MAX, 2, buf.len()));
    }
    read_u16(buf, header_len + index * 2)
}

/// The error of a page that is too short for the counts of its header.
pub open spec fn header_error(b: Seq<u8>) -> PinaxError {
    if b.len() < 3 {
        error::bounds_error(1, 2, b.len() as int)
    } else {
        error::bounds_error(3, 2, b.len() as int)
    }
}

/// The bytes that the page has free between pointer array and cell
/// contents.
pub fn free_space(buf: &[u8], header_len: usize) -> (r: Result<u16, PinaxError>)
    ensures
        match r {
            Ok(n) => buf@.len() >= 5 && n == free_bytes(buf@, header_len as int),
            Err(e) => buf@.len() < 5 && e == header_error(buf@),
        },
{
    let n: u16 = num_cells(buf)?;
    let cs: u16 = content_start(buf)?;
    let used: u128 = header_len as u128 + n as u128 * 2;
    if (cs as u128) > used {
        Ok((cs as u128 - used) as u16)
    } else {
        Ok(0)
    }
}

/// Put `cell_bytes` on the page as a new cell, with its pointer at `index`
/// of the pointer array. Where the cell does not fit, the page stays as it
/// is.
pub fn insert_cell_at(
    buf: &mut [u8],
    header_len: usize,
    index: usize,
    cell_bytes: &[u8],
) -> (r: Result<(), PinaxError>)
    requires
        header_len >= 5,
    ensures
        match r {
            Ok(()) => cell_fits(
                old(buf)@,
                header_len as int,
                index as int,
                cell_bytes@.len() as int,
            ) && cell_inserted(
                old(buf)@,
                final(buf)@,
                header_len as int,
                index as int,
                cell_bytes@,
            ),
            Err(e) => !cell_fits(
                old(buf)@,
                header_len as int,
                index as int,
                cell_bytes@.len() as int,
            ) && final(buf)@ == old(buf)@ && e == (if old(buf)@.len() < 5 {
                header_error(old(buf)@)
            } else {
                error::bounds_error(
                    content_start_of(old(buf)@),
                    cell_bytes@.len() as int,
                    old(buf)@.len() as int,
                )
            }),
        },
{
    let ghost before = buf@;
    let n: usize = num_cells(buf)? as usize;
    let cs: usize = content_start(buf)? as usize;
    let buf_len: usize = buf.len();
    let cell_len: usize = cell_bytes.len();
    if index > n || cs > buf_len || cell_len as u128 + header_len as u128 + 2 * (n as u128 + 1)
        > cs as u128 {
        return Err(buffer_bounds(cs, cell_len, buf_len));
    }
    let new_cs: usize = cs - cell_len;
    write_bytes(buf, new_cs, cell_bytes)?;
    let ghost h = header_len as int;
    let ghost filled = buf@;
    assert(forall|k: int| 0 <= k < n ==> pointer(filled, h, k) == #[trigger] pointer(before, h, k));
    let mut i: usize = n;
    while i > index
        invariant
            5 <= h,
            h == header_len,
            index <= i <= n,
            n == cell_count(before),
            h + 2 * n + 2 <= new_cs <= buf_len,
            new_cs <= 0xFFFF,
            buf@.len() == buf_len,
            filled.len() == buf_len,
            forall|k: int| 0 <= k < i ==> pointer(buf@, h, k) == #[trigger] pointer(before, h, k),
            forall|k: int|
                i <= k < n ==> pointer(buf@, h, k + 1) == #[trigger] pointer(before, h, k),
            forall|k: int|
                0 <= k < buf_len && !(h + 2 * index + 2 <= k < h + 2 * n + 2)
                    ==> #[trigger] buf@[k] == filled[k],
        decreases i - index,
    {
        let p: u16 = pointer_at(buf, header_len, i - 1)?;
        let ghost prev = buf@;
        write_u16(buf, header_len + i * 2, p)?;
        proof {
            assert(pointer(prev, h, i - 1) == pointer(before, h, i - 1));
            assert(pointer(buf@, h, i as int) == p);
            assert forall|k: int| 0 <= k < i - 1 implies pointer(buf@, h, k) == #[trigger] pointer(
                before,
                h,
                k,
            ) by {
                assert(pointer(prev, h, k) == pointer(before, h, k));
            }
            assert forall|k: int| i <= k < n implies pointer(buf@, h, k + 1)
                == #[trigger] pointer(before, h, k) by {
                assert(pointer(prev, h, k + 1) == pointer(before, h, k));
            }
        }
        i = i - 1;
    }
    let ghost shifted = buf@;
    write_u16(buf, header_len + index * 2, new_cs as u16)?;
    write_u16(buf, 1, (n + 1) as u16)?;
    write_u16(buf, 3, new_cs as u16)?;
    proof {
        let expected = pointers(before, h).insert(index as int, new_cs as int);
        assert(pointer(buf@, h, index as int) == new_cs);
        assert forall|k: int| 0 <= k < n + 1 implies pointers(buf@, h)[k] == expected[k] by {
            if k < index {
                assert(pointer(shifted, h, k) == pointer(before, h, k));
                assert(pointer(buf@, h, k) == pointer(shifted, h, k));
            } else if k > index {
                assert(pointer(shifted, h, k - 1 + 1) == pointer(before, h, k - 1));
                assert(pointer(buf@, h, k) == pointer(shifted, h, k));
            }
        }
        assert(pointers(buf@, h) =~= expected);
        assert(buf@.subrange(new_cs as int, new_cs + cell_len) =~= cell_bytes@);
    }
    Ok(())
}

/// Remove the cell at `index` of the pointer array and return where its
/// content stands. The content itself stays on the page.
pub fn remove_cell_at(buf: &mut [u8], header_len: usize, index: usize) -> (r: Result<
    u16,
    PinaxError,
>)
    requires
        header_len >= 5,
    ensures
        match r {
            Ok(p) => old(buf)@.len() >= 3 && index < cell_count(old(buf)@) && header_len + 2
                * cell_count(old(buf)@) <= old(buf)@.len() && p == pointer(
                old(buf)@,
                header_len as int,
                index as int,
            ) && cell_removed(old(buf)@, final(buf)@, header_len as int, index as int),
            Err(e) => !(old(buf)@.len() >= 3 && index < cell_count(old(buf)@) && header_len + 2
                * cell_count(old(buf)@) <= old(buf)@.len()) && final(buf)@ == old(buf)@ && e == (
            if old(buf)@.len() < 3 {
                header_error(old(buf)@)
            } else {
                error::bounds_error(index as int, 1, cell_count(old(buf)@))
            }),
        },
{
    let ghost before = buf@;
    let n: usize = num_cells(buf)? as usize;
    let buf_len: usize = buf.len();
    if index >= n || header_len as u128 + 2 * (n as u128) > buf_len as u128 {
        return Err(buffer_bounds(index, 1, n));
    }
    let offset: u16 = pointer_at(buf, header_len, index)?;
    let ghost h = header_len as int;
    let mut i: usize = index;
    while i < n - 1
        invariant
            5 <= h,
            h == header_len,
            index <= i < n,
            n == cell_count(before),
            h + 2 * n <= buf_len,
            buf@.len() == buf_len,
            before.len() == buf_len,
            forall|k: int|
                0 <= k < index ==> pointer(buf@, h, k) == #[trigger] pointer(before, h, k),
            forall|k: int|
                index < k <= i ==> pointer(buf@, h, k - 1) == #[trigger] pointer(before, h, k),
            forall|k: int| i < k < n ==> pointer(buf@, h, k) == #[trigger] pointer(before, h, k),
            forall|k: int|
                0 <= k < buf_len && !(h + 2 * index <= k < h + 2 * n - 2)
                    ==> #[trigger] buf@[k] == before[k],
        decreases n - i,
    {
        let p: u16 = pointer_at(buf, header_len, i + 1)?;
        let ghost prev = buf@;
        write_u16(buf, header_len + i * 2, p)?;
        proof {
            assert(pointer(prev, h, i + 1) == pointer(before, h, i + 1));
            assert(pointer(buf@, h, i as int) == p);
            assert forall|k: int| 0 <= k < index implies pointer(buf@, h, k) == #[trigger] pointer(
                before,
                h,
                k,
            ) by {
                assert(pointer(prev, h, k) == pointer(before, h, k));
            }
            assert forall|k: int| index < k <= i + 1 implies pointer(buf@, h, k - 1)
                == #[trigger] pointer(before, h, k) by {
                if k <= i {
                    assert(pointer(prev, h, k - 1) == pointer(before, h, k));
                }
            }
            assert forall|k: int| i + 1 < k < n implies pointer(buf@, h, k) == #[trigger] pointer(
                before,
                h,
                k,
            ) by {
                assert(pointer(prev, h, k) == pointer(before, h, k));
            }
        }
        i = i + 1;
    }
    let ghost shifted = buf@;
    write_u16(buf, 1, (n - 1) as u16)?;
    proof {
        let expected = pointers(before, h).remove(index as int);
        assert forall|k: int| 0 <= k < n - 1 implies pointers(buf@, h)[k] == expected[k] by {
            assert(pointer(buf@, h, k) == pointer(shifted, h, k));
            if k < index {
                assert(pointer(shifted, h, k) == pointer(before, h, k));
            } else {
                assert(pointer(shifted, h, k + 1 - 1) == pointer(before, h, k + 1));
            }
        }
        assert(pointers(buf@, h) =~= expected);
    }
    Ok(offset)
}

// ---- leaf pages ----

/// The payload bytes that a leaf cell keeps local, of `payload_len`.
pub open spec fn local_len(payload_len: int, max_local: int) -> int {
    if payload_len <= max_local {
        payload_len
    } else {
        max_local
    }
}

/// The most payload bytes that a leaf cell on a page with the body `c` keeps
/// local.
pub open spec fn body_max_local(c: Seq<u8>) -> int {
    c.len() - 35
}

/// The length of the leaf cell that starts at `at`.
pub open spec fn leaf_cell_len(b: Seq<u8>, at: int, max_local: int) -> int {
    16 + local_len(codec::be_u32(b, at + 8) as int, max_local)
}

/// A leaf cell's key.
pub open spec fn cell_key(cell: Seq<u8>) -> i64 {
    codec::be_i64(cell, 0)
}

/// The length of a leaf cell's payload, local and overflowing.
pub open spec fn cell_payload_len(cell: Seq<u8>) -> u32 {
    codec::be_u32(cell, 8)
}

/// The first page of a leaf cell's overflow chain, or 0.
pub open spec fn cell_overflow_first(cell: Seq<u8>) -> u32 {
    codec::be_u32(cell, 12)
}

/// The payload bytes that a leaf cell holds itself.
pub open spec fn cell_local(cell: Seq<u8>) -> Seq<u8> {
    cell.subrange(16, cell.len() as int)
}

/// The cell's length is the one that its payload length gives.
pub open spec fn cell_wf(cell: Seq<u8>, max_local: int) -> bool {
    &&& 16 <= cell.len()
    &&& cell.len() == 16 + local_len(cell_payload_len(cell) as int, max_local)
}

/// The bytes of a leaf cell.
pub open spec fn leaf_cell_bytes(
    key: i64,
    payload_len: u32,
    overflow_first: u32,
    local: Seq<u8>,
) -> Seq<u8> {
    codec::i64_bytes(key) + codec::u32_bytes(payload_len) + codec::u32_bytes(overflow_first) + local
}

/// A leaf cell gives back what it was built from.
pub proof fn leaf_cell_round_trip(
    key: i64,
    payload_len: u32,
    overflow_first: u32,
    local: Seq<u8>,
)
    ensures
        ({
            let cell = leaf_cell_bytes(key, payload_len, overflow_first, local);
            &&& cell.len() == 16 + local.len()
            &&& cell_key(cell) == key
            &&& cell_payload_len(cell) == payload_len
            &&& cell_overflow_first(cell) == overflow_first
            &&& cell_local(cell) == local
        }),
{
    let cell = leaf_cell_bytes(key, payload_len, overflow_first, local);
    assert(cell.subrange(0, 8) =~= codec::i64_bytes(key));
    codec::i64_round_trip(cell, 0, key);
    assert(cell.subrange(8, 12) =~= codec::u32_bytes(payload_len));
    codec::u32_round_trip(cell, 8, payload_len);
    assert(cell.subrange(12, 16) =~= codec::u32_bytes(overflow_first));
    codec::u32_round_trip(cell, 12, overflow_first);
    assert(cell_local(cell) =~= local);
}

/// Cell `i` of the leaf page with the body `c` lies within the page's cell
/// contents.
pub open spec fn leaf_cell_placed(c: Seq<u8>, i: int) -> bool {
    let p = pointer(c, 5, i);
    &&& content_start_of(c) <= p
    &&& p + 16 <= c.len()
    &&& p + leaf_cell_len(c, p, body_max_local(c)) <= c.len()
}

/// The bytes that cells take on a page, with their pointers.
pub open spec fn space_of(cells: Seq<Seq<u8>>) -> int
    decreases cells.len(),
{
    if cells.len() == 0 {
        0
    } else {
        space_of(cells.drop_last()) + cells.last().len() + 2
    }
}

/// The space of two groups of cells is that of both together.
pub proof fn space_of_concat(a: Seq<Seq<u8>>, b: Seq<Seq<u8>>)
    ensures
        space_of(a + b) == space_of(a) + space_of(b),
        0 <= space_of(b),
    decreases b.len(),
{
    if b.len() == 0 {
        assert(a + b =~= a);
    } else {
        assert((a + b).drop_last() =~= a + b.drop_last());
        space_of_concat(a, b.drop_last());
    }
}

/// The space of one cell.
pub proof fn space_of_one(cell: Seq<u8>)
    ensures
        space_of(seq![cell]) == cell.len() + 2,
{
    assert(seq![cell].drop_last() =~= Seq::<Seq<u8>>::empty());
    assert(space_of(Seq::<Seq<u8>>::empty()) == 0);
}

/// The space of cells with one more among them.
pub proof fn space_of_insert(cells: Seq<Seq<u8>>, at: int, cell: Seq<u8>)
    requires
        0 <= at <= cells.len(),
    ensures
        space_of(cells.insert(at, cell)) == space_of(cells) + cell.len() + 2,
{
    let a = cells.take(at);
    let b = cells.skip(at);
    assert(cells =~= a + b);
    assert(cells.insert(at, cell) =~= a + seq![cell] + b);
    space_of_concat(a, b);
    space_of_concat(a + seq![cell], b);
    space_of_concat(a, seq![cell]);
    space_of_one(cell);
}

/// `c` is the body of a leaf page: its cells lie between the pointer array
/// and the end of the page, which have room for all of them.
pub open spec fn leaf_shape(c: Seq<u8>) -> bool {
    &&& 64 <= c.len()
    &&& c[0] == PAGE_TYPE_LEAF
    &&& slotted(c, 5)
    &&& forall|i: int| 0 <= i < cell_count(c) ==> #[trigger] leaf_cell_placed(c, i)
    &&& content_start_of(c) + space_of(leaf_cells(c)) - 2 * cell_count(c) <= empty_content_start(
        c.len() + page::CHECKSUM_LEN,
    )
}

/// Cell `i` of the leaf page with the body `c`.
pub open spec fn leaf_cell(c: Seq<u8>, i: int) -> Seq<u8> {
    let p = pointer(c, 5, i);
    c.subrange(p, p + leaf_cell_len(c, p, body_max_local(c)))
}

/// The cells of the leaf page with the body `c`, in the order of its
/// pointer array.
pub open spec fn leaf_cells(c: Seq<u8>) -> Seq<Seq<u8>> {
    Seq::new(cell_count(c) as nat, |i: int| leaf_cell(c, i))
}

/// The cells' keys ascend.
pub open spec fn cells_sorted(cells: Seq<Seq<u8>>) -> bool {
    forall|i: int, j: int|
        0 <= i < j < cells.len() ==> cell_key(#[trigger] cells[i]) < cell_key(#[trigger] cells[j])
}

/// What the fields of cell `i` are, read off the page.
pub proof fn leaf_cell_fields(c: Seq<u8>, i: int)
    requires
        leaf_shape(c),
        0 <= i < cell_count(c),
    ensures
        ({
            let p = pointer(c, 5, i);
            let cell = leaf_cells(c)[i];
            &&& cell_wf(cell, body_max_local(c))
            &&& cell_key(cell) == codec::be_i64(c, p)
            &&& cell_payload_len(cell) == codec::be_u32(c, p + 8)
            &&& cell_overflow_first(cell) == codec::be_u32(c, p + 12)
            &&& cell_local(cell) == c.subrange(p + 16, p + cell.len())
            &&& p + cell.len() <= c.len()
        }),
{
    assert(leaf_cell_placed(c, i));
    let p = pointer(c, 5, i);
    let cell = leaf_cell(c, i);
    assert(forall|k: int| 0 <= k < cell.len() ==> cell[k] == c[p + k]);
    assert(cell_local(cell) =~= c.subrange(p + 16, p + cell.len()));
}

/// Putting a cell on a leaf page puts it among the page's cells and leaves
/// the others as they are.
pub proof fn leaf_after_insert(c: Seq<u8>, d: Seq<u8>, index: int, cell: Seq<u8>)
    requires
        leaf_shape(c),
        0 <= index <= cell_count(c),
        cell_fits(c, 5, index, cell.len() as int),
        cell_inserted(c, d, 5, index, cell),
        cell_wf(cell, body_max_local(c)),
    ensures
        leaf_shape(d),
        leaf_cells(d) == leaf_cells(c).insert(index, cell),
{
    let start = content_start_of(c) - cell.len();
    assert(forall|k: int| 0 <= k < cell.len() ==> d[start + k] == cell[k]) by {
        assert forall|k: int| 0 <= k < cell.len() implies d[start + k] == cell[k] by {
            assert(d.subrange(start, start + cell.len())[k] == d[start + k]);
        }
    }
    let expected = leaf_cells(c).insert(index, cell);
    assert forall|i: int| 0 <= i < cell_count(d) implies #[trigger] leaf_cell_placed(d, i)
        && leaf_cell(d, i) == expected[i] by {
        assert(pointers(d, 5)[i] == pointer(d, 5, i));
        if i == index {
            assert(pointer(d, 5, i) == start);
            assert(codec::be_u32(d, start + 8) == codec::be_u32(cell, 8));
            assert(leaf_cell(d, i) =~= cell);
        } else {
            let j = if i < index {
                i
            } else {
                i - 1
            };
            assert(pointers(c, 5)[j] == pointer(c, 5, j));
            assert(pointer(d, 5, i) == pointer(c, 5, j));
            assert(leaf_cell_placed(c, j));
            let p = pointer(c, 5, j);
            assert(codec::be_u32(d, p + 8) == codec::be_u32(c, p + 8));
            assert(leaf_cell(d, i) =~= leaf_cell(c, j));
        }
    }
    assert forall|i: int| 0 <= i < cell_count(d) implies leaf_cells(d)[i] == expected[i] by {
        assert(leaf_cell_placed(d, i));
    }
    assert(leaf_cells(d) =~= expected);
    space_of_insert(leaf_cells(c), index, cell);
}

/// Removing a cell from a leaf page removes it from the page's cells and
/// leaves the others as they are.
pub proof fn leaf_after_remove(c: Seq<u8>, d: Seq<u8>, index: int)
    requires
        leaf_shape(c),
        0 <= index < cell_count(c),
        cell_removed(c, d, 5, index),
    ensures
        leaf_shape(d),
        leaf_cells(d) == leaf_cells(c).remove(index),
{
    let expected = leaf_cells(c).remove(index);
    assert forall|i: int| 0 <= i < cell_count(d) implies #[trigger] leaf_cell_placed(d, i)
        && leaf_cell(d, i) == expected[i] by {
        assert(pointers(d, 5)[i] == pointer(d, 5, i));
        let j = if i < index {
            i
        } else {
            i + 1
        };
        assert(pointers(c, 5)[j] == pointer(c, 5, j));
        assert(pointer(d, 5, i) == pointer(c, 5, j));
        assert(leaf_cell_placed(c, j));
        let p = pointer(c, 5, j);
        assert(codec::be_u32(d, p + 8) == codec::be_u32(c, p + 8));
        assert(leaf_cell(d, i) =~= leaf_cell(c, j));
    }
    assert forall|i: int| 0 <= i < cell_count(d) implies leaf_cells(d)[i] == expected[i] by {
        assert(leaf_cell_placed(d, i));
    }
    assert(leaf_cells(d) =~= expected);
    space_of_insert(expected, index, leaf_cells(c)[index]);
    assert(expected.insert(index, leaf_cells(c)[index]) =~= leaf_cells(c));
}

/// Make the page an empty leaf page.
pub fn init_leaf(buf: &mut [u8]) -> (r: Result<(), PinaxError>)
    requires
        old(buf)@.len() >= page::CHECKSUM_LEN,
    ensures
        r is Ok,
        final(buf)@.len() == old(buf)@.len(),
        final(buf)@[0] == PAGE_TYPE_LEAF,
        cell_count(final(buf)@) == 0,
        content_start_of(final(buf)@) == empty_content_start(old(buf)@.len() as int),
        forall|k: int| 5 <= k < old(buf)@.len() ==> #[trigger] final(buf)@[k] == old(buf)@[k],
{
    init_slotted(buf, PAGE_TYPE_LEAF)
}

/// The pointer of cell `index` and the first `len` bytes that it points to
/// lie on the page.
pub open spec fn cell_readable(b: Seq<u8>, header: int, index: int, len: int) -> bool {
    &&& pointer_readable(b, header, index)
    &&& pointer(b, header, index) + len <= b.len()
}

/// The key of cell `index`.
pub open spec fn key_of(b: Seq<u8>, header: int, index: int) -> i64 {
    codec::be_i64(b, pointer(b, header, index))
}

fn leaf_key_at(buf: &[u8], index: usize) -> (r: Result<i64, PinaxError>)
    ensures
        match r {
            Ok(k) => cell_readable(buf@, 5, index as int, 8) && k == key_of(buf@, 5, index as int),
            Err(e) => !cell_readable(buf@, 5, index as int, 8) && is_cell_error(
                e,
                buf@,
                5,
                index as int,
                0,
                8,
            ),
        },
{
    let offset: u16 = pointer_at(buf, 5, index)?;
    read_i64(buf, offset as usize)
}

/// A leaf cell, read off its page.
pub struct LeafCell {
    /// The cell's key.
    pub key: i64,
    /// The length of the payload, local and overflowing.
    pub payload_len: u32,
    /// The first page of the overflow chain, or 0.
    pub overflow_first: u32,
    /// The local payload bytes.
    pub local: Vec<u8>,
}

impl LeafCell {
    /// The cell's bytes.
    pub open spec fn bytes(self) -> Seq<u8> {
        leaf_cell_bytes(self.key, self.payload_len, self.overflow_first, self.local@)
    }
}

fn leaf_local_len(payload_len: u32, max_local: u32) -> (n: u32)
    ensures
        n == local_len(payload_len as int, max_local as int),
{
    if payload_len <= max_local {
        payload_len
    } else {
        max_local
    }
}

/// Cell `index` of a leaf page lies on the page.
pub open spec fn leaf_cell_readable(b: Seq<u8>, index: int, max_local: int) -> bool {
    &&& cell_readable(b, 5, index, 16)
    &&& cell_readable(b, 5, index, leaf_cell_len(b, pointer(b, 5, index), max_local))
}

/// `e` names the first part of cell `index` that is not on the page.
pub open spec fn is_leaf_cell_error(
    e: PinaxError,
    b: Seq<u8>,
    index: int,
    max_local: int,
) -> bool {
    if !cell_readable(b, 5, index, 8) {
        is_cell_error(e, b, 5, index, 0, 8)
    } else if !cell_readable(b, 5, index, 12) {
        is_cell_error(e, b, 5, index, 8, 4)
    } else if !cell_readable(b, 5, index, 16) {
        is_cell_error(e, b, 5, index, 12, 4)
    } else {
        is_cell_error(
            e,
            b,
            5,
            index,
            16,
            leaf_cell_len(b, pointer(b, 5, index), max_local) - 16,
        )
    }
}

/// Read cell `index` of a leaf page.
pub fn leaf_cell_at(buf: &[u8], index: usize, max_local: u32) -> (r: Result<LeafCell, PinaxError>)
    ensures
        match r {
            Ok(cell) => {
                let p = pointer(buf@, 5, index as int);
                &&& leaf_cell_readable(buf@, index as int, max_local as int)
                &&& cell.key == codec::be_i64(buf@, p)
                &&& cell.payload_len == codec::be_u32(buf@, p + 8)
                &&& cell.overflow_first == codec::be_u32(buf@, p + 12)
                &&& cell.local@ == buf@.subrange(
                    p + 16,
                    p + leaf_cell_len(buf@, p, max_local as int),
                )
            },
            Err(e) => !leaf_cell_readable(buf@, index as int, max_local as int)
                && is_leaf_cell_error(e, buf@, index as int, max_local as int),
        },
{
    let offset: usize = pointer_at(buf, 5, index)? as usize;
    let key: i64 = read_i64(buf, offset)?;
    let payload_len: u32 = read_u32(buf, offset + 8)?;
    let overflow_first: u32 = read_u32(buf, offset + 12)?;
    let len: usize = leaf_local_len(payload_len, max_local) as usize;
    let local = read_vec(buf, offset + 16, len)?;
    Ok(LeafCell { key, payload_len, overflow_first, local })
}

/// The length of cell `index` of a leaf page.
pub fn leaf_cell_byte_len(buf: &[u8], index: usize, max_local: u32) -> (r: Result<u16, PinaxError>)
    requires
        max_local <= 0xFFEF,
    ensures
        match r {
            Ok(n) => cell_readable(buf@, 5, index as int, 12) && n == leaf_cell_len(
                buf@,
                pointer(buf@, 5, index as int),
                max_local as int,
            ),
            Err(e) => !cell_readable(buf@, 5, index as int, 12) && is_cell_error(
                e,
                buf@,
                5,
                index as int,
                8,
                4,
            ),
        },
{
    let offset: usize = pointer_at(buf, 5, index)? as usize;
    let payload_len: u32 = read_u32(buf, offset + 8)?;
    Ok(16 + leaf_local_len(payload_len, max_local) as u16)
}

/// Build a leaf cell.
pub fn build_leaf_cell(key: i64, payload_len: u32, overflow_first: u32, local: &[u8]) -> (cell: Vec<
    u8,
>)
    ensures
        cell@ == leaf_cell_bytes(key, payload_len, overflow_first, local@),
{
    let mut cell: Vec<u8> = Vec::new();
    let k = i64_to_bytes(key);
    let n = u32_to_bytes(payload_len);
    let o = u32_to_bytes(overflow_first);
    cell.extend_from_slice(&k);
    cell.extend_from_slice(&n);
    cell.extend_from_slice(&o);
    cell.extend_from_slice(local);
    assert(cell@ =~= leaf_cell_bytes(key, payload_len, overflow_first, local@));
    cell
}

/// The keys that the page's pointer array gives ascend.
pub open spec fn keys_ascend(b: Seq<u8>) -> bool {
    forall|i: int, j: int|
        0 <= i < j < cell_count(b) ==> #[trigger] key_of(b, 5, i) < #[trigger] key_of(b, 5, j)
}

/// Where halving the cells `lo..hi` of a leaf page, whatever it holds, leads
/// to: `Ok` with the index of a cell with the key, or with that at which it
/// would stand, or `Err` with the index of a key that is not on the page.
pub open spec fn searched(b: Seq<u8>, key: i64, lo: int, hi: int) -> Result<
    Result<int, int>,
    int,
>
    decreases hi - lo,
{
    if lo >= hi {
        Ok(Err(lo))
    } else {
        let mid = lo + (hi - lo) / 2;
        if !cell_readable(b, 5, mid, 8) {
            Err(mid)
        } else if key_of(b, 5, mid) == key {
            Ok(Ok(mid))
        } else if key_of(b, 5, mid) < key {
            searched(b, key, mid + 1, hi)
        } else {
            searched(b, key, lo, mid)
        }
    }
}

/// Search a leaf page for `key`: `Ok` with the cell's index if it is there,
/// `Err` with the index at which it would stand if it is not.
pub fn leaf_search(buf: &[u8], key: i64) -> (r: Result<Result<usize, usize>, PinaxError>)
    ensures
        match r {
            Ok(Ok(i)) => i < cell_count(buf@) && cell_readable(buf@, 5, i as int, 8) && key_of(
                buf@,
                5,
                i as int,
            ) == key,
            Ok(Err(i)) => {
                &&& i <= cell_count(buf@)
                &&& keys_ascend(buf@) ==> {
                    &&& forall|j: int| 0 <= j < i ==> #[trigger] key_of(buf@, 5, j) < key
                    &&& forall|j: int|
                        i <= j < cell_count(buf@) ==> #[trigger] key_of(buf@, 5, j) > key
                }
            },
            Err(e) => if buf@.len() < 3 {
                e == header_error(buf@)
            } else {
                exists|i: int|
                    0 <= i < cell_count(buf@) && !#[trigger] cell_readable(buf@, 5, i, 8)
                        && is_cell_error(e, buf@, 5, i, 0, 8)
            },
        },
        buf@.len() >= 3 ==> match searched(buf@, key, 0, cell_count(buf@)) {
            Ok(Ok(i)) => r matches Ok(Ok(k)) && k == i,
            Ok(Err(i)) => r matches Ok(Err(k)) && k == i,
            Err(i) => r matches Err(e) && is_cell_error(e, buf@, 5, i, 0, 8),
        },
{
    let n: usize = num_cells(buf)? as usize;
    let mut lo: usize = 0;
    let mut hi: usize = n;
    while lo < hi
        invariant
            lo <= hi <= n,
            buf@.len() >= 3,
            n == cell_count(buf@),
            searched(buf@, key, 0, n as int) == searched(buf@, key, lo as int, hi as int),
            keys_ascend(buf@) ==> {
                &&& forall|j: int| 0 <= j < lo ==> #[trigger] key_of(buf@, 5, j) < key
                &&& forall|j: int| hi <= j < n ==> #[trigger] key_of(buf@, 5, j) > key
            },
        decreases hi - lo,
    {
        let mid: usize = lo + (hi - lo) / 2;
        let mid_key: i64 = leaf_key_at(buf, mid)?;
        assert(mid_key == key_of(buf@, 5, mid as int));
        if mid_key == key {
            return Ok(Ok(mid));
        } else if mid_key < key {
            lo = mid + 1;
        } else {
            hi = mid;
        }
    }
    Ok(Err(lo))
}

// ---- interior pages ----

/// Cell `i` of the interior page with the body `c` lies within the page's
/// cell contents.
pub open spec fn interior_cell_placed(c: Seq<u8>, i: int) -> bool {
    let p = pointer(c, 9, i);
    &&& content_start_of(c) <= p
    &&& p + 12 <= c.len()
}

/// Cells `i` and `j` of an interior page share no byte.
pub open spec fn interior_cells_apart(c: Seq<u8>, i: int, j: int) -> bool {
    ||| pointer(c, 9, i) + 12 <= pointer(c, 9, j)
    ||| pointer(c, 9, j) + 12 <= pointer(c, 9, i)
}

/// `c` is the body of an interior page.
pub open spec fn interior_shape(c: Seq<u8>) -> bool {
    &&& 64 <= c.len()
    &&& c[0] == PAGE_TYPE_INTERIOR
    &&& slotted(c, 9)
    &&& 9 + 14 * cell_count(c) <= c.len()
    &&& forall|i: int| 0 <= i < cell_count(c) ==> #[trigger] interior_cell_placed(c, i)
    &&& forall|i: int, j: int|
        0 <= i < j < cell_count(c) ==> #[trigger] interior_cells_apart(c, i, j)
}

/// The child of cell `i` of an interior page.
pub open spec fn child_of(b: Seq<u8>, i: int) -> u32 {
    codec::be_u32(b, pointer(b, 9, i) + 8)
}

/// The separator keys of an interior page.
pub open spec fn interior_keys(b: Seq<u8>) -> Seq<i64> {
    Seq::new(cell_count(b) as nat, |i: int| key_of(b, 9, i))
}

/// The children of an interior page: those of its cells, then the
/// rightmost.
pub open spec fn interior_children(b: Seq<u8>) -> Seq<u32> {
    Seq::new(
        (cell_count(b) + 1) as nat,
        |i: int|
            if i < cell_count(b) {
                child_of(b, i)
            } else {
                codec::be_u32(b, 5)
            },
    )
}

/// The child of an interior page with these separator keys that `key`
/// belongs to: the first whose separator exceeds `key`, or the rightmost.
pub open spec fn route(keys: Seq<i64>, key: i64) -> int
    decreases keys.len(),
{
    if keys.len() == 0 {
        0
    } else if key < keys[0] {
        0
    } else {
        1 + route(keys.drop_first(), key)
    }
}

/// The routed child lies behind separators that do not exceed `key`, and
/// before one that does.
pub proof fn route_bounds(keys: Seq<i64>, key: i64)
    ensures
        0 <= route(keys, key) <= keys.len(),
        forall|i: int| 0 <= i < route(keys, key) ==> #[trigger] keys[i] <= key,
        route(keys, key) < keys.len() ==> key < keys[route(keys, key)],
    decreases keys.len(),
{
    if keys.len() != 0 && key >= keys[0] {
        let rest = keys.drop_first();
        route_bounds(rest, key);
        assert forall|i: int| 0 <= i < route(keys, key) implies #[trigger] keys[i] <= key by {
            if i > 0 {
                assert(rest[i - 1] == keys[i]);
            }
        }
    }
}

/// No other child is routed to.
pub proof fn route_is(keys: Seq<i64>, key: i64, at: int)
    requires
        0 <= at <= keys.len(),
        forall|i: int| 0 <= i < at ==> #[trigger] keys[i] <= key,
        at < keys.len() ==> key < keys[at],
    ensures
        route(keys, key) == at,
{
    route_bounds(keys, key);
}

/// Putting a cell on an interior page that only has cells before it.
pub proof fn interior_after_push(c: Seq<u8>, d: Seq<u8>, key: i64, child: u32)
    requires
        interior_shape(c),
        9 + 14 * (cell_count(c) + 1) <= c.len(),
        cell_fits(c, 9, cell_count(c), 12),
        cell_inserted(c, d, 9, cell_count(c), interior_cell_bytes(key, child)),
    ensures
        interior_shape(d),
        interior_keys(d) == interior_keys(c).push(key),
        interior_children(d) == interior_children(c).drop_last().push(child).push(
            interior_children(c).last(),
        ),
{
    let n = cell_count(c);
    let cell = interior_cell_bytes(key, child);
    let start = content_start_of(c) - 12;
    interior_cell_round_trip(key, child);
    assert forall|k: int| 0 <= k < 12 implies d[start + k] == cell[k] by {
        assert(d.subrange(start, start + 12)[k] == d[start + k]);
    }
    assert forall|i: int| 0 <= i < n implies pointer(d, 9, i) == #[trigger] pointer(c, 9, i) by {
        assert(pointers(d, 9)[i] == pointer(d, 9, i));
        assert(pointers(c, 9)[i] == pointer(c, 9, i));
    }
    assert(pointer(d, 9, n) == start) by {
        assert(pointers(d, 9)[n] == pointer(d, 9, n));
    }
    assert forall|i: int| 0 <= i < cell_count(d) implies #[trigger] interior_cell_placed(d, i) by {
        if i < n {
            assert(interior_cell_placed(c, i));
            assert(pointer(d, 9, i) == pointer(c, 9, i));
        }
    }
    assert forall|i: int, j: int|
        0 <= i < j < cell_count(d) implies #[trigger] interior_cells_apart(d, i, j) by {
        assert(pointer(d, 9, i) == pointer(c, 9, i));
        assert(interior_cell_placed(c, i));
        if j < n {
            assert(pointer(d, 9, j) == pointer(c, 9, j));
            assert(interior_cells_apart(c, i, j));
        }
    }
    assert forall|i: int| 0 <= i < n implies key_of(d, 9, i) == #[trigger] key_of(c, 9, i)
        && child_of(d, i) == child_of(c, i) by {
        assert(pointer(d, 9, i) == pointer(c, 9, i));
        assert(interior_cell_placed(c, i));
    }
    assert(key_of(d, 9, n) == codec::be_i64(cell, 0));
    assert(child_of(d, n) == codec::be_u32(cell, 8));
    assert(interior_keys(d) =~= interior_keys(c).push(key));
    assert(codec::be_u32(d, 5) == codec::be_u32(c, 5));
    let expected = interior_children(c).drop_last().push(child).push(interior_children(c).last());
    assert forall|i: int| 0 <= i < n + 2 implies interior_children(d)[i] == expected[i] by {
        if i < n {
            assert(key_of(d, 9, i) == key_of(c, 9, i));
            assert(child_of(d, i) == child_of(c, i));
        }
    }
    assert(interior_children(d) =~= expected);
}

/// The bytes of an interior cell.
pub open spec fn interior_cell_bytes(key: i64, child: u32) -> Seq<u8> {
    codec::i64_bytes(key) + codec::u32_bytes(child)
}

/// An interior cell gives back what it was built from.
pub proof fn interior_cell_round_trip(key: i64, child: u32)
    ensures
        interior_cell_bytes(key, child).len() == 12,
        codec::be_i64(interior_cell_bytes(key, child), 0) == key,
        codec::be_u32(interior_cell_bytes(key, child), 8) == child,
{
    let cell = interior_cell_bytes(key, child);
    assert(cell.subrange(0, 8) =~= codec::i64_bytes(key));
    codec::i64_round_trip(cell, 0, key);
    assert(cell.subrange(8, 12) =~= codec::u32_bytes(child));
    codec::u32_round_trip(cell, 8, child);
}

/// Overwriting the child of one cell of an interior page replaces that
/// child and nothing else.
pub proof fn interior_after_set_child(c: Seq<u8>, d: Seq<u8>, index: int, child: u32)
    requires
        interior_shape(c),
        0 <= index < cell_count(c),
        d == codec::patched(c, pointer(c, 9, index) + 8, codec::u32_bytes(child)),
    ensures
        interior_shape(d),
        interior_keys(d) == interior_keys(c),
        interior_children(d) == interior_children(c).update(index, child),
{
    let n = cell_count(c);
    let at = pointer(c, 9, index) + 8;
    assert(interior_cell_placed(c, index));
    assert(forall|k: int| 0 <= k < at ==> #[trigger] d[k] == c[k]);
    assert(cell_count(d) == n);
    assert forall|i: int| 0 <= i < n implies pointer(d, 9, i) == #[trigger] pointer(c, 9, i) by {
        assert(9 + 2 * i + 1 < at);
    }
    assert forall|i: int| 0 <= i < n implies #[trigger] interior_cell_placed(d, i) by {
        assert(interior_cell_placed(c, i));
        assert(pointer(d, 9, i) == pointer(c, 9, i));
    }
    assert forall|i: int, j: int| 0 <= i < j < n implies #[trigger] interior_cells_apart(
        d,
        i,
        j,
    ) by {
        assert(pointer(d, 9, i) == pointer(c, 9, i));
        assert(pointer(d, 9, j) == pointer(c, 9, j));
        assert(interior_cells_apart(c, i, j));
    }
    assert(d.subrange(at, at + 4) =~= codec::u32_bytes(child));
    codec::u32_round_trip(d, at, child);
    assert forall|i: int| 0 <= i < n implies key_of(d, 9, i) == #[trigger] key_of(c, 9, i)
        && child_of(d, i) == (if i == index {
        child
    } else {
        child_of(c, i)
    }) by {
        assert(pointer(d, 9, i) == pointer(c, 9, i));
        assert(interior_cell_placed(c, i));
        if i < index {
            assert(interior_cells_apart(c, i, index));
        } else if i > index {
            assert(interior_cells_apart(c, index, i));
        }
    }
    assert(interior_keys(d) =~= interior_keys(c));
    assert(codec::be_u32(d, 5) == codec::be_u32(c, 5));
    let expected = interior_children(c).update(index, child);
    assert forall|i: int| 0 <= i < n + 1 implies interior_children(d)[i] == expected[i] by {
        if i < n {
            assert(key_of(d, 9, i) == key_of(c, 9, i));
            assert(child_of(d, i) == (if i == index {
                child
            } else {
                child_of(c, i)
            }));
        }
    }
    assert(interior_children(d) =~= expected);
}

/// Overwriting the rightmost child of an interior page replaces that child
/// and nothing else.
pub proof fn interior_after_set_rightmost(c: Seq<u8>, d: Seq<u8>, child: u32)
    requires
        interior_shape(c),
        d == codec::patched(c, 5, codec::u32_bytes(child)),
    ensures
        interior_shape(d),
        interior_keys(d) == interior_keys(c),
        interior_children(d) == interior_children(c).update(cell_count(c), child),
{
    let n = cell_count(c);
    assert(forall|k: int| 9 <= k < c.len() ==> #[trigger] d[k] == c[k]);
    assert(cell_count(d) == n);
    assert(content_start_of(d) == content_start_of(c));
    assert forall|i: int| 0 <= i < n implies pointer(d, 9, i) == #[trigger] pointer(c, 9, i)
        && interior_cell_placed(d, i) && key_of(d, 9, i) == key_of(c, 9, i) && child_of(d, i)
        == child_of(c, i) by {
        assert(interior_cell_placed(c, i));
    }
    assert forall|i: int| 0 <= i < n implies #[trigger] interior_cell_placed(d, i) by {
        assert(pointer(d, 9, i) == pointer(c, 9, i));
    }
    assert forall|i: int, j: int| 0 <= i < j < n implies #[trigger] interior_cells_apart(
        d,
        i,
        j,
    ) by {
        assert(pointer(d, 9, i) == pointer(c, 9, i));
        assert(pointer(d, 9, j) == pointer(c, 9, j));
        assert(interior_cells_apart(c, i, j));
    }
    assert(d.subrange(5, 9) =~= codec::u32_bytes(child));
    codec::u32_round_trip(d, 5, child);
    assert forall|i: int| 0 <= i < n implies interior_keys(d)[i] == interior_keys(c)[i] by {
        assert(pointer(d, 9, i) == pointer(c, 9, i));
    }
    assert(interior_keys(d) =~= interior_keys(c));
    let expected = interior_children(c).update(n, child);
    assert forall|i: int| 0 <= i < n + 1 implies interior_children(d)[i] == expected[i] by {
        if i < n {
            assert(pointer(d, 9, i) == pointer(c, 9, i));
            assert(child_of(d, i) == child_of(c, i));
        }
    }
    assert(interior_children(d) =~= expected);
}

/// Make the page an interior page without cells.
pub fn init_interior(buf: &mut [u8], rightmost_child: u32) -> (r: Result<(), PinaxError>)
    requires
        old(buf)@.len() >= page::CHECKSUM_LEN,
    ensures
        match r {
            Ok(()) => {
                &&& old(buf)@.len() >= 9
                &&& final(buf)@.len() == old(buf)@.len()
                &&& final(buf)@[0] == PAGE_TYPE_INTERIOR
                &&& cell_count(final(buf)@) == 0
                &&& content_start_of(final(buf)@) == empty_content_start(old(buf)@.len() as int)
                &&& codec::be_u32(final(buf)@, 5) == rightmost_child
                &&& forall|k: int|
                    9 <= k < old(buf)@.len() ==> #[trigger] final(buf)@[k] == old(buf)@[k]
            },
            Err(e) => old(buf)@.len() < 9 && e == error::bounds_error(
                5,
                4,
                old(buf)@.len() as int,
            ),
        },
{
    init_slotted(buf, PAGE_TYPE_INTERIOR)?;
    let r = write_u32(buf, 5, rightmost_child);
    proof {
        if r is Ok {
            assert(buf@.subrange(5, 9) =~= codec::u32_bytes(rightmost_child));
            codec::u32_round_trip(buf@, 5, rightmost_child);
        }
    }
    r
}

/// The rightmost child of an interior page.
pub fn interior_rightmost(buf: &[u8]) -> (r: Result<u32, PinaxError>)
    ensures
        match r {
            Ok(v) => buf@.len() >= 9 && v == codec::be_u32(buf@, 5),
            Err(e) => buf@.len() < 9 && e == error::bounds_error(5, 4, buf@.len() as int),
        },
{
    read_u32(buf, 5)
}

/// Replace the rightmost child of an interior page.
pub fn interior_set_rightmost(buf: &mut [u8], child: u32) -> (r: Result<(), PinaxError>)
    ensures
        match r {
            Ok(()) => old(buf)@.len() >= 9 && final(buf)@ == codec::patched(
                old(buf)@,
                5,
                codec::u32_bytes(child),
            ),
            Err(e) => old(buf)@.len() < 9 && final(buf)@ == old(buf)@ && e
                == error::bounds_error(5, 4, old(buf)@.len() as int),
        },
{
    write_u32(buf, 5, child)
}

/// The separator key of cell `index` of an interior page.
pub fn interior_key_at(buf: &[u8], index: usize) -> (r: Result<i64, PinaxError>)
    ensures
        match r {
            Ok(k) => cell_readable(buf@, 9, index as int, 8) && k == key_of(buf@, 9, index as int),
            Err(e) => !cell_readable(buf@, 9, index as int, 8) && is_cell_error(
                e,
                buf@,
                9,
                index as int,
                0,
                8,
            ),
        },
{
    let offset: u16 = pointer_at(buf, 9, index)?;
    read_i64(buf, offset as usize)
}

/// The child of cell `index` of an interior page.
pub fn interior_child_at(buf: &[u8], index: usize) -> (r: Result<u32, PinaxError>)
    ensures
        match r {
            Ok(k) => cell_readable(buf@, 9, index as int, 12) && k == child_of(buf@, index as int),
            Err(e) => !cell_readable(buf@, 9, index as int, 12) && is_cell_error(
                e,
                buf@,
                9,
                index as int,
                8,
                4,
            ),
        },
{
    let offset: u16 = pointer_at(buf, 9, index)?;
    read_u32(buf, offset as usize + 8)
}

/// Replace the child of cell `index` of an interior page.
pub fn interior_set_child_at(buf: &mut [u8], index: usize, child: u32) -> (r: Result<
    (),
    PinaxError,
>)
    ensures
        match r {
            Ok(()) => cell_readable(old(buf)@, 9, index as int, 12) && final(buf)@
                == codec::patched(
                old(buf)@,
                pointer(old(buf)@, 9, index as int) + 8,
                codec::u32_bytes(child),
            ),
            Err(e) => !cell_readable(old(buf)@, 9, index as int, 12) && final(buf)@ == old(buf)@
                && is_cell_error(e, old(buf)@, 9, index as int, 8, 4),
        },
{
    let offset: u16 = pointer_at(buf, 9, index)?;
    write_u32(buf, offset as usize + 8, child)
}

/// Build an interior cell.
pub fn build_interior_cell(key: i64, child: u32) -> (cell: Vec<u8>)
    ensures
        cell@ == interior_cell_bytes(key, child),
{
    let mut cell: Vec<u8> = Vec::new();
    let k = i64_to_bytes(key);
    let c = u32_to_bytes(child);
    cell.extend_from_slice(&k);
    cell.extend_from_slice(&c);
    assert(cell@ =~= interior_cell_bytes(key, child));
    cell
}

/// Which child of an interior page an id is referenced from.
pub enum ChildSlot {
    /// The child of the cell with this index.
    Cell(usize),
    /// The rightmost child.
    Rightmost,
}

/// Find the first cell of an interior page whose child is `child_id`; where
/// there is none, it stands for the rightmost child.
pub fn interior_find_child_slot(buf: &[u8], child_id: u32) -> (r: Result<ChildSlot, PinaxError>)
    ensures
        match r {
            Ok(ChildSlot::Cell(i)) => {
                &&& i < cell_count(buf@)
                &&& cell_readable(buf@, 9, i as int, 12)
                &&& child_of(buf@, i as int) == child_id
                &&& forall|j: int| 0 <= j < i ==> #[trigger] child_of(buf@, j) != child_id
                &&& forall|j: int| 0 <= j < i ==> #[trigger] cell_readable(buf@, 9, j, 12)
            },
            Ok(ChildSlot::Rightmost) => {
                &&& buf@.len() >= 3
                &&& forall|j: int|
                    0 <= j < cell_count(buf@) ==> #[trigger] child_of(buf@, j) != child_id
                &&& forall|j: int|
                    0 <= j < cell_count(buf@) ==> #[trigger] cell_readable(buf@, 9, j, 12)
            },
            Err(e) => if buf@.len() < 3 {
                e == header_error(buf@)
            } else {
                exists|i: int|
                    {
                        &&& 0 <= i < cell_count(buf@)
                        &&& !#[trigger] cell_readable(buf@, 9, i, 12)
                        &&& is_cell_error(e, buf@, 9, i, 8, 4)
                        &&& forall|j: int| 0 <= j < i ==> #[trigger] child_of(buf@, j) != child_id
                        &&& forall|j: int|
                            0 <= j < i ==> #[trigger] cell_readable(buf@, 9, j, 12)
                    }
            },
        },
{
    let n: usize = num_cells(buf)? as usize;
    let mut i: usize = 0;
    while i < n
        invariant
            i <= n,
            buf@.len() >= 3,
            n == cell_count(buf@),
            forall|j: int| 0 <= j < i ==> #[trigger] child_of(buf@, j) != child_id,
            forall|j: int| 0 <= j < i ==> #[trigger] cell_readable(buf@, 9, j, 12),
        decreases n - i,
    {
        if interior_child_at(buf, i)? == child_id {
            return Ok(ChildSlot::Cell(i));
        }
        i = i + 1;
    }
    Ok(ChildSlot::Rightmost)
}

/// `e` says that the counts, the rightmost child, or a key or child of a
/// cell of an interior page are not on the page.
pub open spec fn is_entries_error(e: PinaxError, b: Seq<u8>) -> bool {
    ||| b.len() < 3 && e == header_error(b)
    ||| b.len() < 9 && e == error::bounds_error(5, 4, b.len() as int)
    ||| exists|i: int|
        {
            &&& 0 <= i < cell_count(b)
            &&& !#[trigger] cell_readable(b, 9, i, 12)
            &&& if cell_readable(b, 9, i, 8) {
                is_cell_error(e, b, 9, i, 8, 4)
            } else {
                is_cell_error(e, b, 9, i, 0, 8)
            }
        }
}

/// The first `i` cells of an interior page have separator keys that lie on
/// the page and do not exceed `key`.
pub open spec fn passes(b: Seq<u8>, key: i64, i: int) -> bool {
    &&& 0 <= i <= cell_count(b)
    &&& forall|j: int|
        0 <= j < i ==> #[trigger] cell_readable(b, 9, j, 8) && key_of(b, 9, j) <= key
}

/// `e` says that the way of `key` ends at cell `i`, or behind the last cell:
/// that its separator key, or the child that it leads to, is not on the page.
pub open spec fn stops(e: PinaxError, b: Seq<u8>, key: i64, i: int) -> bool {
    if i == cell_count(b) {
        b.len() < 9 && e == error::bounds_error(5, 4, b.len() as int)
    } else if !cell_readable(b, 9, i, 8) {
        is_cell_error(e, b, 9, i, 0, 8)
    } else {
        &&& key < key_of(b, 9, i)
        &&& !cell_readable(b, 9, i, 12)
        &&& is_cell_error(e, b, 9, i, 8, 4)
    }
}

/// The way of `key` over an interior page leads to a child: what it passes
/// and the child lie on the page.
pub open spec fn leads(b: Seq<u8>, key: i64) -> bool {
    let at = route(interior_keys(b), key);
    &&& b.len() >= 3
    &&& passes(b, key, at)
    &&& if at < cell_count(b) {
        cell_readable(b, 9, at, 12)
    } else {
        b.len() >= 9
    }
}

/// `e` says where the way of `key` over an interior page ends.
pub open spec fn is_way_error(e: PinaxError, b: Seq<u8>, key: i64) -> bool {
    if b.len() < 3 {
        e == header_error(b)
    } else {
        exists|i: int| #[trigger] passes(b, key, i) && stops(e, b, key, i)
    }
}

/// All cells of an interior page and its rightmost child lie on it.
pub open spec fn entries_readable(b: Seq<u8>) -> bool {
    &&& b.len() >= 9
    &&& forall|j: int| 0 <= j < cell_count(b) ==> #[trigger] cell_readable(b, 9, j, 12)
}

/// `e` names the first separator key or child of an interior page that does
/// not lie on it, the rightmost child last.
pub open spec fn is_first_entries_error(e: PinaxError, b: Seq<u8>) -> bool {
    if b.len() < 3 {
        e == header_error(b)
    } else {
        exists|i: int|
            {
                &&& 0 <= i <= cell_count(b)
                &&& forall|j: int| 0 <= j < i ==> #[trigger] cell_readable(b, 9, j, 12)
                &&& #[trigger] ends(e, b, i)
            }
    }
}

/// `e` says that cell `i` of an interior page, or behind the last cell the
/// rightmost child, is not on the page.
pub open spec fn ends(e: PinaxError, b: Seq<u8>, i: int) -> bool {
    if i == cell_count(b) {
        b.len() < 9 && e == error::bounds_error(5, 4, b.len() as int)
    } else {
        &&& !cell_readable(b, 9, i, 12)
        &&& if cell_readable(b, 9, i, 8) {
            is_cell_error(e, b, 9, i, 8, 4)
        } else {
            is_cell_error(e, b, 9, i, 0, 8)
        }
    }
}

/// The child of an interior page that `key` belongs to: that of the first
/// cell whose separator key exceeds `key`, or the rightmost.
#[verifier::spinoff_prover]
pub fn interior_find_child_for_key(buf: &[u8], key: i64) -> (r: Result<u32, PinaxError>)
    ensures
        match r {
            Ok(id) => buf@.len() >= 3 && id == interior_children(buf@)[route(
                interior_keys(buf@),
                key,
            )],
            Err(e) => is_entries_error(e, buf@),
        },
        r is Ok ==> leads(buf@, key),
        r matches Err(e) ==> is_way_error(e, buf@, key),
{
    let n: usize = num_cells(buf)? as usize;
    let ghost keys = interior_keys(buf@);
    let mut i: usize = 0;
    while i < n
        invariant
            i <= n,
            n == cell_count(buf@),
            keys == interior_keys(buf@),
            buf@.len() >= 3,
            forall|j: int| 0 <= j < i ==> #[trigger] keys[j] <= key,
            passes(buf@, key, i as int),
        decreases n - i,
    {
        let k = interior_key_at(buf, i);
        proof {
            if k is Err {
                assert(!cell_readable(buf@, 9, i as int, 12));
                assert(passes(buf@, key, i as int));
            }
        }
        if key < k? {
            proof {
                route_is(keys, key, i as int);
            }
            return interior_child_at(buf, i);
        }
        proof {
            assert(cell_readable(buf@, 9, i as int, 8) && key_of(buf@, 9, i as int) <= key);
            assert forall|j: int| 0 <= j < i + 1 implies #[trigger] cell_readable(buf@, 9, j, 8)
                && key_of(buf@, 9, j) <= key by {
                assert(j < i ==> passes(buf@, key, i as int));
            }
            assert(passes(buf@, key, i + 1));
        }
        i = i + 1;
    }
    proof {
        route_is(keys, key, n as int);
    }
    interior_rightmost(buf)
}

} // verus!
