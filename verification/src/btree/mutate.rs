//! Path-copying mutation: changing a leaf page, carrying the change up
//! through the interior pages above it, and making the new root.
//!
//! Nothing is changed in place. Every function here puts new pages and
//! returns what stands in place of the page that it was given.

use vstd::prelude::*;

use crate::btree::layout;
use crate::btree::layout::{
    build_interior_cell, free_space, init_interior, init_leaf, insert_cell_at,
    interior_child_at, interior_find_child_slot, interior_key_at, interior_rightmost,
    interior_set_child_at, interior_set_rightmost, leaf_cell_byte_len, num_cells, pointer_at,
    remove_cell_at, ChildSlot,
};
use crate::btree::tree;
use crate::btree::tree::{NodeResult, Pages};
use crate::buffer_pool;
use crate::buffer_pool::BufferPool;
use crate::codec;
use crate::codec::{read_i64, read_u8, read_vec};
use crate::error;
use crate::error::{buffer_bounds, counter_exhausted, PinaxError};
use crate::page;
use crate::page::PAGE_TYPE_INTERIOR;

verus! {

// ---- from page buffers to page bodies ----

/// What a header field of a page buffer is, its body has too.
proof fn body_fields(b: Seq<u8>, header: int)
    requires
        b.len() >= page::CHECKSUM_LEN + 9,
    ensures
        page::body(b).len() == b.len() - page::CHECKSUM_LEN,
        page::body(b)[0] == b[0],
        layout::cell_count(page::body(b)) == layout::cell_count(b),
        layout::content_start_of(page::body(b)) == layout::content_start_of(b),
        codec::be_u32(page::body(b), 5) == codec::be_u32(b, 5),
        forall|i: int|
            5 <= header && 0 <= i && header + 2 * i + 2 <= b.len() - page::CHECKSUM_LEN
                ==> #[trigger] layout::pointer(page::body(b), header, i) == layout::pointer(
                b,
                header,
                i,
            ),
{
}

/// A page buffer's header is that of its body.
pub proof fn buffer_header(b: Seq<u8>)
    requires
        b.len() >= page::CHECKSUM_LEN + 9,
    ensures
        page::body(b)[0] == b[0],
        layout::cell_count(page::body(b)) == layout::cell_count(b),
        codec::be_u32(page::body(b), 5) == codec::be_u32(b, 5),
{
    body_fields(b, 9);
}

/// Putting a cell on a page buffer puts it on the page's body.
proof fn inserted_body(b: Seq<u8>, d: Seq<u8>, header: int, index: int, cell: Seq<u8>)
    requires
        b.len() >= page::CHECKSUM_LEN + 9,
        5 <= header,
        0 <= index <= layout::cell_count(b),
        layout::content_start_of(b) <= b.len() - page::CHECKSUM_LEN,
        layout::cell_fits(b, header, index, cell.len() as int),
        layout::cell_inserted(b, d, header, index, cell),
    ensures
        layout::cell_fits(page::body(b), header, index, cell.len() as int),
        layout::cell_inserted(page::body(b), page::body(d), header, index, cell),
{
    let x = page::body(b);
    let y = page::body(d);
    let start = layout::content_start_of(b) - cell.len();
    body_fields(b, header);
    body_fields(d, header);
    assert forall|k: int| 5 <= k < header implies #[trigger] y[k] == x[k] by {
        assert(d[k] == b[k]);
    }
    assert forall|k: int| layout::content_start_of(x) <= k < x.len() implies #[trigger] y[k]
        == x[k] by {
        assert(d[k] == b[k]);
    }
    assert(layout::pointers(y, header) =~= layout::pointers(d, header));
    assert(layout::pointers(x, header) =~= layout::pointers(b, header));
    assert(y.subrange(start, start + cell.len()) =~= d.subrange(start, start + cell.len()));
}

/// Removing a cell from a page buffer removes it from the page's body.
proof fn removed_body(b: Seq<u8>, d: Seq<u8>, header: int, index: int)
    requires
        b.len() >= page::CHECKSUM_LEN + 9,
        5 <= header,
        0 <= index < layout::cell_count(b),
        header + 2 * layout::cell_count(b) <= b.len() - page::CHECKSUM_LEN,
        layout::cell_removed(b, d, header, index),
    ensures
        layout::cell_removed(page::body(b), page::body(d), header, index),
{
    let x = page::body(b);
    let y = page::body(d);
    body_fields(b, header);
    body_fields(d, header);
    assert forall|k: int| 5 <= k < header implies #[trigger] y[k] == x[k] by {
        assert(d[k] == b[k]);
    }
    assert forall|k: int|
        header + 2 * layout::cell_count(x) - 2 <= k < x.len() implies #[trigger] y[k] == x[k] by {
        assert(d[k] == b[k]);
    }
    assert(layout::pointers(y, header) =~= layout::pointers(d, header));
    assert(layout::pointers(x, header) =~= layout::pointers(b, header));
}

/// On a leaf page's buffer the search sees the keys of its cells.
pub proof fn leaf_buffer_keys(b: Seq<u8>)
    requires
        b.len() >= page::CHECKSUM_LEN + 9,
        layout::leaf_shape(page::body(b)),
    ensures
        ({
            let cells = layout::leaf_cells(page::body(b));
            &&& layout::cell_count(b) == cells.len()
            &&& forall|i: int|
                0 <= i < cells.len() ==> layout::cell_readable(b, 5, i, 8)
                    && #[trigger] layout::key_of(b, 5, i) == layout::cell_key(cells[i])
            &&& forall|i: int|
                0 <= i < cells.len() ==> #[trigger] layout::cell_readable(b, 5, i, 8)
            &&& layout::cells_sorted(cells) ==> layout::keys_ascend(b)
        }),
{
    let c = page::body(b);
    let cells = layout::leaf_cells(c);
    body_fields(b, 5);
    assert forall|i: int| 0 <= i < cells.len() implies layout::cell_readable(b, 5, i, 8)
        && #[trigger] layout::key_of(b, 5, i) == layout::cell_key(cells[i]) by {
        assert(layout::leaf_cell_placed(c, i));
        layout::leaf_cell_fields(c, i);
        assert(layout::pointer(c, 5, i) == layout::pointer(b, 5, i));
    }
    assert forall|i: int| 0 <= i < cells.len() implies #[trigger] layout::cell_readable(
        b,
        5,
        i,
        8,
    ) by {
        assert(layout::key_of(b, 5, i) == layout::cell_key(cells[i]));
    }
    if layout::cells_sorted(cells) {
        assert forall|i: int, j: int| 0 <= i < j < layout::cell_count(b) implies
            #[trigger] layout::key_of(b, 5, i) < #[trigger] layout::key_of(b, 5, j) by {
            assert(layout::cell_key(cells[i]) < layout::cell_key(cells[j]));
        }
    }
}

/// On a leaf page's buffer a cell is read as it is.
pub proof fn leaf_buffer_cell(b: Seq<u8>, i: int)
    requires
        b.len() >= page::CHECKSUM_LEN + 9,
        layout::leaf_shape(page::body(b)),
        0 <= i < layout::cell_count(b),
    ensures
        ({
            let cell = layout::leaf_cells(page::body(b))[i];
            let ml = layout::body_max_local(page::body(b));
            let p = layout::pointer(b, 5, i);
            &&& layout::leaf_cell_readable(b, i, ml)
            &&& layout::leaf_cell_len(b, p, ml) == cell.len()
            &&& cell == b.subrange(p, p + cell.len())
            &&& layout::cell_wf(cell, ml)
            &&& layout::cell_key(cell) == codec::be_i64(b, p)
            &&& layout::cell_payload_len(cell) == codec::be_u32(b, p + 8)
            &&& layout::cell_overflow_first(cell) == codec::be_u32(b, p + 12)
            &&& layout::cell_local(cell) == b.subrange(p + 16, p + cell.len())
        }),
{
    let c = page::body(b);
    body_fields(b, 5);
    assert(layout::leaf_cell_placed(c, i));
    layout::leaf_cell_fields(c, i);
    let p = layout::pointer(b, 5, i);
    assert(layout::pointer(c, 5, i) == p);
    let cell = layout::leaf_cells(c)[i];
    assert(cell == layout::leaf_cell(c, i));
    assert(cell =~= b.subrange(p, p + cell.len()));
    assert(c.subrange(p + 16, p + cell.len()) =~= b.subrange(p + 16, p + cell.len()));
}

/// On an interior page's buffer keys and children are read as they are.
pub proof fn interior_buffer(b: Seq<u8>)
    requires
        b.len() >= page::CHECKSUM_LEN + 9,
        layout::interior_shape(page::body(b)),
    ensures
        layout::interior_keys(b) == layout::interior_keys(page::body(b)),
        layout::interior_children(b) == layout::interior_children(page::body(b)),
        forall|i: int|
            0 <= i < layout::cell_count(b) ==> #[trigger] layout::cell_readable(b, 9, i, 12),
        layout::cell_count(b) == layout::cell_count(page::body(b)),
{
    let c = page::body(b);
    body_fields(b, 9);
    assert forall|i: int| 0 <= i < layout::cell_count(b) implies #[trigger] layout::cell_readable(
        b,
        9,
        i,
        12,
    ) && layout::key_of(b, 9, i) == layout::key_of(c, 9, i) && layout::child_of(b, i)
        == layout::child_of(c, i) by {
        assert(layout::interior_cell_placed(c, i));
        assert(layout::pointer(c, 9, i) == layout::pointer(b, 9, i));
    }
    assert forall|i: int| 0 <= i < layout::cell_count(b) implies layout::interior_keys(b)[i]
        == layout::interior_keys(c)[i] && layout::interior_children(b)[i]
        == layout::interior_children(c)[i] by {
        assert(layout::cell_readable(b, 9, i, 12));
    }
    assert(layout::interior_keys(b) =~= layout::interior_keys(c));
    assert(layout::interior_children(b) =~= layout::interior_children(c));
}

// ---- leaf pages ----

/// The bytes of some cells.
pub open spec fn cell_seqs(cells: Seq<Vec<u8>>) -> Seq<Seq<u8>> {
    Seq::new(cells.len(), |i: int| cells[i]@)
}

/// The cells fit on one leaf page of `size` bytes.
pub open spec fn cells_fit(cells: Seq<Seq<u8>>, size: int) -> bool {
    5 + layout::space_of(cells) <= layout::empty_content_start(size)
}

proof fn space_of_prefix(cells: Seq<Seq<u8>>, n: int)
    requires
        0 <= n <= cells.len(),
    ensures
        0 <= layout::space_of(cells.take(n)) <= layout::space_of(cells),
    decreases cells.len(),
{
    if n < cells.len() {
        space_of_prefix(cells.drop_last(), n);
        assert(cells.drop_last().take(n) =~= cells.take(n));
    } else {
        assert(cells.take(n) =~= cells);
        if cells.len() > 0 {
            space_of_prefix(cells.drop_last(), cells.len() - 1);
            assert(cells.drop_last().take(cells.len() - 1) =~= cells.drop_last());
        }
    }
}

/// Page `id` is a leaf page with these cells.
pub open spec fn leaf_made(pages: Pages, id: u32, cells: Seq<Seq<u8>>, usable: int) -> bool {
    &&& pages.contains_key(id)
    &&& pages[id].len() == usable
    &&& layout::leaf_shape(pages[id])
    &&& layout::leaf_cells(pages[id]) == cells
}

/// The pages that stand in place of a leaf page hold these cells: all on one
/// page, divided between two, or the one at `at` on a page between two.
pub open spec fn leaf_result(
    pages: Pages,
    r: NodeResult,
    cells: Seq<Seq<u8>>,
    at: int,
    usable: int,
) -> bool {
    let n = cells.len() as int;
    match r {
        NodeResult::Replaced(id) => leaf_made(pages, id, cells, usable),
        NodeResult::Split { left, right, separator_key } => {
            let mid = division(cells, usable + page::CHECKSUM_LEN);
            &&& 0 <= mid < n
            &&& left != right
            &&& separator_key == layout::cell_key(cells[mid])
            &&& leaf_made(pages, left, cells.subrange(0, mid), usable)
            &&& leaf_made(pages, right, cells.subrange(mid, n), usable)
        },
        NodeResult::Parted { left, middle, right, low_key, high_key } => {
            &&& 0 < at < n - 1
            &&& left != middle && middle != right && left != right
            &&& low_key == layout::cell_key(cells[at])
            &&& high_key == layout::cell_key(cells[at + 1])
            &&& leaf_made(pages, left, cells.subrange(0, at), usable)
            &&& leaf_made(pages, middle, cells.subrange(at, at + 1), usable)
            &&& leaf_made(pages, right, cells.subrange(at + 1, n), usable)
        },
    }
}

/// An empty leaf page's body.
proof fn empty_leaf(b: Seq<u8>)
    requires
        page::valid_page_size(b.len() as int),
        b[0] == page::PAGE_TYPE_LEAF,
        layout::cell_count(b) == 0,
        layout::content_start_of(b) == layout::empty_content_start(b.len() as int),
    ensures
        layout::leaf_shape(page::body(b)),
        layout::leaf_cells(page::body(b)) == Seq::<Seq<u8>>::empty(),
{
    body_fields(b, 5);
    assert(layout::leaf_cells(page::body(b)) =~= Seq::<Seq<u8>>::empty());
}

/// Build a leaf page of the cells `from..to`.
fn build_leaf_page(page_size: usize, cells: &Vec<Vec<u8>>, from: usize, to: usize) -> (r: Result<
    Vec<u8>,
    PinaxError,
>)
    requires
        page::valid_page_size(page_size as int),
        from <= to <= cells@.len(),
    ensures
        match r {
            Ok(buf) => {
                let part = cell_seqs(cells@).subrange(from as int, to as int);
                &&& cells_fit(part, page_size as int)
                &&& buf@.len() == page_size
                &&& layout::free_is_zero(buf@, 5)
                &&& (forall|i: int|
                    from <= i < to ==> layout::cell_wf((#[trigger] cells@[i])@, page_size - 43))
                    ==> layout::leaf_shape(page::body(buf@)) && layout::leaf_cells(
                    page::body(buf@),
                ) == part
            },
            Err(e) => error::is_bounds_error(e) && !cells_fit(
                cell_seqs(cells@).subrange(from as int, to as int),
                page_size as int,
            ),
        },
{
    let ghost part = cell_seqs(cells@).subrange(from as int, to as int);
    let ghost good = forall|i: int|
        from <= i < to ==> layout::cell_wf((#[trigger] cells@[i])@, page_size - 43);
    let mut buf: Vec<u8> = vec![0u8; page_size];
    init_leaf(&mut buf)?;
    proof {
        empty_leaf(buf@);
        assert(part.take(0) =~= Seq::<Seq<u8>>::empty());
    }
    let mut i: usize = from;
    while i < to
        invariant
            from <= i <= to <= cells@.len(),
            page::valid_page_size(page_size as int),
            part == cell_seqs(cells@).subrange(from as int, to as int),
            good == (forall|k: int|
                from <= k < to ==> layout::cell_wf((#[trigger] cells@[k])@, page_size - 43)),
            buf@.len() == page_size,
            good ==> layout::leaf_shape(page::body(buf@)) && layout::leaf_cells(page::body(buf@))
                == part.take(i - from),
            layout::cell_count(buf@) == i - from,
            layout::content_start_of(buf@) + layout::space_of(part.take(i - from)) - 2 * (i - from)
                == layout::empty_content_start(page_size as int),
            5 + 2 * (i - from) <= layout::content_start_of(buf@) <= layout::empty_content_start(
                page_size as int,
            ),
            layout::free_is_zero(buf@, 5),
        decreases to - i,
    {
        let ghost before = buf@;
        let ghost done = part.take(i - from);
        let ghost next = part.take(i - from + 1);
        let ghost cell = cells@[i as int]@;
        proof {
            body_fields(before, 5);
            assert(part[i - from] == cell);
            assert(next =~= done.push(cell));
            assert(next.drop_last() =~= done);
            space_of_prefix(part, i - from + 1);
            space_of_prefix(part, i - from);
        }
        insert_cell_at(&mut buf, 5, i - from, cells[i].as_slice())?;
        proof {
            inserted_body(before, buf@, 5, i - from, cell);
            if good {
                assert(layout::cell_wf(cells@[i as int]@, page_size - 43));
                layout::leaf_after_insert(page::body(before), page::body(buf@), i - from, cell);
            }
            assert(done.insert(i - from, cell) =~= next);
            body_fields(buf@, 5);
        }
        i = i + 1;
    }
    assert(part.take(to - from) =~= part);
    Ok(buf)
}

/// Read all cells of a leaf page.
fn leaf_page_cells(leaf_buf: &[u8], max_local: u32) -> (r: Result<Vec<Vec<u8>>, PinaxError>)
    requires
        leaf_buf@.len() >= page::CHECKSUM_LEN + 35,
        max_local == leaf_buf@.len() - page::CHECKSUM_LEN - 35,
        max_local <= 0xFFEF,
    ensures
        match r {
            Ok(cells) => layout::leaf_shape(page::body(leaf_buf@)) ==> cell_seqs(cells@)
                == layout::leaf_cells(page::body(leaf_buf@)),
            Err(e) => error::is_bounds_error(e) && !layout::leaf_shape(page::body(leaf_buf@)),
        },
{
    let n: usize = num_cells(leaf_buf)? as usize;
    let ghost c = page::body(leaf_buf@);
    let mut cells: Vec<Vec<u8>> = Vec::new();
    let mut i: usize = 0;
    while i < n
        invariant
            i <= n,
            n == layout::cell_count(leaf_buf@),
            leaf_buf@.len() >= page::CHECKSUM_LEN + 35,
            max_local == leaf_buf@.len() - page::CHECKSUM_LEN - 35,
            max_local <= 0xFFEF,
            c == page::body(leaf_buf@),
            cells@.len() == i,
            layout::leaf_shape(c) ==> forall|k: int|
                0 <= k < i ==> (#[trigger] cells@[k])@ == layout::leaf_cells(c)[k],
        decreases n - i,
    {
        proof {
            body_fields(leaf_buf@, 5);
            if layout::leaf_shape(c) {
                leaf_buffer_cell(leaf_buf@, i as int);
            }
        }
        let offset: usize = pointer_at(leaf_buf, 5, i)? as usize;
        let len: usize = leaf_cell_byte_len(leaf_buf, i, max_local)? as usize;
        let cell = read_vec(leaf_buf, offset, len)?;
        cells.push(cell);
        i = i + 1;
    }
    proof {
        body_fields(leaf_buf@, 5);
        if layout::leaf_shape(c) {
            assert(cell_seqs(cells@) =~= layout::leaf_cells(c));
        }
    }
    Ok(cells)
}

/// The leaf page with this body and the cell can be put together: the cell
/// has the right length, and the place for it is one of the page's.
pub open spec fn leaf_takes(c: Seq<u8>, at: int, cell: Seq<u8>) -> bool {
    &&& layout::leaf_shape(c)
    &&& 0 <= at <= layout::cell_count(c)
    &&& layout::cell_wf(cell, layout::body_max_local(c))
}

/// The cells of the leaf page with the new cell.
pub open spec fn leaf_with(c: Seq<u8>, at: int, cell: Seq<u8>) -> Seq<Seq<u8>> {
    layout::leaf_cells(c).insert(at, cell)
}

/// The cell fits in the page's free space.
pub open spec fn leaf_has_room(c: Seq<u8>, cell: Seq<u8>) -> bool {
    layout::free_bytes(c, 5) >= cell.len() + 2
}

/// Both halves of the cells, by their number, fit on a page.
pub open spec fn halves_fit(cells: Seq<Seq<u8>>, size: int) -> bool {
    &&& cells_fit(cells.subrange(0, cells.len() as int / 2), size)
    &&& cells_fit(cells.subrange(cells.len() as int / 2, cells.len() as int), size)
}

/// How many of the first `n` cells fit on one page.
pub open spec fn first_fit(cells: Seq<Seq<u8>>, n: int, size: int) -> int
    decreases n,
{
    if n <= 0 || cells_fit(cells.take(n), size) {
        n
    } else {
        first_fit(cells, n - 1, size)
    }
}

/// Where cells are divided between two pages: in the middle, by their
/// number, if both halves fit, else behind as many as fit on a page.
pub open spec fn division(cells: Seq<Seq<u8>>, size: int) -> int {
    if halves_fit(cells, size) {
        cells.len() as int / 2
    } else {
        first_fit(cells, cells.len() as int, size)
    }
}

/// The cells fit on two pages.
pub open spec fn two_pages_do(cells: Seq<Seq<u8>>, size: int) -> bool {
    let mid = division(cells, size);
    mid < cells.len() && cells_fit(cells.subrange(mid, cells.len() as int), size)
}

/// How many pages the cells of a leaf page and a new one are put on.
pub open spec fn leaf_pages(c: Seq<u8>, at: int, cell: Seq<u8>) -> int {
    if leaf_has_room(c, cell) {
        1
    } else if two_pages_do(leaf_with(c, at, cell), c.len() + page::CHECKSUM_LEN) {
        2
    } else {
        3
    }
}

/// Some of the cells take no more space than all of them.
proof fn space_of_part(cells: Seq<Seq<u8>>, from: int, to: int)
    requires
        0 <= from <= to <= cells.len(),
    ensures
        0 <= layout::space_of(cells.subrange(from, to)) <= layout::space_of(cells),
{
    let a = cells.subrange(0, from);
    let b = cells.subrange(from, to);
    let c = cells.subrange(to, cells.len() as int);
    assert(cells =~= a + b + c);
    layout::space_of_concat(a + b, c);
    layout::space_of_concat(a, b);
    layout::space_of_concat(Seq::empty(), a);
    assert(Seq::<Seq<u8>>::empty() + a =~= a);
}

/// As many first cells fit as were found to.
proof fn first_fit_is(cells: Seq<Seq<u8>>, n: int, size: int, k: int)
    requires
        0 <= k <= n <= cells.len(),
        cells_fit(cells.take(k), size),
        k < n ==> !cells_fit(cells.take(k + 1), size),
    ensures
        first_fit(cells, n, size) == k,
    decreases n,
{
    if k < n {
        space_of_part(cells.take(n), 0, k + 1);
        assert(cells.take(n).subrange(0, k + 1) =~= cells.take(k + 1));
        first_fit_is(cells, n - 1, size, k);
    }
}

/// What is known of the greatest number of first cells that fit.
proof fn first_fit_facts(cells: Seq<Seq<u8>>, n: int, size: int)
    requires
        0 <= n <= cells.len(),
        5 <= layout::empty_content_start(size),
    ensures
        0 <= first_fit(cells, n, size) <= n,
        cells_fit(cells.take(first_fit(cells, n, size)), size),
        forall|k: int|
            0 <= k <= n && #[trigger] cells_fit(cells.take(k), size) ==> k <= first_fit(
                cells,
                n,
                size,
            ),
    decreases n,
{
    if n == 0 {
        assert(cells.take(0) =~= Seq::<Seq<u8>>::empty());
    } else if !cells_fit(cells.take(n), size) {
        first_fit_facts(cells, n - 1, size);
        assert forall|k: int|
            0 <= k <= n && #[trigger] cells_fit(cells.take(k), size) implies k <= first_fit(
            cells,
            n,
            size,
        ) by {
            assert(k != n);
        }
    }
}

/// The cells of a leaf page fit on a page, and so does every single cell.
/// Where the cells with the new one do not fit on two pages, the new cell
/// stands between others.
proof fn three_pages_do(c: Seq<u8>, at: int, cell: Seq<u8>)
    requires
        page::valid_page_size(c.len() + page::CHECKSUM_LEN),
        leaf_takes(c, at, cell),
    ensures
        ({
            let size = c.len() + page::CHECKSUM_LEN;
            let all = leaf_with(c, at, cell);
            let n = all.len() as int;
            &&& cells_fit(layout::leaf_cells(c), size)
            &&& cells_fit(all.subrange(0, at), size)
            &&& cells_fit(all.subrange(at, at + 1), size)
            &&& cells_fit(all.subrange(at + 1, n), size)
            &&& 0 <= division(all, size) <= n
            &&& cells_fit(all.subrange(0, division(all, size)), size)
            &&& !two_pages_do(all, size) ==> 0 < at < n - 1
        }),
{
    let size = c.len() + page::CHECKSUM_LEN;
    let cells = layout::leaf_cells(c);
    let all = leaf_with(c, at, cell);
    let n = all.len() as int;
    space_of_part(cells, 0, at);
    space_of_part(cells, at, cells.len() as int);
    assert(all.subrange(0, at) =~= cells.subrange(0, at));
    assert(all.subrange(at, at + 1) =~= seq![cell]);
    assert(all.subrange(at + 1, n) =~= cells.subrange(at, cells.len() as int));
    layout::space_of_one(cell);
    first_fit_facts(all, n, size);
    let k = first_fit(all, n, size);
    assert(all.subrange(0, k) =~= all.take(k));
    if !halves_fit(all, size) {
        assert(k < n) by {
            if k == n {
                assert(all.take(n) =~= all);
                space_of_part(all, 0, n / 2);
                space_of_part(all, n / 2, n);
            }
        }
        if at == 0 {
            assert(all.take(1) =~= seq![cell]);
            assert(cells_fit(all.take(1), size));
            space_of_part(cells, k - 1, n - 1);
            assert(all.subrange(k, n) =~= cells.subrange(k - 1, n - 1));
        } else if at == n - 1 {
            assert(all.take(n - 1) =~= cells);
            assert(cells_fit(all.take(n - 1), size));
            assert(all.subrange(k, n) =~= seq![cell]);
        }
    }
}

/// How many of the first cells fit on one leaf page.
fn first_fitting(page_size: usize, cells: &Vec<Vec<u8>>) -> (n: usize)
    requires
        page::valid_page_size(page_size as int),
    ensures
        n == first_fit(cell_seqs(cells@), cells@.len() as int, page_size as int),
        n <= cells@.len(),
{
    let ghost all = cell_seqs(cells@);
    let limit: usize = if page_size <= 0xFFFF {
        page_size - 8
    } else {
        0xFFFF - 8
    };
    let mut used: usize = 5;
    let mut n: usize = 0;
    let mut open: bool = true;
    assert(all.take(0) =~= Seq::<Seq<u8>>::empty());
    while open && n < cells.len()
        invariant
            page::valid_page_size(page_size as int),
            all == cell_seqs(cells@),
            limit == layout::empty_content_start(page_size as int),
            n <= cells@.len(),
            used == 5 + layout::space_of(all.take(n as int)),
            used <= limit,
            !open ==> n < cells@.len() && !cells_fit(all.take(n + 1), page_size as int),
        decreases
                cells@.len() - n + (if open {
                    1int
                } else {
                    0int
                }),
    {
        let len: usize = cells[n].len();
        proof {
            assert(all[n as int] == cells@[n as int]@);
            assert(all.take(n + 1).drop_last() =~= all.take(n as int));
            assert(all.take(n + 1).last() == all[n as int]);
        }
        let room: usize = limit - used;
        if room >= 2 && len <= room - 2 {
            used = used + len + 2;
            n = n + 1;
        } else {
            open = false;
        }
    }
    proof {
        first_fit_is(all, all.len() as int, page_size as int, n as int);
    }
    n
}

/// Divide cells between two pages, in front of the cell at `mid`, if they
/// fit.
fn split_at(pool: &mut BufferPool, page_size: usize, cells: &Vec<Vec<u8>>, mid: usize) -> (r:
    Result<Option<NodeResult>, PinaxError>)
    requires
        old(pool).wf(),
        page_size == old(pool)@.meta.size,
        mid < cells@.len(),
    ensures
        final(pool).wf(),
        ({
            let all = cell_seqs(cells@);
            let n = all.len() as int;
            let good = cells_good(cells@, page_size as int);
            match r {
                Ok(Some(made)) => {
                    &&& buffer_pool::grown(old(pool)@, final(pool)@)
                    &&& final(pool)@.next_id == old(pool)@.next_id + 2
                    &&& cells_fit(all.subrange(0, mid as int), page_size as int)
                    &&& cells_fit(all.subrange(mid as int, n), page_size as int)
                    &&& made matches NodeResult::Split { left, right, separator_key } && {
                        &&& left == old(pool)@.next_id
                        &&& right == old(pool)@.next_id + 1
                        &&& good ==> {
                            &&& separator_key == layout::cell_key(all[mid as int])
                            &&& leaf_made(
                                final(pool)@.log,
                                left,
                                all.subrange(0, mid as int),
                                page_size - page::CHECKSUM_LEN,
                            )
                            &&& leaf_made(
                                final(pool)@.log,
                                right,
                                all.subrange(mid as int, n),
                                page_size - page::CHECKSUM_LEN,
                            )
                        }
                    }
                },
                Ok(None) => {
                    &&& final(pool)@ == old(pool)@
                    &&& !(cells_fit(all.subrange(0, mid as int), page_size as int) && cells_fit(
                        all.subrange(mid as int, n),
                        page_size as int,
                    ))
                },
                Err(e) => {
                    &&& final(pool)@ == old(pool)@
                    &&& error::is_bounds_error(e) && !good || e == error::exhausted()
                        && old(pool)@.next_id + 2 > u32::MAX && cells_fit(
                        all.subrange(0, mid as int),
                        page_size as int,
                    ) && cells_fit(all.subrange(mid as int, n), page_size as int)
                },
            }
        }),
{
    let ghost v = pool@;
    let ghost all = cell_seqs(cells@);
    proof {
        pool.wf_facts();
        buffer_pool::grown_refl(v);
    }
    let total: usize = cells.len();
    let left_buf = match build_leaf_page(page_size, cells, 0, mid) {
        Ok(buf) => buf,
        Err(_) => {
            return Ok(None);
        },
    };
    let right_buf = match build_leaf_page(page_size, cells, mid, total) {
        Ok(buf) => buf,
        Err(_) => {
            return Ok(None);
        },
    };
    let separator_key: i64 = read_i64(cells[mid].as_slice(), 0)?;
    if pool.next_page_id() >= 0xFFFF_FFFE {
        return Err(counter_exhausted());
    }
    let ghost left_body = page::body(left_buf@);
    let ghost right_body = page::body(right_buf@);
    let left: u32 = pool.put_page(left_buf)?;
    let ghost between = pool@;
    let right: u32 = pool.put_page(right_buf)?;
    proof {
        buffer_pool::grown_trans(v, between, pool@);
        assert(pool@.log[left] == left_body);
        assert(pool@.log[right] == right_body);
        assert(all[mid as int] == cells@[mid as int]@);
    }
    Ok(Some(NodeResult::Split { left, right, separator_key }))
}

/// Put the cells on three pages, the cell at `at` on the one in the middle.
fn part_at(pool: &mut BufferPool, page_size: usize, cells: &Vec<Vec<u8>>, at: usize) -> (r: Result<
    NodeResult,
    PinaxError,
>)
    requires
        old(pool).wf(),
        page_size == old(pool)@.meta.size,
        0 < at < cells@.len() - 1,
    ensures
        final(pool).wf(),
        ({
            let all = cell_seqs(cells@);
            let n = all.len() as int;
            let u = page_size - page::CHECKSUM_LEN;
            let good = cells_good(cells@, page_size as int);
            match r {
                Ok(made) => {
                    &&& buffer_pool::grown(old(pool)@, final(pool)@)
                    &&& final(pool)@.next_id == old(pool)@.next_id + 3
                    &&& made matches NodeResult::Parted {
                        left,
                        middle,
                        right,
                        low_key,
                        high_key,
                    } && {
                        &&& left == old(pool)@.next_id
                        &&& middle == old(pool)@.next_id + 1
                        &&& right == old(pool)@.next_id + 2
                    }
                    &&& good ==> leaf_result(final(pool)@.log, made, all, at as int, u)
                },
                Err(e) => {
                    &&& final(pool)@ == old(pool)@
                    &&& error::is_bounds_error(e) && !(good && cells_fit(
                        all.subrange(0, at as int),
                        page_size as int,
                    ) && cells_fit(all.subrange(at as int, at + 1), page_size as int) && cells_fit(
                        all.subrange(at + 1, n),
                        page_size as int,
                    )) || e == error::exhausted() && old(pool)@.next_id + 3 > u32::MAX
                },
            }
        }),
{
    let ghost v = pool@;
    let ghost all = cell_seqs(cells@);
    proof {
        pool.wf_facts();
        buffer_pool::grown_refl(v);
    }
    let total: usize = cells.len();
    let left_buf = build_leaf_page(page_size, cells, 0, at)?;
    let middle_buf = build_leaf_page(page_size, cells, at, at + 1)?;
    let right_buf = build_leaf_page(page_size, cells, at + 1, total)?;
    let low_key: i64 = read_i64(cells[at].as_slice(), 0)?;
    let high_key: i64 = read_i64(cells[at + 1].as_slice(), 0)?;
    if pool.next_page_id() >= 0xFFFF_FFFD {
        return Err(counter_exhausted());
    }
    let ghost left_body = page::body(left_buf@);
    let ghost middle_body = page::body(middle_buf@);
    let ghost right_body = page::body(right_buf@);
    let left: u32 = pool.put_page(left_buf)?;
    let ghost first = pool@;
    let middle: u32 = pool.put_page(middle_buf)?;
    let ghost second = pool@;
    let right: u32 = pool.put_page(right_buf)?;
    proof {
        buffer_pool::grown_trans(v, first, second);
        buffer_pool::grown_trans(v, second, pool@);
        assert(second.log[left] == left_body);
        assert(second.log[middle] == middle_body);
        assert(pool@.log[left] == left_body);
        assert(pool@.log[middle] == middle_body);
        assert(pool@.log[right] == right_body);
        assert(all[at as int] == cells@[at as int]@);
        assert(all[at + 1] == cells@[at + 1]@);
    }
    Ok(NodeResult::Parted { left, middle, right, low_key, high_key })
}

/// The cells can all be on leaf pages of this size.
pub open spec fn cells_good(cells: Seq<Vec<u8>>, page_size: int) -> bool {
    forall|i: int| 0 <= i < cells.len() ==> layout::cell_wf((#[trigger] cells[i])@, page_size - 43)
}

/// Put cells on two pages: the first half of them, by number, and the
/// second, if both fit, else as many as fit on the first page, and the
/// others. Where two pages do not do, put the cell at `at` on a page of its
/// own, between those before it and those behind it.
fn split_cells(pool: &mut BufferPool, page_size: usize, cells: &Vec<Vec<u8>>, at: usize) -> (r:
    Result<NodeResult, PinaxError>)
    requires
        old(pool).wf(),
        page_size == old(pool)@.meta.size,
        at < cells@.len(),
    ensures
        final(pool).wf(),
        ({
            let all = cell_seqs(cells@);
            let n = all.len() as int;
            let size = page_size as int;
            match r {
                Ok(made) => {
                    &&& buffer_pool::grown(old(pool)@, final(pool)@)
                    &&& final(pool)@.next_id == old(pool)@.next_id + tree::result_pages(made).len()
                    &&& made !is Replaced
                    &&& tree::result_ids(
                        made,
                        old(pool)@.next_id as int,
                        final(pool)@.next_id as int,
                    )
                    &&& tree::result_in_order(made, old(pool)@.next_id as int)
                    &&& made is Split <==> two_pages_do(all, size)
                    &&& cells_good(cells@, size) ==> leaf_result(
                        final(pool)@.log,
                        made,
                        all,
                        at as int,
                        size - page::CHECKSUM_LEN,
                    )
                },
                Err(e) => {
                    let fine = cells_good(cells@, size) && (two_pages_do(all, size) || 0 < at < n
                        - 1 && cells_fit(all.subrange(0, at as int), size) && cells_fit(
                        all.subrange(at as int, at + 1),
                        size,
                    ) && cells_fit(all.subrange(at + 1, n), size));
                    &&& final(pool)@ == old(pool)@
                    &&& error::is_bounds_error(e) && !fine || e == error::exhausted()
                        && old(pool)@.next_id + (if two_pages_do(all, size) {
                        2int
                    } else {
                        3int
                    }) > u32::MAX
                },
            }
        }),
{
    let ghost all = cell_seqs(cells@);
    let total: usize = cells.len();
    proof {
        pool.wf_facts();
        first_fit_facts(all, total as int, page_size as int);
        let k = first_fit(all, total as int, page_size as int);
        assert(all.take(k) =~= all.subrange(0, k));
    }
    match split_at(pool, page_size, cells, total / 2)? {
        Some(made) => {
            proof {
                split_ids(made);
            }
            return Ok(made);
        },
        None => {},
    }
    assert(!halves_fit(all, page_size as int));
    let most: usize = first_fitting(page_size, cells);
    if most < total {
        match split_at(pool, page_size, cells, most)? {
            Some(made) => {
                proof {
                    split_ids(made);
                }
                return Ok(made);
            },
            None => {},
        }
    }
    assert(!two_pages_do(all, page_size as int));
    if at == 0 || at + 1 >= total {
        return Err(buffer_bounds(at, 1, total));
    }
    part_at(pool, page_size, cells, at)
}

/// The ids of the two pages of a split.
proof fn split_ids(made: NodeResult)
    ensures
        made matches NodeResult::Split { left, right, .. } ==> tree::result_pages(made).len() == 2
            && tree::result_pages(made)[0] == left && tree::result_pages(made)[1] == right,
{
}

/// The cells of a leaf page and a new one at `insert_idx`, or at the end of
/// fewer, and where it stands.
fn leaf_cells_with(leaf_buf: &Vec<u8>, max_local: u32, insert_idx: usize, new_cell: &Vec<u8>) -> (r:
    Result<(Vec<Vec<u8>>, usize), PinaxError>)
    requires
        page::valid_page_size(leaf_buf@.len() as int),
        max_local == leaf_buf@.len() - 43,
    ensures
        ({
            let c = page::body(leaf_buf@);
            let takes = leaf_takes(c, insert_idx as int, new_cell@);
            match r {
                Ok((cells, at)) => {
                    &&& at < cells@.len()
                    &&& takes ==> {
                        &&& at == insert_idx
                        &&& cell_seqs(cells@) == leaf_with(c, insert_idx as int, new_cell@)
                        &&& cells_good(cells@, leaf_buf@.len() as int)
                    }
                },
                Err(e) => error::is_bounds_error(e) && !takes,
            }
        }),
{
    let ghost c = page::body(leaf_buf@);
    let ghost all = leaf_with(c, insert_idx as int, new_cell@);
    let mut cells = leaf_page_cells(leaf_buf.as_slice(), max_local)?;
    let ghost before = cell_seqs(cells@);
    let at: usize = if insert_idx <= cells.len() {
        insert_idx
    } else {
        cells.len()
    };
    let copy = new_cell.clone();
    assert(copy@ =~= new_cell@);
    cells.insert(at, copy);
    proof {
        body_fields(leaf_buf@, 5);
        assert(cell_seqs(cells@) =~= before.insert(at as int, new_cell@));
        if leaf_takes(c, insert_idx as int, new_cell@) {
            assert forall|i: int| 0 <= i < cells@.len() implies layout::cell_wf(
                (#[trigger] cells@[i])@,
                leaf_buf@.len() - 43,
            ) by {
                assert(cells@[i]@ == all[i]);
                if i < at {
                    layout::leaf_cell_fields(c, i);
                } else if i > at {
                    layout::leaf_cell_fields(c, i - 1);
                }
            }
        }
    }
    Ok((cells, at))
}

/// Put a leaf page's cells and a new one on two pages, or on three with the
/// new cell on a page of its own.
fn leaf_split_with_new_cell(
    pool: &mut BufferPool,
    leaf_buf: &Vec<u8>,
    insert_idx: usize,
    new_cell: &Vec<u8>,
) -> (r: Result<NodeResult, PinaxError>)
    requires
        old(pool).wf(),
        leaf_buf@.len() == old(pool)@.meta.size,
    ensures
        final(pool).wf(),
        ({
            let c = page::body(leaf_buf@);
            let all = leaf_with(c, insert_idx as int, new_cell@);
            let size = old(pool)@.meta.size;
            match r {
                Ok(made) => {
                    &&& buffer_pool::grown(old(pool)@, final(pool)@)
                    &&& final(pool)@.next_id == old(pool)@.next_id + tree::result_pages(made).len()
                    &&& made !is Replaced
                    &&& tree::result_ids(
                        made,
                        old(pool)@.next_id as int,
                        final(pool)@.next_id as int,
                    )
                    &&& tree::result_in_order(made, old(pool)@.next_id as int)
                    &&& leaf_takes(c, insert_idx as int, new_cell@) ==> leaf_result(
                        final(pool)@.log,
                        made,
                        all,
                        insert_idx as int,
                        size - page::CHECKSUM_LEN,
                    ) && (made is Split <==> two_pages_do(all, size))
                },
                Err(e) => {
                    let takes = leaf_takes(c, insert_idx as int, new_cell@);
                    &&& final(pool)@ == old(pool)@
                    &&& error::is_bounds_error(e) && !takes || e == error::exhausted() && (takes
                        ==> old(pool)@.next_id + (if two_pages_do(all, size) {
                        2int
                    } else {
                        3int
                    }) > u32::MAX)
                },
            }
        }),
{
    let ghost v = pool@;
    proof {
        pool.wf_facts();
    }
    let page_size: usize = pool.page_size().bytes_usize();
    let max_local: u32 = pool.page_size().max_local();
    let ghost c = page::body(leaf_buf@);
    proof {
        if leaf_takes(c, insert_idx as int, new_cell@) {
            three_pages_do(c, insert_idx as int, new_cell@);
        }
    }
    let (cells, at) = leaf_cells_with(leaf_buf, max_local, insert_idx, new_cell)?;
    split_cells(pool, page_size, &cells, at)
}

/// Put a cell among the cells of a leaf page: on a copy of the page if it
/// has room, else on two pages or three.
pub fn leaf_insert_or_split(
    pool: &mut BufferPool,
    leaf_buf: &Vec<u8>,
    insert_idx: usize,
    cell: &Vec<u8>,
) -> (r: Result<NodeResult, PinaxError>)
    requires
        old(pool).wf(),
        leaf_buf@.len() == old(pool)@.meta.size,
    ensures
        final(pool).wf(),
        buffer_pool::grown(old(pool)@, final(pool)@),
        ({
            let c = page::body(leaf_buf@);
            let all = leaf_with(c, insert_idx as int, cell@);
            let size = old(pool)@.meta.size;
            match r {
                Ok(made) => {
                    &&& final(pool)@.next_id == old(pool)@.next_id + tree::result_pages(made).len()
                    &&& tree::result_ids(
                        made,
                        old(pool)@.next_id as int,
                        final(pool)@.next_id as int,
                    )
                    &&& tree::result_in_order(made, old(pool)@.next_id as int)
                    &&& leaf_takes(c, insert_idx as int, cell@) ==> leaf_result(
                        final(pool)@.log,
                        made,
                        all,
                        insert_idx as int,
                        size - page::CHECKSUM_LEN,
                    ) && tree::result_pages(made).len() == leaf_pages(
                        c,
                        insert_idx as int,
                        cell@,
                    )
                },
                Err(e) => {
                    let takes = leaf_takes(c, insert_idx as int, cell@);
                    &&& final(pool)@ == old(pool)@
                    &&& error::is_bounds_error(e) && !takes || e == error::exhausted() && (takes
                        ==> old(pool)@.next_id + leaf_pages(c, insert_idx as int, cell@)
                        > u32::MAX)
                },
            }
        }),
{
    let ghost v = pool@;
    let ghost c = page::body(leaf_buf@);
    proof {
        pool.size_is_valid();
        buffer_pool::grown_refl(v);
        body_fields(leaf_buf@, 5);
    }
    let free: usize = free_space(leaf_buf.as_slice(), 5)? as usize;
    let len: usize = cell.len();
    if len <= 0xFFFF && free >= len + 2 {
        return leaf_insert_in_place(pool, leaf_buf, insert_idx, cell);
    }
    leaf_split_with_new_cell(pool, leaf_buf, insert_idx, cell)
}

/// Put a cell among the cells of a copy of a leaf page with room for it.
fn leaf_insert_in_place(
    pool: &mut BufferPool,
    leaf_buf: &Vec<u8>,
    insert_idx: usize,
    cell: &Vec<u8>,
) -> (r: Result<NodeResult, PinaxError>)
    requires
        old(pool).wf(),
        leaf_buf@.len() == old(pool)@.meta.size,
    ensures
        final(pool).wf(),
        buffer_pool::grown(old(pool)@, final(pool)@),
        ({
            let c = page::body(leaf_buf@);
            let takes = leaf_takes(c, insert_idx as int, cell@) && leaf_has_room(c, cell@);
            match r {
                Ok(made) => {
                    &&& final(pool)@.next_id == old(pool)@.next_id + 1
                    &&& made == NodeResult::Replaced(old(pool)@.next_id)
                    &&& takes ==> leaf_made(
                        final(pool)@.log,
                        old(pool)@.next_id,
                        leaf_with(c, insert_idx as int, cell@),
                        old(pool)@.meta.size - page::CHECKSUM_LEN,
                    )
                },
                Err(e) => {
                    &&& final(pool)@ == old(pool)@
                    &&& error::is_bounds_error(e) && !takes || e == error::exhausted()
                        && old(pool)@.next_id + 1 > u32::MAX
                },
            }
        }),
{
    let ghost c = page::body(leaf_buf@);
    proof {
        pool.wf_facts();
        buffer_pool::grown_refl(pool@);
        body_fields(leaf_buf@, 5);
    }
    let mut buf = leaf_buf.clone();
    assert(buf@ =~= leaf_buf@);
    insert_cell_at(&mut buf, 5, insert_idx, cell.as_slice())?;
    let ghost after = buf@;
    proof {
        if leaf_takes(c, insert_idx as int, cell@) {
            inserted_body(leaf_buf@, after, 5, insert_idx as int, cell@);
            layout::leaf_after_insert(c, page::body(after), insert_idx as int, cell@);
        }
    }
    if pool.next_page_id() == 0xFFFF_FFFF {
        return Err(counter_exhausted());
    }
    let id: u32 = pool.put_page(buf)?;
    assert(pool@.log[id] == page::body(after));
    Ok(NodeResult::Replaced(id))
}

/// A cell put on an empty leaf page is its one cell.
pub proof fn first_cell(b: Seq<u8>, d: Seq<u8>, cell: Seq<u8>)
    requires
        page::valid_page_size(b.len() as int),
        b[0] == page::PAGE_TYPE_LEAF,
        layout::cell_count(b) == 0,
        layout::content_start_of(b) == layout::empty_content_start(b.len() as int),
        layout::cell_fits(b, 5, 0, cell.len() as int),
        layout::cell_inserted(b, d, 5, 0, cell),
        layout::cell_wf(cell, b.len() - 43),
    ensures
        layout::leaf_shape(page::body(d)),
        layout::leaf_cells(page::body(d)) == seq![cell],
{
    empty_leaf(b);
    body_fields(b, 5);
    inserted_body(b, d, 5, 0, cell);
    layout::leaf_after_insert(page::body(b), page::body(d), 0, cell);
    assert(Seq::<Seq<u8>>::empty().insert(0, cell) =~= seq![cell]);
}

/// Take cell `index` off a copy of a leaf page.
pub fn leaf_without(leaf_buf: &Vec<u8>, index: usize) -> (r: Result<Vec<u8>, PinaxError>)
    requires
        leaf_buf@.len() >= page::CHECKSUM_LEN + 9,
    ensures
        match r {
            Ok(buf) => {
                &&& buf@.len() == leaf_buf@.len()
                &&& index < layout::cell_count(leaf_buf@)
                &&& layout::leaf_shape(page::body(leaf_buf@)) ==> layout::leaf_shape(
                    page::body(buf@),
                ) && layout::leaf_cells(page::body(buf@)) == layout::leaf_cells(
                    page::body(leaf_buf@),
                ).remove(index as int) && layout::free_bytes(page::body(buf@), 5)
                    == layout::free_bytes(page::body(leaf_buf@), 5) + 2
            },
            Err(e) => !(layout::leaf_shape(page::body(leaf_buf@)) && index < layout::cell_count(
                leaf_buf@,
            )) && e == error::bounds_error(index as int, 1, layout::cell_count(leaf_buf@)),
        },
{
    let mut buf = leaf_buf.clone();
    assert(buf@ =~= leaf_buf@);
    proof {
        body_fields(leaf_buf@, 5);
    }
    remove_cell_at(&mut buf, 5, index)?;
    proof {
        if layout::leaf_shape(page::body(leaf_buf@)) {
            removed_body(leaf_buf@, buf@, 5, index as int);
            layout::leaf_after_remove(page::body(leaf_buf@), page::body(buf@), index as int);
        }
    }
    Ok(buf)
}

// ---- interior pages ----

/// The most separators that fit on an interior page of `size` bytes.
pub open spec fn max_entries(size: int) -> int {
    (size - 17) / 14
}

/// The most separators that fit on an interior page.
pub fn max_interior_entries(page_size: usize) -> (n: usize)
    ensures
        n == (if page_size >= 17 {
            max_entries(page_size as int)
        } else {
            0
        }),
{
    if page_size >= 17 {
        (page_size - 17) / 14
    } else {
        0
    }
}

/// An interior page's separators, and its children with the rightmost last.
pub fn interior_entries(buf: &[u8]) -> (r: Result<(Vec<i64>, Vec<u32>), PinaxError>)
    ensures
        match r {
            Ok((keys, children)) => buf@.len() >= 9 && keys@ == layout::interior_keys(buf@)
                && children@ == layout::interior_children(buf@),
            Err(e) => layout::is_entries_error(e, buf@),
        },
        r is Ok ==> layout::entries_readable(buf@),
        r matches Err(e) ==> layout::is_first_entries_error(e, buf@),
{
    let n: usize = num_cells(buf)? as usize;
    let mut keys: Vec<i64> = Vec::new();
    let mut children: Vec<u32> = Vec::new();
    let mut i: usize = 0;
    while i < n
        invariant
            i <= n,
            n == layout::cell_count(buf@),
            keys@.len() == i,
            children@.len() == i,
            forall|k: int| 0 <= k < i ==> #[trigger] keys@[k] == layout::key_of(buf@, 9, k),
            forall|k: int| 0 <= k < i ==> #[trigger] children@[k] == layout::child_of(buf@, k),
            forall|k: int| 0 <= k < i ==> #[trigger] layout::cell_readable(buf@, 9, k, 12),
            buf@.len() >= 3,
        decreases n - i,
    {
        let key = interior_key_at(buf, i);
        let child = interior_child_at(buf, i);
        proof {
            if key is Err {
                assert(!layout::cell_readable(buf@, 9, i as int, 12));
                assert(layout::ends(key->Err_0, buf@, i as int));
            } else if child is Err {
                assert(!layout::cell_readable(buf@, 9, i as int, 12));
                assert(layout::ends(child->Err_0, buf@, i as int));
            }
        }
        keys.push(key?);
        children.push(child?);
        i = i + 1;
    }
    let rightmost = interior_rightmost(buf);
    proof {
        if rightmost is Err {
            assert(layout::ends(rightmost->Err_0, buf@, n as int));
        }
    }
    children.push(rightmost?);
    assert(keys@ =~= layout::interior_keys(buf@));
    assert(children@ =~= layout::interior_children(buf@));
    Ok((keys, children))
}

/// An interior page's body without cells.
proof fn empty_interior(b: Seq<u8>, rightmost: u32)
    requires
        page::valid_page_size(b.len() as int),
        b[0] == page::PAGE_TYPE_INTERIOR,
        layout::cell_count(b) == 0,
        layout::content_start_of(b) == layout::empty_content_start(b.len() as int),
        codec::be_u32(b, 5) == rightmost,
    ensures
        layout::interior_shape(page::body(b)),
        layout::interior_keys(page::body(b)) == Seq::<i64>::empty(),
        layout::interior_children(page::body(b)) == seq![rightmost],
{
    body_fields(b, 9);
    assert(layout::interior_keys(page::body(b)) =~= Seq::<i64>::empty());
    assert(layout::interior_children(page::body(b)) =~= seq![rightmost]);
}

/// Build an interior page of the separators `from..to` and the children
/// around them.
pub fn build_interior_page(
    page_size: usize,
    keys: &Vec<i64>,
    children: &Vec<u32>,
    from: usize,
    to: usize,
) -> (r: Result<Vec<u8>, PinaxError>)
    requires
        page::valid_page_size(page_size as int),
        from <= to <= keys@.len(),
        children@.len() == keys@.len() + 1,
        to - from <= max_entries(page_size as int),
    ensures
        r matches Ok(buf) && buf@.len() == page_size && layout::interior_shape(page::body(buf@))
            && layout::interior_keys(page::body(buf@)) == keys@.subrange(from as int, to as int)
            && layout::interior_children(page::body(buf@)) == children@.subrange(
            from as int,
            to + 1,
        ) && layout::free_is_zero(buf@, 9),
{
    let ghost ks = keys@.subrange(from as int, to as int);
    let ghost cs = children@.subrange(from as int, to + 1);
    let ghost last = children@[to as int];
    let mut buf: Vec<u8> = vec![0u8; page_size];
    init_interior(&mut buf, children[to])?;
    proof {
        empty_interior(buf@, last);
        assert(ks.take(0) =~= Seq::<i64>::empty());
        assert(cs.take(0).push(last) =~= seq![last]);
    }
    let mut i: usize = from;
    while i < to
        invariant
            from <= i <= to <= keys@.len(),
            children@.len() == keys@.len() + 1,
            to - from <= max_entries(page_size as int),
            page::valid_page_size(page_size as int),
            ks == keys@.subrange(from as int, to as int),
            cs == children@.subrange(from as int, to + 1),
            buf@.len() == page_size,
            layout::interior_shape(page::body(buf@)),
            layout::interior_keys(page::body(buf@)) == ks.take(i - from),
            layout::interior_children(page::body(buf@)) == cs.take(i - from).push(last),
            layout::cell_count(buf@) == i - from,
            layout::content_start_of(buf@) + 12 * (i - from) == layout::empty_content_start(
                page_size as int,
            ),
            layout::free_is_zero(buf@, 9),
        decreases to - i,
    {
        let ghost before = buf@;
        let ghost n = i - from;
        let key: i64 = keys[i];
        let child: u32 = children[i];
        let cell = build_interior_cell(key, child);
        proof {
            layout::interior_cell_round_trip(key, child);
            body_fields(before, 9);
            assert(9 + 14 * (n + 1) <= page_size - 8) by {
                assert(n + 1 <= max_entries(page_size as int));
            }
        }
        insert_cell_at(&mut buf, 9, i - from, cell.as_slice())?;
        proof {
            inserted_body(before, buf@, 9, n, cell@);
            layout::interior_after_push(page::body(before), page::body(buf@), key, child);
            body_fields(buf@, 9);
            assert(ks[n] == key);
            assert(cs[n] == child);
            assert(ks.take(n + 1) =~= ks.take(n).push(key));
            assert(cs.take(n).push(last).drop_last() =~= cs.take(n));
            assert(cs.take(n + 1) =~= cs.take(n).push(child));
        }
        i = i + 1;
    }
    proof {
        assert(ks.take(to - from) =~= ks);
        assert(cs.take(to - from).push(last) =~= cs);
    }
    Ok(buf)
}

/// The separators and children that an interior page was built of are those
/// that are read off it.
pub proof fn interior_page_round_trip(
    buf: Seq<u8>,
    keys: Seq<i64>,
    children: Seq<u32>,
    read: Result<(Vec<i64>, Vec<u32>), PinaxError>,
)
    requires
        page::valid_page_size(buf.len() as int),
        layout::interior_shape(page::body(buf)),
        layout::interior_keys(page::body(buf)) == keys,
        layout::interior_children(page::body(buf)) == children,
        match read {
            Ok((ks, cs)) => ks@ == layout::interior_keys(buf) && cs@ == layout::interior_children(
                buf,
            ),
            Err(e) => layout::is_entries_error(e, buf),
        },
    ensures
        buf[0] == PAGE_TYPE_INTERIOR,
        read matches Ok((ks, cs)) && ks@ == keys && cs@ == children,
{
    interior_buffer(buf);
    body_fields(buf, 9);
}

/// Where the child `old_child_id` stands among the children, or where the
/// last does if it is not there.
fn child_index(children: &Vec<u32>, old_child_id: u32) -> (at: usize)
    requires
        children@.len() > 0,
    ensures
        at == tree::child_position(children@, old_child_id),
        at < children@.len(),
{
    let last: usize = children.len() - 1;
    let mut at: usize = 0;
    while at < last && children[at] != old_child_id
        invariant
            at <= last,
            last == children@.len() - 1,
            forall|i: int| 0 <= i < at ==> #[trigger] children@[i] != old_child_id,
        decreases last - at,
    {
        at = at + 1;
    }
    proof {
        tree::child_position_is(children@, old_child_id, at as int);
    }
    at
}

/// Put two children and the separator between them in the place of the child
/// `old_child_id`, or of the last child if it is not there.
pub fn splice_split_into_entries(
    keys: &mut Vec<i64>,
    children: &mut Vec<u32>,
    old_child_id: u32,
    separator_key: i64,
    left_child: u32,
    right_child: u32,
)
    requires
        old(children)@.len() == old(keys)@.len() + 1,
    ensures
        ({
            let at = tree::child_position(old(children)@, old_child_id);
            &&& 0 <= at < old(children)@.len()
            &&& final(keys)@ == old(keys)@.insert(at, separator_key)
            &&& final(children)@ == old(children)@.insert(at, left_child).update(
                at + 1,
                right_child,
            )
        }),
{
    let at: usize = child_index(children, old_child_id);
    let ghost before = children@;
    keys.insert(at, separator_key);
    children[at] = right_child;
    children.insert(at, left_child);
    assert(children@ =~= before.insert(at as int, left_child).update(at + 1, right_child));
}

/// Put the separators and children of an interior page on two pages; the
/// middle separator goes up.
pub fn split_interior_entries(
    pool: &mut BufferPool,
    page_size: usize,
    keys: &Vec<i64>,
    children: &Vec<u32>,
) -> (r: Result<NodeResult, PinaxError>)
    requires
        old(pool).wf(),
        page_size == old(pool)@.meta.size,
        children@.len() == keys@.len() + 1,
    ensures
        final(pool).wf(),
        buffer_pool::grown(old(pool)@, final(pool)@),
        match r {
            Ok(made) => {
                &&& final(pool)@.next_id == old(pool)@.next_id + 2
                &&& made is Split
                &&& tree::result_ids(
                    made,
                    old(pool)@.next_id as int,
                    final(pool)@.next_id as int,
                )
                &&& tree::result_in_order(made, old(pool)@.next_id as int)
                &&& tree::made_above(
                    final(pool)@.log,
                    made,
                    keys@,
                    children@,
                    page_size - page::CHECKSUM_LEN,
                )
            },
            Err(e) => {
                let bad = keys@.len() == 0 || keys@.len() as int / 2 > max_entries(
                    page_size as int,
                );
                &&& final(pool)@ == old(pool)@
                &&& if bad {
                    e == error::bounds_error(keys@.len() as int / 2, 1, keys@.len() as int)
                } else {
                    e == error::exhausted() && old(pool)@.next_id + 2 > u32::MAX
                }
            },
        },
{
    let ghost v = pool@;
    proof {
        pool.wf_facts();
        buffer_pool::grown_refl(v);
    }
    let n: usize = keys.len();
    let mid: usize = n / 2;
    let max: usize = max_interior_entries(page_size);
    if n == 0 || mid > max || n - mid - 1 > max {
        return Err(buffer_bounds(mid, 1, n));
    }
    if pool.next_page_id() >= 0xFFFF_FFFE {
        return Err(counter_exhausted());
    }
    let promoted: i64 = keys[mid];
    let left_buf = build_interior_page(page_size, keys, children, 0, mid)?;
    let right_buf = build_interior_page(page_size, keys, children, mid + 1, n)?;
    let ghost left_body = page::body(left_buf@);
    let ghost right_body = page::body(right_buf@);
    let left: u32 = pool.put_page(left_buf)?;
    let ghost between = pool@;
    let right: u32 = pool.put_page(right_buf)?;
    proof {
        buffer_pool::grown_trans(v, between, pool@);
        assert(pool@.log[left] == left_body);
        assert(pool@.log[right] == right_body);
    }
    Ok(NodeResult::Split { left, right, separator_key: promoted })
}

/// Put a copy of an interior page with another child in the place of the
/// child `old_child_id`.
fn replace_child(
    pool: &mut BufferPool,
    ancestor_buf: &Vec<u8>,
    old_child_id: u32,
    new_child: u32,
) -> (r: Result<NodeResult, PinaxError>)
    requires
        old(pool).wf(),
        ancestor_buf@.len() == old(pool)@.meta.size,
    ensures
        final(pool).wf(),
        buffer_pool::grown(old(pool)@, final(pool)@),
        ({
            let c = page::body(ancestor_buf@);
            let at = tree::child_position(layout::interior_children(c), old_child_id);
            let result = NodeResult::Replaced(new_child);
            match r {
                Ok(made) => {
                    &&& final(pool)@.next_id == old(pool)@.next_id + 1
                    &&& made == NodeResult::Replaced(old(pool)@.next_id)
                    &&& layout::interior_shape(c) ==> tree::made_above(
                        final(pool)@.log,
                        made,
                        tree::spliced_keys(layout::interior_keys(c), at, result),
                        tree::spliced_children(layout::interior_children(c), at, result),
                        old(pool)@.meta.size - page::CHECKSUM_LEN,
                    )
                    &&& final(pool)@.cache.contains_key(made->0)
                    &&& page::body(final(pool)@.cache[made->0]) == final(pool)@.log[made->0]
                },
                Err(e) => {
                    &&& final(pool)@ == old(pool)@
                    &&& error::is_bounds_error(e) && !layout::interior_shape(c) || e
                        == error::exhausted() && old(pool)@.next_id + 1 > u32::MAX
                },
            }
        }),
{
    let ghost v = pool@;
    let ghost c = page::body(ancestor_buf@);
    let ghost result = NodeResult::Replaced(new_child);
    proof {
        pool.wf_facts();
        buffer_pool::grown_refl(v);
        body_fields(ancestor_buf@, 9);
        if layout::interior_shape(c) {
            interior_buffer(ancestor_buf@);
        }
    }
    let mut buf = ancestor_buf.clone();
    assert(buf@ =~= ancestor_buf@);
    match interior_find_child_slot(buf.as_slice(), old_child_id)? {
        ChildSlot::Cell(index) => {
            interior_set_child_at(&mut buf, index, new_child)?;
            proof {
                if layout::interior_shape(c) {
                    child_slot_position(ancestor_buf@, old_child_id, index as int);
                    let p = layout::pointer(c, 9, index as int);
                    assert(layout::interior_cell_placed(c, index as int));
                    assert(layout::pointer(ancestor_buf@, 9, index as int) == p);
                    assert(page::body(buf@) =~= codec::patched(
                        c,
                        p + 8,
                        codec::u32_bytes(new_child),
                    ));
                    layout::interior_after_set_child(
                        c,
                        page::body(buf@),
                        index as int,
                        new_child,
                    );
                }
            }
        },
        ChildSlot::Rightmost => {
            interior_set_rightmost(&mut buf, new_child)?;
            proof {
                if layout::interior_shape(c) {
                    let n = layout::cell_count(c);
                    child_slot_position(ancestor_buf@, old_child_id, n);
                    assert(page::body(buf@) =~= codec::patched(
                        c,
                        5,
                        codec::u32_bytes(new_child),
                    ));
                    layout::interior_after_set_rightmost(c, page::body(buf@), new_child);
                }
            }
        },
    }
    let ghost after = page::body(buf@);
    if pool.next_page_id() == 0xFFFF_FFFF {
        return Err(counter_exhausted());
    }
    let id: u32 = pool.put_page(buf)?;
    proof {
        assert(pool@.log[id] == after);
        if layout::interior_shape(c) {
            let at = tree::child_position(layout::interior_children(c), old_child_id);
            let ks = layout::interior_keys(c);
            let cs = layout::interior_children(c);
            assert(tree::spliced_keys(ks, at, result) =~= ks);
            assert(tree::spliced_children(cs, at, result) =~= cs.update(at, new_child));
        }
    }
    Ok(NodeResult::Replaced(id))
}

/// Carry a change of the child `old_child_id` into the interior page above
/// it, which becomes the most recently used page before its copy is put.
pub fn apply_result_to_interior(
    pool: &mut BufferPool,
    ancestor_id: u32,
    ancestor_buf: &Vec<u8>,
    old_child_id: u32,
    result: &NodeResult,
) -> (r: Result<NodeResult, PinaxError>)
    requires
        old(pool).wf(),
        ancestor_buf@.len() == old(pool)@.meta.size,
    ensures
        final(pool).wf(),
        buffer_pool::grown(
            buffer_pool::recalled(old(pool)@, ancestor_id, ancestor_buf@),
            final(pool)@,
        ),
        ({
            let c = page::body(ancestor_buf@);
            let at = tree::child_position(layout::interior_children(c), old_child_id);
            let keys = tree::spliced_keys(layout::interior_keys(c), at, *result);
            let children = tree::spliced_children(layout::interior_children(c), at, *result);
            let size = old(pool)@.meta.size;
            match r {
                Ok(made) => {
                    &&& final(pool)@.next_id == old(pool)@.next_id + tree::result_pages(made).len()
                    &&& made !is Parted
                    &&& tree::result_ids(
                        made,
                        old(pool)@.next_id as int,
                        final(pool)@.next_id as int,
                    )
                    &&& tree::result_in_order(made, old(pool)@.next_id as int)
                    &&& layout::interior_shape(c) ==> tree::made_above(
                        final(pool)@.log,
                        made,
                        keys,
                        children,
                        size - page::CHECKSUM_LEN,
                    ) && (made is Replaced <==> *result is Replaced || keys.len() <= max_entries(
                        size,
                    ))
                    &&& *result is Replaced ==> {
                        &&& made is Replaced
                        &&& final(pool)@.cache.contains_key(made->0)
                        &&& page::body(final(pool)@.cache[made->0]) == final(pool)@.log[made->0]
                    }
                },
                Err(e) => {
                    let shape = layout::interior_shape(c);
                    &&& final(pool)@ == buffer_pool::recalled(
                        old(pool)@,
                        ancestor_id,
                        ancestor_buf@,
                    )
                    &&& error::is_bounds_error(e) && !shape || e == error::exhausted() && (shape
                        ==> old(pool)@.next_id + (if *result is Replaced || keys.len()
                        <= max_entries(size) {
                        1int
                    } else {
                        2int
                    }) > u32::MAX)
                },
            }
        }),
{
    let ghost c = page::body(ancestor_buf@);
    proof {
        pool.wf_facts();
        buffer_pool::recalled_facts(pool@, ancestor_id, ancestor_buf@);
    }
    pool.recall(ancestor_id, ancestor_buf)?;
    let ghost v = pool@;
    proof {
        buffer_pool::grown_refl(v);
        body_fields(ancestor_buf@, 9);
        if layout::interior_shape(c) {
            interior_buffer(ancestor_buf@);
        }
    }
    let page_size: usize = pool.page_size().bytes_usize();
    if let NodeResult::Replaced(new_child) = result {
        return replace_child(pool, ancestor_buf, old_child_id, *new_child);
    }
    let (keys, children) = spliced_entries(ancestor_buf, old_child_id, result)?;
    put_interior_entries(pool, page_size, &keys, &children)
}

/// The separators and children of an interior page, with the pages that
/// stand in place of the child `old_child_id`.
fn spliced_entries(ancestor_buf: &Vec<u8>, old_child_id: u32, result: &NodeResult) -> (r: Result<
    (Vec<i64>, Vec<u32>),
    PinaxError,
>)
    requires
        ancestor_buf@.len() >= page::CHECKSUM_LEN + 64,
        *result !is Replaced,
    ensures
        ({
            let c = page::body(ancestor_buf@);
            let at = tree::child_position(layout::interior_children(c), old_child_id);
            match r {
                Ok((keys, children)) => {
                    &&& children@.len() == keys@.len() + 1
                    &&& keys@.len() > 0
                    &&& layout::interior_shape(c) ==> {
                        &&& keys@ == tree::spliced_keys(layout::interior_keys(c), at, *result)
                        &&& children@ == tree::spliced_children(
                            layout::interior_children(c),
                            at,
                            *result,
                        )
                        &&& keys@.len() as int / 2 <= max_entries(ancestor_buf@.len() as int)
                    }
                },
                Err(e) => error::is_bounds_error(e) && !layout::interior_shape(c),
            }
        }),
{
    let ghost c = page::body(ancestor_buf@);
    proof {
        body_fields(ancestor_buf@, 9);
        if layout::interior_shape(c) {
            interior_buffer(ancestor_buf@);
        }
    }
    let (mut keys, mut children) = interior_entries(ancestor_buf.as_slice())?;
    splice_result(&mut keys, &mut children, old_child_id, result);
    Ok((keys, children))
}

/// Put the pages that stand in place of the child `old_child_id`, and the
/// separators between them, in its place.
fn splice_result(
    keys: &mut Vec<i64>,
    children: &mut Vec<u32>,
    old_child_id: u32,
    result: &NodeResult,
)
    requires
        old(children)@.len() == old(keys)@.len() + 1,
        *result !is Replaced,
    ensures
        ({
            let at = tree::child_position(old(children)@, old_child_id);
            let more = tree::result_pages(*result).len() - 1;
            &&& final(keys)@ == tree::spliced_keys(old(keys)@, at, *result)
            &&& final(children)@ == tree::spliced_children(old(children)@, at, *result)
            &&& final(keys)@.len() == old(keys)@.len() + more
            &&& final(children)@.len() == final(keys)@.len() + 1
        }),
{
    let at: usize = child_index(children, old_child_id);
    proof {
        tree::spliced_by_insert(keys@, children@, at as int, *result);
    }
    match result {
        NodeResult::Replaced(_) => {},
        NodeResult::Split { left, right, separator_key } => {
            splice_split_into_entries(
                keys,
                children,
                old_child_id,
                *separator_key,
                *left,
                *right,
            );
        },
        NodeResult::Parted { left, middle, right, low_key, high_key } => {
            keys.insert(at, *high_key);
            keys.insert(at, *low_key);
            children[at] = *right;
            children.insert(at, *middle);
            children.insert(at, *left);
        },
    }
}

/// Put separators and children on an interior page, or on two if they do not
/// fit.
fn put_interior_entries(
    pool: &mut BufferPool,
    page_size: usize,
    keys: &Vec<i64>,
    children: &Vec<u32>,
) -> (r: Result<NodeResult, PinaxError>)
    requires
        old(pool).wf(),
        page_size == old(pool)@.meta.size,
        children@.len() == keys@.len() + 1,
        keys@.len() > 0,
    ensures
        final(pool).wf(),
        buffer_pool::grown(old(pool)@, final(pool)@),
        match r {
            Ok(made) => {
                &&& final(pool)@.next_id == old(pool)@.next_id + tree::result_pages(made).len()
                &&& tree::result_ids(
                    made,
                    old(pool)@.next_id as int,
                    final(pool)@.next_id as int,
                )
                &&& tree::result_in_order(made, old(pool)@.next_id as int)
                &&& tree::made_above(
                    final(pool)@.log,
                    made,
                    keys@,
                    children@,
                    page_size - page::CHECKSUM_LEN,
                )
                &&& made is Replaced <==> keys@.len() <= max_entries(page_size as int)
            },
            Err(e) => {
                let max = max_entries(page_size as int);
                &&& final(pool)@ == old(pool)@
                &&& if keys@.len() as int / 2 > max {
                    error::is_bounds_error(e)
                } else {
                    e == error::exhausted() && old(pool)@.next_id + (if keys@.len() <= max {
                        1int
                    } else {
                        2int
                    }) > u32::MAX
                }
            },
        },
{
    proof {
        pool.wf_facts();
        buffer_pool::grown_refl(pool@);
    }
    if keys.len() <= max_interior_entries(page_size) {
        let n: usize = keys.len();
        if pool.next_page_id() == 0xFFFF_FFFF {
            return Err(counter_exhausted());
        }
        let rebuilt = build_interior_page(page_size, keys, children, 0, n)?;
        let ghost after = page::body(rebuilt@);
        let id: u32 = pool.put_page(rebuilt)?;
        assert(pool@.log[id] == after);
        assert(keys@.subrange(0, n as int) =~= keys@);
        assert(children@.subrange(0, n + 1) =~= children@);
        Ok(NodeResult::Replaced(id))
    } else {
        split_interior_entries(pool, page_size, keys, children)
    }
}

/// The slot that a child is found in is its position.
proof fn child_slot_position(b: Seq<u8>, child: u32, at: int)
    requires
        b.len() >= page::CHECKSUM_LEN + 9,
        layout::interior_shape(page::body(b)),
        0 <= at <= layout::cell_count(b),
        forall|j: int| 0 <= j < at ==> #[trigger] layout::child_of(b, j) != child,
        at < layout::cell_count(b) ==> layout::child_of(b, at) == child,
    ensures
        tree::child_position(layout::interior_children(page::body(b)), child) == at,
{
    interior_buffer(b);
    let children = layout::interior_children(b);
    assert forall|i: int| 0 <= i < at implies #[trigger] children[i] != child by {
        assert(layout::child_of(b, i) != child);
    }
    tree::child_position_is(children, child, at);
}

/// Make the root: the page that stands in place of the old root, or a new
/// interior page above the pages that do.
pub fn finalize_root(pool: &mut BufferPool, result: NodeResult) -> (r: Result<u32, PinaxError>)
    requires
        old(pool).wf(),
    ensures
        final(pool).wf(),
        buffer_pool::grown(old(pool)@, final(pool)@),
        match r {
            Err(e) => {
                &&& final(pool)@ == old(pool)@
                &&& e == error::exhausted()
                &&& result !is Replaced
                &&& old(pool)@.next_id + 1 > u32::MAX
            },
            Ok(root) => match result {
                NodeResult::Replaced(id) => root == id && final(pool)@ == old(pool)@,
                _ => {
                    &&& root == old(pool)@.next_id
                    &&& final(pool)@.next_id == old(pool)@.next_id + 1
                    &&& tree::interior_made(
                        final(pool)@.log,
                        root,
                        tree::result_keys(result),
                        tree::result_pages(result),
                        old(pool)@.meta.size - page::CHECKSUM_LEN,
                    )
                },
            },
        },
{
    proof {
        pool.wf_facts();
        buffer_pool::grown_refl(pool@);
    }
    let (keys, children): (Vec<i64>, Vec<u32>) = match result {
        NodeResult::Replaced(id) => {
            return Ok(id);
        },
        NodeResult::Split { left, right, separator_key } => {
            (vec![separator_key], vec![left, right])
        },
        NodeResult::Parted { left, middle, right, low_key, high_key } => {
            (vec![low_key, high_key], vec![left, middle, right])
        },
    };
    if pool.next_page_id() == 0xFFFF_FFFF {
        return Err(counter_exhausted());
    }
    let n: usize = keys.len();
    assert(keys@ =~= tree::result_keys(result));
    assert(children@ =~= tree::result_pages(result));
    let buf = build_interior_page(pool.page_size().bytes_usize(), &keys, &children, 0, n)?;
    let ghost after = page::body(buf@);
    let id: u32 = pool.put_page(buf)?;
    assert(pool@.log[id] == after);
    assert(keys@.subrange(0, n as int) =~= keys@);
    assert(children@.subrange(0, n + 1) =~= children@);
    Ok(id)
}

/// An interior root without separators gives way to its one child. Any other
/// root stays.
pub fn collapse_root_if_needed(root: u32, buf: &[u8]) -> (r: Result<u32, PinaxError>)
    ensures
        match r {
            Ok(id) => buf@.len() >= 1 && id == (if buf@[0] == PAGE_TYPE_INTERIOR
                && layout::cell_count(buf@) == 0 {
                codec::be_u32(buf@, 5)
            } else {
                root
            }),
            Err(e) => if buf@.len() == 0 {
                e == error::bounds_error(0, 1, 0)
            } else if buf@.len() < 3 {
                buf@[0] == PAGE_TYPE_INTERIOR && e == layout::header_error(buf@)
            } else {
                buf@[0] == PAGE_TYPE_INTERIOR && layout::cell_count(buf@) == 0 && buf@.len() < 9
                    && e == error::bounds_error(5, 4, buf@.len() as int)
            },
        },
{
    if read_u8(buf, 0)? != PAGE_TYPE_INTERIOR {
        return Ok(root);
    }
    if num_cells(buf)? == 0 {
        return interior_rightmost(buf);
    }
    Ok(root)
}

} // verus!
