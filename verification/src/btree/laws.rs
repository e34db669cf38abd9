//! What the tree's pages promise: how cells are laid out and divided among
//! pages, how many pages a write takes, and which page types are reported.

use vstd::prelude::*;

use crate::btree;
use crate::btree::cursor;
use crate::btree::layout;
use crate::btree::mutate;
use crate::btree::overflow;
use crate::btree::path;
use crate::btree::tree;
use crate::btree::tree::{NodeResult, Pages};
use crate::buffer_pool::PoolView;
use crate::codec;
use crate::error;
use crate::error::{FatalError, PinaxError};
use crate::formats;
use crate::page;
use crate::row;

verus! {

// ---- cells ----

/// A leaf cell holds its key, its payload's length and its overflow chain's
/// first page in sixteen bytes, and then the payload bytes that it keeps.
pub proof fn leaf_cells_are_laid_out(
    key: i64,
    payload_len: u32,
    overflow_first: u32,
    local: Seq<u8>,
)
    ensures
        ({
            let cell = layout::leaf_cell_bytes(key, payload_len, overflow_first, local);
            &&& cell.len() == 16 + local.len()
            &&& (formats::big_endian(cell.take(8)) - key) % 0x1_0000_0000_0000_0000 == 0
            &&& formats::big_endian(cell.subrange(8, 12)) == payload_len
            &&& formats::big_endian(cell.subrange(12, 16)) == overflow_first
            &&& cell.skip(16) == local
        }),
{
    let cell = layout::leaf_cell_bytes(key, payload_len, overflow_first, local);
    formats::numbers_are_big_endian(0, payload_len, 0, key);
    formats::numbers_are_big_endian(0, overflow_first, 0, key);
    assert(cell.take(8) =~= codec::i64_bytes(key));
    assert(cell.subrange(8, 12) =~= codec::u32_bytes(payload_len));
    assert(cell.subrange(12, 16) =~= codec::u32_bytes(overflow_first));
    assert(cell.skip(16) =~= local);
}

/// An interior cell holds its separator key and its child, in twelve bytes.
pub proof fn interior_cells_are_laid_out(key: i64, child: u32)
    ensures
        ({
            let cell = layout::interior_cell_bytes(key, child);
            &&& cell.len() == 12
            &&& (formats::big_endian(cell.take(8)) - key) % 0x1_0000_0000_0000_0000 == 0
            &&& formats::big_endian(cell.skip(8)) == child
        }),
{
    let cell = layout::interior_cell_bytes(key, child);
    formats::numbers_are_big_endian(0, child, 0, key);
    assert(cell.take(8) =~= codec::i64_bytes(key));
    assert(cell.skip(8) =~= codec::u32_bytes(child));
}

/// A key belongs to the child behind all separators that do not exceed it,
/// and before all that do.
pub proof fn keys_belong_between_separators(keys: Seq<i64>, key: i64)
    requires
        forall|i: int, j: int| 0 <= i < j < keys.len() ==> #[trigger] keys[i] < #[trigger] keys[j],
    ensures
        0 <= layout::route(keys, key) <= keys.len(),
        forall|i: int|
            0 <= i < keys.len() ==> (#[trigger] keys[i] <= key <==> i < layout::route(keys, key)),
{
    let at = layout::route(keys, key);
    layout::route_bounds(keys, key);
    assert forall|i: int| 0 <= i < keys.len() implies (#[trigger] keys[i] <= key <==> i < at) by {
        if i > at {
            assert(keys[at] < keys[i]);
        }
    }
}

/// As many separators fit on an interior page as its header of nine bytes,
/// their cells of twelve with two for a pointer, and the checksum leave room
/// for.
pub proof fn interior_pages_are_filled(size: int)
    requires
        page::valid_page_size(size),
    ensures
        ({
            let n = mutate::max_entries(size);
            &&& 9 + 14 * n + 8 <= size
            &&& 9 + 14 * (n + 1) + 8 > size
        }),
{
}

/// Cells take their bytes and two more each, and fit on a leaf page if they
/// leave its header and its checksum room, within 16-bit offsets.
pub proof fn cells_take_their_bytes(cells: Seq<Seq<u8>>, cell: Seq<u8>, size: int)
    ensures
        layout::space_of(Seq::<Seq<u8>>::empty()) == 0,
        layout::space_of(cells.push(cell)) == layout::space_of(cells) + cell.len() + 2,
        mutate::cells_fit(cells, size) <==> 5 + layout::space_of(cells) + 8 <= (if size <= 65535 {
            size
        } else {
            65535
        }),
{
    assert(cells.push(cell) =~= cells + seq![cell]);
    layout::space_of_concat(cells, seq![cell]);
    layout::space_of_one(cell);
}

/// A full leaf page's cells are divided in the middle, by their number, if
/// both halves fit on a page, and else behind as many as fit on one.
pub proof fn cells_are_divided(cells: Seq<Seq<u8>>, size: int, j: int)
    ensures
        ({
            let n = cells.len() as int;
            let mid = mutate::division(cells, size);
            let halves = mutate::cells_fit(cells.subrange(0, n / 2), size) && mutate::cells_fit(
                cells.subrange(n / 2, n),
                size,
            );
            &&& 0 <= mid <= n
            &&& halves ==> mid == n / 2
            &&& !halves && mid > 0 ==> mutate::cells_fit(cells.take(mid), size)
            &&& !halves && mid < j <= n ==> !mutate::cells_fit(cells.take(j), size)
        }),
{
    first_fit_is_most(cells, cells.len() as int, size, j);
}

proof fn first_fit_is_most(cells: Seq<Seq<u8>>, n: int, size: int, j: int)
    requires
        0 <= n,
    ensures
        ({
            let k = mutate::first_fit(cells, n, size);
            &&& 0 <= k <= n
            &&& k > 0 ==> mutate::cells_fit(cells.take(k), size)
            &&& k < j <= n ==> !mutate::cells_fit(cells.take(j), size)
        }),
    decreases n,
{
    if n > 0 && !mutate::cells_fit(cells.take(n), size) {
        first_fit_is_most(cells, n - 1, size, j);
    }
}

/// A new cell goes on one page if the page has room for it and its pointer,
/// and else on two if the divided cells fit there, and else on three.
pub proof fn leaf_pages_are_few(c: Seq<u8>, at: int, cell: Seq<u8>)
    ensures
        1 <= mutate::leaf_pages(c, at, cell) <= 3,
        mutate::leaf_pages(c, at, cell) == 1 <==> layout::free_bytes(c, 5) >= cell.len() + 2,
        mutate::leaf_pages(c, at, cell) == 3 ==> ({
            let cells = layout::leaf_cells(c).insert(at, cell);
            let size = c.len() + 8int;
            let mid = mutate::division(cells, size);
            mid >= cells.len() || !mutate::cells_fit(
                cells.subrange(mid, cells.len() as int),
                size,
            )
        }),
{
}

/// A slotted page says how many cells it has and where their contents start
/// in its header, and where each cell stands in the array behind that; what
/// lies between the array and the contents is free.
pub proof fn slotted_pages_are_laid_out(b: Seq<u8>, header: int, i: int)
    requires
        5 <= header,
        5 <= b.len(),
        0 <= i,
        header + 2 * i + 2 <= b.len(),
    ensures
        layout::cell_count(b) == formats::big_endian(b.subrange(1, 3)),
        layout::content_start_of(b) == formats::big_endian(b.subrange(3, 5)),
        layout::pointer(b, header, i) == formats::big_endian(
            b.subrange(header + 2 * i, header + 2 * i + 2),
        ),
        ({
            let free = formats::big_endian(b.subrange(3, 5)) - header - 2 * formats::big_endian(
                b.subrange(1, 3),
            );
            layout::free_bytes(b, header) == (if free >= 0 {
                free
            } else {
                0
            })
        }),
{
    formats::reads_are_big_endian(b, 1);
    formats::reads_are_big_endian(b, 3);
    formats::reads_are_big_endian(b, header + 2 * i);
}

/// On a slotted page that is in order, a cell can be put at any place of the
/// array, or behind it, if its bytes and its pointer are free.
pub proof fn cells_fit_where_bytes_are_free(b: Seq<u8>, header: int, index: int, len: int)
    requires
        5 <= b.len(),
        header + 2 * layout::cell_count(b) <= layout::content_start_of(b) <= b.len(),
        0 <= len,
    ensures
        layout::cell_fits(b, header, index, len) <==> index <= layout::cell_count(b)
            && layout::free_bytes(b, header) >= len + 2,
{
}

/// A cell that was put on a page is there, under its index; the other cells
/// keep their contents, their places and their order.
pub proof fn inserted_cell_is_there(
    old_page: Seq<u8>,
    new_page: Seq<u8>,
    header: int,
    index: int,
    cell: Seq<u8>,
    i: int,
)
    requires
        0 <= index,
        layout::cell_fits(old_page, header, index, cell.len() as int),
        layout::cell_inserted(old_page, new_page, header, index, cell),
        0 <= i < layout::cell_count(old_page),
    ensures
        ({
            let p = layout::pointer(new_page, header, index);
            &&& new_page.subrange(p, p + cell.len()) == cell
            &&& p == layout::content_start_of(old_page) - cell.len()
            &&& layout::content_start_of(new_page) == p
        }),
        new_page.len() == old_page.len() && new_page[0] == old_page[0],
        layout::cell_count(new_page) == layout::cell_count(old_page) + 1,
        layout::pointer(
            new_page,
            header,
            if i < index {
                i
            } else {
                i + 1
            },
        ) == layout::pointer(old_page, header, i),
        new_page.skip(layout::content_start_of(old_page)) == old_page.skip(
            layout::content_start_of(old_page),
        ),
{
    let ps = layout::pointers(new_page, header);
    assert(ps[index] == layout::pointer(new_page, header, index));
    let k = if i < index {
        i
    } else {
        i + 1
    };
    assert(ps[k] == layout::pointer(new_page, header, k));
    assert(layout::pointers(old_page, header)[i] == layout::pointer(old_page, header, i));
    assert(new_page.skip(layout::content_start_of(old_page)) =~= old_page.skip(
        layout::content_start_of(old_page),
    ));
}

/// A cell that was taken off a page is no longer in its array; the other
/// cells keep their contents, their places and their order.
pub proof fn removed_cell_is_gone(
    old_page: Seq<u8>,
    new_page: Seq<u8>,
    header: int,
    index: int,
    i: int,
)
    requires
        0 <= index < layout::cell_count(old_page),
        header + 2 * layout::cell_count(old_page) <= layout::content_start_of(old_page)
            <= old_page.len(),
        layout::cell_removed(old_page, new_page, header, index),
        0 <= i < layout::cell_count(old_page),
        i != index,
    ensures
        new_page.len() == old_page.len() && new_page[0] == old_page[0],
        layout::cell_count(new_page) == layout::cell_count(old_page) - 1,
        layout::content_start_of(new_page) == layout::content_start_of(old_page),
        layout::pointer(
            new_page,
            header,
            if i < index {
                i
            } else {
                i - 1
            },
        ) == layout::pointer(old_page, header, i),
        new_page.skip(layout::content_start_of(old_page)) == old_page.skip(
            layout::content_start_of(old_page),
        ),
{
    let k = if i < index {
        i
    } else {
        i - 1
    };
    assert(layout::pointers(new_page, header)[k] == layout::pointer(new_page, header, k));
    assert(layout::pointers(old_page, header)[i] == layout::pointer(old_page, header, i));
    assert(new_page.skip(layout::content_start_of(old_page)) =~= old_page.skip(
        layout::content_start_of(old_page),
    ));
}

/// The contents of an empty page start before its checksum, as far as an
/// offset of two bytes reaches.
pub proof fn empty_pages_are_free(len: int)
    requires
        page::valid_page_size(len),
    ensures
        layout::empty_content_start(len) == (if len == 65536 {
            65527
        } else {
            len - 8
        }),
{
}

/// The pages that stand in place of a leaf page hold its cells in their
/// order, and what separates two of them is the first key of the second.
pub proof fn divided_cells_stay_in_order(
    pages: Pages,
    r: NodeResult,
    cells: Seq<Seq<u8>>,
    at: int,
    usable: int,
)
    requires
        mutate::leaf_result(pages, r, cells, at, usable),
    ensures
        match r {
            NodeResult::Replaced(id) => layout::leaf_cells(pages[id]) == cells,
            NodeResult::Split { left, right, separator_key } => {
                let l = layout::leaf_cells(pages[left]);
                let m = layout::leaf_cells(pages[right]);
                &&& l + m == cells
                &&& l.len() == mutate::division(cells, usable + 8)
                &&& m.len() > 0
                &&& separator_key == layout::cell_key(m[0])
            },
            NodeResult::Parted { left, middle, right, low_key, high_key } => {
                let l = layout::leaf_cells(pages[left]);
                let m = layout::leaf_cells(pages[middle]);
                let n = layout::leaf_cells(pages[right]);
                &&& l + m + n == cells
                &&& l.len() == at && m.len() == 1 && n.len() > 0
                &&& low_key == layout::cell_key(m[0])
                &&& high_key == layout::cell_key(n[0])
            },
        },
{
    match r {
        NodeResult::Replaced(_) => {},
        NodeResult::Split { left, right, .. } => {
            assert(layout::leaf_cells(pages[left]) + layout::leaf_cells(pages[right]) =~= cells);
        },
        NodeResult::Parted { left, middle, right, .. } => {
            assert(layout::leaf_cells(pages[left]) + layout::leaf_cells(pages[middle])
                + layout::leaf_cells(pages[right]) =~= cells);
        },
    }
}

/// The pages that stand in place of an interior page hold its separators and
/// children in their order; of a divided page the middle separator goes up.
pub proof fn divided_separators_stay_in_order(
    pages: Pages,
    r: NodeResult,
    keys: Seq<i64>,
    children: Seq<u32>,
    usable: int,
)
    requires
        children.len() == keys.len() + 1,
        tree::made_above(pages, r, keys, children, usable),
    ensures
        match r {
            NodeResult::Replaced(id) => {
                &&& layout::interior_keys(pages[id]) == keys
                &&& layout::interior_children(pages[id]) == children
            },
            NodeResult::Split { left, right, separator_key } => {
                let l = layout::interior_keys(pages[left]);
                &&& l.push(separator_key) + layout::interior_keys(pages[right]) == keys
                &&& layout::interior_children(pages[left]) + layout::interior_children(
                    pages[right],
                ) == children
                &&& l.len() == keys.len() / 2
            },
            NodeResult::Parted { .. } => false,
        },
{
    match r {
        NodeResult::Split { left, right, separator_key } => {
            assert(layout::interior_keys(pages[left]).push(separator_key) + layout::interior_keys(
                pages[right],
            ) =~= keys);
            assert(layout::interior_children(pages[left]) + layout::interior_children(pages[right])
                =~= children);
        },
        _ => {},
    }
}

/// Two or three pages take a child's place among the children, with what
/// separates them among the separators; what stands before and behind it
/// stays.
pub proof fn spliced_entries_stay_in_order(
    keys: Seq<i64>,
    children: Seq<u32>,
    at: int,
    r: NodeResult,
)
    requires
        children.len() == keys.len() + 1,
        0 <= at < children.len(),
    ensures
        tree::spliced_children(children, at, r).take(at) == children.take(at),
        tree::spliced_keys(keys, at, r).take(at) == keys.take(at),
        match r {
            NodeResult::Replaced(id) => {
                &&& tree::spliced_children(children, at, r).skip(at) == seq![id] + children.skip(
                    at + 1,
                )
                &&& tree::spliced_keys(keys, at, r).skip(at) == keys.skip(at)
            },
            NodeResult::Split { left, right, separator_key } => {
                &&& tree::spliced_children(children, at, r).skip(at) == seq![left, right]
                    + children.skip(at + 1)
                &&& tree::spliced_keys(keys, at, r).skip(at) == seq![separator_key] + keys.skip(at)
            },
            NodeResult::Parted { left, middle, right, low_key, high_key } => {
                &&& tree::spliced_children(children, at, r).skip(at) == seq![left, middle, right]
                    + children.skip(at + 1)
                &&& tree::spliced_keys(keys, at, r).skip(at) == seq![low_key, high_key]
                    + keys.skip(at)
            },
        },
{
    let cs = tree::spliced_children(children, at, r);
    let ks = tree::spliced_keys(keys, at, r);
    assert(cs.take(at) =~= children.take(at));
    assert(ks.take(at) =~= keys.take(at));
    assert(cs.skip(at) =~= tree::result_pages(r) + children.skip(at + 1));
    assert(ks.skip(at) =~= tree::result_keys(r) + keys.skip(at));
}

/// A child stands where it is first found among the children; one that is
/// not found stands for the last.
pub proof fn children_are_found(children: Seq<u32>, child: u32)
    requires
        children.len() > 0,
    ensures
        ({
            let at = tree::child_position(children, child);
            &&& 0 <= at < children.len()
            &&& forall|i: int| 0 <= i < at ==> #[trigger] children[i] != child
            &&& children.contains(child) ==> children[at] == child
            &&& !children.contains(child) ==> at == children.len() - 1
        }),
    decreases children.len(),
{
    if children.len() > 1 && children[0] != child {
        let rest = children.drop_first();
        children_are_found(rest, child);
        let at = tree::child_position(children, child);
        assert forall|i: int| 0 <= i < at implies #[trigger] children[i] != child by {
            if i > 0 {
                assert(rest[i - 1] == children[i]);
            }
        }
        assert(rest[at - 1] == children[at]);
        if children.contains(child) {
            let k = children.index_of(child);
            assert(rest[k - 1] == child);
            assert(rest.contains(child));
        }
        if rest.contains(child) {
            let k = rest.index_of(child);
            assert(children[k + 1] == child);
        }
    } else if children.len() == 1 {
        if children.contains(child) {
            let k = children.index_of(child);
            assert(children[k] == child);
        }
    }
}

/// Over an interior page whose cells all lie on it, every key has a way. A
/// key's way leads on or ends, and not both.
pub proof fn ways_lead_on_or_end(b: Seq<u8>, key: i64, e: PinaxError)
    ensures
        layout::entries_readable(b) ==> layout::leads(b, key),
        layout::leads(b, key) ==> !layout::is_way_error(e, b, key),
        layout::entries_readable(b) ==> !layout::is_first_entries_error(e, b),
{
    let keys = layout::interior_keys(b);
    let at = layout::route(keys, key);
    layout::route_bounds(keys, key);
    if layout::entries_readable(b) {
        assert forall|j: int| 0 <= j < at implies #[trigger] layout::cell_readable(b, 9, j, 8)
            && layout::key_of(b, 9, j) <= key by {
            assert(layout::cell_readable(b, 9, j, 12));
            assert(keys[j] <= key);
        }
        if at < layout::cell_count(b) {
            assert(layout::cell_readable(b, 9, at, 12));
        }
    }
    if layout::leads(b, key) && layout::is_way_error(e, b, key) {
        let i = choose|i: int| #[trigger]
            layout::passes(b, key, i) && layout::stops(e, b, key, i);
        if i < at {
            assert(layout::cell_readable(b, 9, i, 8));
        } else if i > at {
            assert(layout::cell_readable(b, 9, at, 8));
            assert(keys[at] > key);
        }
        assert(false);
    }
}

/// A cell can be read if its pointer and its bytes lie on the page; its key
/// is the number in its first eight bytes, and an interior cell's child that
/// in the four behind them.
pub proof fn cells_are_read_off_their_page(b: Seq<u8>, header: int, index: int, len: int)
    requires
        0 <= header,
        0 <= index,
        8 <= len,
    ensures
        header + 2 * index + 2 > b.len() ==> !layout::cell_readable(b, header, index, len),
        header + 2 * index + 2 <= b.len() ==> {
            let p = formats::big_endian(b.subrange(header + 2 * index, header + 2 * index + 2));
            &&& layout::cell_readable(b, header, index, len) <==> p + len <= b.len()
            &&& p + len <= b.len() ==> (formats::big_endian(b.subrange(p, p + 8))
                - layout::key_of(b, header, index)) % 0x1_0000_0000_0000_0000 == 0
            &&& p + len <= b.len() && len >= 12 && header == 9 ==> layout::child_of(b, index)
                == formats::big_endian(b.subrange(p + 8, p + 12))
        },
{
    if header + 2 * index + 2 <= b.len() {
        formats::reads_are_big_endian(b, header + 2 * index);
        let p = layout::pointer(b, header, index);
        formats::reads_are_big_endian(b, p);
        formats::reads_are_big_endian(b, p + 8);
    }
}

/// The cells of a leaf page stand where its pointers say, and have sixteen
/// bytes and the payload bytes that they keep.
pub proof fn leaf_pages_hold_their_cells(c: Seq<u8>, i: int)
    requires
        layout::leaf_shape(c),
        0 <= i < layout::cell_count(c),
    ensures
        layout::leaf_cells(c).len() == layout::cell_count(c),
        ({
            let p = layout::pointer(c, 5, i);
            let payload = formats::big_endian(c.subrange(p + 8, p + 12));
            let kept = if payload <= c.len() - 35 {
                payload
            } else {
                c.len() - 35
            };
            &&& p + 16 + kept <= c.len()
            &&& layout::leaf_cells(c)[i] == c.subrange(p, p + 16 + kept)
        }),
{
    assert(layout::leaf_cell_placed(c, i));
    formats::reads_are_big_endian(c, layout::pointer(c, 5, i) + 8);
}

/// An interior page has a separator for each cell, and a child more: the
/// rightmost, which its header names.
pub proof fn interior_pages_hold_their_entries(b: Seq<u8>, i: int)
    requires
        b.len() >= 9,
        0 <= i < layout::cell_count(b),
    ensures
        ({
            let keys = layout::interior_keys(b);
            let children = layout::interior_children(b);
            &&& keys.len() == layout::cell_count(b)
            &&& children.len() == keys.len() + 1
            &&& keys[i] == layout::key_of(b, 9, i)
            &&& children[i] == layout::child_of(b, i)
            &&& children.last() == formats::big_endian(b.subrange(5, 9))
        }),
{
    formats::reads_are_big_endian(b, 5);
}

/// A page of an overflow chain starts with the byte 3 and the id of the next
/// page, zero on the last, and then holds payload bytes, as many as there are
/// and fit. Ids descend along the chain.
pub proof fn chains_are_laid_out(pages: Pages, id: u32, len: nat, below: int, cap: int)
    requires
        tree::chain_ok(pages, id, len, below, cap),
        0 < len,
        0 < cap,
    ensures
        ({
            let c = pages[id];
            let next = formats::big_endian(c.subrange(1, 5));
            &&& 2 <= id < below
            &&& pages.contains_key(id)
            &&& c.len() == cap + 5
            &&& c[0] == 3
            &&& len <= cap ==> next == 0 && tree::chain_data(pages, id, len, cap) == c.subrange(
                5,
                5 + len as int,
            )
            &&& len > cap ==> {
                &&& 2 <= next < id
                &&& tree::chain_ok(pages, next as u32, (len - cap) as nat, id as int, cap)
                &&& tree::chain_data(pages, id, len, cap) == c.subrange(5, 5 + cap)
                    + tree::chain_data(pages, next as u32, (len - cap) as nat, cap)
            }
        }),
{
    reveal_with_fuel(tree::chain_ok, 2);
    let next = codec::be_u32(pages[id], 1);
    formats::reads_are_big_endian(pages[id], 1);
    assert(next == formats::big_endian(pages[id].subrange(1, 5)));
}

/// A leaf cell's payload is what it keeps and what its chain holds, and is as
/// long as the cell says.
pub proof fn payloads_are_put_together(pages: Pages, cell: Seq<u8>, below: int, usable: int)
    requires
        64 <= usable,
        tree::cell_ok(pages, cell, below, usable),
    ensures
        ({
            let said = formats::big_endian(cell.subrange(8, 12));
            let first = formats::big_endian(cell.subrange(12, 16));
            let payload = tree::cell_payload(pages, cell, usable);
            &&& payload.len() == said
            &&& first == 0 <==> said <= usable - 35
            &&& said <= usable - 35 ==> payload == cell.skip(16)
            &&& said > usable - 35 ==> payload == cell.skip(16) + tree::chain_data(
                pages,
                first as u32,
                (said - (usable - 35)) as nat,
                usable - 5,
            )
        }),
{
    formats::reads_are_big_endian(cell, 8);
    formats::reads_are_big_endian(cell, 12);
    assert(cell.subrange(16, cell.len() as int) =~= cell.skip(16));
    chain_is_as_long_as_said(
        pages,
        layout::cell_overflow_first(cell),
        tree::tail_len(cell, usable - 35),
        below,
        usable - 5,
    );
}

proof fn chain_is_as_long_as_said(pages: Pages, id: u32, len: nat, below: int, cap: int)
    requires
        tree::chain_ok(pages, id, len, below, cap),
        0 < cap,
    ensures
        tree::chain_data(pages, id, len, cap).len() == len,
    decreases len,
{
    if len > cap {
        chain_is_as_long_as_said(
            pages,
            codec::be_u32(pages[id], 1),
            (len - cap) as nat,
            id as int,
            cap,
        );
    }
}

/// The entries of a leaf page are the keys and payloads of its cells, in
/// their order.
pub proof fn leaf_entries_are_its_cells(pages: Pages, id: u32, i: int)
    requires
        pages[id][0] == 1,
        0 <= i < layout::cell_count(pages[id]),
    ensures
        ({
            let c = pages[id];
            let cell = layout::leaf_cells(c)[i];
            &&& tree::entries(pages, id).len() == layout::cell_count(c)
            &&& tree::entries(pages, id)[i] == (
                codec::be_i64(cell, 0),
                tree::cell_payload(pages, cell, c.len() as int),
            )
        }),
{
}

/// What reading a cell that does not lie on its page reports: the bytes that
/// were wanted, and how many the page has.
pub proof fn cell_errors_name_the_bytes(
    e: PinaxError,
    b: Seq<u8>,
    header: int,
    index: int,
    skip: int,
    len: int,
)
    requires
        0 <= header,
        0 <= index,
        0 <= skip,
        layout::is_cell_error(e, b, header, index, skip, len),
    ensures
        header + 2 * index + 2 <= b.len() ==> e == error::bounds_error(
            formats::big_endian(b.subrange(header + 2 * index, header + 2 * index + 2)) + skip,
            len,
            b.len() as int,
        ),
        header + 2 * index + 2 > b.len() ==> (e matches PinaxError::Fatal {
            source: FatalError::BufferBounds { .. },
        }),
        header + 2 * index + 2 > b.len() && header + 2 * index <= usize::MAX ==> e
            == error::bounds_error(header + 2 * index, 2, b.len() as int),
        layout::header_error(b) == (if b.len() < 3 {
            error::bounds_error(1, 2, b.len() as int)
        } else {
            error::bounds_error(3, 2, b.len() as int)
        }),
{
    if header + 2 * index + 2 <= b.len() {
        formats::reads_are_big_endian(b, header + 2 * index);
    }
}

// ---- how many pages a write takes ----

/// A chain has as many pages as its bytes fill, and no more.
pub proof fn chains_are_as_long_as_needed(len: nat, cap: int)
    requires
        0 < cap,
    ensures
        overflow::chunk_count(len, cap) * cap >= len,
        overflow::chunk_count(len, cap) * cap < len + cap,
    decreases len,
{
    let all = overflow::chunk_count(len, cap) as int;
    if len <= cap {
        assert(all * cap < len + cap && all * cap >= len) by (nonlinear_arith)
            requires
                0 < cap,
                0 <= len <= cap,
                len == 0 && all == 0 || len > 0 && all == 1,
        ;
    } else {
        let rest = (len - cap) as nat;
        chains_are_as_long_as_needed(rest, cap);
        let n = overflow::chunk_count(rest, cap) as int;
        assert((1 + n) * cap == cap + n * cap) by (nonlinear_arith);
    }
}

/// A page that takes one page's place is carried up by one page for each
/// page above it, and by no other.
pub proof fn one_page_climbs_alone(nodes: path::Nodes, i: int, size: int)
    requires
        0 <= i,
    ensures
        btree::climb_pages(nodes, i, 1, size) == i,
    decreases i,
{
    if i > 0 {
        one_page_climbs_alone(nodes, i - 1, size);
    }
}

/// Two or three pages that take one page's place are carried up by a page
/// for each page above that has room for them, and by two for each that has
/// none; a root is put above them if they reach the top.
pub proof fn parts_climb_until_there_is_room(nodes: path::Nodes, i: int, parts: int, size: int)
    requires
        2 <= parts <= 3,
        0 <= i,
    ensures
        i == 0 ==> btree::climb_pages(nodes, i, parts, size) == 1,
        i > 0 && layout::cell_count(nodes[i - 1].1) + parts - 1 <= (size - 17) / 14
            ==> btree::climb_pages(nodes, i, parts, size) == i,
        i > 0 && layout::cell_count(nodes[i - 1].1) + parts - 1 > (size - 17) / 14
            ==> btree::climb_pages(nodes, i, parts, size) == 2 + btree::climb_pages(
            nodes,
            i - 1,
            2,
            size,
        ),
{
    if i > 0 {
        one_page_climbs_alone(nodes, i - 1, size);
    }
}

/// A write puts the overflow pages that its payload fills, one to three leaf
/// pages, and what carries these up the path. One leaf page is enough if and
/// only if the page at the end of the path has room for the new cell, where
/// an update also has the two bytes of the old cell's pointer.
pub proof fn writes_put_what_they_need(nodes: path::Nodes, key: i64, len: nat, size: int)
    requires
        page::valid_page_size(size),
        nodes.len() > 0 ==> nodes.last().1.len() == size - 8,
    ensures
        ({
            let chain = overflow::chunk_count(
                if len <= size - 43 {
                    0
                } else {
                    (len - (size - 43)) as nat
                },
                size - 13,
            );
            let cell = 16 + (if len <= size - 43 {
                len as int
            } else {
                size - 43
            });
            let c = nodes.last().1;
            let last = nodes.len() - 1;
            let new = btree::leaf_parts(c, key, len);
            let changed = btree::update_parts(c, key, len);
            &&& nodes.len() == 0 ==> btree::insert_pages(nodes, key, len, size) == chain + 1
            &&& nodes.len() > 0 ==> {
                &&& 1 <= new <= 3 && 1 <= changed <= 3
                &&& new == 1 <==> layout::free_bytes(c, 5) >= cell + 2
                &&& changed == 1 <==> layout::free_bytes(c, 5) >= cell
                &&& btree::insert_pages(nodes, key, len, size) == chain + new + btree::climb_pages(
                    nodes,
                    last,
                    new,
                    size,
                )
                &&& btree::update_pages(nodes, key, len, size) == chain + changed
                    + btree::climb_pages(nodes, last, changed, size)
            }
        }),
{
    if nodes.len() > 0 {
        let usable = nodes.last().1.len() as int;
        let local = Seq::new(layout::local_len(len as int, usable - 35) as nat, |i: int| 0u8);
        leaf_cells_are_laid_out(key, len as u32, 0, local);
    }
}

// ---- reading pages, whatever they hold ----

/// A search of a leaf page whose keys lie on it and ascend finds the key if
/// it is there, and else the place where it would stand.
pub proof fn search_finds_the_key(b: Seq<u8>, key: i64)
    requires
        layout::keys_ascend(b),
        forall|i: int|
            0 <= i < layout::cell_count(b) ==> #[trigger] layout::cell_readable(b, 5, i, 8),
    ensures
        match layout::searched(b, key, 0, layout::cell_count(b)) {
            Ok(Ok(i)) => 0 <= i < layout::cell_count(b) && layout::key_of(b, 5, i) == key,
            Ok(Err(i)) => {
                &&& 0 <= i <= layout::cell_count(b)
                &&& forall|j: int| 0 <= j < i ==> #[trigger] layout::key_of(b, 5, j) < key
                &&& forall|j: int|
                    i <= j < layout::cell_count(b) ==> #[trigger] layout::key_of(b, 5, j) > key
            },
            Err(_) => false,
        },
{
    halving_finds_the_key(b, key, 0, layout::cell_count(b));
}

proof fn halving_finds_the_key(b: Seq<u8>, key: i64, lo: int, hi: int)
    requires
        layout::keys_ascend(b),
        forall|i: int|
            0 <= i < layout::cell_count(b) ==> #[trigger] layout::cell_readable(b, 5, i, 8),
        0 <= lo <= hi <= layout::cell_count(b),
        forall|j: int| 0 <= j < lo ==> #[trigger] layout::key_of(b, 5, j) < key,
        forall|j: int| hi <= j < layout::cell_count(b) ==> #[trigger] layout::key_of(b, 5, j) > key,
    ensures
        match layout::searched(b, key, lo, hi) {
            Ok(Ok(i)) => 0 <= i < layout::cell_count(b) && layout::key_of(b, 5, i) == key,
            Ok(Err(i)) => {
                &&& 0 <= i <= layout::cell_count(b)
                &&& forall|j: int| 0 <= j < i ==> #[trigger] layout::key_of(b, 5, j) < key
                &&& forall|j: int|
                    i <= j < layout::cell_count(b) ==> #[trigger] layout::key_of(b, 5, j) > key
            },
            Err(_) => false,
        },
    decreases hi - lo,
{
    if lo < hi {
        let mid = lo + (hi - lo) / 2;
        assert(layout::cell_readable(b, 5, mid, 8));
        if layout::key_of(b, 5, mid) < key {
            assert forall|j: int| 0 <= j < mid + 1 implies #[trigger] layout::key_of(b, 5, j)
                < key by {
                if j < mid {
                    assert(layout::key_of(b, 5, j) < layout::key_of(b, 5, mid));
                }
            }
            halving_finds_the_key(b, key, mid + 1, hi);
        } else if layout::key_of(b, 5, mid) > key {
            assert forall|j: int| mid <= j < layout::cell_count(b) implies #[trigger] layout::key_of(
                b,
                5,
                j,
            ) > key by {
                if j > mid {
                    assert(layout::key_of(b, 5, mid) < layout::key_of(b, 5, j));
                }
            }
            halving_finds_the_key(b, key, lo, mid);
        }
    }
}

/// A search of a leaf page lacks the key, gives its cell, or fails, and only
/// one of these.
pub proof fn search_has_one_result(b: Seq<u8>, max_local: int, key: i64, e: PinaxError)
    ensures
        cursor::leaf_lacks(b, key) ==> cursor::leaf_gives(b, max_local, key) is None
            && !cursor::is_leaf_fault(e, b, max_local, key),
        cursor::leaf_gives(b, max_local, key) is Some ==> !cursor::is_leaf_fault(
            e,
            b,
            max_local,
            key,
        ),
        cursor::is_leaf_fault(e, b, max_local, key) ==> (e matches PinaxError::Fatal {
            source: FatalError::BufferBounds { .. },
        }),
{
}

/// A payload begins with the bytes that its cell keeps, and goes on with
/// those of its overflow pages, five bytes behind the start of each, as many
/// as are still to come and fit there.
pub proof fn payloads_are_gathered(
    b: Seq<u8>,
    i: int,
    max_local: int,
    g: cursor::Gathered,
    c: Seq<u8>,
    cap: int,
)
    requires
        0 <= i,
        7 + 2 * i <= b.len(),
        layout::pointer(b, 5, i) + 16 <= b.len(),
        5 + cap <= c.len(),
        0 < cap,
    ensures
        ({
            let p = layout::pointer(b, 5, i);
            let said = formats::big_endian(b.subrange(p + 8, p + 12));
            let first = formats::big_endian(b.subrange(p + 12, p + 16));
            let start = cursor::begun(b, i, max_local);
            let kept = if said <= max_local {
                said
            } else {
                max_local
            };
            &&& start.full == b.subrange(p + 16, p + 16 + kept)
            &&& start.next == first
            &&& start.remaining == (if first != 0 && said > max_local {
                said - max_local
            } else {
                0
            })
        }),
        ({
            let more = cursor::gathered_on(g, c, cap);
            let n = if g.remaining <= cap {
                g.remaining as int
            } else {
                cap
            };
            &&& more.full == g.full + c.subrange(5, 5 + n)
            &&& more.next == formats::big_endian(c.subrange(1, 5))
            &&& more.remaining == g.remaining - n
        }),
        cursor::needed(g) == (if g.next == 0 || g.remaining == 0 {
            None::<u32>
        } else {
            Some(g.next)
        }),
{
    let p = layout::pointer(b, 5, i);
    formats::reads_are_big_endian(b, p + 8);
    formats::reads_are_big_endian(b, p + 12);
    formats::reads_are_big_endian(c, 1);
}

/// A scan skips no cell: it begins to read the next cell of its leaf page if
/// that lies on the page, and else fails; it leaves the page behind the last
/// cell, and is over only when no page is left.
pub proof fn scans_read_every_cell(
    s: cursor::ScanView,
    v: PoolView,
    t: cursor::ScanView,
    c: cursor::Came,
    b: Seq<u8>,
    at: int,
)
    requires
        cursor::scan_steps(s, v, t, c),
        s.payload is None,
        s.leaf == Some((b, at)),
    ensures
        at < layout::cell_count(b) ==> {
            &&& c is On <==> layout::leaf_cell_readable(b, at, v.meta.size - 43)
            &&& c is On || c is Failed
            &&& c is On ==> t.leaf == s.leaf && t.rows == s.rows && t.stack == s.stack && t.payload
                == Some(cursor::begun(b, at, v.meta.size - 43))
        },
        at >= layout::cell_count(b) ==> {
            &&& c is On
            &&& t.leaf is None && t.payload is None && t.rows == s.rows && t.stack == s.stack
        },
{
}

/// A scan adds the row of a payload that is complete, and that decodes, under
/// its cell's key, behind the rows so far; it fails if the payload does not
/// decode.
pub proof fn scans_add_every_row(
    s: cursor::ScanView,
    v: PoolView,
    t: cursor::ScanView,
    c: cursor::Came,
    b: Seq<u8>,
    at: int,
    g: cursor::Gathered,
)
    requires
        cursor::scan_steps(s, v, t, c),
        s.payload == Some(g),
        g.next == 0 || g.remaining == 0,
        s.leaf == Some((b, at)),
        layout::leaf_cell_readable(b, at, v.meta.size - 43),
    ensures
        match row::parse_row(g.full) {
            Ok(vs) => {
                &&& c is On
                &&& t.rows == s.rows + seq![(layout::key_of(b, 5, at), vs)]
                &&& t.leaf == Some((b, at + 1)) && t.payload is None && t.stack == s.stack
            },
            Err(f) => c matches cursor::Came::Failed(e) && row::reports(e, f),
        },
{
    if let Ok(vs) = row::parse_row(g.full) {
        let new = (layout::key_of(b, 5, at), vs);
        assert(s.rows.push(new) =~= s.rows + seq![new]);
    }
}

/// A scan visits the pages from the root down, the children of an interior
/// page in their order, and is over when there is no page left to visit.
pub proof fn scans_visit_every_page(
    s: cursor::ScanView,
    v: PoolView,
    t: cursor::ScanView,
    c: cursor::Came,
)
    requires
        cursor::scan_steps(s, v, t, c),
        s.payload is None,
        s.leaf is None,
    ensures
        c is Over <==> s.stack.len() == 0,
        s.stack.len() > 0 ==> {
            let id = s.stack.last();
            &&& !v.cache.contains_key(id) ==> c == cursor::Came::Asks(id) && t == s
            &&& v.cache.contains_key(id) && v.cache[id][0] == 1 ==> {
                &&& c is On
                &&& t.leaf == Some((v.cache[id], 0int))
                &&& t.stack == s.stack.drop_last() && t.rows == s.rows
            }
            &&& v.cache.contains_key(id) && v.cache[id][0] == 2 && c is On ==> {
                let children = layout::interior_children(v.cache[id]);
                &&& t.rows == s.rows && t.leaf is None
                &&& t.stack.len() == s.stack.len() - 1 + children.len()
                &&& forall|i: int|
                    0 <= i < children.len() ==> #[trigger] children[i] == t.stack[t.stack.len() - 1
                        - i]
                &&& t.stack.take(s.stack.len() - 1) == s.stack.drop_last()
            }
        },
{
    if s.stack.len() > 0 {
        let id = s.stack.last();
        let children = layout::interior_children(v.cache[id]);
        if v.cache.contains_key(id) && v.cache[id][0] == 2 && c is On {
            assert(t.stack.take(s.stack.len() - 1) =~= s.stack.drop_last());
        }
    }
}

// ---- page types ----

/// A cached page that a step needs is reported if its first byte is not 3 in
/// an overflow chain, or neither 1 nor 2 elsewhere: by its id, the type that
/// its place calls for, and that byte. No step reports another page's type.
pub proof fn misplaced_pages_are_reported<T>(
    v: PoolView,
    id: u32,
    in_chain: bool,
    r: Result<T, PinaxError>,
)
    requires
        v.cache.contains_key(id),
        cursor::reports_type(v, Some(id), in_chain, r),
    ensures
        ({
            let byte = v.cache[id][0];
            let fits = if in_chain {
                byte == 3
            } else {
                byte == 1 || byte == 2
            };
            let reported = r matches Err(
                PinaxError::Fatal { source: FatalError::UnexpectedPageType { .. } },
            );
            &&& fits <==> !reported
            &&& r matches Err(
                PinaxError::Fatal {
                    source: FatalError::UnexpectedPageType { page_id, expected, actual },
                },
            ) ==> {
                &&& page_id == id
                &&& actual == byte
                &&& in_chain ==> expected@ == "overflow"@
                &&& !in_chain ==> expected@ == "interior"@
            }
        }),
{
}

/// A step that needs no page, or one that is not cached, reports no type.
pub proof fn absent_pages_are_not_reported<T>(
    v: PoolView,
    wants: Option<u32>,
    in_chain: bool,
    r: Result<T, PinaxError>,
)
    requires
        wants matches Some(id) ==> !v.cache.contains_key(id),
        cursor::reports_type(v, wants, in_chain, r),
    ensures
        !(r matches Err(PinaxError::Fatal { source: FatalError::UnexpectedPageType { .. } })),
{
}

} // verus!
