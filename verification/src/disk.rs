//! The database file as the library sees it: actions that the caller
//! performs on the file, in order, and what they do to its bytes.
//!
//! The library never touches a file. It hands out [`IoAction`]s and is
//! handed pages; whoever holds the file performs the actions in the order
//! in which they were handed out.

use vstd::prelude::*;

use crate::page;

verus! {

/// One thing to do to the database file.
#[derive(Debug)]
pub enum IoAction {
    /// Write `bytes` at `offset`.
    Write {
        /// Where in the file.
        offset: u64,
        /// What to write.
        bytes: Vec<u8>,
    },
    /// Make the data that was written so far durable.
    SyncData,
    /// Make data and metadata durable.
    SyncAll,
}

/// What an [`IoAction`] is, as plain mathematical data.
pub enum IoView {
    /// Write `bytes` at `offset`.
    Write {
        /// Where in the file.
        offset: int,
        /// What to write.
        bytes: Seq<u8>,
    },
    /// Make the data that was written so far durable.
    SyncData,
    /// Make data and metadata durable.
    SyncAll,
}

impl View for IoAction {
    type V = IoView;

    open spec fn view(&self) -> IoView {
        match self {
            IoAction::Write { offset, bytes } => IoView::Write {
                offset: *offset as int,
                bytes: bytes@,
            },
            IoAction::SyncData => IoView::SyncData,
            IoAction::SyncAll => IoView::SyncAll,
        }
    }
}

/// What some actions are, as plain mathematical data.
pub open spec fn io_views(actions: Seq<IoAction>) -> Seq<IoView> {
    Seq::new(actions.len(), |i: int| actions[i]@)
}

/// A file after `bytes` were written to it at `offset`. A write beyond the
/// end fills the gap with zeros.
pub open spec fn written(file: Seq<u8>, offset: int, bytes: Seq<u8>) -> Seq<u8> {
    let end = offset + bytes.len();
    Seq::new(
        if end > file.len() {
            end as nat
        } else {
            file.len()
        },
        |i: int|
            if offset <= i < end {
                bytes[i - offset]
            } else if i < file.len() {
                file[i]
            } else {
                0u8
            },
    )
}

/// A file after one action.
pub open spec fn step(file: Seq<u8>, action: IoView) -> Seq<u8> {
    match action {
        IoView::Write { offset, bytes } => written(file, offset, bytes),
        _ => file,
    }
}

/// A file after some actions, in order.
pub open spec fn performed(file: Seq<u8>, actions: Seq<IoView>) -> Seq<u8>
    decreases actions.len(),
{
    if actions.len() == 0 {
        file
    } else {
        step(performed(file, actions.drop_last()), actions.last())
    }
}

/// Performing actions and then others is performing them all.
pub proof fn performed_concat(file: Seq<u8>, first: Seq<IoView>, second: Seq<IoView>)
    ensures
        performed(file, first + second) == performed(performed(file, first), second),
    decreases second.len(),
{
    if second.len() == 0 {
        assert(first + second =~= first);
    } else {
        assert((first + second).drop_last() =~= first + second.drop_last());
        assert((first + second).last() == second.last());
        performed_concat(file, first, second.drop_last());
    }
}

/// Where data page `id` of a file with pages of `size` bytes stands.
pub open spec fn page_offset(id: u32, size: int) -> int {
    page::META_REGION_LEN + (if id >= page::FIRST_DATA_PAGE_ID {
        (id - page::FIRST_DATA_PAGE_ID) * size
    } else {
        0
    })
}

/// The action that writes the page with the given body to data page `id`.
pub open spec fn page_write(id: u32, size: int, content: Seq<u8>) -> IoView {
    IoView::Write { offset: page_offset(id, size), bytes: page::stamped(content) }
}

/// The file holds data page `id`, with a checksum that verifies.
pub open spec fn holds_page(file: Seq<u8>, size: int, id: u32) -> bool {
    &&& id >= page::FIRST_DATA_PAGE_ID
    &&& page_offset(id, size) + size <= file.len()
    &&& page::checksum_ok(page_bytes(file, size, id))
}

/// The bytes of data page `id`.
pub open spec fn page_bytes(file: Seq<u8>, size: int, id: u32) -> Seq<u8> {
    file.subrange(page_offset(id, size), page_offset(id, size) + size)
}

/// The bodies of the data pages that a file holds.
pub open spec fn pages_of(file: Seq<u8>, size: int) -> Map<u32, Seq<u8>> {
    Map::new(
        |id: u32| holds_page(file, size, id),
        |id: u32| page::body(page_bytes(file, size, id)),
    )
}

/// The two meta slots of a file.
pub open spec fn slot_of(file: Seq<u8>, slot: int) -> Seq<u8> {
    file.subrange(slot * page::META_SLOT_LEN, (slot + 1) * page::META_SLOT_LEN)
}

/// Two data pages share no byte.
pub proof fn pages_apart(a: u32, b: u32, size: int)
    requires
        size > 0,
        page::FIRST_DATA_PAGE_ID <= a < b,
    ensures
        page::META_REGION_LEN <= page_offset(a, size),
        page_offset(a, size) + size <= page_offset(b, size),
{
    let x = a - page::FIRST_DATA_PAGE_ID;
    let y = b - page::FIRST_DATA_PAGE_ID;
    assert(0 <= x * size) by (nonlinear_arith)
        requires
            0 <= x,
            size > 0,
    ;
    assert(x * size + size <= y * size) by (nonlinear_arith)
        requires
            x + 1 <= y,
            size > 0,
    ;
}

/// A data page lies behind the meta region.
pub proof fn page_behind_meta(id: u32, size: int)
    requires
        size > 0,
    ensures
        page::META_REGION_LEN <= page_offset(id, size),
{
    if id >= page::FIRST_DATA_PAGE_ID {
        let x = id - page::FIRST_DATA_PAGE_ID;
        assert(0 <= x * size) by (nonlinear_arith)
            requires
                0 <= x,
                size > 0,
        ;
    }
}

/// Writing a page makes the file hold it, and leaves what it held of the
/// other pages and the meta slots as it was.
pub proof fn page_write_effect(file: Seq<u8>, size: int, id: u32, content: Seq<u8>)
    requires
        page::valid_page_size(size),
        content.len() == size - page::CHECKSUM_LEN,
        id >= page::FIRST_DATA_PAGE_ID,
    ensures
        ({
            let after = step(file, page_write(id, size, content));
            &&& after.len() >= file.len()
            &&& holds_page(after, size, id)
            &&& pages_of(after, size)[id] == content
            &&& forall|other: u32|
                other != id && #[trigger] holds_page(file, size, other) ==> holds_page(
                    after,
                    size,
                    other,
                ) && pages_of(after, size)[other] == pages_of(file, size)[other]
            &&& file.len() >= page::META_REGION_LEN ==> slot_of(after, 0) == slot_of(file, 0)
                && slot_of(after, 1) == slot_of(file, 1)
        }),
{
    let bytes = page::stamped(content);
    let after = step(file, page_write(id, size, content));
    let at = page_offset(id, size);
    page_behind_meta(id, size);
    page::stamped_page_verifies(content);
    assert(bytes.len() == size);
    assert(page_bytes(after, size, id) =~= bytes);
    assert(pages_of(after, size).dom().contains(id));
    assert forall|other: u32|
        other != id && #[trigger] holds_page(file, size, other) implies holds_page(
        after,
        size,
        other,
    ) && pages_of(after, size)[other] == pages_of(file, size)[other] by {
        if other < id {
            pages_apart(other, id, size);
        } else {
            pages_apart(id, other, size);
        }
        page_behind_meta(other, size);
        assert(page_bytes(after, size, other) =~= page_bytes(file, size, other));
        assert(pages_of(after, size).dom().contains(other));
        assert(pages_of(file, size).dom().contains(other));
    }
    if file.len() >= page::META_REGION_LEN {
        assert(slot_of(after, 0) =~= slot_of(file, 0));
        assert(slot_of(after, 1) =~= slot_of(file, 1));
    }
}

/// Writing one meta slot sets it, and leaves the other slot and the data
/// pages as they were.
pub proof fn slot_write_effect(file: Seq<u8>, size: int, slot: int, bytes: Seq<u8>)
    requires
        page::valid_page_size(size),
        slot == 0 || slot == 1,
        bytes.len() == page::META_SLOT_LEN,
        file.len() >= page::META_REGION_LEN,
    ensures
        ({
            let after = written(file, slot * page::META_SLOT_LEN, bytes);
            &&& after.len() == file.len()
            &&& slot_of(after, slot) == bytes
            &&& slot_of(after, 1 - slot) == slot_of(file, 1 - slot)
            &&& pages_of(after, size) == pages_of(file, size)
        }),
{
    let after = written(file, slot * page::META_SLOT_LEN, bytes);
    assert(slot_of(after, slot) =~= bytes);
    assert(slot_of(after, 1 - slot) =~= slot_of(file, 1 - slot));
    assert forall|id: u32| holds_page(after, size, id) == holds_page(file, size, id)
        && page_bytes(after, size, id) == page_bytes(file, size, id) || !(page_offset(id, size)
        + size <= file.len()) by {
        page_behind_meta(id, size);
        if page_offset(id, size) + size <= file.len() {
            assert(page_bytes(after, size, id) =~= page_bytes(file, size, id));
        }
    }
    assert(pages_of(after, size) =~= pages_of(file, size));
}

/// The bytes that were last written at `at`, if any were.
pub open spec fn last_write(actions: Seq<IoView>, at: int) -> Option<Seq<u8>>
    decreases actions.len(),
{
    if actions.len() == 0 {
        None
    } else {
        match actions.last() {
            IoView::Write { offset, bytes } => if offset == at {
                Some(bytes)
            } else {
                last_write(actions.drop_last(), at)
            },
            _ => last_write(actions.drop_last(), at),
        }
    }
}

/// The last write of some actions and some more is that of the latter, if
/// they have one.
pub proof fn last_write_concat(a: Seq<IoView>, b: Seq<IoView>, at: int)
    ensures
        last_write(a + b, at) == (match last_write(b, at) {
            Some(bytes) => Some(bytes),
            None => last_write(a, at),
        }),
    decreases b.len(),
{
    if b.len() == 0 {
        assert(a + b =~= a);
    } else {
        assert((a + b).drop_last() =~= a + b.drop_last());
        assert((a + b).last() == b.last());
        last_write_concat(a, b.drop_last(), at);
    }
}

/// Where no action writes at `at`, there is no last write.
pub proof fn no_last_write(actions: Seq<IoView>, at: int)
    requires
        forall|i: int|
            0 <= i < actions.len() ==> match #[trigger] actions[i] {
                IoView::Write { offset, .. } => offset != at,
                _ => true,
            },
    ensures
        last_write(actions, at) is None,
    decreases actions.len(),
{
    if actions.len() > 0 {
        let a = actions[actions.len() - 1];
        assert forall|i: int| 0 <= i < actions.len() - 1 implies match
            #[trigger] actions.drop_last()[i] {
            IoView::Write { offset, .. } => offset != at,
            _ => true,
        } by {
            assert(actions.drop_last()[i] == actions[i]);
        }
        no_last_write(actions.drop_last(), at);
    }
}

/// What the last write of page `x` is after page `id` was written.
pub proof fn last_write_of_page(actions: Seq<IoView>, id: u32, size: int, c: Seq<u8>, x: u32)
    requires
        size > 0,
        page::FIRST_DATA_PAGE_ID <= id,
        page::FIRST_DATA_PAGE_ID <= x,
    ensures
        last_write(actions.push(page_write(id, size, c)), page_offset(x, size)) == (if x == id {
            Some(page::stamped(c))
        } else {
            last_write(actions, page_offset(x, size))
        }),
{
    assert(actions.push(page_write(id, size, c)).drop_last() =~= actions);
    if x < id {
        pages_apart(x, id, size);
    } else if id < x {
        pages_apart(id, x, size);
    }
}

} // verus!
