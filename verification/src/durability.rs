//! What the file holds while a database is in use, and what a crash leaves
//! of it.
//!
//! A commit writes only bytes that the committed state does not reach: pages
//! with ids that were not in use, and the meta slot that is not in force.
//! So, whatever part of a commit reaches the file, the state before it is
//! there until the new meta slot is, and then the new state is there.

use vstd::prelude::*;

use crate::btree;
use crate::btree::cursor;
use crate::btree::tree;
use crate::btree::tree::Pages;
use crate::buffer_pool;
use crate::buffer_pool::PoolView;
use crate::database;
use crate::disk;
use crate::disk::{IoAction, IoView};
use crate::page;
use crate::pager;
use crate::pager::MetaView;

verus! {

/// The actions that were handed out so far.
pub open spec fn handed(v: PoolView) -> Seq<IoView> {
    v.history.subrange(0, v.history.len() - v.outbox.len())
}

/// The file as it stands once what was handed out was performed on `base`.
pub open spec fn file_now(base: Seq<u8>, v: PoolView) -> Seq<u8> {
    disk::performed(base, handed(v))
}

/// The meta slot that is in force once what was handed out was performed,
/// and what it says.
pub open spec fn in_force(v: PoolView) -> (int, MetaView) {
    match v.pending {
        Some((root, count)) => (1 - v.active, pager::next_meta(v.meta, root, count)),
        None => (v.active, v.meta),
    }
}

/// Nothing is written, or waits to be, but pages that the committed state
/// does not reach.
pub open spec fn fresh_only(v: PoolView) -> bool {
    &&& forall|id: u32| #[trigger] v.dirty.contains(id) ==> v.meta.count <= id
    &&& forall|i: int|
        0 <= i < v.outbox.len() ==> buffer_pool::fresh_write(#[trigger] v.outbox[i], v)
}

/// The pages are those of the file `base` and those that were put.
pub open spec fn over_pages(base: Seq<u8>, v: PoolView, pages: Pages) -> bool {
    &&& base.len() >= page::META_REGION_LEN
    &&& buffer_pool::data_ids(v.log)
    &&& tree::extends(pages, v.log)
    &&& forall|id: u32| #[trigger]
        pages.contains_key(id) && !v.log.contains_key(id) ==> disk::holds_page(
            base,
            v.meta.size,
            id,
        ) && disk::pages_of(base, v.meta.size)[id] == pages[id]
}

/// The pool was made over the file `base`, and what was handed out since
/// then was performed: the database's pages are those of the file and those
/// that were put since then, and one of the file's meta slots says what the
/// pool has as its committed state.
pub open spec fn backed(base: Seq<u8>, v: PoolView, pages: Pages) -> bool {
    &&& buffer_pool::view_wf(v)
    &&& cursor::valid(v, pages)
    &&& page::FIRST_DATA_PAGE_ID <= v.meta.count
    &&& v.meta.root < v.meta.count
    &&& over_pages(base, v, pages)
    &&& fresh_only(v)
    &&& pager::slot_meta(disk::slot_of(file_now(base, v), in_force(v).0)) == Some(in_force(v).1)
}

/// The file is opened as what the pool has as its committed state: its other
/// meta slot holds no later state.
pub open spec fn reopens(base: Seq<u8>, v: PoolView) -> bool {
    pager::recovered_file(file_now(base, v)) == Some(in_force(v))
}

/// The pages with ids below `n`.
pub open spec fn pages_below(pages: Pages, n: u32) -> Pages {
    Map::new(|id: u32| pages.contains_key(id) && id < n, |id: u32| pages[id])
}

// ---- what actions do to the pages of a file ----

/// One permitted action leaves the pages of the file as they were, but for
/// the one that it writes.
proof fn action_effect(file: Seq<u8>, a: IoView, log: Pages, size: int)
    requires
        page::valid_page_size(size),
        file.len() >= page::META_REGION_LEN,
        buffer_pool::permitted(a, log, size),
        buffer_pool::data_ids(log),
    ensures
        disk::step(file, a).len() >= file.len(),
        forall|id: u32| #[trigger]
            disk::holds_page(file, size, id) && (match a {
                IoView::Write { offset, .. } => offset != disk::page_offset(id, size),
                _ => true,
            }) ==> disk::holds_page(disk::step(file, a), size, id) && disk::pages_of(
                disk::step(file, a),
                size,
            )[id] == disk::pages_of(file, size)[id],
{
    let after = disk::step(file, a);
    match a {
        IoView::Write { offset, bytes } => {
            if exists|id: u32, c: Seq<u8>|
                log.contains_key(id) && c.len() == size - page::CHECKSUM_LEN && a
                    == #[trigger] disk::page_write(id, size, c) {
                let (id, c) = choose|id: u32, c: Seq<u8>|
                    log.contains_key(id) && c.len() == size - page::CHECKSUM_LEN && a
                        == #[trigger] disk::page_write(id, size, c);
                disk::page_write_effect(file, size, id, c);
            } else {
                let slot: int = if offset == 0 {
                    0
                } else {
                    1
                };
                disk::slot_write_effect(file, size, slot, bytes);
                assert(after == disk::written(file, slot * page::META_SLOT_LEN, bytes));
                assert forall|id: u32| #[trigger]
                    disk::holds_page(file, size, id) implies disk::holds_page(after, size, id)
                    && disk::pages_of(after, size)[id] == disk::pages_of(file, size)[id] by {
                    assert(disk::pages_of(file, size).contains_key(id));
                    assert(disk::pages_of(after, size).contains_key(id));
                }
            }
        },
        _ => {},
    }
}

/// Permitted actions leave a page that was not put as it was, and make the
/// file hold one that was put as it was written last.
proof fn history_effect(base: Seq<u8>, hist: Seq<IoView>, log: Pages, size: int, id: u32)
    requires
        page::valid_page_size(size),
        base.len() >= page::META_REGION_LEN,
        forall|i: int|
            0 <= i < hist.len() ==> buffer_pool::permitted(#[trigger] hist[i], log, size),
        buffer_pool::data_ids(log),
    ensures
        ({
            let file = disk::performed(base, hist);
            &&& file.len() >= base.len()
            &&& disk::holds_page(base, size, id) && !log.contains_key(id) ==> disk::holds_page(
                file,
                size,
                id,
            ) && disk::pages_of(file, size)[id] == disk::pages_of(base, size)[id]
            &&& log.contains_key(id) && log[id].len() == size - page::CHECKSUM_LEN
                && disk::last_write(hist, disk::page_offset(id, size)) == Some(
                page::stamped(log[id]),
            ) ==> disk::holds_page(file, size, id) && disk::pages_of(file, size)[id] == log[id]
        }),
    decreases hist.len(),
{
    if hist.len() > 0 {
        let first = hist.drop_last();
        let a = hist.last();
        let file = disk::performed(base, first);
        let at = disk::page_offset(id, size);
        assert forall|i: int| 0 <= i < first.len() implies buffer_pool::permitted(
            #[trigger] first[i],
            log,
            size,
        ) by {
            assert(first[i] == hist[i]);
        }
        history_effect(base, first, log, size, id);
        assert(a == hist[hist.len() - 1]);
        action_effect(file, a, log, size);
        if log.contains_key(id) {
            if log[id].len() == size - page::CHECKSUM_LEN && disk::last_write(hist, at) == Some(
                page::stamped(log[id]),
            ) {
                if a == disk::page_write(id, size, log[id]) {
                    disk::page_write_effect(file, size, id, log[id]);
                } else {
                    assert(disk::last_write(first, at) == Some(page::stamped(log[id])));
                }
            }
        } else if disk::holds_page(base, size, id) {
            unwritten_elsewhere(a, log, size, id);
        }
    }
}

/// A permitted action does not write at a page that was not put.
proof fn unwritten_elsewhere(a: IoView, log: Pages, size: int, id: u32)
    requires
        size > 0,
        buffer_pool::permitted(a, log, size),
        buffer_pool::data_ids(log),
        page::FIRST_DATA_PAGE_ID <= id,
        !log.contains_key(id),
    ensures
        match a {
            IoView::Write { offset, .. } => offset != disk::page_offset(id, size),
            _ => true,
        },
{
    disk::page_behind_meta(id, size);
    if a is Write && exists|x: u32, c: Seq<u8>|
        log.contains_key(x) && c.len() == size - page::CHECKSUM_LEN && a
            == #[trigger] disk::page_write(x, size, c) {
        let (x, c) = choose|x: u32, c: Seq<u8>|
            log.contains_key(x) && c.len() == size - page::CHECKSUM_LEN && a
                == #[trigger] disk::page_write(x, size, c);
        if x < id {
            disk::pages_apart(x, id, size);
        } else {
            disk::pages_apart(id, x, size);
        }
    }
}

/// What the pages of the file are, once all actions so far were performed.
proof fn all_performed(base: Seq<u8>, v: PoolView, pages: Pages)
    requires
        buffer_pool::view_wf(v),
        over_pages(base, v, pages),
    ensures
        disk::performed(base, v.history).len() >= base.len(),
        forall|id: u32| #[trigger]
            pages.contains_key(id) && !v.dirty.contains(id) ==> disk::holds_page(
                disk::performed(base, v.history),
                v.meta.size,
                id,
            ) && disk::pages_of(disk::performed(base, v.history), v.meta.size)[id] == pages[id],
{
    let file = disk::performed(base, v.history);
    history_effect(base, v.history, v.log, v.meta.size, 0);
    assert forall|id: u32| #[trigger] pages.contains_key(id) && !v.dirty.contains(id) implies
        disk::holds_page(file, v.meta.size, id) && disk::pages_of(file, v.meta.size)[id]
        == pages[id] by {
        history_effect(base, v.history, v.log, v.meta.size, id);
        if v.log.contains_key(id) {
            assert(buffer_pool::written_as_put(v, id));
            assert(pages[id] == v.log[id]);
        } else {
            assert(disk::holds_page(base, v.meta.size, id));
        }
    }
}

// ---- opening ----

/// A pool with an empty cache over the state that a file's meta slots say,
/// with the pages that the file holds, is backed by that file. The pool may
/// go on with later page ids than the state's.
pub proof fn opened_pool_is_backed(
    file: Seq<u8>,
    active: int,
    meta: MetaView,
    capacity: nat,
    next_id: u32,
    pages: Pages,
)
    requires
        file.len() >= page::META_REGION_LEN,
        pager::recovered_file(file) == Some((active, meta)),
        capacity >= 1,
        page::FIRST_DATA_PAGE_ID <= meta.count <= next_id,
        forall|id: u32| #[trigger] pages.contains_key(id) ==> id < meta.count,
        tree::extends(disk::pages_of(file, meta.size), pages),
        tree::tree_ok(pages, meta.root, meta.size - page::CHECKSUM_LEN),
    ensures
        ({
            let v = PoolView { next_id, ..buffer_pool::fresh_view(meta, active, capacity) };
            &&& backed(file, v, pages)
            &&& reopens(file, v)
            &&& cursor::committed(v, pages) == tree::tree_entries(pages, meta.root)
            &&& file_now(file, v) == file
        }),
{
    let v = PoolView { next_id, ..buffer_pool::fresh_view(meta, active, capacity) };
    assert(handed(v) =~= Seq::<IoView>::empty());
    assert(v.outbox =~= v.history.subrange(0, 0));
    assert(buffer_pool::view_wf(v));
    assert forall|id: u32| #[trigger]
        pages.contains_key(id) && !v.log.contains_key(id) implies disk::holds_page(
        file,
        v.meta.size,
        id,
    ) && disk::pages_of(file, v.meta.size)[id] == pages[id] by {
        assert(disk::pages_of(file, v.meta.size).contains_key(id));
    }
}

/// A fresh database is backed by the file that its actions make, and has no
/// rows.
pub proof fn created_database_is_empty(size: int, capacity: nat)
    requires
        page::valid_page_size(size),
        capacity >= 1,
    ensures
        ({
            let meta = pager::fresh_meta(size);
            let file = disk::performed(Seq::empty(), pager::create_actions(meta));
            let v = buffer_pool::fresh_view(meta, 0, capacity);
            let pages: Pages = Map::empty();
            &&& backed(file, v, pages)
            &&& reopens(file, v)
            &&& file_now(file, v) == file
            &&& cursor::committed(v, pages) == Seq::<tree::Entry>::empty()
        }),
{
    let meta = pager::fresh_meta(size);
    let file = disk::performed(Seq::empty(), pager::create_actions(meta));
    pager::created_file_opens(size);
    opened_pool_is_backed(file, 0, meta, capacity, meta.count, Map::empty());
}

// ---- operations ----

/// Putting pages leaves nothing to be written but pages that the committed
/// state does not reach.
proof fn extended_is_fresh(v: PoolView, w: PoolView)
    requires
        buffer_pool::view_wf(v),
        fresh_only(v),
        buffer_pool::extended(v, w),
        buffer_pool::view_wf(w),
    ensures
        fresh_only(w),
        handed(w) == handed(v),
{
    let h = v.history.len() - v.outbox.len();
    assert(handed(w) =~= handed(v)) by {
        assert forall|i: int| 0 <= i < h implies w.history[i] == v.history[i] by {
            assert(w.history.subrange(0, v.history.len() as int)[i] == v.history[i]);
        }
    }
    assert forall|i: int| 0 <= i < w.outbox.len() implies buffer_pool::fresh_write(
        #[trigger] w.outbox[i],
        w,
    ) by {
        assert(w.outbox[i] == w.history[h + i]);
        if i < v.outbox.len() {
            assert(w.history.subrange(0, v.history.len() as int)[h + i] == v.history[h + i]);
            assert(v.outbox[i] == v.history[h + i]);
            assert(buffer_pool::fresh_write(v.outbox[i], v));
            let id = choose|id: u32| #[trigger]
                v.log.contains_key(id) && v.meta.count <= id && v.outbox[i] == disk::page_write(
                    id,
                    v.meta.size,
                    v.log[id],
                );
            assert(w.log.contains_key(id));
        } else {
            assert(buffer_pool::written_since(w.history[h + i], v, w));
            let id = choose|id: u32| #[trigger]
                w.log.contains_key(id) && (v.dirty.contains(id) || v.next_id <= id)
                    && w.history[h + i] == disk::page_write(id, w.meta.size, w.log[id]);
            assert(w.log.contains_key(id));
        }
    }
    assert forall|id: u32| #[trigger] w.dirty.contains(id) implies w.meta.count <= id by {
        if v.dirty.contains(id) {
        }
    }
}

/// Putting pages keeps the backing, and hands nothing out.
proof fn extended_keeps_backing(base: Seq<u8>, v: PoolView, w: PoolView, pages: Pages)
    requires
        backed(base, v, pages),
        buffer_pool::extended(v, w),
        buffer_pool::view_wf(w),
        buffer_pool::sees(w, buffer_pool::with_log(pages, w)),
    ensures
        backed(base, w, buffer_pool::with_log(pages, w)),
        handed(w) == handed(v),
        file_now(base, w) == file_now(base, v),
        cursor::committed(w, buffer_pool::with_log(pages, w)) == cursor::committed(v, pages),
{
    let all = buffer_pool::with_log(pages, w);
    buffer_pool::extended_pages(v, w, pages);
    tree::tree_grows(pages, all, v.meta.root, btree::usable(v));
    extended_is_fresh(v, w);
    assert forall|id: u32| #[trigger] w.log.contains_key(id) implies page::FIRST_DATA_PAGE_ID
        <= id by {
        if v.log.contains_key(id) {
        }
    }
    assert forall|id: u32| #[trigger]
        all.contains_key(id) && !w.log.contains_key(id) implies disk::holds_page(
        base,
        w.meta.size,
        id,
    ) && disk::pages_of(base, w.meta.size)[id] == all[id] by {
        assert(pages.contains_key(id));
        if v.log.contains_key(id) {
            assert(w.log.contains_key(id));
        }
    }
}

/// An operation that hands out no commit leaves the file alone and the
/// database backed by it.
pub proof fn step_keeps_backing<T>(
    base: Seq<u8>,
    v: PoolView,
    w: PoolView,
    pages: Pages,
    r: Result<database::Progress<T>, crate::error::PinaxError>,
)
    requires
        backed(base, v, pages),
        v.pending is None,
        database::stepped(v, w, r),
        buffer_pool::view_wf(w),
        buffer_pool::sees(w, buffer_pool::with_log(pages, w)),
        !(r matches Ok(database::Progress::Commit { .. })),
    ensures
        backed(base, w, buffer_pool::with_log(pages, w)),
        file_now(base, w) == file_now(base, v),
        cursor::committed(w, buffer_pool::with_log(pages, w)) == cursor::committed(v, pages),
{
    assert(buffer_pool::extended(v, w)) by {
        if cursor::looked(v, w) {
            assert(w.history.subrange(0, v.history.len() as int) =~= v.history);
        }
    }
    extended_keeps_backing(base, v, w, pages);
}

/// A page that was supplied as the file holds it leaves the database backed
/// by the file.
pub proof fn supply_keeps_backing(
    base: Seq<u8>,
    v: PoolView,
    id: u32,
    bytes: Seq<u8>,
    pages: Pages,
)
    requires
        backed(base, v, pages),
        !v.cache.contains_key(id),
        bytes.len() == v.meta.size,
        pages.contains_key(id),
        pages[id] == page::body(bytes),
        buffer_pool::view_wf(buffer_pool::with_page(v, id, bytes)),
    ensures
        backed(base, buffer_pool::with_page(v, id, bytes), pages),
        file_now(base, buffer_pool::with_page(v, id, bytes)) == file_now(base, v),
        cursor::committed(buffer_pool::with_page(v, id, bytes), pages) == cursor::committed(
            v,
            pages,
        ),
{
    let w = buffer_pool::with_page(v, id, bytes);
    assert(!v.order.contains(id));
    let u = PoolView { order: buffer_pool::without(v.order, id), cache: v.cache.remove(id), ..v };
    assert(handed(w) =~= handed(v));
    assert forall|x: u32| #[trigger]
        w.cache.contains_key(x) && pages.contains_key(x) implies page::body(w.cache[x])
        == pages[x] by {
        if x != id {
            assert(v.cache.contains_key(x));
        }
    }
    assert(buffer_pool::sees(w, pages));
    assert forall|i: int| 0 <= i < w.outbox.len() implies buffer_pool::fresh_write(
        #[trigger] w.outbox[i],
        w,
    ) by {
        if i < v.outbox.len() {
            assert(w.outbox[i] == v.outbox[i]);
            assert(buffer_pool::fresh_write(v.outbox[i], v));
        } else {
            let x = u.order[0];
            assert(v.dirty.contains(x));
            assert(v.log.contains_key(x));
            assert(w.outbox[i] == disk::page_write(x, v.meta.size, page::body(v.cache[x])));
        }
    }
}

/// A page that an operation asks for is in the file: its bytes there have a
/// checksum that verifies, and are what the operation needs.
pub proof fn asked_page_is_in_the_file(base: Seq<u8>, v: PoolView, pages: Pages, page_id: u32)
    requires
        backed(base, v, pages),
        database::reads_committed(v, pages, page_id),
    ensures
        ({
            let at = disk::page_offset(page_id, v.meta.size);
            let bytes = disk::page_bytes(file_now(base, v), v.meta.size, page_id);
            &&& at + v.meta.size <= file_now(base, v).len()
            &&& bytes.len() == v.meta.size
            &&& page::checksum_ok(bytes)
            &&& page::body(bytes) == pages[page_id]
        }),
{
    committed_pages_held(base, v, pages);
    assert(disk::holds_page(file_now(base, v), v.meta.size, page_id));
    disk::page_behind_meta(page_id, v.meta.size);
    assert(disk::pages_of(file_now(base, v), v.meta.size).contains_key(page_id));
}

// ---- commits ----

/// Page writes and syncs leave the meta slots as they were.
proof fn slots_kept(file: Seq<u8>, actions: Seq<IoView>, v: PoolView)
    requires
        page::valid_page_size(v.meta.size),
        file.len() >= page::META_REGION_LEN,
        forall|id: u32| #[trigger]
            v.log.contains_key(id) ==> page::FIRST_DATA_PAGE_ID <= id && v.log[id].len()
                == v.meta.size - page::CHECKSUM_LEN,
        forall|i: int|
            0 <= i < actions.len() ==> actions[i] is SyncData || buffer_pool::fresh_write(
                #[trigger] actions[i],
                v,
            ),
    ensures
        disk::performed(file, actions).len() >= file.len(),
        disk::slot_of(disk::performed(file, actions), 0) == disk::slot_of(file, 0),
        disk::slot_of(disk::performed(file, actions), 1) == disk::slot_of(file, 1),
    decreases actions.len(),
{
    if actions.len() > 0 {
        let first = actions.drop_last();
        let a = actions.last();
        assert forall|i: int| 0 <= i < first.len() implies first[i] is SyncData
            || buffer_pool::fresh_write(#[trigger] first[i], v) by {
            assert(first[i] == actions[i]);
        }
        slots_kept(file, first, v);
        let middle = disk::performed(file, first);
        assert(a == actions[actions.len() - 1]);
        if buffer_pool::fresh_write(a, v) {
            let id = choose|id: u32| #[trigger]
                v.log.contains_key(id) && v.meta.count <= id && a == disk::page_write(
                    id,
                    v.meta.size,
                    v.log[id],
                );
            disk::page_write_effect(middle, v.meta.size, id, v.log[id]);
        }
    }
}

/// The data part of a commit: what was not handed out yet, and the writes of
/// the dirty pages.
pub open spec fn data_actions(m: PoolView) -> Seq<IoView> {
    m.outbox + buffer_pool::writes_of(m.order, m).push(IoView::SyncData)
}

/// The data part of a commit writes pages that the committed state does not
/// reach, and syncs.
proof fn data_actions_are_fresh(m: PoolView)
    requires
        buffer_pool::view_wf(m),
        fresh_only(m),
    ensures
        forall|i: int|
            0 <= i < data_actions(m).len() ==> data_actions(m)[i] is SyncData
                || buffer_pool::fresh_write(#[trigger] data_actions(m)[i], m),
{
    let writes = buffer_pool::writes_of(m.order, m);
    let data = data_actions(m);
    buffer_pool::writes_of_facts(m.order, m);
    assert forall|i: int| 0 <= i < data.len() implies data[i] is SyncData
        || buffer_pool::fresh_write(#[trigger] data[i], m) by {
        let j = i - m.outbox.len();
        if j < 0 {
            assert(data[i] == m.outbox[i]);
        } else if j < writes.len() {
            assert(data[i] == writes[j]);
            let id = choose|id: u32| #[trigger]
                m.dirty.contains(id) && writes[j] == disk::page_write(id, m.meta.size, m.log[id]);
            assert(m.log.contains_key(id));
        }
    }
}

/// What was handed out, once a commit was handed out.
proof fn commit_history(v: PoolView, m: PoolView, w: PoolView, root: u32)
    requires
        buffer_pool::view_wf(m),
        handed(m) == handed(v),
        w == (PoolView { outbox: Seq::empty(), ..buffer_pool::committing(m, root) }),
    ensures
        handed(w) == handed(v) + buffer_pool::committing(m, root).outbox,
        buffer_pool::committing(m, root).outbox == data_actions(m) + pager::commit_actions(
            m.meta,
            m.active,
            root,
            m.next_id,
        ),
{
    let c = buffer_pool::committing(m, root);
    assert(c.outbox =~= data_actions(m) + pager::commit_actions(
        m.meta,
        m.active,
        root,
        m.next_id,
    ));
    assert(m.history =~= handed(m) + m.outbox);
    assert(handed(w) =~= handed(v) + c.outbox);
}

/// What the pool sees once a commit was handed out, it saw before.
proof fn sees_before_commit(m: PoolView, w: PoolView, root: u32, pages: Pages)
    requires
        w == (PoolView { outbox: Seq::empty(), ..buffer_pool::committing(m, root) }),
        buffer_pool::sees(w, pages),
    ensures
        buffer_pool::sees(m, pages),
{
    let c = buffer_pool::committing(m, root);
    assert forall|x: u32| #[trigger]
        c.cache.contains_key(x) && pages.contains_key(x) implies page::body(c.cache[x])
        == pages[x] by {
        assert(w.cache.contains_key(x));
    }
    assert forall|x: u32| #[trigger] c.log.contains_key(x) implies pages.contains_key(x)
        && pages[x] == c.log[x] by {
        assert(w.log.contains_key(x));
    }
    buffer_pool::committing_saw(m, root, pages);
}

/// Once the actions of a commit were performed, the file holds the new
/// state: its meta slot in force, the other one, names the new root, all
/// pages of the new tree are in the file, and the database, told of it, is
/// backed by the file with the new tree as its committed one.
pub proof fn commit_is_durable(
    base: Seq<u8>,
    v: PoolView,
    w: PoolView,
    pages: Pages,
    actions: Seq<IoAction>,
    es: Seq<tree::Entry>,
)
    requires
        backed(base, v, pages),
        v.pending is None,
        w.pending is Some,
        database::hands_out(v, w, actions, (w.pending->0).0),
        buffer_pool::view_wf(w),
        database::pending_ok(w),
        buffer_pool::sees(w, buffer_pool::with_log(pages, w)),
        database::will_be(w, pages, es),
    ensures
        ({
            let after = disk::performed(file_now(base, v), disk::io_views(actions));
            let all = buffer_pool::with_log(pages, w);
            let root = (w.pending->0).0;
            let done = database::commit_performed(w);
            &&& after == file_now(base, w)
            &&& after.len() >= page::META_REGION_LEN
            &&& pager::recovered_file(after) == Some(
                (1 - v.active, pager::next_meta(v.meta, root, w.next_id)),
            )
            &&& tree::extends(disk::pages_of(after, v.meta.size), all)
            &&& tree::tree_ok(disk::pages_of(after, v.meta.size), root, btree::usable(v))
            &&& tree::tree_entries(disk::pages_of(after, v.meta.size), root) == es
            &&& backed(base, done, all)
            &&& reopens(base, done)
            &&& file_now(base, done) == after
            &&& cursor::committed(done, all) == es
        }),
{
    reveal(database::hands_out);
    let root = (w.pending->0).0;
    let m = choose|m: PoolView|
        {
            &&& #[trigger] buffer_pool::extended(v, m)
            &&& buffer_pool::view_wf(m)
            &&& disk::io_views(actions) == buffer_pool::committing(m, root).outbox
            &&& w == (PoolView { outbox: Seq::empty(), ..buffer_pool::committing(m, root) })
        };
    let all = buffer_pool::with_log(pages, w);
    assert(all == buffer_pool::with_log(pages, m));
    sees_before_commit(m, w, root, all);
    extended_keeps_backing(base, v, m, pages);
    commit_history(v, m, w, root);
    let file = file_now(base, v);
    let data = data_actions(m);
    let middle = disk::performed(file, data);
    let last = pager::commit_actions(m.meta, m.active, root, m.next_id);
    let after = disk::performed(file, disk::io_views(actions));
    disk::performed_concat(base, handed(v), disk::io_views(actions));
    disk::performed_concat(file, data, last);
    data_actions_are_fresh(m);
    handed_len(base, v, pages);
    slots_kept(file, data, m);
    pager::committed_file_opens(middle, m.active, m.meta, root, m.next_id);
    pager::meta_slot_round_trip(pager::next_meta(m.meta, root, m.next_id));
    assert(backed(base, w, all));
    all_performed(base, w, all);
    assert(handed(w) =~= w.history);
    assert forall|id: u32| #[trigger] all.contains_key(id) implies disk::pages_of(
        after,
        v.meta.size,
    ).contains_key(id) && disk::pages_of(after, v.meta.size)[id] == all[id] by {
        assert(!w.dirty.contains(id));
    }
    tree::tree_grows(all, disk::pages_of(after, v.meta.size), root, btree::usable(v));
    let done = database::commit_performed(w);
    assert(buffer_pool::view_wf(done));
    assert(buffer_pool::sees(done, all)) by {
        assert forall|x: u32| #[trigger]
            done.cache.contains_key(x) && all.contains_key(x) implies page::body(done.cache[x])
            == all[x] by {
            assert(w.cache.contains_key(x));
        }
    }
    assert(handed(done) == handed(w));
}

/// The file does not get shorter.
proof fn handed_len(base: Seq<u8>, v: PoolView, pages: Pages)
    requires
        backed(base, v, pages),
    ensures
        file_now(base, v).len() >= base.len(),
{
    assert forall|i: int| 0 <= i < handed(v).len() implies buffer_pool::permitted(
        #[trigger] handed(v)[i],
        v.log,
        v.meta.size,
    ) by {
        assert(handed(v)[i] == v.history[i]);
    }
    history_effect(base, handed(v), v.log, v.meta.size, 0);
}

// ---- crashes ----

/// Byte `i` of the file belongs to the committed state: to the meta slot in
/// force, or to a page with an id that was in use at the last commit.
pub open spec fn committed_byte(active: int, meta: MetaView, i: int) -> bool {
    ||| active * page::META_SLOT_LEN <= i < (active + 1) * page::META_SLOT_LEN
    ||| page::META_REGION_LEN <= i < disk::page_offset(meta.count, meta.size)
}

/// The action writes no byte of the committed state.
pub open spec fn spares(a: IoView, active: int, meta: MetaView) -> bool {
    match a {
        IoView::Write { offset, bytes } => forall|i: int|
            offset <= i < offset + bytes.len() ==> !#[trigger] committed_byte(active, meta, i),
        _ => true,
    }
}

/// The bytes of the committed state are in `g` as they are in `file`.
pub open spec fn spared(file: Seq<u8>, g: Seq<u8>, v: PoolView) -> bool {
    &&& g.len() >= page::META_REGION_LEN
    &&& forall|i: int|
        0 <= i < file.len() && #[trigger] committed_byte(v.active, v.meta, i) ==> i < g.len()
            && g[i] == file[i]
}

/// `g` is what a crash may leave of `file`: the bytes of the committed state
/// are there, and the other meta slot is as it was, or not usable. All other
/// bytes are what they may be.
pub open spec fn crashed(file: Seq<u8>, g: Seq<u8>, v: PoolView) -> bool {
    &&& spared(file, g, v)
    &&& pager::slot_meta(disk::slot_of(g, 1 - v.active)) is None || disk::slot_of(g, 1 - v.active)
        == disk::slot_of(file, 1 - v.active)
}

/// A page that no committed state reaches shares no byte with one.
proof fn fresh_write_spares(a: IoView, v: PoolView)
    requires
        page::valid_page_size(v.meta.size),
        v.active == 0 || v.active == 1,
        page::FIRST_DATA_PAGE_ID <= v.meta.count,
        buffer_pool::fresh_write(a, v),
    ensures
        spares(a, v.active, v.meta),
{
    let id = choose|id: u32| #[trigger]
        v.log.contains_key(id) && v.meta.count <= id && a == disk::page_write(
            id,
            v.meta.size,
            v.log[id],
        );
    disk::page_behind_meta(id, v.meta.size);
    if v.meta.count < id {
        disk::pages_apart(v.meta.count, id, v.meta.size);
    }
}

/// The data part of a commit writes no byte of the committed state.
proof fn data_spares(m: PoolView)
    requires
        buffer_pool::view_wf(m),
        fresh_only(m),
        page::FIRST_DATA_PAGE_ID <= m.meta.count,
    ensures
        forall|k: int|
            0 <= k < data_actions(m).len() ==> spares(
                #[trigger] data_actions(m)[k],
                m.active,
                m.meta,
            ),
{
    data_actions_are_fresh(m);
    let data = data_actions(m);
    assert forall|k: int| 0 <= k < data.len() implies spares(
        #[trigger] data[k],
        m.active,
        m.meta,
    ) by {
        if buffer_pool::fresh_write(data[k], m) {
            fresh_write_spares(data[k], m);
        }
    }
}

/// The meta part of a commit writes no byte of the committed state.
proof fn slot_spares(m: PoolView, root: u32)
    requires
        page::valid_page_size(m.meta.size),
        m.active == 0 || m.active == 1,
    ensures
        forall|k: int|
            0 <= k < pager::commit_actions(m.meta, m.active, root, m.next_id).len() ==> spares(
                #[trigger] pager::commit_actions(m.meta, m.active, root, m.next_id)[k],
                m.active,
                m.meta,
            ),
{
    let last = pager::commit_actions(m.meta, m.active, root, m.next_id);
    let next = pager::next_meta(m.meta, root, m.next_id);
    pager::meta_slot_round_trip(next);
    assert(spares(pager::slot_write(1 - m.active, next), m.active, m.meta));
    assert forall|k: int| 0 <= k < last.len() implies spares(
        #[trigger] last[k],
        m.active,
        m.meta,
    ) by {
        assert(k == 0 || k == 1 || k == 2);
    }
}

/// No action of a commit writes a byte of the committed state. So, whatever
/// part of the actions reaches the file, in whatever order, it leaves the
/// bytes of the committed state as they are.
pub proof fn commit_spares_committed_state(
    base: Seq<u8>,
    v: PoolView,
    w: PoolView,
    pages: Pages,
    actions: Seq<IoAction>,
)
    requires
        backed(base, v, pages),
        w.pending is Some,
        database::hands_out(v, w, actions, (w.pending->0).0),
    ensures
        forall|k: int| 0 <= k < actions.len() ==> spares(
            (#[trigger] actions[k])@,
            v.active,
            v.meta,
        ),
{
    reveal(database::hands_out);
    let root = (w.pending->0).0;
    let m = choose|m: PoolView|
        {
            &&& #[trigger] buffer_pool::extended(v, m)
            &&& buffer_pool::view_wf(m)
            &&& disk::io_views(actions) == buffer_pool::committing(m, root).outbox
            &&& w == (PoolView { outbox: Seq::empty(), ..buffer_pool::committing(m, root) })
        };
    extended_is_fresh(v, m);
    commit_history(v, m, w, root);
    data_spares(m);
    slot_spares(m, root);
    let data = data_actions(m);
    let last = pager::commit_actions(m.meta, m.active, root, m.next_id);
    assert forall|k: int| 0 <= k < actions.len() implies spares(
        (#[trigger] actions[k])@,
        v.active,
        v.meta,
    ) by {
        assert(disk::io_views(actions)[k] == actions[k]@);
        if k < data.len() {
            assert(actions[k]@ == data[k]);
        } else {
            assert(actions[k]@ == last[k - data.len()]);
        }
    }
}

/// The file holds the pages of the committed state.
proof fn committed_pages_held(base: Seq<u8>, v: PoolView, pages: Pages)
    requires
        backed(base, v, pages),
    ensures
        forall|id: u32| #[trigger]
            pages.contains_key(id) && id < v.meta.count ==> disk::holds_page(
                file_now(base, v),
                v.meta.size,
                id,
            ) && disk::pages_of(file_now(base, v), v.meta.size)[id] == pages[id],
{
    let size = v.meta.size;
    let done = handed(v);
    let file = file_now(base, v);
    assert forall|i: int| 0 <= i < done.len() implies buffer_pool::permitted(
        #[trigger] done[i],
        v.log,
        size,
    ) by {
        assert(done[i] == v.history[i]);
    }
    assert forall|id: u32| #[trigger] pages.contains_key(id) && id < v.meta.count implies
        disk::holds_page(file, size, id) && disk::pages_of(file, size)[id] == pages[id] by {
        history_effect(base, done, v.log, size, id);
        if v.log.contains_key(id) {
            let at = disk::page_offset(id, size);
            assert(!v.dirty.contains(id));
            assert(buffer_pool::written_as_put(v, id));
            assert forall|k: int| 0 <= k < v.outbox.len() implies match #[trigger] v.outbox[k] {
                IoView::Write { offset, .. } => offset != at,
                _ => true,
            } by {
                assert(buffer_pool::fresh_write(v.outbox[k], v));
                let other = choose|other: u32| #[trigger]
                    v.log.contains_key(other) && v.meta.count <= other && v.outbox[k]
                        == disk::page_write(other, size, v.log[other]);
                disk::pages_apart(id, other, size);
            }
            disk::no_last_write(v.outbox, at);
            disk::last_write_concat(done, v.outbox, at);
            assert(v.history =~= done + v.outbox);
        } else {
            assert(disk::holds_page(base, size, id));
        }
    }
}

/// A file with the bytes of the committed state holds that state: its meta
/// slot, its pages, and all its rows.
pub proof fn spared_state_is_whole(base: Seq<u8>, v: PoolView, pages: Pages, g: Seq<u8>)
    requires
        backed(base, v, pages),
        v.pending is None,
        spared(file_now(base, v), g, v),
    ensures
        pager::slot_meta(disk::slot_of(g, v.active)) == Some(v.meta),
        disk::slot_of(g, v.active) == disk::slot_of(file_now(base, v), v.active),
        tree::extends(disk::pages_of(g, v.meta.size), pages_below(pages, v.meta.count)),
        tree::tree_ok(disk::pages_of(g, v.meta.size), v.meta.root, btree::usable(v)),
        tree::tree_entries(disk::pages_of(g, v.meta.size), v.meta.root) == cursor::committed(
            v,
            pages,
        ),
{
    let size = v.meta.size;
    let file = file_now(base, v);
    let kept = pages_below(pages, v.meta.count);
    handed_len(base, v, pages);
    assert(disk::slot_of(g, v.active) =~= disk::slot_of(file, v.active)) by {
        assert forall|i: int| 0 <= i < page::META_SLOT_LEN implies disk::slot_of(g, v.active)[i]
            == disk::slot_of(file, v.active)[i] by {
            assert(committed_byte(v.active, v.meta, v.active * page::META_SLOT_LEN + i));
        }
    }
    committed_pages_held(base, v, pages);
    assert forall|id: u32| #[trigger] kept.contains_key(id) implies disk::pages_of(
        g,
        size,
    ).contains_key(id) && disk::pages_of(g, size)[id] == kept[id] by {
        assert(pages.contains_key(id));
        let at = disk::page_offset(id, size);
        disk::pages_apart(id, v.meta.count, size);
        assert forall|i: int| at <= i < at + size implies i < g.len() && #[trigger] g[i]
            == file[i] by {
            assert(committed_byte(v.active, v.meta, i));
        }
        assert(committed_byte(v.active, v.meta, at + size - 1));
        assert(disk::page_bytes(g, size, id) =~= disk::page_bytes(file, size, id));
    }
    assert(tree::extends_below(disk::pages_of(g, size), pages, v.meta.root + 1)) by {
        assert forall|id: u32| #[trigger] pages.contains_key(id) && id < v.meta.root + 1 implies
            disk::pages_of(g, size).contains_key(id) && disk::pages_of(g, size)[id]
            == pages[id] by {
            assert(kept.contains_key(id));
        }
    }
    tree::tree_grows(pages, disk::pages_of(g, size), v.meta.root, btree::usable(v));
}

/// Whatever a crash leaves of the file, as long as the new meta slot is not
/// in it, the committed state is in force, with all its rows.
pub proof fn crash_keeps_committed_state(base: Seq<u8>, v: PoolView, pages: Pages, g: Seq<u8>)
    requires
        backed(base, v, pages),
        reopens(base, v),
        v.pending is None,
        crashed(file_now(base, v), g, v),
    ensures
        pager::recovered_file(g) == Some((v.active, v.meta)),
        tree::extends(disk::pages_of(g, v.meta.size), pages_below(pages, v.meta.count)),
        tree::tree_ok(disk::pages_of(g, v.meta.size), v.meta.root, btree::usable(v)),
        tree::tree_entries(disk::pages_of(g, v.meta.size), v.meta.root) == cursor::committed(
            v,
            pages,
        ),
{
    spared_state_is_whole(base, v, pages, g);
}

/// After a commit that could not be performed, whatever it left of the file
/// besides the bytes of the committed state, the database goes on from the
/// state before, backed by the file as it is. That holds even where the meta
/// slot of the commit reached the file.
pub proof fn failed_commit_goes_on(
    base: Seq<u8>,
    v: PoolView,
    w: PoolView,
    pages: Pages,
    g: Seq<u8>,
    actions: Seq<IoAction>,
    performed: nat,
)
    requires
        backed(base, v, pages),
        v.pending is None,
        w.pending is Some,
        database::hands_out(v, w, actions, (w.pending->0).0),
        buffer_pool::view_wf(w),
        buffer_pool::sees(w, buffer_pool::with_log(pages, w)),
        spared(file_now(base, v), g, v),
    ensures
        ({
            let after = buffer_pool::failed(w, performed);
            let all = buffer_pool::with_log(pages_below(pages, v.meta.count), after);
            &&& backed(g, after, all)
            &&& file_now(g, after) == g
            &&& cursor::committed(after, all) == cursor::committed(v, pages)
        }),
{
    reveal(database::hands_out);
    let root = (w.pending->0).0;
    let m = choose|m: PoolView|
        {
            &&& #[trigger] buffer_pool::extended(v, m)
            &&& buffer_pool::view_wf(m)
            &&& disk::io_views(actions) == buffer_pool::committing(m, root).outbox
            &&& w == (PoolView { outbox: Seq::empty(), ..buffer_pool::committing(m, root) })
        };
    let after = buffer_pool::failed(w, performed);
    let kept = pages_below(pages, v.meta.count);
    let all = buffer_pool::with_log(kept, after);
    let done = buffer_pool::pages_done(w, performed);
    let left = w.flushing.skip(done);
    spared_state_is_whole(base, v, pages, g);
    buffer_pool::failed_wf(w, performed);
    buffer_pool::dirty_among_facts(m.order, m.dirty);
    extended_is_fresh(v, m);
    assert forall|id: u32| #[trigger] after.log.contains_key(id) implies v.meta.count <= id by {
        assert(left.contains(id));
        let i = left.index_of(id);
        assert(w.flushing[done + i] == id);
        assert(m.dirty.contains(id));
    }
    assert forall|id: u32| #[trigger] kept.contains_key(id) implies all.contains_key(id)
        && all[id] == kept[id] by {
        assert(!after.log.contains_key(id));
    }
    buffer_pool::extended_pages(v, m, pages);
    assert(buffer_pool::sees(after, all)) by {
        assert forall|x: u32| #[trigger]
            after.cache.contains_key(x) && all.contains_key(x) implies page::body(after.cache[x])
            == all[x] by {
            assert(w.cache.contains_key(x));
            if !after.log.contains_key(x) {
                assert(kept.contains_key(x));
                assert(pages.contains_key(x));
                assert(buffer_pool::with_log(pages, w).contains_key(x));
            }
        }
    }
    assert(tree::extends_below(all, pages, v.meta.root + 1)) by {
        assert forall|id: u32| #[trigger] pages.contains_key(id) && id < v.meta.root + 1 implies
            all.contains_key(id) && all[id] == pages[id] by {
            assert(kept.contains_key(id));
        }
    }
    tree::tree_grows(pages, all, v.meta.root, btree::usable(v));
    assert(handed(after) =~= Seq::<IoView>::empty());
    assert forall|id: u32| #[trigger]
        all.contains_key(id) && !after.log.contains_key(id) implies disk::holds_page(
        g,
        v.meta.size,
        id,
    ) && disk::pages_of(g, v.meta.size)[id] == all[id] by {
        assert(kept.contains_key(id));
        assert(disk::pages_of(g, v.meta.size).contains_key(id));
    }
    assert forall|id: u32| #[trigger] after.dirty.contains(id) implies v.meta.count <= id by {
        assert(after.log.contains_key(id));
    }
}

// ---- crashes in the midst of a commit ----

/// The action writes byte `i`.
pub open spec fn touches(a: IoView, i: int) -> bool {
    match a {
        IoView::Write { offset, bytes } => offset <= i < offset + bytes.len(),
        _ => false,
    }
}

/// `g` is what may be left of `file` while the writes of `group` are being
/// performed: a byte that they write may be anything, and so may what is
/// behind the end of the file; all other bytes are as they were.
pub open spec fn left_of(file: Seq<u8>, group: Seq<IoView>, g: Seq<u8>) -> bool {
    &&& g.len() >= file.len()
    &&& forall|i: int|
        0 <= i < file.len() && (forall|k: int|
            0 <= k < group.len() ==> !touches(#[trigger] group[k], i)) ==> #[trigger] g[i]
            == file[i]
}

/// `g` is what a crash may leave of `file` when the first `n` actions were
/// performed, up to a sync, and the writes from there to the next sync, or
/// some of them, up to `m`, were in progress.
pub open spec fn crash_at(
    file: Seq<u8>,
    actions: Seq<IoView>,
    n: int,
    m: int,
    g: Seq<u8>,
) -> bool {
    &&& 0 <= n <= m <= actions.len()
    &&& n == 0 || actions[n - 1] !is Write
    &&& forall|k: int| n <= k < m ==> (#[trigger] actions[k]) is Write
    &&& left_of(disk::performed(file, actions.take(n)), actions.subrange(n, m), g)
}

/// Actions that spare the committed state leave its bytes as they are.
proof fn performed_spares(file: Seq<u8>, actions: Seq<IoView>, active: int, meta: MetaView)
    requires
        forall|k: int| 0 <= k < actions.len() ==> spares(#[trigger] actions[k], active, meta),
    ensures
        disk::performed(file, actions).len() >= file.len(),
        forall|i: int|
            0 <= i < file.len() && #[trigger] committed_byte(active, meta, i) ==> disk::performed(
                file,
                actions,
            )[i] == file[i],
    decreases actions.len(),
{
    if actions.len() > 0 {
        let first = actions.drop_last();
        assert forall|k: int| 0 <= k < first.len() implies spares(
            #[trigger] first[k],
            active,
            meta,
        ) by {
            assert(first[k] == actions[k]);
        }
        performed_spares(file, first, active, meta);
        assert(spares(actions[actions.len() - 1], active, meta));
    }
}

/// A crash while actions that spare the committed state are performed leaves
/// the bytes of that state.
proof fn crash_spares(
    file: Seq<u8>,
    actions: Seq<IoView>,
    n: int,
    m: int,
    g: Seq<u8>,
    v: PoolView,
)
    requires
        file.len() >= page::META_REGION_LEN,
        crash_at(file, actions, n, m, g),
        forall|k: int| 0 <= k < actions.len() ==> spares(#[trigger] actions[k], v.active, v.meta),
    ensures
        spared(file, g, v),
{
    let first = actions.take(n);
    let group = actions.subrange(n, m);
    let h = disk::performed(file, first);
    assert forall|k: int| 0 <= k < first.len() implies spares(
        #[trigger] first[k],
        v.active,
        v.meta,
    ) by {
        assert(first[k] == actions[k]);
    }
    performed_spares(file, first, v.active, v.meta);
    assert forall|i: int|
        0 <= i < file.len() && #[trigger] committed_byte(v.active, v.meta, i) implies i < g.len()
        && g[i] == file[i] by {
        assert forall|k: int| 0 <= k < group.len() implies !touches(#[trigger] group[k], i) by {
            assert(group[k] == actions[n + k]);
            assert(spares(actions[n + k], v.active, v.meta));
        }
        assert(g[i] == h[i]);
    }
}

/// A crash before the data of a commit is synced leaves the meta slots as
/// they were.
proof fn crash_in_data(
    file: Seq<u8>,
    data: Seq<IoView>,
    n: int,
    m: int,
    g: Seq<u8>,
    v: PoolView,
    slot: int,
)
    requires
        page::valid_page_size(v.meta.size),
        file.len() >= page::META_REGION_LEN,
        slot == 0 || slot == 1,
        forall|id: u32| #[trigger]
            v.log.contains_key(id) ==> page::FIRST_DATA_PAGE_ID <= id && v.log[id].len()
                == v.meta.size - page::CHECKSUM_LEN,
        forall|i: int|
            0 <= i < data.len() ==> data[i] is SyncData || buffer_pool::fresh_write(
                #[trigger] data[i],
                v,
            ),
        crash_at(file, data, n, m, g),
    ensures
        disk::slot_of(g, slot) == disk::slot_of(file, slot),
{
    let first = data.take(n);
    let group = data.subrange(n, m);
    let h = disk::performed(file, first);
    assert forall|i: int| 0 <= i < first.len() implies first[i] is SyncData
        || buffer_pool::fresh_write(#[trigger] first[i], v) by {
        assert(first[i] == data[i]);
    }
    slots_kept(file, first, v);
    let at = slot * page::META_SLOT_LEN;
    assert forall|i: int| 0 <= i < page::META_SLOT_LEN implies disk::slot_of(g, slot)[i]
        == disk::slot_of(h, slot)[i] by {
        assert forall|k: int| 0 <= k < group.len() implies !touches(
            #[trigger] group[k],
            at + i,
        ) by {
            assert(group[k] == data[n + k]);
            if buffer_pool::fresh_write(data[n + k], v) {
                let id = choose|id: u32| #[trigger]
                    v.log.contains_key(id) && v.meta.count <= id && data[n + k]
                        == disk::page_write(id, v.meta.size, v.log[id]);
                disk::page_behind_meta(id, v.meta.size);
            }
        }
        assert(g[at + i] == h[at + i]);
    }
    assert(disk::slot_of(g, slot) =~= disk::slot_of(h, slot));
}

/// Once the data of a commit was written, the file holds all pages.
proof fn data_is_whole(base: Seq<u8>, v: PoolView, m: PoolView, all: Pages)
    requires
        backed(base, m, all),
        handed(m) == handed(v),
    ensures
        disk::performed(file_now(base, v), data_actions(m)).len() >= page::META_REGION_LEN,
        tree::extends(
            disk::pages_of(disk::performed(file_now(base, v), data_actions(m)), m.meta.size),
            all,
        ),
{
    let x = buffer_pool::flushed(m);
    let middle = disk::performed(file_now(base, v), data_actions(m));
    buffer_pool::flushed_wf(m);
    disk::performed_concat(base, handed(v), data_actions(m));
    assert(m.history =~= handed(m) + m.outbox);
    assert(x.history =~= handed(v) + data_actions(m));
    assert(over_pages(base, x, all));
    all_performed(base, x, all);
    assert forall|id: u32| #[trigger] all.contains_key(id) implies disk::pages_of(
        middle,
        m.meta.size,
    ).contains_key(id) && disk::pages_of(middle, m.meta.size)[id] == all[id] by {
        assert(!x.dirty.contains(id));
    }
}

/// A file that has the bytes behind the meta slots of another holds its
/// pages.
proof fn pages_carry_over(h: Seq<u8>, g: Seq<u8>, size: int, pages: Pages)
    requires
        size > 0,
        g.len() >= h.len(),
        forall|i: int| page::META_REGION_LEN <= i < h.len() ==> #[trigger] g[i] == h[i],
        tree::extends(disk::pages_of(h, size), pages),
    ensures
        tree::extends(disk::pages_of(g, size), pages),
{
    assert forall|id: u32| #[trigger] pages.contains_key(id) implies disk::pages_of(
        g,
        size,
    ).contains_key(id) && disk::pages_of(g, size)[id] == pages[id] by {
        assert(disk::pages_of(h, size).contains_key(id));
        assert(disk::holds_page(h, size, id));
        disk::page_behind_meta(id, size);
        assert(disk::page_bytes(g, size, id) =~= disk::page_bytes(h, size, id));
    }
}

/// A crash while the meta slot of a commit is written leaves the bytes behind
/// the meta slots.
proof fn crash_in_slot(
    file: Seq<u8>,
    data: Seq<IoView>,
    last: Seq<IoView>,
    m: int,
    g: Seq<u8>,
)
    requires
        last.len() == 3,
        last[0] is SyncData,
        last[1] matches IoView::Write { offset, bytes } && offset + bytes.len()
            <= page::META_REGION_LEN,
        last[2] is SyncAll,
        crash_at(file, data + last, data.len() + 1int, m, g),
    ensures
        g.len() >= disk::performed(file, data).len(),
        forall|i: int|
            page::META_REGION_LEN <= i < disk::performed(file, data).len() ==> #[trigger] g[i]
                == disk::performed(file, data)[i],
{
    let n = data.len() + 1int;
    let actions = data + last;
    let group = actions.subrange(n, m);
    let h = disk::performed(file, data);
    assert(actions.take(n).drop_last() =~= data);
    assert(actions.take(n).last() == last[0]);
    assert forall|i: int| page::META_REGION_LEN <= i < h.len() implies #[trigger] g[i]
        == h[i] by {
        assert forall|k: int| 0 <= k < group.len() implies !touches(#[trigger] group[k], i) by {
            assert(group[k] == actions[n + k]);
            assert(actions[n + k] is Write);
            assert(actions[n + k] == last[k + 1]);
            assert(k == 0);
        }
    }
}

/// A crash once the last sync of a commit is done leaves the file as the
/// commit made it.
proof fn crash_after_commit(
    file: Seq<u8>,
    data: Seq<IoView>,
    last: Seq<IoView>,
    m: int,
    g: Seq<u8>,
)
    requires
        crash_at(file, data + last, (data.len() + last.len()) as int, m, g),
    ensures
        g.len() >= disk::performed(disk::performed(file, data), last).len(),
        forall|i: int|
            0 <= i < disk::performed(disk::performed(file, data), last).len() ==> #[trigger] g[i]
                == disk::performed(disk::performed(file, data), last)[i],
{
    let actions = data + last;
    let h = disk::performed(file, actions);
    let group = actions.subrange(actions.len() as int, m);
    assert(actions.take(actions.len() as int) =~= actions);
    disk::performed_concat(file, data, last);
    assert forall|i: int| 0 <= i < h.len() implies #[trigger] g[i] == h[i] by {
        assert(group.len() == 0);
    }
}

/// A crash once the data of a commit is synced leaves all pages, and, where
/// the commit's last sync is done, its meta slot.
proof fn crash_after_data(
    file: Seq<u8>,
    data: Seq<IoView>,
    meta: MetaView,
    active: int,
    root: u32,
    count: u32,
    n: int,
    m: int,
    g: Seq<u8>,
    all: Pages,
)
    requires
        active == 0 || active == 1,
        meta.txn_id < u64::MAX,
        disk::performed(file, data).len() >= page::META_REGION_LEN,
        pager::slot_meta(disk::slot_of(disk::performed(file, data), active)) == Some(meta),
        tree::extends(disk::pages_of(disk::performed(file, data), meta.size), all),
        data.len() < n,
        crash_at(file, data + pager::commit_actions(meta, active, root, count), n, m, g),
    ensures
        tree::extends(disk::pages_of(g, meta.size), all),
        n != data.len() + 1 ==> disk::slot_of(g, 1 - active) == pager::meta_slot(
            pager::next_meta(meta, root, count),
        ),
{
    let last = pager::commit_actions(meta, active, root, count);
    let actions = data + last;
    let middle = disk::performed(file, data);
    pager::meta_slot_round_trip(pager::next_meta(meta, root, count));
    assert(actions[data.len() + 1int] == last[1]);
    if n == data.len() + 1 {
        crash_in_slot(file, data, last, m, g);
        pages_carry_over(middle, g, meta.size, all);
    } else {
        assert(n == data.len() + 3);
        let h = disk::performed(middle, last);
        crash_after_commit(file, data, last, m, g);
        pager::committed_file_opens(middle, active, meta, root, count);
        commit_sets_slot(middle, active, meta, root, count);
        pages_carry_over(h, g, meta.size, all);
        assert(disk::slot_of(g, 1 - active) =~= disk::slot_of(h, 1 - active));
    }
}

/// Performing the actions of a commit writes its meta slot.
proof fn commit_sets_slot(file: Seq<u8>, active: int, meta: MetaView, root: u32, count: u32)
    requires
        active == 0 || active == 1,
        file.len() >= page::META_REGION_LEN,
        page::valid_page_size(meta.size),
    ensures
        disk::slot_of(
            disk::performed(file, pager::commit_actions(meta, active, root, count)),
            1 - active,
        ) == pager::meta_slot(pager::next_meta(meta, root, count)),
{
    let m = pager::next_meta(meta, root, count);
    let actions = pager::commit_actions(meta, active, root, count);
    pager::meta_slot_round_trip(m);
    disk::slot_write_effect(file, meta.size, 1 - active, pager::meta_slot(m));
    assert(actions.drop_last() =~= seq![actions[0], actions[1]]);
    assert(actions.drop_last().drop_last() =~= seq![actions[0]]);
    assert(actions.drop_last().drop_last().drop_last() =~= Seq::<IoView>::empty());
    reveal_with_fuel(disk::performed, 4);
}

/// The committed state of `v` is in force in `g`, with all its rows.
pub open spec fn old_state_in(g: Seq<u8>, v: PoolView, pages: Pages) -> bool {
    &&& pager::recovered_file(g) == Some((v.active, v.meta))
    &&& tree::tree_ok(disk::pages_of(g, v.meta.size), v.meta.root, btree::usable(v))
    &&& tree::tree_entries(disk::pages_of(g, v.meta.size), v.meta.root) == cursor::committed(
        v,
        pages,
    )
}

/// The state that the commit handed out in `w` makes is in force in `g`, with
/// all its rows, `es`.
pub open spec fn new_state_in(g: Seq<u8>, w: PoolView, es: Seq<tree::Entry>) -> bool {
    let root = (w.pending->0).0;
    &&& pager::recovered_file(g) == Some(
        (1 - w.active, pager::next_meta(w.meta, root, w.next_id)),
    )
    &&& tree::tree_ok(disk::pages_of(g, w.meta.size), root, btree::usable(w))
    &&& tree::tree_entries(disk::pages_of(g, w.meta.size), root) == es
}

/// Wherever a crash interrupts a commit, and whatever part of the writes
/// between two syncs it leaves, the state before the commit or the one after
/// it is in force in the file, with all its rows. A meta slot that was not
/// written whole is taken to be unusable, that is, to fail its checksum.
/// That covers a commit that was reported as failed: it may be in force or
/// not, but it is never in force in part.
pub proof fn crash_leaves_old_or_new(
    base: Seq<u8>,
    v: PoolView,
    w: PoolView,
    pages: Pages,
    actions: Seq<IoAction>,
    es: Seq<tree::Entry>,
    n: int,
    m: int,
    g: Seq<u8>,
)
    requires
        backed(base, v, pages),
        reopens(base, v),
        v.pending is None,
        w.pending is Some,
        database::hands_out(v, w, actions, (w.pending->0).0),
        buffer_pool::view_wf(w),
        database::pending_ok(w),
        buffer_pool::sees(w, buffer_pool::with_log(pages, w)),
        database::will_be(w, pages, es),
        crash_at(file_now(base, v), disk::io_views(actions), n, m, g),
        ({
            let slot = disk::slot_of(g, 1 - v.active);
            ||| slot == disk::slot_of(file_now(base, v), 1 - v.active)
            ||| slot == pager::meta_slot(
                pager::next_meta(v.meta, (w.pending->0).0, w.next_id),
            )
            ||| pager::slot_meta(slot) is None
        }),
    ensures
        old_state_in(g, v, pages) || new_state_in(g, w, es),
{
    reveal(database::hands_out);
    let root = (w.pending->0).0;
    let mid = choose|mid: PoolView|
        {
            &&& #[trigger] buffer_pool::extended(v, mid)
            &&& buffer_pool::view_wf(mid)
            &&& disk::io_views(actions) == buffer_pool::committing(mid, root).outbox
            &&& w == (PoolView { outbox: Seq::empty(), ..buffer_pool::committing(mid, root) })
        };
    let file = file_now(base, v);
    let all = buffer_pool::with_log(pages, w);
    let data = data_actions(mid);
    let last = pager::commit_actions(v.meta, v.active, root, w.next_id);
    let views = disk::io_views(actions);
    let next = pager::next_meta(v.meta, root, w.next_id);
    assert(all == buffer_pool::with_log(pages, mid));
    sees_before_commit(mid, w, root, all);
    extended_keeps_backing(base, v, mid, pages);
    commit_history(v, mid, w, root);
    commit_spares_committed_state(base, v, w, pages, actions);
    assert forall|k: int| 0 <= k < views.len() implies spares(
        #[trigger] views[k],
        v.active,
        v.meta,
    ) by {
        assert(views[k] == actions[k]@);
    }
    handed_len(base, v, pages);
    crash_spares(file, views, n, m, g, v);
    spared_state_is_whole(base, v, pages, g);
    data_actions_are_fresh(mid);
    if n <= data.len() {
        assert(views[data.len() as int] == last[0]);
        assert(m <= data.len());
        assert(views.take(n) =~= data.take(n));
        assert(views.subrange(n, m) =~= data.subrange(n, m));
        assert(n > 0 ==> data[n - 1] == views[n - 1]);
        assert forall|k: int| n <= k < m implies (#[trigger] data[k]) is Write by {
            assert(data[k] == views[k]);
        }
        crash_in_data(file, data, n, m, g, mid, 1 - v.active);
    } else {
        slots_kept(file, data, mid);
        data_is_whole(base, v, mid, all);
        crash_after_data(file, data, v.meta, v.active, root, w.next_id, n, m, g, all);
        if disk::slot_of(g, 1 - v.active) == pager::meta_slot(next) {
            pager::meta_slot_round_trip(next);
            tree::tree_grows(all, disk::pages_of(g, v.meta.size), root, btree::usable(v));
        }
    }
}

// ---- what a pool gives back of a page that was put ----

/// The pool holds page `id` as it was put, with the body `c`: in its log, and
/// in its cache where it is cached.
pub open spec fn keeps_page(v: PoolView, id: u32, c: Seq<u8>) -> bool {
    &&& v.log.contains_key(id)
    &&& v.log[id] == c
    &&& v.cache.contains_key(id) ==> page::body(v.cache[id]) == c
}

/// From `v` to `w` page `x` was taken from the file `base`, with all actions
/// so far performed.
pub open spec fn takes_from_file(base: Seq<u8>, v: PoolView, w: PoolView, x: u32) -> bool {
    let bytes = disk::page_bytes(disk::performed(base, v.history), v.meta.size, x);
    &&& !v.cache.contains_key(x)
    &&& page::checksum_ok(bytes)
    &&& w == buffer_pool::with_page(v, x, bytes)
}

/// From `v` to `w` a cached page was looked at or an id allocated, a page was
/// put under another id than `id`, a page was taken from the file `base` with all actions
/// so far performed, a page was evicted, the dirty pages were written, or a
/// commit or the outbox was handed out or performed.
pub open spec fn pool_step(base: Seq<u8>, v: PoolView, w: PoolView, id: u32) -> bool {
    ||| w == (PoolView { order: w.order, next_id: w.next_id, ..v })
    ||| exists|x: u32, bytes: Seq<u8>|
        w == #[trigger] buffer_pool::with_new_page(v, x, bytes) && x != id
    ||| exists|x: u32| #[trigger] takes_from_file(base, v, w, x)
    ||| v.order.len() > 0 && w == buffer_pool::evicted(v)
    ||| w == buffer_pool::flushed(v)
    ||| exists|root: u32| w == #[trigger] buffer_pool::committing(v, root)
    ||| w == database::commit_performed(v)
    ||| w == (PoolView { outbox: Seq::empty(), ..v })
}

/// The pool gives page `id` back with the body `c`: from its cache, or from
/// the file `base` once all actions so far were performed, where the page
/// stands with a checksum that verifies.
pub open spec fn gives_back(base: Seq<u8>, v: PoolView, id: u32, c: Seq<u8>) -> bool {
    let file = disk::performed(base, v.history);
    if v.cache.contains_key(id) {
        page::body(v.cache[id]) == c
    } else {
        &&& disk::holds_page(file, v.meta.size, id)
        &&& page::body(disk::page_bytes(file, v.meta.size, id)) == c
    }
}

/// A pool whose pages can be given back by the file.
pub open spec fn over_file(base: Seq<u8>, v: PoolView) -> bool {
    &&& base.len() >= page::META_REGION_LEN
    &&& buffer_pool::view_wf(v)
    &&& forall|x: u32| #[trigger] v.log.contains_key(x) ==> page::FIRST_DATA_PAGE_ID <= x
}

/// A page that is kept is given back.
proof fn kept_page_is_given_back(base: Seq<u8>, v: PoolView, id: u32, c: Seq<u8>)
    requires
        over_file(base, v),
        keeps_page(v, id, c),
    ensures
        gives_back(base, v, id, c),
{
    if !v.cache.contains_key(id) {
        let file = disk::performed(base, v.history);
        history_effect(base, v.history, v.log, v.meta.size, id);
        assert(!v.dirty.contains(id));
        assert(buffer_pool::written_as_put(v, id));
        assert(disk::holds_page(file, v.meta.size, id));
        assert(disk::pages_of(file, v.meta.size).contains_key(id));
    }
}

/// A step of the pool keeps the page.
proof fn step_keeps_page(base: Seq<u8>, v: PoolView, w: PoolView, id: u32, c: Seq<u8>)
    requires
        over_file(base, v),
        keeps_page(v, id, c),
        pool_step(base, v, w, id),
    ensures
        keeps_page(w, id, c),
{
    if v.cache.contains_key(id) {
        page::stamped_page_verifies(page::body(v.cache[id]));
    }
    kept_page_is_given_back(base, v, id, c);
}

/// A page that was put is given back as it was put, whether it is still
/// cached or was evicted and is read from the file, whatever was read, put
/// under other ids, written or committed since then.
pub proof fn put_page_is_given_back(
    base: Seq<u8>,
    before: PoolView,
    id: u32,
    bytes: Seq<u8>,
    states: Seq<PoolView>,
)
    requires
        states.len() > 0,
        states[0] == buffer_pool::with_new_page(before, id, bytes),
        forall|i: int| 0 <= i < states.len() ==> over_file(base, #[trigger] states[i]),
        forall|i: int|
            0 < i < states.len() ==> pool_step(base, states[i - 1], #[trigger] states[i], id),
    ensures
        gives_back(base, states.last(), id, page::body(bytes)),
{
    states_keep_page(base, before, id, bytes, states, states.len() - 1);
    assert(over_file(base, states[states.len() - 1]));
    kept_page_is_given_back(base, states.last(), id, page::body(bytes));
}

/// Each of the states keeps the page.
proof fn states_keep_page(
    base: Seq<u8>,
    before: PoolView,
    id: u32,
    bytes: Seq<u8>,
    states: Seq<PoolView>,
    n: int,
)
    requires
        0 <= n < states.len(),
        states[0] == buffer_pool::with_new_page(before, id, bytes),
        forall|i: int| 0 <= i < states.len() ==> over_file(base, #[trigger] states[i]),
        forall|i: int|
            0 < i < states.len() ==> pool_step(base, states[i - 1], #[trigger] states[i], id),
    ensures
        keeps_page(states[n], id, page::body(bytes)),
    decreases n,
{
    if n > 0 {
        states_keep_page(base, before, id, bytes, states, n - 1);
        assert(over_file(base, states[n - 1]));
        assert(pool_step(base, states[n - 1], states[n], id));
        step_keeps_page(base, states[n - 1], states[n], id, page::body(bytes));
    }
}

} // verus!
