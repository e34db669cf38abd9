//! What the buffer pool promises: which page leaves the cache and when, what
//! is written of it, and what a commit that fails leaves of it.

use vstd::prelude::*;

use crate::btree::cursor;
use crate::buffer_pool;
use crate::buffer_pool::PoolView;
use crate::database;
use crate::disk;
use crate::disk::IoView;
use crate::page;
use crate::pager;
use crate::pager::MetaView;

verus! {

/// The order without the id that stands at `k`.
proof fn without_at(order: Seq<u32>, k: int)
    requires
        order.no_duplicates(),
        0 <= k < order.len(),
    ensures
        buffer_pool::without(order, order[k]) == order.take(k) + order.skip(k + 1),
{
    let id = order[k];
    let j = order.index_of(id);
    assert(order.contains(id));
    assert(order[j] == id);
    assert(j == k);
    assert(order.remove(k) =~= order.take(k) + order.skip(k + 1));
}

/// Using a cached page moves it behind all others, which keep their order,
/// and changes nothing else.
pub proof fn used_page_moves_behind_the_others(v: PoolView, k: int)
    requires
        buffer_pool::view_wf(v),
        0 <= k < v.order.len(),
    ensures
        buffer_pool::touched(v, v.order[k]) == (PoolView {
            order: v.order.take(k) + v.order.skip(k + 1) + seq![v.order[k]],
            ..v
        }),
{
    without_at(v.order, k);
    let o = v.order.take(k) + v.order.skip(k + 1);
    assert(o.push(v.order[k]) =~= o + seq![v.order[k]]);
}

/// A step that reads uses the page that it needs, if that is cached, and no
/// other: that page moves behind all others. A step that has not what it
/// needs changes nothing.
pub proof fn reading_uses_the_needed_page(v: PoolView, wants: Option<u32>)
    requires
        buffer_pool::view_wf(v),
    ensures
        wants is None ==> cursor::used(v, wants) == v,
        wants matches Some(id) ==> !v.order.contains(id) ==> cursor::used(v, wants) == v,
        wants matches Some(id) ==> v.order.contains(id) ==> {
            let k = v.order.index_of(id);
            cursor::used(v, wants) == (PoolView {
                order: v.order.take(k) + v.order.skip(k + 1) + seq![id],
                ..v
            })
        },
{
    match wants {
        Some(id) => {
            assert(v.cache.contains_key(id) <==> v.order.contains(id));
            if v.order.contains(id) {
                used_page_moves_behind_the_others(v, v.order.index_of(id));
            }
        },
        None => {},
    }
}

/// Taking in a page that is cached already makes no other page leave.
pub proof fn page_taken_in_again_stays_alone(v: PoolView, k: int, bytes: Seq<u8>)
    requires
        buffer_pool::view_wf(v),
        0 <= k < v.order.len(),
    ensures
        buffer_pool::with_page(v, v.order[k], bytes) == (PoolView {
            order: v.order.take(k) + v.order.skip(k + 1) + seq![v.order[k]],
            cache: v.cache.insert(v.order[k], bytes),
            ..v
        }),
{
    without_at(v.order, k);
    let id = v.order[k];
    let o = v.order.take(k) + v.order.skip(k + 1);
    assert(o.push(id) =~= o + seq![id]);
    assert(v.cache.remove(id).insert(id, bytes) =~= v.cache.insert(id, bytes));
}

/// Taking in a page while there is room makes no page leave.
pub proof fn page_taken_in_with_room(v: PoolView, id: u32, bytes: Seq<u8>)
    requires
        buffer_pool::view_wf(v),
        !v.cache.contains_key(id),
        v.order.len() < v.capacity,
    ensures
        buffer_pool::with_page(v, id, bytes) == (PoolView {
            order: v.order.push(id),
            cache: v.cache.insert(id, bytes),
            ..v
        }),
{
    assert(!v.order.contains(id));
    assert(v.cache.remove(id) =~= v.cache);
}

/// Taking in a page while the cache is full makes the least recently used
/// page leave, and no other. If that page was dirty it is written, as it was
/// cached, to its place; else nothing is written.
pub proof fn least_recently_used_page_leaves(v: PoolView, id: u32, bytes: Seq<u8>)
    requires
        buffer_pool::view_wf(v),
        !v.cache.contains_key(id),
        v.order.len() == v.capacity,
    ensures
        ({
            let w = buffer_pool::with_page(v, id, bytes);
            let gone = v.order[0];
            let write = IoView::Write {
                offset: disk::page_offset(gone, v.meta.size),
                bytes: page::stamped(v.cache[gone].take(v.meta.size - 8)),
            };
            let written = if v.dirty.contains(gone) {
                seq![write]
            } else {
                Seq::empty()
            };
            w == (PoolView {
                order: v.order.skip(1).push(id),
                cache: v.cache.remove(gone).insert(id, bytes),
                dirty: v.dirty.remove(gone),
                outbox: v.outbox + written,
                history: v.history + written,
                ..v
            })
        }),
{
    let gone = v.order[0];
    assert(!v.order.contains(id));
    assert(v.order.contains(gone));
    assert(v.cache.contains_key(gone));
    assert(v.cache.remove(id) =~= v.cache);
    assert(v.order.subrange(1, v.order.len() as int) =~= v.order.skip(1));
    assert(page::body(v.cache[gone]) =~= v.cache[gone].take(v.meta.size - 8));
    if !v.dirty.contains(gone) {
        assert(v.dirty.remove(gone) =~= v.dirty);
        assert(v.outbox + Seq::<IoView>::empty() =~= v.outbox);
        assert(v.history + Seq::<IoView>::empty() =~= v.history);
    }
}

/// The cache never holds more pages than its capacity, and the page that was
/// taken in last is the last that would leave.
pub proof fn cache_is_bounded(v: PoolView, id: u32, bytes: Seq<u8>)
    requires
        buffer_pool::view_wf(v),
        bytes.len() == v.meta.size,
        !v.dirty.contains(id),
    ensures
        ({
            let w = buffer_pool::with_page(v, id, bytes);
            &&& w.order.len() <= v.capacity
            &&& w.order.last() == id
            &&& w.cache.contains_key(id) && w.cache[id] == bytes
            &&& forall|x: u32| #[trigger] w.cache.contains_key(x) <==> w.order.contains(x)
        }),
{
    buffer_pool::with_page_wf(v, id, bytes);
}

/// A page that was put is in the cache as it was put, dirty, and used last;
/// but for that, putting a page is taking it in.
pub proof fn put_page_is_dirty(v: PoolView, id: u32, bytes: Seq<u8>)
    ensures
        buffer_pool::with_new_page(v, id, bytes) == (PoolView {
            dirty: buffer_pool::with_page(v, id, bytes).dirty.insert(id),
            log: v.log.insert(id, page::body(bytes)),
            ..buffer_pool::with_page(v, id, bytes)
        }),
{
}

/// A page that is cached again stays dirty if it was, and is dirty if it is to
/// be; a clean page that is taken in clean stays clean.
pub proof fn cached_page_is_dirty_if_it_was(v: PoolView, id: u32, bytes: Seq<u8>, dirty: bool)
    requires
        buffer_pool::view_wf(v),
    ensures
        ({
            let w = buffer_pool::with_cached(v, id, bytes, dirty);
            &&& w.order == buffer_pool::with_page(v, id, bytes).order
            &&& w.cache == buffer_pool::with_page(v, id, bytes).cache
            &&& w.outbox == buffer_pool::with_page(v, id, bytes).outbox
            &&& dirty || v.dirty.contains(id) ==> w.dirty.contains(id)
            &&& !dirty && !v.dirty.contains(id) ==> w == buffer_pool::with_page(v, id, bytes)
        }),
{
}

/// A page that is recalled is used if it is cached, whatever bytes are at
/// hand, and else taken in with these.
pub proof fn recalled_page_is_used_or_taken_in(v: PoolView, id: u32, bytes: Seq<u8>)
    requires
        buffer_pool::view_wf(v),
    ensures
        v.cache.contains_key(id) ==> buffer_pool::recalled(v, id, bytes) == cursor::used(
            v,
            Some(id),
        ),
        !v.cache.contains_key(id) ==> buffer_pool::recalled(v, id, bytes)
            == buffer_pool::with_page(v, id, bytes),
{
}

/// The first page that an operation needs is the committed root, if there is
/// a tree.
pub proof fn operations_start_at_the_root(v: PoolView)
    ensures
        cursor::first_page(v) == (if v.meta.root == 0 {
            None::<u32>
        } else {
            Some(v.meta.root)
        }),
{
}

/// Pages that are put get the ids that follow those in use, in their order,
/// and each is taken in as it is put.
pub proof fn put_pages_get_the_next_ids(v: PoolView, bufs: Seq<Seq<u8>>, buf: Seq<u8>)
    ensures
        buffer_pool::put_all(v, Seq::empty()) == v,
        ({
            let w = buffer_pool::put_all(v, bufs);
            let x = buffer_pool::put_all(v, bufs.push(buf));
            w.next_id < u32::MAX ==> {
                &&& x.next_id == w.next_id + 1
                &&& x == buffer_pool::with_new_page(
                    PoolView { next_id: x.next_id, ..w },
                    w.next_id,
                    buf,
                )
            }
        }),
{
    assert(bufs.push(buf).drop_last() =~= bufs);
    let w = buffer_pool::put_all(v, bufs);
    let n = (w.next_id + 1) as u32;
    put_page_keeps_the_next_id(PoolView { next_id: n, ..w }, w.next_id, buf);
}

proof fn put_page_keeps_the_next_id(v: PoolView, id: u32, bytes: Seq<u8>)
    ensures
        buffer_pool::with_new_page(v, id, bytes).next_id == v.next_id,
{
}

/// Evicting makes the least recently used page leave, written if it was
/// dirty.
pub proof fn eviction_takes_the_front(v: PoolView)
    requires
        buffer_pool::view_wf(v),
        v.order.len() > 0,
    ensures
        ({
            let w = buffer_pool::evicted(v);
            let gone = v.order[0];
            &&& w.order == v.order.skip(1)
            &&& w.cache == v.cache.remove(gone)
            &&& w.dirty == v.dirty.remove(gone)
            &&& w.history.len() == v.history.len() + (if v.dirty.contains(gone) {
                1int
            } else {
                0
            })
            &&& v.dirty.contains(gone) ==> w.history.last() == (IoView::Write {
                offset: disk::page_offset(gone, v.meta.size),
                bytes: page::stamped(v.cache[gone].take(v.meta.size - 8)),
            })
            &&& w.meta == v.meta && w.next_id == v.next_id && w.log == v.log
        }),
{
    let gone = v.order[0];
    assert(v.order.contains(gone));
    assert(v.cache.contains_key(gone));
    assert(v.order.subrange(1, v.order.len() as int) =~= v.order.skip(1));
    assert(page::body(v.cache[gone]) =~= v.cache[gone].take(v.meta.size - 8));
}

/// A flush writes every dirty page once, as it is cached, to its place, and
/// nothing else, and then syncs. It leaves no page dirty, all pages cached,
/// and their bodies as they were.
pub proof fn flush_writes_the_dirty_pages(v: PoolView, id: u32)
    requires
        buffer_pool::view_wf(v),
    ensures
        ({
            let w = buffer_pool::flushed(v);
            let more = w.outbox.skip(v.outbox.len() as int);
            &&& w.outbox.take(v.outbox.len() as int) == v.outbox
            &&& w.dirty == Set::<u32>::empty()
            &&& w.order == v.order
            &&& w.cache.contains_key(id) <==> v.cache.contains_key(id)
            &&& v.cache.contains_key(id) ==> page::body(w.cache[id]) == page::body(v.cache[id])
            &&& more.len() > 0 && more.last() is SyncData
            &&& v.dirty.contains(id) ==> more.contains(
                IoView::Write {
                    offset: disk::page_offset(id, v.meta.size),
                    bytes: page::stamped(page::body(v.cache[id])),
                },
            )
            &&& forall|i: int|
                0 <= i < more.len() - 1 ==> exists|x: u32|
                    v.dirty.contains(x) && #[trigger] more[i] == #[trigger] disk::page_write(
                        x,
                        v.meta.size,
                        page::body(v.cache[x]),
                    )
        }),
{
    let w = buffer_pool::flushed(v);
    let writes = buffer_pool::writes_of(v.order, v);
    let more = w.outbox.skip(v.outbox.len() as int);
    assert(more =~= writes.push(IoView::SyncData));
    assert(w.outbox.take(v.outbox.len() as int) =~= v.outbox);
    if v.cache.contains_key(id) {
        page::stamped_page_verifies(page::body(v.cache[id]));
    }
    buffer_pool::writes_of_facts(v.order, v);
    if v.dirty.contains(id) {
        assert(v.cache.contains_key(id));
        assert(v.order.contains(id));
        dirty_page_is_written(v.order, v, id);
        let i = writes.index_of(disk::page_write(id, v.meta.size, page::body(v.cache[id])));
        assert(more[i] == writes[i]);
    }
    assert forall|i: int| 0 <= i < more.len() - 1 implies exists|x: u32|
        v.dirty.contains(x) && #[trigger] more[i] == #[trigger] disk::page_write(
            x,
            v.meta.size,
            page::body(v.cache[x]),
        ) by {
        assert(more[i] == writes[i]);
        let x = choose|x: u32| #[trigger]
            v.dirty.contains(x) && writes[i] == disk::page_write(x, v.meta.size, v.log[x]);
        assert(more[i] == disk::page_write(x, v.meta.size, page::body(v.cache[x])));
    }
}

proof fn dirty_page_is_written(ids: Seq<u32>, v: PoolView, id: u32)
    requires
        ids.contains(id),
        v.dirty.contains(id),
    ensures
        buffer_pool::writes_of(ids, v).contains(
            disk::page_write(id, v.meta.size, page::body(v.cache[id])),
        ),
    decreases ids.len(),
{
    let write = disk::page_write(id, v.meta.size, page::body(v.cache[id]));
    let all = buffer_pool::writes_of(ids, v);
    let before = buffer_pool::writes_of(ids.drop_last(), v);
    if ids.last() == id {
        assert(all[before.len() as int] == write);
    } else {
        let k = ids.index_of(id);
        assert(ids.drop_last()[k] == id);
        assert(ids.drop_last().contains(id));
        dirty_page_is_written(ids.drop_last(), v, id);
        let i = before.index_of(write);
        assert(all[i] == write);
    }
}

/// A commit first writes what the cache holds dirty, page by page, and syncs;
/// then it syncs, writes the meta slot that is not in force, and syncs.
pub proof fn commit_writes_pages_before_the_slot(v: PoolView, root: u32, i: int)
    requires
        v.meta.txn_id < u64::MAX,
    ensures
        ({
            let w = buffer_pool::committing(v, root);
            let n = w.flushing.len() as int;
            let at = v.outbox.len() as int;
            &&& w.ahead == at
            &&& w.outbox.len() == at + n + 4
            &&& w.outbox.take(at) == v.outbox
            &&& 0 <= i < n ==> v.dirty.contains(w.flushing[i]) && w.outbox[at + i] == (
            IoView::Write {
                offset: disk::page_offset(w.flushing[i], v.meta.size),
                bytes: page::stamped(page::body(v.cache[w.flushing[i]])),
            })
            &&& w.outbox[at + n] is SyncData
            &&& w.outbox[at + n + 1] is SyncData
            &&& w.outbox[at + n + 2] == (IoView::Write {
                offset: (1 - v.active) * 4096,
                bytes: pager::meta_slot(
                    MetaView {
                        size: v.meta.size,
                        txn_id: (v.meta.txn_id + 1) as u64,
                        root,
                        count: v.next_id,
                    },
                ),
            })
            &&& w.outbox[at + n + 3] is SyncAll
        }),
{
    let w = buffer_pool::committing(v, root);
    let writes = buffer_pool::writes_of(v.order, v);
    let last = pager::commit_actions(v.meta, v.active, root, v.next_id);
    dirty_pages_are_written_in_order(v.order, v, i);
    assert(w.outbox == v.outbox + writes.push(IoView::SyncData) + last);
    assert(w.outbox.take(v.outbox.len() as int) =~= v.outbox);
}

proof fn dirty_pages_are_written_in_order(ids: Seq<u32>, v: PoolView, i: int)
    ensures
        ({
            let dirty = buffer_pool::dirty_among(ids, v.dirty);
            let writes = buffer_pool::writes_of(ids, v);
            &&& writes.len() == dirty.len()
            &&& 0 <= i < dirty.len() ==> v.dirty.contains(dirty[i]) && writes[i]
                == disk::page_write(dirty[i], v.meta.size, page::body(v.cache[dirty[i]]))
        }),
    decreases ids.len(),
{
    if ids.len() > 0 {
        dirty_pages_are_written_in_order(ids.drop_last(), v, i);
    }
}

/// Handing out a commit changes nothing of the committed state, and names
/// the root and the number of ids in use. Once it was performed they are the
/// committed ones, with the next transaction number, in the other slot.
pub proof fn commit_takes_effect_when_performed(v: PoolView, root: u32)
    requires
        v.meta.txn_id < u64::MAX,
    ensures
        ({
            let w = buffer_pool::committing(v, root);
            &&& w.meta == v.meta && w.active == v.active && w.next_id == v.next_id
            &&& w.pending == Some((root, v.next_id))
            &&& w.log == v.log
            &&& w.dirty == Set::<u32>::empty()
            &&& database::commit_performed(w) == (PoolView {
                meta: MetaView {
                    size: v.meta.size,
                    txn_id: (v.meta.txn_id + 1) as u64,
                    root,
                    count: v.next_id,
                },
                active: 1 - v.active,
                pending: None,
                ..w
            })
        }),
{
}

/// A commit that failed leaves the committed state, the ids that are in use
/// and all cached pages as they were. The cached pages whose writes were not
/// among the actions that were performed are dirty again.
pub proof fn failed_commit_keeps_the_cache(v: PoolView, performed: nat, id: u32)
    requires
        v.pending is Some,
        v.dirty == Set::<u32>::empty(),
    ensures
        ({
            let w = buffer_pool::failed(v, performed);
            &&& w.meta == v.meta && w.active == v.active && w.next_id == v.next_id
            &&& w.cache == v.cache && w.order == v.order && w.capacity == v.capacity
            &&& w.pending is None
            &&& w.dirty.contains(id) <==> v.cache.contains_key(id) && exists|i: int|
                0 <= i < v.flushing.len() && performed <= v.ahead + i && #[trigger] v.flushing[i]
                    == id
        }),
{
    let done = buffer_pool::pages_done(v, performed);
    let left = v.flushing.skip(done);
    if left.contains(id) {
        let i = left.index_of(id);
        assert(v.flushing[done + i] == id);
    }
    if exists|i: int|
        0 <= i < v.flushing.len() && performed <= v.ahead + i && #[trigger] v.flushing[i] == id {
        let i = choose|i: int|
            0 <= i < v.flushing.len() && performed <= v.ahead + i && #[trigger] v.flushing[i] == id;
        assert(left[i - done] == id);
    }
}

/// A commit that was handed out and never answered for counts as one of
/// which nothing was performed; without one, nothing changes.
pub proof fn unanswered_commit_has_failed(v: PoolView)
    ensures
        v.pending is None ==> buffer_pool::settled(v) == v,
        v.pending is Some ==> buffer_pool::settled(v) == buffer_pool::failed(v, 0),
        v.pending is None ==> database::commit_performed(v) == v,
{
}

/// A pool over a committed state starts with an empty cache and goes on with
/// the first id that is not in use.
pub proof fn pool_starts_empty(meta: MetaView, active: int, capacity: nat)
    ensures
        ({
            let v = buffer_pool::fresh_view(meta, active, capacity);
            &&& v.meta == meta && v.active == active && v.capacity == capacity
            &&& v.cache == Map::<u32, Seq<u8>>::empty()
            &&& v.order.len() == 0 && v.outbox.len() == 0 && v.history.len() == 0
            &&& v.dirty == Set::<u32>::empty()
            &&& v.next_id == meta.count
            &&& v.pending is None
        }),
{
}

} // verus!
