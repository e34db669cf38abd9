//! The buffer pool: a cache of page buffers with a bounded number of pages
//! and least-recently-used eviction, over a [`Pager`].
//!
//! Pages are handed out as copies, and a changed page always goes to a new
//! page id, so no page in the cache is ever invalidated by an edit in
//! progress: every cached page can be evicted at any time. A page that was
//! put and not yet written is dirty; evicting it, or flushing, hands out the
//! write.

use std::collections::{HashMap, HashSet, VecDeque};

use vstd::prelude::*;

use crate::btree::tree;
use crate::btree::tree::Pages;
use crate::disk;
use crate::disk::{IoAction, IoView};
use crate::error::{FatalError, PermanentError, PinaxError};
use crate::page;
use crate::page::PageSize;
use crate::pager;
use crate::pager::{MetaView, Pager};

verus! {

broadcast use vstd::std_specs::hash::group_hash_axioms;

/// What a buffer pool holds, as plain mathematical data.
pub struct PoolView {
    /// The committed state.
    pub meta: MetaView,
    /// The meta slot in force.
    pub active: int,
    /// The most pages that the cache holds.
    pub capacity: nat,
    /// The cached pages.
    pub cache: Map<u32, Seq<u8>>,
    /// The cached pages that were put and not yet written.
    pub dirty: Set<u32>,
    /// The cached page ids, least recently used first.
    pub order: Seq<u32>,
    /// The next page id to allocate.
    pub next_id: u32,
    /// The root and page count of the commit that is being performed.
    pub pending: Option<(u32, u32)>,
    /// The actions that were not handed out yet.
    pub outbox: Seq<IoView>,
    /// All actions so far, handed out or not.
    pub history: Seq<IoView>,
    /// The bodies of all pages that were put, each as it was put last.
    pub log: Map<u32, Seq<u8>>,
    /// The dirty pages that the last commit writes, in the order of their
    /// writes.
    pub flushing: Seq<u32>,
    /// How many actions are handed out with the last commit before those
    /// writes.
    pub ahead: nat,
}

/// `a` is one of the writes that the pool hands out: a put page, or a meta
/// slot.
pub open spec fn permitted(a: IoView, log: Map<u32, Seq<u8>>, size: int) -> bool {
    match a {
        IoView::Write { offset, bytes } => {
            ||| exists|id: u32, c: Seq<u8>|
                log.contains_key(id) && c.len() == size - page::CHECKSUM_LEN && a
                    == #[trigger] disk::page_write(id, size, c)
            ||| (offset == 0 || offset == page::META_SLOT_LEN) && bytes.len()
                == page::META_SLOT_LEN
        },
        _ => true,
    }
}

/// No page was put under one of the two ids that name the meta slots.
pub open spec fn data_ids(log: Map<u32, Seq<u8>>) -> bool {
    forall|id: u32| #[trigger] log.contains_key(id) ==> page::FIRST_DATA_PAGE_ID <= id
}

/// Page `id` was written as it was put last.
pub open spec fn written_as_put(v: PoolView, id: u32) -> bool {
    disk::last_write(v.history, disk::page_offset(id, v.meta.size)) == Some(
        page::stamped(v.log[id]),
    )
}

/// The pool is in order.
pub open spec fn view_wf(v: PoolView) -> bool {
    &&& page::valid_page_size(v.meta.size)
    &&& v.active == 0 || v.active == 1
    &&& 1 <= v.capacity
    &&& v.order.len() <= v.capacity
    &&& v.order.no_duplicates()
    &&& forall|id: u32| #[trigger] v.cache.contains_key(id) <==> v.order.contains(id)
    &&& forall|id: u32| #[trigger]
        v.cache.contains_key(id) ==> v.cache[id].len() == v.meta.size
    &&& forall|id: u32| #[trigger]
        v.dirty.contains(id) ==> v.cache.contains_key(id) && v.log.contains_key(id) && v.log[id]
            == page::body(v.cache[id])
    &&& v.meta.count <= v.next_id
    &&& forall|id: u32| #[trigger]
        v.log.contains_key(id) ==> id < v.next_id && v.log[id].len() == v.meta.size
            - page::CHECKSUM_LEN
    &&& data_ids(v.log) ==> forall|id: u32| #[trigger]
        v.log.contains_key(id) ==> v.dirty.contains(id) || written_as_put(v, id)
    &&& v.pending is Some ==> forall|i: int|
        0 <= i < v.flushing.len() ==> v.log.contains_key(#[trigger] v.flushing[i])
    &&& forall|i: int|
        0 <= i < v.history.len() ==> permitted(#[trigger] v.history[i], v.log, v.meta.size)
    &&& v.outbox.len() <= v.history.len()
    &&& v.outbox == v.history.subrange(
        v.history.len() - v.outbox.len(),
        v.history.len() as int,
    )
}

/// A pool over the committed state `meta`, with an empty cache.
pub open spec fn fresh_view(meta: MetaView, active: int, capacity: nat) -> PoolView {
    PoolView {
        meta,
        active,
        capacity,
        cache: Map::empty(),
        dirty: Set::empty(),
        order: Seq::empty(),
        next_id: meta.count,
        pending: None,
        outbox: Seq::empty(),
        history: Seq::empty(),
        log: Map::empty(),
        flushing: Seq::empty(),
        ahead: 0,
    }
}

/// `order` without `id`.
pub open spec fn without(order: Seq<u32>, id: u32) -> Seq<u32> {
    if order.contains(id) {
        order.remove(order.index_of(id))
    } else {
        order
    }
}

/// The pool with `id` as its most recently used page.
pub open spec fn touched(v: PoolView, id: u32) -> PoolView {
    PoolView { order: without(v.order, id).push(id), ..v }
}

/// The pool after some actions were added to its outbox.
pub open spec fn emitted(v: PoolView, actions: Seq<IoView>) -> PoolView {
    PoolView { outbox: v.outbox + actions, history: v.history + actions, ..v }
}

/// The pool without its least recently used page, which is written if it is
/// dirty.
pub open spec fn evicted(v: PoolView) -> PoolView {
    let id = v.order[0];
    let w = PoolView {
        order: v.order.subrange(1, v.order.len() as int),
        cache: v.cache.remove(id),
        dirty: v.dirty.remove(id),
        ..v
    };
    if v.dirty.contains(id) {
        emitted(w, seq![disk::page_write(id, v.meta.size, page::body(v.cache[id]))])
    } else {
        w
    }
}

/// The pool with room for one more page.
pub open spec fn made_room(v: PoolView) -> PoolView {
    if v.order.len() >= v.capacity {
        evicted(v)
    } else {
        v
    }
}

/// The pool with page `id` in its cache as the most recently used one.
pub open spec fn with_page(v: PoolView, id: u32, bytes: Seq<u8>) -> PoolView {
    let w = made_room(PoolView { order: without(v.order, id), cache: v.cache.remove(id), ..v });
    PoolView { order: w.order.push(id), cache: w.cache.insert(id, bytes), ..w }
}

/// The pool after a page was put, under a new id or over the one that was
/// there.
pub open spec fn with_new_page(v: PoolView, id: u32, bytes: Seq<u8>) -> PoolView {
    let w = with_page(v, id, bytes);
    PoolView { dirty: w.dirty.insert(id), log: w.log.insert(id, page::body(bytes)), ..w }
}

/// The pool with page `id` in its cache, dirty if it is to be or was.
pub open spec fn with_cached(v: PoolView, id: u32, bytes: Seq<u8>, dirty: bool) -> PoolView {
    if dirty || v.dirty.contains(id) {
        with_new_page(v, id, bytes)
    } else {
        with_page(v, id, bytes)
    }
}

/// The pool with `id` as its most recently used page, with the given bytes
/// if it was not cached.
pub open spec fn recalled(v: PoolView, id: u32, bytes: Seq<u8>) -> PoolView {
    if v.cache.contains_key(id) {
        touched(v, id)
    } else {
        with_page(v, id, bytes)
    }
}

/// The writes of the dirty pages among `ids`, in order.
pub open spec fn writes_of(ids: Seq<u32>, v: PoolView) -> Seq<IoView>
    decreases ids.len(),
{
    if ids.len() == 0 {
        Seq::empty()
    } else {
        let id = ids.last();
        let before = writes_of(ids.drop_last(), v);
        if v.dirty.contains(id) {
            before.push(disk::page_write(id, v.meta.size, page::body(v.cache[id])))
        } else {
            before
        }
    }
}

/// The cached pages, with their checksums where they are dirty.
pub open spec fn stamped_cache(v: PoolView) -> Map<u32, Seq<u8>> {
    Map::new(
        |id: u32| v.cache.contains_key(id),
        |id: u32|
            if v.dirty.contains(id) {
                page::stamped(page::body(v.cache[id]))
            } else {
                v.cache[id]
            },
    )
}

/// The pool after page `id` was written, if it was dirty.
pub open spec fn page_flushed(v: PoolView, id: u32) -> PoolView {
    if v.dirty.contains(id) {
        let w = PoolView {
            cache: v.cache.insert(id, page::stamped(page::body(v.cache[id]))),
            dirty: v.dirty.remove(id),
            ..v
        };
        emitted(w, seq![disk::page_write(id, v.meta.size, page::body(v.cache[id]))])
    } else {
        v
    }
}

/// The pool after its dirty pages were written, oldest first, and synced.
pub open spec fn flushed(v: PoolView) -> PoolView {
    let w = PoolView { cache: stamped_cache(v), dirty: Set::empty(), ..v };
    emitted(w, writes_of(v.order, v).push(IoView::SyncData))
}

/// The dirty pages among `ids`, in order.
pub open spec fn dirty_among(ids: Seq<u32>, dirty: Set<u32>) -> Seq<u32>
    decreases ids.len(),
{
    if ids.len() == 0 {
        Seq::empty()
    } else if dirty.contains(ids.last()) {
        dirty_among(ids.drop_last(), dirty).push(ids.last())
    } else {
        dirty_among(ids.drop_last(), dirty)
    }
}

/// The pool after a commit was handed out.
pub open spec fn committing(v: PoolView, root: u32) -> PoolView {
    let w = flushed(v);
    let x = emitted(w, pager::commit_actions(v.meta, v.active, root, v.next_id));
    PoolView {
        pending: Some((root, v.next_id)),
        flushing: dirty_among(v.order, v.dirty),
        ahead: v.outbox.len(),
        ..x
    }
}

/// How many of the pages that the commit writes were written, when this many
/// of its actions were performed.
pub open spec fn pages_done(v: PoolView, performed: nat) -> int {
    if performed <= v.ahead {
        0
    } else if performed - v.ahead >= v.flushing.len() {
        v.flushing.len() as int
    } else {
        performed - v.ahead
    }
}

/// The cached pages that were not written, when this many actions of the
/// commit were performed.
pub open spec fn not_written(v: PoolView, performed: nat) -> Set<u32> {
    let left = v.flushing.skip(pages_done(v, performed));
    Set::new(|id: u32| v.cache.contains_key(id) && (v.dirty.contains(id) || left.contains(id)))
}

/// The pages that the commit that was handed out writes, and those that are
/// dirty, were put.
#[verifier::opaque]
pub open spec fn flushes_put(v: PoolView) -> bool {
    v.pending is Some ==> {
        &&& forall|i: int|
            0 <= i < v.flushing.len() ==> v.log.contains_key(#[trigger] v.flushing[i])
        &&& forall|id: u32| #[trigger] v.dirty.contains(id) ==> v.log.contains_key(id)
    }
}

/// The pool without the commit that was handed out, of which the first
/// actions, this many, were performed. The cached pages stay, and those that
/// were not written are dirty again; the page ids that the commit took are
/// not used again. The history starts anew, on the file as it is.
pub open spec fn failed(v: PoolView, performed: nat) -> PoolView {
    if v.pending is Some {
        let dirty = not_written(v, performed);
        PoolView {
            dirty,
            pending: None,
            outbox: Seq::empty(),
            history: Seq::empty(),
            log: Map::new(|id: u32| dirty.contains(id), |id: u32| page::body(v.cache[id])),
            ..v
        }
    } else {
        v
    }
}

/// The pool without the commit that was handed out and never answered for.
pub open spec fn settled(v: PoolView) -> PoolView {
    failed(v, 0)
}

// ---- how a pool grows while an operation puts pages ----

/// `a` writes a put page that no committed state reaches.
pub open spec fn fresh_write(a: IoView, v: PoolView) -> bool {
    exists|id: u32| #[trigger]
        v.log.contains_key(id) && v.meta.count <= id && a == disk::page_write(
            id,
            v.meta.size,
            v.log[id],
        )
}

/// `a` writes a page that was dirty in `v`, or was put since then.
pub open spec fn written_since(a: IoView, v: PoolView, w: PoolView) -> bool {
    exists|id: u32| #[trigger]
        w.log.contains_key(id) && (v.dirty.contains(id) || v.next_id <= id) && a
            == disk::page_write(id, w.meta.size, w.log[id])
}

/// From `v` to `w`, new pages were put under new ids, and nothing was
/// written but these and pages that were dirty.
pub open spec fn extended(v: PoolView, w: PoolView) -> bool {
    &&& w.meta == v.meta
    &&& w.active == v.active
    &&& w.capacity == v.capacity
    &&& w.pending == v.pending
    &&& v.next_id <= w.next_id
    &&& tree::extends(w.log, v.log)
    &&& forall|id: u32| #[trigger]
        w.log.contains_key(id) && !v.log.contains_key(id) ==> v.next_id <= id
    &&& forall|id: u32| #[trigger]
        w.dirty.contains(id) ==> v.dirty.contains(id) || v.next_id <= id
    &&& v.history.len() <= w.history.len()
    &&& w.history.subrange(0, v.history.len() as int) == v.history
    &&& forall|i: int|
        v.history.len() <= i < w.history.len() ==> written_since(#[trigger] w.history[i], v, w)
    &&& w.history.len() - w.outbox.len() == v.history.len() - v.outbox.len()
}

/// The pool after pages were put under new ids, one after the other.
pub open spec fn put_all(v: PoolView, bufs: Seq<Seq<u8>>) -> PoolView
    decreases bufs.len(),
{
    if bufs.len() == 0 {
        v
    } else {
        let w = put_all(v, bufs.drop_last());
        with_new_page(
            PoolView { next_id: (w.next_id + 1) as u32, ..w },
            w.next_id,
            bufs.last(),
        )
    }
}

/// From `v` to `w`, nothing happened but that pages were put under new ids.
#[verifier::opaque]
pub open spec fn puts_only(v: PoolView, w: PoolView) -> bool {
    exists|bufs: Seq<Seq<u8>>| w == #[trigger] put_all(v, bufs)
}

/// From `v` to `w`, new pages were put under new ids, and nothing else
/// happened; in particular nothing else came into the cache.
pub open spec fn grown(v: PoolView, w: PoolView) -> bool {
    &&& extended(v, w)
    &&& puts_only(v, w)
    &&& forall|id: u32| #[trigger]
        w.cache.contains_key(id) ==> (v.cache.contains_key(id) && w.cache[id] == v.cache[id] && (
        w.log.contains_key(id) ==> v.log.contains_key(id))) || (w.log.contains_key(id)
            && page::body(w.cache[id]) == w.log[id])
}

/// What the pool has cached of `pages`, and what was put, is what `pages`
/// holds, and `pages` holds nothing under ids that were not allocated.
pub open spec fn sees(v: PoolView, pages: Pages) -> bool {
    &&& forall|id: u32| #[trigger] pages.contains_key(id) ==> id < v.next_id
    &&& tree::extends(pages, v.log)
    &&& forall|id: u32| #[trigger]
        v.cache.contains_key(id) && pages.contains_key(id) ==> page::body(v.cache[id]) == pages[id]
}

/// The pages with those that were put.
pub open spec fn with_log(pages: Pages, v: PoolView) -> Pages {
    pages.union_prefer_right(v.log)
}

/// A pool has grown from itself.
pub proof fn grown_refl(v: PoolView)
    ensures
        grown(v, v),
{
    assert(puts_only(v, v)) by {
        reveal(puts_only);
        assert(put_all(v, Seq::empty()) == v);
    }
    assert(v.history.subrange(0, v.history.len() as int) =~= v.history);
}

/// Putting pages goes on from where it was.
pub proof fn extended_trans(u: PoolView, v: PoolView, w: PoolView)
    requires
        extended(u, v),
        extended(v, w),
    ensures
        extended(u, w),
{
    assert(w.history.subrange(0, u.history.len() as int) =~= u.history) by {
        assert(w.history.subrange(0, v.history.len() as int).subrange(0, u.history.len() as int)
            =~= w.history.subrange(0, u.history.len() as int));
    }
    assert forall|i: int| u.history.len() <= i < w.history.len() implies written_since(
        #[trigger] w.history[i],
        u,
        w,
    ) by {
        if i < v.history.len() {
            assert(w.history.subrange(0, v.history.len() as int)[i] == w.history[i]);
            assert(written_since(v.history[i], u, v));
            let id = choose|id: u32| #[trigger]
                v.log.contains_key(id) && (u.dirty.contains(id) || u.next_id <= id)
                    && v.history[i] == disk::page_write(id, v.meta.size, v.log[id]);
            assert(w.log.contains_key(id));
        } else {
            assert(written_since(w.history[i], v, w));
            let id = choose|id: u32| #[trigger]
                w.log.contains_key(id) && (v.dirty.contains(id) || v.next_id <= id)
                    && w.history[i] == disk::page_write(id, w.meta.size, w.log[id]);
            assert(w.log.contains_key(id));
        }
    }
    assert forall|id: u32| #[trigger] w.dirty.contains(id) implies u.dirty.contains(id)
        || u.next_id <= id by {
        if v.dirty.contains(id) {
        }
    }
    assert forall|id: u32| #[trigger]
        w.log.contains_key(id) && !u.log.contains_key(id) implies u.next_id <= id by {
        if v.log.contains_key(id) {
        }
    }
}

/// Putting pages and then others is putting them all.
proof fn put_all_concat(v: PoolView, a: Seq<Seq<u8>>, b: Seq<Seq<u8>>)
    ensures
        put_all(v, a + b) == put_all(put_all(v, a), b),
    decreases b.len(),
{
    if b.len() == 0 {
        assert(a + b =~= a);
    } else {
        assert((a + b).drop_last() =~= a + b.drop_last());
        assert((a + b).last() == b.last());
        put_all_concat(v, a, b.drop_last());
    }
}

/// Growing goes on from where it was.
pub proof fn grown_trans(u: PoolView, v: PoolView, w: PoolView)
    requires
        grown(u, v),
        grown(v, w),
    ensures
        grown(u, w),
{
    extended_trans(u, v, w);
    assert(puts_only(u, w)) by {
        reveal(puts_only);
        let a = choose|a: Seq<Seq<u8>>| v == #[trigger] put_all(u, a);
        let b = choose|b: Seq<Seq<u8>>| w == #[trigger] put_all(v, b);
        put_all_concat(u, a, b);
    }
    assert forall|id: u32| #[trigger] w.cache.contains_key(id) implies (u.cache.contains_key(id)
        && w.cache[id] == u.cache[id] && (w.log.contains_key(id) ==> u.log.contains_key(id))) || (
    w.log.contains_key(id) && page::body(w.cache[id]) == w.log[id]) by {
        if v.cache.contains_key(id) && w.cache[id] == v.cache[id] {
            if v.log.contains_key(id) {
                assert(w.log.contains_key(id));
            }
        }
    }
}

/// The pages that a pool saw are there with those that were put since then.
pub proof fn extended_pages(v: PoolView, w: PoolView, pages: Pages)
    requires
        extended(v, w),
        sees(v, pages),
    ensures
        tree::extends(with_log(pages, w), pages),
        tree::extends(with_log(pages, w), w.log),
{
    let all = with_log(pages, w);
    assert forall|id: u32| #[trigger] pages.contains_key(id) implies all.contains_key(id)
        && all[id] == pages[id] by {
        if w.log.contains_key(id) && !v.log.contains_key(id) {
            assert(v.next_id <= id);
        }
    }
}

/// A pool that has grown sees the pages that it saw and those that were put.
pub proof fn grown_sees(v: PoolView, w: PoolView, pages: Pages)
    requires
        grown(v, w),
        sees(v, pages),
        view_wf(w),
    ensures
        sees(w, with_log(pages, w)),
        tree::extends(with_log(pages, w), pages),
        tree::extends(with_log(pages, w), w.log),
{
    let all = with_log(pages, w);
    extended_pages(v, w, pages);
    assert forall|id: u32| #[trigger]
        w.cache.contains_key(id) && all.contains_key(id) implies page::body(w.cache[id])
        == all[id] by {
        if v.cache.contains_key(id) && w.cache[id] == v.cache[id] {
            if v.log.contains_key(id) {
                assert(pages.contains_key(id));
            }
        }
    }
}

/// Allocating an id and putting a page under it is growing.
proof fn put_grows(v: PoolView, bytes: Seq<u8>)
    requires
        view_wf(v),
        v.next_id < u32::MAX,
        bytes.len() == v.meta.size,
    ensures
        grown(
            v,
            with_new_page(
                PoolView { next_id: (v.next_id + 1) as u32, ..v },
                v.next_id,
                bytes,
            ),
        ),
{
    let id = v.next_id;
    let u = PoolView { next_id: (v.next_id + 1) as u32, ..v };
    let w = with_new_page(u, id, bytes);
    assert(!v.log.contains_key(id));
    with_page_extends(u, id, bytes);
    let m = with_page(u, id, bytes);
    assert(puts_only(v, w)) by {
        reveal(puts_only);
        reveal_with_fuel(put_all, 2);
        assert(seq![bytes].drop_last() =~= Seq::<Seq<u8>>::empty());
        assert(w == put_all(v, seq![bytes]));
    }
    assert forall|i: int| v.history.len() <= i < w.history.len() implies written_since(
        #[trigger] w.history[i],
        v,
        w,
    ) by {
        assert(written_since(m.history[i], u, m));
        let x = choose|x: u32| #[trigger]
            m.log.contains_key(x) && (u.dirty.contains(x) || u.next_id <= x) && m.history[i]
                == disk::page_write(x, m.meta.size, m.log[x]);
        assert(w.log.contains_key(x));
    }
}

/// Taking a page into the cache puts none, and writes none but a dirty one.
pub proof fn with_page_extends(v: PoolView, id: u32, bytes: Seq<u8>)
    requires
        view_wf(v),
    ensures
        extended(v, with_page(v, id, bytes)),
        forall|x: u32| #[trigger]
            with_page(v, id, bytes).cache.contains_key(x) ==> x == id || v.cache.contains_key(x)
                && with_page(v, id, bytes).cache[x] == v.cache[x],
        with_page(v, id, bytes).cache.contains_key(id),
        with_page(v, id, bytes).cache[id] == bytes,
        with_page(v, id, bytes).log == v.log,
        with_page(v, id, bytes).next_id == v.next_id,
{
    let w = with_page(v, id, bytes);
    let t = PoolView { order: without(v.order, id), cache: v.cache.remove(id), ..v };
    without_facts(v.order, id);
    assert(w.history.subrange(0, v.history.len() as int) =~= v.history);
    assert forall|i: int| v.history.len() <= i < w.history.len() implies written_since(
        #[trigger] w.history[i],
        v,
        w,
    ) by {
        let x = t.order[0];
        assert(t.order.len() >= t.capacity);
        assert(t.order.contains(x));
        assert(v.dirty.contains(x));
        assert(v.log.contains_key(x));
        assert(w.log.contains_key(x));
        assert(w.history[i] == disk::page_write(x, v.meta.size, page::body(t.cache[x])));
    }
}

/// Making a page the most recently used one puts none, and a pool that saw
/// it as it is sees what it saw.
pub proof fn recalled_facts(v: PoolView, id: u32, bytes: Seq<u8>)
    requires
        view_wf(v),
        bytes.len() == v.meta.size,
    ensures
        view_wf(recalled(v, id, bytes)),
        extended(v, recalled(v, id, bytes)),
        recalled(v, id, bytes).log == v.log,
        recalled(v, id, bytes).next_id == v.next_id,
        forall|pages: Pages| #[trigger]
            sees(v, pages) && (pages.contains_key(id) ==> pages[id] == page::body(bytes)) ==> sees(
                recalled(v, id, bytes),
                pages,
            ),
{
    let w = recalled(v, id, bytes);
    if v.cache.contains_key(id) {
        touched_wf(v, id);
        grown_refl(v);
    } else {
        with_page_wf(v, id, bytes);
        with_page_extends(v, id, bytes);
    }
}

/// Handing out a commit does not change what the pool sees.
pub proof fn committing_sees(m: PoolView, root: u32, pages: Pages)
    requires
        sees(m, pages),
        view_wf(m),
    ensures
        sees(committing(m, root), pages),
{
    let w = committing(m, root);
    assert forall|x: u32| #[trigger]
        w.cache.contains_key(x) && pages.contains_key(x) implies page::body(w.cache[x])
        == pages[x] by {
        assert(m.cache.contains_key(x));
        if m.dirty.contains(x) {
            page::stamped_page_verifies(page::body(m.cache[x]));
        }
    }
}

/// What the pool sees once a commit was handed out, it saw before.
pub proof fn committing_saw(m: PoolView, root: u32, pages: Pages)
    requires
        sees(committing(m, root), pages),
    ensures
        sees(m, pages),
{
    let w = committing(m, root);
    assert forall|x: u32| #[trigger]
        m.cache.contains_key(x) && pages.contains_key(x) implies page::body(m.cache[x])
        == pages[x] by {
        assert(w.cache.contains_key(x));
        if m.dirty.contains(x) {
            page::stamped_page_verifies(page::body(m.cache[x]));
        }
    }
    assert forall|x: u32| #[trigger] m.log.contains_key(x) implies pages.contains_key(x)
        && pages[x] == m.log[x] by {
        assert(w.log.contains_key(x));
    }
}

/// A cache of page buffers over a [`Pager`].
pub struct BufferPool {
    pager: Pager,
    capacity: usize,
    entries: HashMap<u32, Vec<u8>>,
    dirty: HashSet<u32>,
    recency: VecDeque<u32>,
    next_page_id: u32,
    pending: Option<(u32, u32)>,
    outbox: Vec<IoAction>,
    history: Ghost<Seq<IoView>>,
    log: Ghost<Map<u32, Seq<u8>>>,
    flushing: Vec<u32>,
    ahead: usize,
}

impl View for BufferPool {
    type V = PoolView;

    closed spec fn view(&self) -> PoolView {
        PoolView {
            meta: self.pager@,
            active: self.pager.active(),
            capacity: self.capacity as nat,
            cache: self.entries@.map_values(|b: Vec<u8>| b@),
            dirty: self.dirty@,
            order: self.recency@,
            next_id: self.next_page_id,
            pending: self.pending,
            outbox: disk::io_views(self.outbox@),
            history: self.history@,
            log: self.log@,
            flushing: self.flushing@,
            ahead: self.ahead as nat,
        }
    }
}

/// An order without one of its ids.
proof fn without_facts(order: Seq<u32>, id: u32)
    requires
        order.no_duplicates(),
    ensures
        without(order, id).no_duplicates(),
        without(order, id).len() == (if order.contains(id) {
            order.len() - 1
        } else {
            order.len() as int
        }),
        forall|x: u32| #[trigger]
            without(order, id).contains(x) <==> order.contains(x) && x != id,
{
    if order.contains(id) {
        let k = order.index_of(id);
        let w = without(order, id);
        assert(order[k] == id);
        assert forall|x: u32| #[trigger] w.contains(x) <==> order.contains(x) && x != id by {
            if w.contains(x) {
                let i = w.index_of(x);
                assert(w[i] == x);
                if i < k {
                    assert(order[i] == x);
                } else {
                    assert(order[i + 1] == x);
                }
            }
            if order.contains(x) && x != id {
                let j = order.index_of(x);
                assert(order[j] == x);
                if j < k {
                    assert(w[j] == x);
                } else {
                    assert(w[j - 1] == x);
                }
            }
        }
    }
}

/// A longer log permits what a shorter one does.
proof fn permitted_grows(a: IoView, log: Map<u32, Seq<u8>>, more: Map<u32, Seq<u8>>, size: int)
    requires
        permitted(a, log, size),
        log.dom().subset_of(more.dom()),
    ensures
        permitted(a, more, size),
{
    if a is Write {
        if exists|id: u32, c: Seq<u8>|
            log.contains_key(id) && c.len() == size - page::CHECKSUM_LEN && a
                == #[trigger] disk::page_write(id, size, c) {
            let (id, c) = choose|id: u32, c: Seq<u8>|
                log.contains_key(id) && c.len() == size - page::CHECKSUM_LEN && a
                    == #[trigger] disk::page_write(id, size, c);
            assert(more.contains_key(id));
        }
    }
}

/// Handing out syncs and meta slots keeps the pool in order.
proof fn emitted_wf(v: PoolView, actions: Seq<IoView>)
    requires
        view_wf(v),
        forall|i: int|
            0 <= i < actions.len() ==> permitted(#[trigger] actions[i], v.log, v.meta.size),
        forall|i: int|
            0 <= i < actions.len() ==> match #[trigger] actions[i] {
                IoView::Write { offset, .. } => offset < page::META_REGION_LEN,
                _ => true,
            },
    ensures
        view_wf(emitted(v, actions)),
{
    let w = emitted(v, actions);
    assert forall|i: int| 0 <= i < w.history.len() implies permitted(
        #[trigger] w.history[i],
        w.log,
        w.meta.size,
    ) by {
        if i < v.history.len() {
            assert(w.history[i] == v.history[i]);
        } else {
            assert(w.history[i] == actions[i - v.history.len()]);
        }
    }
    assert(w.outbox =~= w.history.subrange(
        w.history.len() - w.outbox.len(),
        w.history.len() as int,
    ));
    if data_ids(w.log) {
        assert forall|id: u32| #[trigger] w.log.contains_key(id) implies w.dirty.contains(id)
            || written_as_put(w, id) by {
            let at = disk::page_offset(id, v.meta.size);
            disk::page_behind_meta(id, v.meta.size);
            disk::no_last_write(actions, at);
            disk::last_write_concat(v.history, actions, at);
            assert(v.log.contains_key(id));
        }
    }
}

/// Writing a dirty page, as it was put, keeps the history in order.
proof fn written_page(v: PoolView, w: PoolView, id: u32)
    requires
        view_wf(v),
        v.dirty.contains(id),
        w.meta == v.meta,
        w.log == v.log,
        w.history == v.history.push(disk::page_write(id, v.meta.size, v.log[id])),
        w.outbox == v.outbox.push(disk::page_write(id, v.meta.size, v.log[id])),
    ensures
        forall|i: int|
            0 <= i < w.history.len() ==> permitted(#[trigger] w.history[i], w.log, w.meta.size),
        w.outbox.len() <= w.history.len(),
        w.outbox == w.history.subrange(
            w.history.len() - w.outbox.len(),
            w.history.len() as int,
        ),
        data_ids(v.log) ==> forall|x: u32| #[trigger]
            v.log.contains_key(x) && (x == id || written_as_put(v, x)) ==> written_as_put(w, x),
{
    assert(v.log.contains_key(id));
    assert forall|i: int| 0 <= i < w.history.len() implies permitted(
        #[trigger] w.history[i],
        w.log,
        w.meta.size,
    ) by {
        if i < v.history.len() {
            assert(w.history[i] == v.history[i]);
        } else {
            assert(w.history[i] == disk::page_write(id, v.meta.size, v.log[id]));
        }
    }
    assert(w.outbox =~= w.history.subrange(
        w.history.len() - w.outbox.len(),
        w.history.len() as int,
    ));
    if data_ids(v.log) {
        assert forall|x: u32| #[trigger]
            v.log.contains_key(x) && (x == id || written_as_put(v, x)) implies written_as_put(
            w,
            x,
        ) by {
            disk::last_write_of_page(v.history, id, v.meta.size, v.log[id], x);
        }
    }
}

/// Eviction keeps the pool in order.
proof fn evicted_wf(v: PoolView)
    requires
        view_wf(v),
        v.order.len() > 0,
    ensures
        view_wf(evicted(v)),
{
    let id = v.order[0];
    let e = evicted(v);
    assert(v.order.contains(id));
    assert(v.cache.contains_key(id));
    assert forall|x: u32| #[trigger] e.cache.contains_key(x) <==> e.order.contains(x) by {
        if e.order.contains(x) {
            let i = e.order.index_of(x);
            assert(v.order[i + 1] == x);
            assert(v.order.contains(x));
            assert(v.cache.contains_key(x));
        }
        if e.cache.contains_key(x) {
            assert(v.cache.contains_key(x));
            let i = v.order.index_of(x);
            assert(v.order[i] == x);
            assert(e.order[i - 1] == x);
        }
    }
    assert forall|x: u32| #[trigger] e.cache.contains_key(x) implies e.cache[x].len()
        == e.meta.size by {
        assert(v.cache.contains_key(x));
    }
    if v.dirty.contains(id) {
        let a = disk::page_write(id, v.meta.size, page::body(v.cache[id]));
        assert(v.log.contains_key(id));
        assert(e.history =~= v.history.push(a));
        assert(e.outbox =~= v.outbox.push(a));
        written_page(v, e, id);
    }
}

/// Making a cached page the most recently used one keeps the pool in order.
proof fn touched_wf(v: PoolView, id: u32)
    requires
        view_wf(v),
        v.cache.contains_key(id),
    ensures
        view_wf(touched(v, id)),
{
    let w = touched(v, id);
    without_facts(v.order, id);
    assert forall|x: u32| #[trigger] w.cache.contains_key(x) <==> w.order.contains(x) by {
        assert(v.cache.contains_key(x) <==> v.order.contains(x));
        let o = without(v.order, id);
        assert(w.order[o.len() as int] == id);
        if o.contains(x) {
            let i = o.index_of(x);
            assert(w.order[i] == x);
        }
        if w.order.contains(x) {
            let i = w.order.index_of(x);
            if i < o.len() {
                assert(o[i] == x);
            }
        }
    }
}

/// What the cache and the history are after a page was taken in.
proof fn with_page_parts(v: PoolView, id: u32, bytes: Seq<u8>)
    requires
        view_wf(v),
        bytes.len() == v.meta.size,
    ensures
        ({
            let r = with_page(v, id, bytes);
            &&& r.order.len() <= r.capacity
            &&& r.order.no_duplicates()
            &&& forall|x: u32| #[trigger] r.cache.contains_key(x) <==> r.order.contains(x)
            &&& forall|x: u32| #[trigger]
                r.cache.contains_key(x) ==> r.cache[x].len() == r.meta.size
            &&& forall|x: u32| #[trigger]
                r.dirty.contains(x) && x != id ==> v.dirty.contains(x) && r.cache.contains_key(x)
                    && r.cache[x] == v.cache[x]
            &&& r.dirty.contains(id) == v.dirty.contains(id)
            &&& r.cache.contains_key(id)
            &&& r.cache[id] == bytes
            &&& forall|i: int|
                0 <= i < r.history.len() ==> permitted(#[trigger] r.history[i], r.log, r.meta.size)
            &&& r.outbox.len() <= r.history.len()
            &&& r.outbox == r.history.subrange(
                r.history.len() - r.outbox.len(),
                r.history.len() as int,
            )
            &&& data_ids(v.log) ==> forall|x: u32| #[trigger]
                v.log.contains_key(x) && x != id ==> r.dirty.contains(x) || written_as_put(r, x)
            &&& data_ids(v.log) && v.log.contains_key(id) && !v.dirty.contains(id)
                ==> written_as_put(r, id)
        }),
{
    let u = PoolView { order: without(v.order, id), cache: v.cache.remove(id), ..v };
    let w = made_room(u);
    let r = with_page(v, id, bytes);
    without_facts(v.order, id);
    assert forall|x: u32| #[trigger] u.cache.contains_key(x) <==> u.order.contains(x) by {
        assert(v.cache.contains_key(x) <==> v.order.contains(x));
    }
    assert(!u.order.contains(id));
    assert(!w.order.contains(id)) by {
        if w.order.contains(id) {
            let i = w.order.index_of(id);
            if u.order.len() >= u.capacity {
                assert(u.order[i + 1] == id);
            } else {
                assert(u.order[i] == id);
            }
        }
    }
    assert forall|x: u32| #[trigger] w.cache.contains_key(x) <==> w.order.contains(x) by {
        assert(u.cache.contains_key(x) <==> u.order.contains(x));
        if u.order.len() >= u.capacity {
            if w.order.contains(x) {
                let i = w.order.index_of(x);
                assert(u.order[i + 1] == x);
                assert(u.order.contains(x));
            }
            if w.cache.contains_key(x) {
                let i = u.order.index_of(x);
                assert(u.order[i] == x);
                assert(w.order[i - 1] == x);
            }
        }
    }
    assert forall|x: u32| #[trigger] r.cache.contains_key(x) <==> r.order.contains(x) by {
        assert(w.cache.contains_key(x) <==> w.order.contains(x));
        if w.order.contains(x) {
            let i = w.order.index_of(x);
            assert(r.order[i] == x);
        }
        assert(r.order[w.order.len() as int] == id);
        if r.order.contains(x) {
            let i = r.order.index_of(x);
            if i < w.order.len() {
                assert(w.order[i] == x);
            }
        }
    }
    assert forall|x: u32| #[trigger] r.cache.contains_key(x) implies r.cache[x].len()
        == r.meta.size by {
        if x != id {
            assert(v.cache.contains_key(x));
        }
    }
    if u.order.len() >= u.capacity {
        let gone = u.order[0];
        assert(u.order.contains(gone));
        assert(u.cache.contains_key(gone));
        assert(gone != id);
        if v.dirty.contains(gone) {
            let a = disk::page_write(gone, v.meta.size, page::body(v.cache[gone]));
            assert(v.log.contains_key(gone));
            assert(r.history =~= v.history.push(a));
            assert(r.outbox =~= v.outbox.push(a));
            written_page(v, r, gone);
        }
    }
}

/// Caching a page that is not dirty keeps the pool in order.
pub proof fn with_page_wf(v: PoolView, id: u32, bytes: Seq<u8>)
    requires
        view_wf(v),
        !v.dirty.contains(id),
        bytes.len() == v.meta.size,
    ensures
        view_wf(with_page(v, id, bytes)),
{
    with_page_parts(v, id, bytes);
    let r = with_page(v, id, bytes);
    assert forall|x: u32| #[trigger] r.dirty.contains(x) implies r.cache.contains_key(x)
        && r.log.contains_key(x) && r.log[x] == page::body(r.cache[x]) by {
        assert(v.dirty.contains(x));
    }
}

/// Putting a page keeps the pool in order.
proof fn with_new_page_wf(v: PoolView, id: u32, bytes: Seq<u8>)
    requires
        view_wf(v),
        id < v.next_id,
        bytes.len() == v.meta.size,
    ensures
        view_wf(with_new_page(v, id, bytes)),
{
    with_page_parts(v, id, bytes);
    let w = with_page(v, id, bytes);
    let r = with_new_page(v, id, bytes);
    assert forall|i: int| 0 <= i < r.history.len() implies permitted(
        #[trigger] r.history[i],
        r.log,
        r.meta.size,
    ) by {
        assert(permitted(w.history[i], w.log, w.meta.size));
        permitted_grows(w.history[i], w.log, r.log, r.meta.size);
    }
    assert forall|x: u32| #[trigger] r.dirty.contains(x) implies r.cache.contains_key(x)
        && r.log.contains_key(x) && r.log[x] == page::body(r.cache[x]) by {
        if x != id {
            assert(w.dirty.contains(x));
            assert(v.dirty.contains(x));
        }
    }
    if data_ids(r.log) {
        assert forall|x: u32| #[trigger] v.log.contains_key(x) implies page::FIRST_DATA_PAGE_ID
            <= x by {
            assert(r.log.contains_key(x));
        }
        assert forall|x: u32| #[trigger] r.log.contains_key(x) implies r.dirty.contains(x)
            || written_as_put(r, x) by {
            if x != id {
                assert(v.log.contains_key(x));
                assert(w.dirty.contains(x) || written_as_put(w, x));
            }
        }
    }
}

/// What the writes of the dirty pages are.
pub proof fn writes_of_facts(ids: Seq<u32>, v: PoolView)
    requires
        view_wf(v),
    ensures
        forall|i: int|
            0 <= i < writes_of(ids, v).len() ==> permitted(
                #[trigger] writes_of(ids, v)[i],
                v.log,
                v.meta.size,
            ),
        forall|i: int|
            0 <= i < writes_of(ids, v).len() ==> exists|id: u32| #[trigger]
                v.dirty.contains(id) && #[trigger] writes_of(ids, v)[i] == disk::page_write(
                    id,
                    v.meta.size,
                    v.log[id],
                ),
    decreases ids.len(),
{
    if ids.len() > 0 {
        let id = ids.last();
        let before = writes_of(ids.drop_last(), v);
        let all = writes_of(ids, v);
        writes_of_facts(ids.drop_last(), v);
        let a = disk::page_write(id, v.meta.size, page::body(v.cache[id]));
        if v.dirty.contains(id) {
            assert(v.log.contains_key(id));
            assert(permitted(a, v.log, v.meta.size));
            assert(all[before.len() as int] == a);
        }
        assert forall|i: int| 0 <= i < all.len() implies permitted(
            #[trigger] all[i],
            v.log,
            v.meta.size,
        ) && exists|x: u32| #[trigger]
            v.dirty.contains(x) && all[i] == disk::page_write(x, v.meta.size, v.log[x]) by {
            if i < before.len() {
                assert(all[i] == before[i]);
            } else {
                assert(v.dirty.contains(id));
            }
        }
    }
}

/// Once the dirty pages among `ids` were written, their last writes are of
/// what is cached, and those of the other pages are what they were.
proof fn writes_of_last(ids: Seq<u32>, v: PoolView, x: u32)
    requires
        view_wf(v),
        data_ids(v.log),
        page::FIRST_DATA_PAGE_ID <= x,
    ensures
        disk::last_write(v.history + writes_of(ids, v), disk::page_offset(x, v.meta.size)) == (
        if ids.contains(x) && v.dirty.contains(x) {
            Some(page::stamped(page::body(v.cache[x])))
        } else {
            disk::last_write(v.history, disk::page_offset(x, v.meta.size))
        }),
    decreases ids.len(),
{
    if ids.len() == 0 {
        assert(v.history + writes_of(ids, v) =~= v.history);
    } else {
        let id = ids.last();
        let first = ids.drop_last();
        writes_of_last(first, v, x);
        assert(ids =~= first.push(id));
        assert(ids.contains(x) <==> first.contains(x) || x == id) by {
            if first.contains(x) {
                let i = first.index_of(x);
                assert(ids[i] == x);
            }
            if ids.contains(x) && x != id {
                let i = ids.index_of(x);
                assert(first[i] == x);
            }
            assert(ids[ids.len() - 1] == id);
        }
        if v.dirty.contains(id) {
            assert(v.log.contains_key(id));
            let c = page::body(v.cache[id]);
            let before = v.history + writes_of(first, v);
            assert(v.history + writes_of(ids, v) =~= before.push(
                disk::page_write(id, v.meta.size, c),
            ));
            disk::last_write_of_page(before, id, v.meta.size, c, x);
        }
    }
}

/// The dirty pages among `ids` are dirty.
pub proof fn dirty_among_facts(ids: Seq<u32>, dirty: Set<u32>)
    ensures
        forall|i: int|
            0 <= i < dirty_among(ids, dirty).len() ==> dirty.contains(
                #[trigger] dirty_among(ids, dirty)[i],
            ),
    decreases ids.len(),
{
    if ids.len() > 0 {
        let before = dirty_among(ids.drop_last(), dirty);
        let all = dirty_among(ids, dirty);
        dirty_among_facts(ids.drop_last(), dirty);
        assert forall|i: int| 0 <= i < all.len() implies dirty.contains(#[trigger] all[i]) by {
            if i < before.len() {
                assert(all[i] == before[i]);
            }
        }
    }
}

/// Flushing keeps the pool in order and leaves no page dirty.
pub proof fn flushed_wf(v: PoolView)
    requires
        view_wf(v),
    ensures
        view_wf(flushed(v)),
{
    let writes = writes_of(v.order, v);
    let r = flushed(v);
    writes_of_facts(v.order, v);
    assert(r.history =~= (v.history + writes).push(IoView::SyncData));
    assert forall|i: int| 0 <= i < r.history.len() implies permitted(
        #[trigger] r.history[i],
        r.log,
        r.meta.size,
    ) by {
        if i < v.history.len() {
            assert(r.history[i] == v.history[i]);
        } else if i < v.history.len() + writes.len() {
            assert(r.history[i] == writes[i - v.history.len()]);
        }
    }
    assert(r.outbox =~= r.history.subrange(
        r.history.len() - r.outbox.len(),
        r.history.len() as int,
    ));
    assert forall|id: u32| #[trigger] r.cache.contains_key(id) <==> r.order.contains(id) by {
        assert(v.cache.contains_key(id) <==> v.order.contains(id));
    }
    assert forall|id: u32| #[trigger] r.cache.contains_key(id) implies r.cache[id].len()
        == r.meta.size by {
        assert(v.cache.contains_key(id));
    }
    if data_ids(r.log) {
        assert forall|id: u32| #[trigger] r.log.contains_key(id) implies written_as_put(r, id) by {
            writes_of_last(v.order, v, id);
            assert(r.history.drop_last() =~= v.history + writes);
            assert(v.log.contains_key(id));
            if v.dirty.contains(id) {
                assert(v.cache.contains_key(id));
                assert(v.order.contains(id));
            }
        }
    }
}

/// The actions of a commit are permitted.
proof fn commit_permitted(v: PoolView, root: u32)
    requires
        page::valid_page_size(v.meta.size),
        v.active == 0 || v.active == 1,
    ensures
        forall|i: int|
            0 <= i < pager::commit_actions(v.meta, v.active, root, v.next_id).len() ==> permitted(
                #[trigger] pager::commit_actions(v.meta, v.active, root, v.next_id)[i],
                v.log,
                v.meta.size,
            ),
        forall|i: int|
            0 <= i < pager::commit_actions(v.meta, v.active, root, v.next_id).len()
                ==> match #[trigger] pager::commit_actions(v.meta, v.active, root, v.next_id)[i] {
                IoView::Write { offset, .. } => offset < page::META_REGION_LEN,
                _ => true,
            },
{
    let m = pager::next_meta(v.meta, root, v.next_id);
    let actions = pager::commit_actions(v.meta, v.active, root, v.next_id);
    pager::meta_slot_round_trip(m);
    let a = pager::slot_write(1 - v.active, m);
    assert(permitted(a, v.log, v.meta.size));
    assert forall|i: int| 0 <= i < actions.len() implies permitted(
        #[trigger] actions[i],
        v.log,
        v.meta.size,
    ) && match actions[i] {
        IoView::Write { offset, .. } => offset < page::META_REGION_LEN,
        _ => true,
    } by {
        assert(i == 0 || i == 1 || i == 2);
    }
}

/// Handing out a commit keeps the pool in order.
#[verifier::spinoff_prover]
proof fn committing_wf(v: PoolView, root: u32)
    requires
        view_wf(v),
    ensures
        view_wf(committing(v, root)),
{
    flushed_wf(v);
    let w = flushed(v);
    let actions = pager::commit_actions(v.meta, v.active, root, v.next_id);
    commit_permitted(w, root);
    let idle = PoolView { pending: None, ..w };
    emitted_wf(idle, actions);
    dirty_among_facts(v.order, v.dirty);
    let r = committing(v, root);
    assert forall|i: int| 0 <= i < r.flushing.len() implies r.log.contains_key(
        #[trigger] r.flushing[i],
    ) by {
        assert(v.dirty.contains(r.flushing[i]));
    }
}

/// Giving a commit up keeps the pool in order.
pub proof fn failed_wf(v: PoolView, performed: nat)
    requires
        view_wf(v),
    ensures
        view_wf(failed(v, performed)),
{
    let r = failed(v, performed);
    if v.pending is Some {
        let done = pages_done(v, performed);
        let left = v.flushing.skip(done);
        assert(r.outbox =~= r.history.subrange(0, 0));
        assert forall|id: u32| #[trigger] r.log.contains_key(id) implies id < r.next_id
            && r.log[id].len() == r.meta.size - page::CHECKSUM_LEN by {
            assert(v.cache.contains_key(id));
            if left.contains(id) {
                let i = left.index_of(id);
                assert(v.flushing[done + i] == id);
            }
            assert(v.log.contains_key(id));
        }
    }
}

impl BufferPool {
    /// The pool is in order.
    pub closed spec fn wf(self) -> bool {
        &&& self.pager.wf()
        &&& view_wf(self@)
    }

    /// What `wf` says of the pool's view.
    pub proof fn wf_facts(self)
        requires
            self.wf(),
        ensures
            view_wf(self@),
    {
    }

    /// A pool's page size is valid.
    pub proof fn size_is_valid(self)
        requires
            self.wf(),
        ensures
            page::valid_page_size(self@.meta.size),
    {
    }

    /// What `wf` says of the pages that a commit writes.
    pub proof fn put_facts(self)
        requires
            self.wf(),
        ensures
            flushes_put(self@),
    {
        reveal(flushes_put);
    }

    /// A buffer pool over `pager` that caches at most `capacity` pages.
    pub fn new(pager: Pager, capacity: usize) -> (r: Result<Self, PinaxError>)
        requires
            pager.wf(),
        ensures
            match r {
                Ok(pool) => capacity >= 1 && pool.wf() && pool@ == fresh_view(
                    pager@,
                    pager.active(),
                    capacity as nat,
                ),
                Err(e) => capacity == 0 && e == (PinaxError::Permanent {
                    source: PermanentError::InvalidBufferPoolCapacity,
                }),
            },
    {
        if capacity == 0 {
            return Err(PinaxError::Permanent { source: PermanentError::InvalidBufferPoolCapacity });
        }
        let next_page_id: u32 = pager.page_count();
        let pool = BufferPool {
            pager,
            capacity,
            entries: HashMap::new(),
            dirty: HashSet::new(),
            recency: VecDeque::new(),
            next_page_id,
            pending: None,
            outbox: Vec::new(),
            history: Ghost(Seq::empty()),
            log: Ghost(Map::empty()),
            flushing: Vec::new(),
            ahead: 0,
        };
        proof {
            pool.pager.wf_facts();
            let v = fresh_view(pager@, pager.active(), capacity as nat);
            assert(pool@.cache =~= v.cache);
            assert(pool@.outbox =~= v.outbox);
            assert(v.outbox =~= v.history.subrange(0, 0));
        }
        Ok(pool)
    }

    /// The database's page size.
    pub fn page_size(&self) -> (p: PageSize)
        requires
            self.wf(),
        ensures
            p.size() == self@.meta.size,
            p.wf(),
    {
        self.pager.page_size()
    }

    /// The committed root page id.
    pub fn root_page_id(&self) -> (id: u32)
        ensures
            id == self@.meta.root,
    {
        self.pager.root_page_id()
    }

    /// The next page id to allocate.
    pub fn next_page_id(&self) -> (id: u32)
        ensures
            id == self@.next_id,
    {
        self.next_page_id
    }

    /// The number of the transaction that was committed last.
    pub fn txn_id(&self) -> (n: u64)
        ensures
            n == self@.meta.txn_id,
    {
        self.pager.txn_id()
    }

    /// Where in the file data page `id` stands.
    pub fn file_offset(&self, id: u32) -> (at: u64)
        requires
            self.wf(),
        ensures
            at == disk::page_offset(id, self@.meta.size),
    {
        self.pager.file_offset(id)
    }

    /// Allocate a page id. No id is allocated twice.
    pub fn allocate_page_id(&mut self) -> (id: u32)
        requires
            old(self).wf(),
            old(self)@.next_id < u32::MAX,
        ensures
            final(self).wf(),
            id == old(self)@.next_id,
            final(self)@ == (PoolView { next_id: (id + 1) as u32, ..old(self)@ }),
    {
        let id: u32 = self.next_page_id;
        self.next_page_id = id + 1;
        id
    }

    /// Drop `id` from the recency order.
    fn drop_recency(&mut self, id: u32)
        requires
            old(self)@.order.no_duplicates(),
        ensures
            final(self)@ == (PoolView { order: without(old(self)@.order, id), ..old(self)@ }),
            final(self).pager == old(self).pager,
            final(self).entries == old(self).entries,
    {
        let n: usize = self.recency.len();
        let mut i: usize = 0;
        while i < n
            invariant
                i <= n,
                n == self.recency@.len(),
                *self == *old(self),
                self.recency@.no_duplicates(),
                forall|j: int| 0 <= j < i ==> self.recency@[j] != id,
            decreases n - i,
        {
            if self.recency[i] == id {
                proof {
                    let order = self.recency@;
                    assert(order[i as int] == id);
                    index_of_first(order, id, i as int);
                }
                let _ = self.recency.remove(i);
                return;
            }
            i = i + 1;
        }
        assert(!self.recency@.contains(id));
    }

    /// The cached bytes of page `id`, as a copy, which makes it the most
    /// recently used page; `None` if it is not cached.
    pub fn get(&mut self, id: u32) -> (r: Option<Vec<u8>>)
        requires
            old(self).wf(),
        ensures
            final(self).wf(),
            match r {
                Some(buf) => old(self)@.cache.contains_key(id) && buf@ == old(self)@.cache[id]
                    && final(self)@ == touched(old(self)@, id),
                None => !old(self)@.cache.contains_key(id) && final(self)@ == old(self)@,
            },
    {
        let buf: Vec<u8> = match self.entries.get(&id) {
            Some(buf) => {
                let copy = buf.clone();
                assert(copy@ =~= buf@);
                copy
            },
            None => {
                return None;
            },
        };
        let ghost v = self@;
        self.touch(id);
        Some(buf)
    }

    /// Make a cached page the most recently used one.
    fn touch(&mut self, id: u32)
        requires
            old(self).wf(),
            old(self)@.cache.contains_key(id),
        ensures
            final(self).wf(),
            final(self)@ == touched(old(self)@, id),
    {
        let ghost v = self@;
        self.drop_recency(id);
        self.recency.push_back(id);
        proof {
            touched_wf(v, id);
            assert(self@ == touched(v, id));
        }
    }

    /// Evict the least recently used page; a dirty one is written.
    pub fn evict_one(&mut self) -> (r: Result<(), PinaxError>)
        requires
            old(self).wf(),
        ensures
            final(self).wf(),
            match r {
                Ok(()) => old(self)@.order.len() > 0 && final(self)@ == evicted(old(self)@),
                Err(e) => old(self)@.order.len() == 0 && final(self)@ == old(self)@ && e == (
                PinaxError::Fatal { source: FatalError::PoolInvariantViolated }),
            },
    {
        if self.recency.len() == 0 {
            return Err(PinaxError::Fatal { source: FatalError::PoolInvariantViolated });
        }
        proof {
            assert(self@.order.contains(self@.order[0]));
            assert(self@.cache.contains_key(self@.order[0]));
            evicted_wf(self@);
        }
        self.evict_front()
    }

    /// Evict the page at the front of the recency order.
    fn evict_front(&mut self) -> (r: Result<(), PinaxError>)
        requires
            old(self).pager.wf(),
            old(self)@.order.len() > 0,
            old(self)@.cache.contains_key(old(self)@.order[0]),
            old(self)@.cache[old(self)@.order[0]].len() == old(self)@.meta.size,
            page::valid_page_size(old(self)@.meta.size),
        ensures
            r is Ok,
            final(self).pager == old(self).pager,
            final(self)@ == evicted(old(self)@),
    {
        let ghost v = self@;
        let id: u32 = match self.recency.pop_front() {
            Some(id) => id,
            None => {
                return Err(PinaxError::Fatal { source: FatalError::PoolInvariantViolated });
            },
        };
        let mut buf: Vec<u8> = match self.entries.remove(&id) {
            Some(buf) => buf,
            None => {
                return Err(PinaxError::Fatal { source: FatalError::PoolInvariantViolated });
            },
        };
        assert(buf@ == v.cache[id]);
        if self.dirty.remove(&id) {
            let action = self.pager.write_data_page(id, &mut buf)?;
            let ghost a = action@;
            self.outbox.push(action);
            proof {
                self.history = Ghost(self.history@.push(a));
                assert(self@.outbox =~= v.outbox + seq![a]);
                assert(self@.history =~= v.history + seq![a]);
            }
        }
        assert(self@.cache =~= evicted(v).cache);
        assert(self@.dirty =~= evicted(v).dirty);
        Ok(())
    }

    /// Cache a page as the most recently used one, dirty if it is to be or
    /// was. A page that was cached under the id gives way to it; if none was
    /// and the cache is full, the least recently used page is evicted.
    pub fn insert_cached(&mut self, id: u32, buf: Vec<u8>, dirty: bool) -> (r: Result<
        (),
        PinaxError,
    >)
        requires
            old(self).wf(),
            buf@.len() == old(self)@.meta.size,
            dirty ==> id < old(self)@.next_id,
        ensures
            r is Ok,
            final(self).wf(),
            final(self)@ == with_cached(old(self)@, id, buf@, dirty),
    {
        let ghost v = self@;
        let ghost bytes = buf@;
        let ghost u = PoolView {
            order: without(v.order, id),
            cache: v.cache.remove(id),
            ..v
        };
        let was_dirty: bool = self.dirty.contains(&id);
        proof {
            without_facts(v.order, id);
            if was_dirty || dirty {
                assert(was_dirty ==> v.log.contains_key(id));
                with_new_page_wf(v, id, bytes);
            } else {
                with_page_wf(v, id, bytes);
            }
        }
        let _ = self.entries.remove(&id);
        self.drop_recency(id);
        assert(self@.cache =~= u.cache);
        assert(self@ == u);
        if self.recency.len() >= self.capacity {
            proof {
                let gone = u.order[0];
                assert(u.order.contains(gone));
                assert(v.order.contains(gone));
                assert(v.cache.contains_key(gone));
            }
            self.evict_front()?;
        }
        let ghost w = self@;
        assert(w == made_room(u));
        let _ = self.entries.insert(id, buf);
        self.recency.push_back(id);
        assert(self@.cache =~= w.cache.insert(id, bytes));
        if dirty {
            let _ = self.dirty.insert(id);
        }
        proof {
            if was_dirty || dirty {
                self.log = Ghost(self.log@.insert(id, page::body(bytes)));
                with_page_parts(v, id, bytes);
                assert(self@.dirty =~= w.dirty.insert(id));
            }
            assert(self@ == with_cached(v, id, bytes, dirty));
        }
        Ok(())
    }

    /// Put a page, under a freshly allocated id or over the page that was
    /// put or read under it. It is dirty until it is flushed or evicted.
    pub fn put_new(&mut self, id: u32, buf: Vec<u8>) -> (r: Result<(), PinaxError>)
        requires
            old(self).wf(),
            buf@.len() == old(self)@.meta.size,
            id < old(self)@.next_id,
        ensures
            r is Ok,
            final(self).wf(),
            final(self)@ == with_new_page(old(self)@, id, buf@),
    {
        self.insert_cached(id, buf, true)
    }

    /// Put a new page under a new id, and return the id.
    pub fn put_page(&mut self, buf: Vec<u8>) -> (r: Result<u32, PinaxError>)
        requires
            old(self).wf(),
            buf@.len() == old(self)@.meta.size,
            old(self)@.next_id < u32::MAX,
        ensures
            final(self).wf(),
            r == Ok::<_, PinaxError>(old(self)@.next_id),
            grown(old(self)@, final(self)@),
            final(self)@.next_id == old(self)@.next_id + 1,
            final(self)@.log == old(self)@.log.insert(old(self)@.next_id, page::body(buf@)),
            final(self)@.cache.contains_key(old(self)@.next_id),
            final(self)@.cache[old(self)@.next_id] == buf@,
    {
        proof {
            put_grows(self@, buf@);
        }
        let id: u32 = self.allocate_page_id();
        self.put_new(id, buf)?;
        Ok(id)
    }

    /// Make page `id` the most recently used one. If it has left the cache
    /// it comes back, as the copy `buf` that was made of it.
    pub fn recall(&mut self, id: u32, buf: &Vec<u8>) -> (r: Result<(), PinaxError>)
        requires
            old(self).wf(),
            buf@.len() == old(self)@.meta.size,
        ensures
            r is Ok,
            final(self).wf(),
            final(self)@ == recalled(old(self)@, id, buf@),
    {
        if self.entries.contains_key(&id) {
            self.touch(id);
            Ok(())
        } else {
            let copy = buf.clone();
            assert(copy@ =~= buf@);
            self.insert_cached(id, copy, false)
        }
    }

    /// Take the bytes that the file has for page `id` into the cache, if
    /// their checksum verifies and it is not there already.
    pub fn supply(&mut self, id: u32, bytes: Vec<u8>) -> (r: Result<(), PinaxError>)
        requires
            old(self).wf(),
            bytes@.len() == old(self)@.meta.size,
        ensures
            final(self).wf(),
            match r {
                Ok(()) => if old(self)@.cache.contains_key(id) {
                    final(self)@ == old(self)@
                } else {
                    page::checksum_ok(bytes@) && final(self)@ == with_page(old(self)@, id, bytes@)
                },
                Err(e) => !old(self)@.cache.contains_key(id) && !page::checksum_ok(bytes@)
                    && final(self)@ == old(self)@ && e == (PinaxError::Fatal {
                    source: FatalError::Corruption {
                        page_id: id,
                        expected: page::stored_checksum(bytes@),
                        actual: page::checksum_of(bytes@),
                    },
                }),
            },
    {
        if self.entries.contains_key(&id) {
            return Ok(());
        }
        let buf = self.pager.read_data_page(id, bytes)?;
        self.insert_cached(id, buf, false)
    }

    /// Write a cached page if it is dirty. It stays cached.
    fn flush_page(&mut self, id: u32) -> (r: Result<(), PinaxError>)
        requires
            old(self).pager.wf(),
            old(self)@.cache.contains_key(id),
            old(self)@.cache[id].len() == old(self)@.meta.size,
        ensures
            r is Ok,
            final(self).pager.wf(),
            final(self)@ == page_flushed(old(self)@, id),
    {
        let ghost w = self@;
        proof {
            self.pager.wf_facts();
        }
        if self.dirty.remove(&id) {
            let mut buf: Vec<u8> = match self.entries.remove(&id) {
                Some(buf) => buf,
                None => {
                    return Err(PinaxError::Fatal { source: FatalError::PoolInvariantViolated });
                },
            };
            let action = self.pager.write_data_page(id, &mut buf)?;
            let ghost bytes = buf@;
            let ghost a = action@;
            let _ = self.entries.insert(id, buf);
            self.outbox.push(action);
            proof {
                self.history = Ghost(self.history@.push(a));
                assert(self@.outbox =~= w.outbox + seq![a]);
                assert(self@.history =~= w.history + seq![a]);
                assert(self@.cache =~= w.cache.insert(id, bytes));
                assert(self@.dirty =~= w.dirty.remove(id));
            }
        } else {
            assert(self@.dirty =~= w.dirty);
        }
        Ok(())
    }

    /// Write every dirty page, oldest first, and sync. The pages stay
    /// cached.
    pub fn flush_all_dirty(&mut self) -> (r: Result<(), PinaxError>)
        requires
            old(self).wf(),
        ensures
            r is Ok,
            final(self).wf(),
            final(self)@ == flushed(old(self)@),
    {
        let ghost v = self@;
        let n: usize = self.recency.len();
        let mut i: usize = 0;
        assert(v.order.take(0) =~= Seq::<u32>::empty());
        assert(self@.outbox =~= v.outbox + writes_of(v.order.take(0), v));
        assert(self@.history =~= v.history + writes_of(v.order.take(0), v));
        while i < n
            invariant
                i <= n,
                n == v.order.len(),
                view_wf(v),
                self.pager.wf(),
                self@ == (PoolView {
                    cache: self@.cache,
                    dirty: self@.dirty,
                    outbox: v.outbox + writes_of(v.order.take(i as int), v),
                    history: v.history + writes_of(v.order.take(i as int), v),
                    ..v
                }),
                self@.cache.dom() == v.cache.dom(),
                forall|j: int|
                    i <= j < n ==> self@.cache[#[trigger] v.order[j]] == v.cache[v.order[j]]
                        && self@.dirty.contains(v.order[j]) == v.dirty.contains(v.order[j]),
                forall|j: int|
                    0 <= j < i ==> self@.cache[#[trigger] v.order[j]] == stamped_cache(
                        v,
                    )[v.order[j]] && !self@.dirty.contains(v.order[j]),
                forall|x: u32| #[trigger] self@.dirty.contains(x) ==> v.dirty.contains(x),
            decreases n - i,
        {
            let ghost w = self@;
            let id: u32 = self.recency[i];
            let ghost done = v.order.take(i as int);
            let ghost next = v.order.take(i + 1);
            assert(id == v.order[i as int]);
            assert(next.drop_last() =~= done);
            assert(next.last() == id);
            assert(v.order.contains(id));
            assert(v.cache.contains_key(id));
            assert(w.cache.dom().contains(id));
            self.flush_page(id)?;
            proof {
                assert(self@.outbox =~= v.outbox + writes_of(next, v));
                assert(self@.history =~= v.history + writes_of(next, v));
            }
            proof {
                assert(self@.cache.dom() =~= v.cache.dom());
                assert forall|j: int| i + 1 <= j < n implies self@.cache[#[trigger] v.order[j]]
                    == v.cache[v.order[j]] && self@.dirty.contains(v.order[j]) == v.dirty.contains(
                    v.order[j],
                ) by {
                    assert(v.order[j] != id);
                    assert(w.cache[v.order[j]] == v.cache[v.order[j]]);
                    assert(v.cache.contains_key(v.order[j])) by {
                        assert(v.order.contains(v.order[j]));
                    }
                }
                assert forall|j: int| 0 <= j < i + 1 implies self@.cache[#[trigger] v.order[j]]
                    == stamped_cache(v)[v.order[j]] && !self@.dirty.contains(v.order[j]) by {
                    assert(v.cache.contains_key(v.order[j])) by {
                        assert(v.order.contains(v.order[j]));
                    }
                    if j < i {
                        assert(v.order[j] != id);
                        assert(w.cache[v.order[j]] == stamped_cache(v)[v.order[j]]);
                    }
                }
            }
            i = i + 1;
        }
        assert(v.order.take(n as int) =~= v.order);
        let ghost before = self@;
        self.outbox.push(IoAction::SyncData);
        proof {
            self.history = Ghost(self.history@.push(IoView::SyncData));
            flushed_wf(v);
            let r = flushed(v);
            assert forall|x: u32| !self@.dirty.contains(x) by {
                if self@.dirty.contains(x) {
                    assert(v.dirty.contains(x));
                    assert(v.cache.contains_key(x));
                    assert(v.order.contains(x));
                    let j = v.order.index_of(x);
                    assert(v.order[j] == x);
                }
            }
            assert(self@.dirty =~= r.dirty);
            assert forall|x: u32| self@.cache.contains_key(x) implies self@.cache[x]
                == r.cache[x] by {
                assert(self@.cache.dom().contains(x));
                assert(v.cache.contains_key(x));
                assert(v.order.contains(x));
                let j = v.order.index_of(x);
                assert(v.order[j] == x);
            }
            assert(self@.cache =~= r.cache);
            let sync = seq![IoView::SyncData];
            assert(writes_of(v.order, v).push(IoView::SyncData) =~= writes_of(v.order, v) + sync);
            assert(disk::io_views(self.outbox@) =~= before.outbox.push(IoView::SyncData));
            assert(self@.outbox =~= r.outbox);
            assert(self@.history =~= r.history);
        }
        Ok(())
    }

    /// The dirty pages, least recently used first.
    fn dirty_pages(&self) -> (ids: Vec<u32>)
        ensures
            ids@ == dirty_among(self@.order, self@.dirty),
    {
        let ghost v = self@;
        let n: usize = self.recency.len();
        let mut ids: Vec<u32> = Vec::new();
        let mut i: usize = 0;
        while i < n
            invariant
                i <= n,
                n == v.order.len(),
                self@ == v,
                ids@ == dirty_among(v.order.take(i as int), v.dirty),
            decreases n - i,
        {
            let id: u32 = self.recency[i];
            proof {
                assert(v.order.take(i + 1).drop_last() =~= v.order.take(i as int));
                assert(v.order.take(i + 1).last() == id);
            }
            if self.dirty.contains(&id) {
                ids.push(id);
            }
            i = i + 1;
        }
        assert(v.order.take(n as int) =~= v.order);
        ids
    }

    /// Flush, then hand out the commit of `new_root` as the tree's root.
    /// The committed state changes with [`BufferPool::commit_done`].
    pub fn commit(&mut self, new_root: u32) -> (r: Result<(), PinaxError>)
        requires
            old(self).wf(),
            old(self)@.meta.txn_id < u64::MAX,
        ensures
            r is Ok,
            final(self).wf(),
            final(self)@ == committing(old(self)@, new_root),
    {
        let ghost v = self@;
        let ids = self.dirty_pages();
        let ahead: usize = self.outbox.len();
        self.flush_all_dirty()?;
        let mut actions = self.pager.commit(new_root, self.next_page_id)?;
        let ghost w = self@;
        let ghost more = disk::io_views(actions@);
        self.outbox.append(&mut actions);
        self.pending = Some((new_root, self.next_page_id));
        self.flushing = ids;
        self.ahead = ahead;
        proof {
            self.history = Ghost(self.history@ + more);
            committing_wf(v, new_root);
            assert(self@.outbox =~= w.outbox + more);
            assert(self@ == committing(v, new_root));
        }
        Ok(())
    }

    /// Take the commit that was handed out as performed. Without one, do
    /// nothing.
    pub fn commit_done(&mut self)
        requires
            old(self).wf(),
            old(self)@.meta.txn_id < u64::MAX,
            old(self)@.dirty == Set::<u32>::empty(),
            old(self)@.pending matches Some(p) ==> p.1 == old(self)@.next_id,
        ensures
            final(self).wf(),
            final(self)@ == (match old(self)@.pending {
                Some((root, count)) => PoolView {
                    meta: pager::next_meta(old(self)@.meta, root, count),
                    active: 1 - old(self)@.active,
                    pending: None,
                    ..old(self)@
                },
                None => old(self)@,
            }),
    {
        if let Some((root, count)) = self.pending {
            self.pager.commit_done(root, count);
            self.pending = None;
        }
    }

    /// Whether a commit was handed out and not yet performed or given up.
    pub fn has_pending(&self) -> (r: bool)
        ensures
            r == (self@.pending is Some),
    {
        self.pending.is_some()
    }

    /// Give up the commit that was handed out: only its first actions, this
    /// many, were performed. The cached pages stay; those that were not
    /// written are dirty again. Without a commit, do nothing.
    pub fn commit_failed(&mut self, performed: usize)
        requires
            old(self).wf(),
        ensures
            final(self).wf(),
            final(self)@ == failed(old(self)@, performed as nat),
    {
        if self.pending.is_none() {
            return;
        }
        let ghost v = self@;
        let ghost r = failed(v, performed as nat);
        let n: usize = self.flushing.len();
        let mut i: usize = if performed <= self.ahead {
            0
        } else if performed - self.ahead >= n {
            n
        } else {
            performed - self.ahead
        };
        let ghost done = i as int;
        proof {
            failed_wf(v, performed as nat);
        }
        while i < n
            invariant
                0 <= done <= i <= n,
                n == v.flushing.len(),
                self@ == (PoolView { dirty: self@.dirty, ..v }),
                self.pager.wf(),
                forall|x: u32| #[trigger]
                    self@.dirty.contains(x) <==> v.dirty.contains(x) || v.cache.contains_key(x)
                        && v.flushing.subrange(done, i as int).contains(x),
            decreases n - i,
        {
            let id: u32 = self.flushing[i];
            let ghost before = self@;
            if self.entries.contains_key(&id) {
                let _ = self.dirty.insert(id);
            }
            proof {
                let a = v.flushing.subrange(done, i as int);
                let b = v.flushing.subrange(done, i + 1);
                assert(b =~= a.push(id));
                assert forall|x: u32| #[trigger] self@.dirty.contains(x) <==> v.dirty.contains(x)
                    || v.cache.contains_key(x) && b.contains(x) by {
                    assert(before.dirty.contains(x) <==> v.dirty.contains(x)
                        || v.cache.contains_key(x) && a.contains(x));
                    if a.contains(x) {
                        let k = a.index_of(x);
                        assert(b[k] == x);
                    }
                    assert(b[i - done] == id);
                    if b.contains(x) && x != id {
                        let k = b.index_of(x);
                        assert(a[k] == x);
                    }
                }
            }
            i = i + 1;
        }
        self.pending = None;
        self.outbox = Vec::new();
        proof {
            self.history = Ghost(Seq::empty());
            self.log = Ghost(r.log);
            assert(v.flushing.subrange(done, n as int) =~= v.flushing.skip(done));
            assert forall|x: u32| #[trigger] self@.dirty.contains(x) <==> r.dirty.contains(x) by {
                if v.dirty.contains(x) {
                    assert(v.cache.contains_key(x));
                }
            }
            assert(self@.dirty =~= r.dirty);
            assert(self@.outbox =~= Seq::<IoView>::empty());
            assert(self@ == r);
        }
    }

    /// Hand out the actions that are to be performed.
    pub fn take_outbox(&mut self) -> (actions: Vec<IoAction>)
        requires
            old(self).wf(),
        ensures
            final(self).wf(),
            disk::io_views(actions@) == old(self)@.outbox,
            final(self)@ == (PoolView { outbox: Seq::empty(), ..old(self)@ }),
    {
        let ghost v = self@;
        let mut actions: Vec<IoAction> = Vec::new();
        actions.append(&mut self.outbox);
        proof {
            assert(disk::io_views(actions@) =~= v.outbox);
            assert(self@.outbox =~= Seq::<IoView>::empty());
            assert(self@.outbox =~= v.history.subrange(
                v.history.len() as int,
                v.history.len() as int,
            ));
        }
        actions
    }
}

/// The place of the first of an element's occurrences.
proof fn index_of_first(order: Seq<u32>, id: u32, i: int)
    requires
        0 <= i < order.len(),
        order[i] == id,
        forall|j: int| 0 <= j < i ==> order[j] != id,
        forall|j: int| i < j < order.len() ==> order[j] != id,
    ensures
        order.index_of(id) == i,
{
}

} // verus!
