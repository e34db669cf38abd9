//! What the operations of a database mean together: what is read back of
//! what was written, and what a write leaves alone.

use vstd::prelude::*;
use vstd::utf8;

use crate::btree;
use crate::btree::cursor;
use crate::btree::layout;
use crate::btree::overflow;
use crate::btree::path;
use crate::btree::tree;
use crate::btree::tree::Pages;
use crate::buffer_pool;
use crate::buffer_pool::PoolView;
use crate::database;
use crate::database::Progress;
use crate::disk::IoAction;
use crate::error::{PermanentError, PinaxError};
use crate::lexis::value;
use crate::lexis::value::ValueView;
use crate::page;
use crate::row;
use crate::row::Row;

verus! {

/// The commit that was handed out in the state `w` stored `vs` under `key`,
/// on top of the committed tree of `pages` in the state `v`.
pub open spec fn wrote(
    v: PoolView,
    w: PoolView,
    pages: Pages,
    key: i64,
    vs: Seq<ValueView>,
    r: Result<Progress<()>, PinaxError>,
) -> bool {
    &&& r matches Ok(Progress::Commit { .. })
    &&& database::insert_outcome(v, w, pages, key, vs, r) || database::update_outcome(
        v,
        w,
        pages,
        key,
        vs,
        r,
    )
}

/// What a write stores, and that it can be read back.
proof fn wrote_facts(
    v: PoolView,
    w: PoolView,
    pages: Pages,
    key: i64,
    vs: Seq<ValueView>,
    r: Result<Progress<()>, PinaxError>,
)
    requires
        cursor::valid(v, pages),
        wrote(v, w, pages, key, vs, r),
    ensures
        ({
            let all = buffer_pool::with_log(pages, w);
            let es = cursor::committed(v, pages);
            let after = cursor::committed(database::commit_performed(w), all);
            &&& after == tree::put(es, key, Some(row::row_bytes(vs)))
            &&& tree::ascending(after)
            &&& tree::find(after, key) == Some(row::row_bytes(vs))
            &&& forall|other: i64|
                other != key ==> #[trigger] tree::find(after, other) == tree::find(es, other)
        }),
        row::oversize(vs) is None,
{
    let es = cursor::committed(v, pages);
    tree::tree_entries_ascend(pages, v.meta.root, btree::usable(v));
    tree::put_laws(es, key, Some(row::row_bytes(vs)), tree::key_lo(), tree::key_hi());
    assert(overflow::row_too_large(vs) is None);
}

/// After a row was inserted or updated, a lookup of its key returns it.
pub proof fn get_returns_what_was_written(
    v: PoolView,
    w: PoolView,
    pages: Pages,
    key: i64,
    vs: Seq<ValueView>,
    r: Result<Progress<()>, PinaxError>,
    found: Result<Progress<Option<Row>>, PinaxError>,
)
    requires
        cursor::valid(v, pages),
        wrote(v, w, pages, key, vs, r),
        forall|i: int| 0 <= i < vs.len() ==> value::value_view_wf(#[trigger] vs[i]),
        database::get_outcome(
            database::commit_performed(w),
            buffer_pool::with_log(pages, w),
            key,
            found,
        ),
        found is Err || found matches Ok(Progress::Done(_)),
    ensures
        found matches Ok(Progress::Done(Some(row))) && row@ == vs,
{
    wrote_facts(v, w, pages, key, vs, r);
    row::row_round_trip(vs);
}

/// Writing a row leaves what is stored under the other keys alone.
pub proof fn write_leaves_other_keys(
    v: PoolView,
    w: PoolView,
    pages: Pages,
    key: i64,
    vs: Seq<ValueView>,
    r: Result<Progress<()>, PinaxError>,
    other: i64,
)
    requires
        cursor::valid(v, pages),
        wrote(v, w, pages, key, vs, r),
        other != key,
    ensures
        tree::find(
            cursor::committed(database::commit_performed(w), buffer_pool::with_log(pages, w)),
            other,
        ) == tree::find(cursor::committed(v, pages), other),
{
    wrote_facts(v, w, pages, key, vs, r);
}

/// After a row was deleted, there is none under its key, and what is stored
/// under the other keys is as it was.
pub proof fn delete_removes_one_row(
    v: PoolView,
    w: PoolView,
    pages: Pages,
    key: i64,
    r: Result<Progress<Row>, PinaxError>,
)
    requires
        cursor::valid(v, pages),
        r matches Ok(Progress::Commit { .. }),
        database::delete_outcome(v, w, pages, key, r),
    ensures
        ({
            let es = cursor::committed(v, pages);
            let after = cursor::committed(
                database::commit_performed(w),
                buffer_pool::with_log(pages, w),
            );
            &&& tree::find(after, key) is None
            &&& forall|other: i64|
                other != key ==> #[trigger] tree::find(after, other) == tree::find(es, other)
        }),
{
    let es = cursor::committed(v, pages);
    tree::tree_entries_ascend(pages, v.meta.root, btree::usable(v));
    tree::put_laws(es, key, None, tree::key_lo(), tree::key_hi());
}

/// A delete returns the row that a lookup returns.
pub proof fn delete_returns_what_get_returns(
    v: PoolView,
    w: PoolView,
    pages: Pages,
    key: i64,
    r: Result<Progress<Row>, PinaxError>,
    found: Result<Progress<Option<Row>>, PinaxError>,
)
    requires
        r matches Ok(Progress::Commit { .. }),
        database::delete_outcome(v, w, pages, key, r),
        database::get_outcome(v, pages, key, found),
        found is Err || found matches Ok(Progress::Done(_)),
    ensures
        r matches Ok(Progress::Commit { value, .. }) && found matches Ok(
            Progress::Done(Some(row)),
        ) && row@ == value@,
{
}

/// Deleting a row right after it was inserted gives back the entries that
/// were there before.
pub proof fn delete_undoes_insert(es: Seq<tree::Entry>, key: i64, payload: Seq<u8>)
    requires
        tree::ascending(es),
        tree::find(es, key) is None,
    ensures
        tree::put(tree::put(es, key, Some(payload)), key, None) == es,
{
    let r = tree::rank(es, key);
    tree::rank_bounds(es, key);
    let more = tree::put(es, key, Some(payload));
    assert forall|i: int| 0 <= i < r implies (#[trigger] more[i]).0 < key by {
        assert(more[i] == es[i]);
    }
    assert(more[r] == (key, payload));
    tree::rank_is(more, key, r);
    assert(tree::put(more, key, None) =~= es);
}

/// Updating a row twice is updating it once, with the later row.
pub proof fn last_update_wins(es: Seq<tree::Entry>, key: i64, first: Seq<u8>, second: Seq<u8>)
    requires
        tree::ascending(es),
    ensures
        tree::put(tree::put(es, key, Some(first)), key, Some(second)) == tree::put(
            es,
            key,
            Some(second),
        ),
{
    let r = tree::rank(es, key);
    tree::rank_bounds(es, key);
    let once = tree::put(es, key, Some(first));
    assert forall|i: int| 0 <= i < r implies (#[trigger] once[i]).0 < key by {
        assert(once[i] == es[i]);
    }
    assert(once[r] == (key, first));
    tree::rank_is(once, key, r);
    assert(tree::put(once, key, Some(second)) =~= tree::put(es, key, Some(second)));
}

/// An insert under a key that is taken, and an update or a delete under one
/// that is not, fail with the error that says so.
pub proof fn refused_writes(
    v: PoolView,
    w: PoolView,
    pages: Pages,
    key: i64,
    vs: Seq<ValueView>,
    r: Result<Progress<()>, PinaxError>,
    d: Result<Progress<Row>, PinaxError>,
)
    requires
        r is Err || r matches Ok(Progress::Commit { .. }),
        d is Err || d matches Ok(Progress::Commit { .. }),
    ensures
        tree::find(cursor::committed(v, pages), key) is Some && database::insert_outcome(
            v,
            w,
            pages,
            key,
            vs,
            r,
        ) ==> r == Err::<Progress<()>, PinaxError>(btree::key_exists(key)),
        tree::find(cursor::committed(v, pages), key) is None && database::update_outcome(
            v,
            w,
            pages,
            key,
            vs,
            r,
        ) ==> r == Err::<Progress<()>, PinaxError>(btree::key_not_found(key)),
        tree::find(cursor::committed(v, pages), key) is None && database::delete_outcome(
            v,
            w,
            pages,
            key,
            d,
        ) ==> d == Err::<Progress<Row>, PinaxError>(btree::key_not_found(key)),
{
}

/// An insert of a row that is not too large, where the counters suffice,
/// stores the row if the key is free, whatever the sizes of the rows, and
/// fails because of the key if it is not.
pub proof fn insert_stores_or_finds_the_key(
    v: PoolView,
    w: PoolView,
    pages: Pages,
    key: i64,
    vs: Seq<ValueView>,
    r: Result<Progress<()>, PinaxError>,
)
    requires
        r is Err || r matches Ok(Progress::Commit { .. }),
        database::insert_outcome(v, w, pages, key, vs, r),
        overflow::row_too_large(vs) is None,
        forall|nodes: path::Nodes| #[trigger]
            btree::at_leaf(v, nodes, key, pages) ==> btree::counters_left(
                v,
                btree::insert_pages(nodes, key, row::row_bytes(vs).len(), v.meta.size),
            ),
    ensures
        ({
            let es = cursor::committed(v, pages);
            if tree::find(es, key) is Some {
                r == Err::<Progress<()>, PinaxError>(btree::key_exists(key))
            } else {
                &&& r matches Ok(Progress::Commit { .. })
                &&& cursor::committed(
                    database::commit_performed(w),
                    buffer_pool::with_log(pages, w),
                ) == tree::put(es, key, Some(row::row_bytes(vs)))
            }
        }),
{
}

/// An update to a row that is not too large, where the counters suffice,
/// stores the row if there is one under the key, whatever the sizes of the
/// rows, and fails because of the key if there is none.
pub proof fn update_stores_or_misses_the_key(
    v: PoolView,
    w: PoolView,
    pages: Pages,
    key: i64,
    vs: Seq<ValueView>,
    r: Result<Progress<()>, PinaxError>,
)
    requires
        r is Err || r matches Ok(Progress::Commit { .. }),
        database::update_outcome(v, w, pages, key, vs, r),
        overflow::row_too_large(vs) is None,
        forall|nodes: path::Nodes| #[trigger]
            btree::at_leaf(v, nodes, key, pages) ==> btree::counters_left(
                v,
                btree::update_pages(nodes, key, row::row_bytes(vs).len(), v.meta.size),
            ),
    ensures
        ({
            let es = cursor::committed(v, pages);
            if tree::find(es, key) is None {
                r == Err::<Progress<()>, PinaxError>(btree::key_not_found(key))
            } else {
                &&& r matches Ok(Progress::Commit { .. })
                &&& cursor::committed(
                    database::commit_performed(w),
                    buffer_pool::with_log(pages, w),
                ) == tree::put(es, key, Some(row::row_bytes(vs)))
            }
        }),
{
}

/// A delete of a row that decodes, where the counters suffice, returns the
/// row and removes it and no other, and fails because of the key if there is
/// none under it.
pub proof fn delete_removes_or_misses_the_key(
    v: PoolView,
    w: PoolView,
    pages: Pages,
    key: i64,
    r: Result<Progress<Row>, PinaxError>,
)
    requires
        r is Err || r matches Ok(Progress::Commit { .. }),
        database::delete_outcome(v, w, pages, key, r),
        tree::find(cursor::committed(v, pages), key) matches Some(p) ==> row::parse_row(p) is Ok,
        forall|nodes: path::Nodes| #[trigger]
            btree::at_leaf(v, nodes, key, pages) ==> btree::counters_left(v, nodes.len() as int),
    ensures
        ({
            let es = cursor::committed(v, pages);
            match tree::find(es, key) {
                None => r == Err::<Progress<Row>, PinaxError>(btree::key_not_found(key)),
                Some(p) => {
                    &&& r matches Ok(Progress::Commit { value, .. }) && row::parse_row(p) == Ok::<
                        _,
                        row::Fault,
                    >(value@)
                    &&& cursor::committed(
                        database::commit_performed(w),
                        buffer_pool::with_log(pages, w),
                    ) == tree::put(es, key, None)
                },
            }
        }),
{
}

/// A scan returns each key once, in ascending order, with the row that a
/// lookup of the key returns, and leaves no key out.
pub proof fn scan_is_sorted_and_complete(
    v: PoolView,
    pages: Pages,
    rows: Vec<(i64, Row)>,
)
    requires
        cursor::valid(v, pages),
        database::scan_outcome(v, pages, Ok(Progress::Done(rows))),
    ensures
        forall|i: int, j: int|
            0 <= i < j < rows@.len() ==> (#[trigger] rows@[i]).0 < (#[trigger] rows@[j]).0,
        forall|i: int, found: Result<Progress<Option<Row>>, PinaxError>|
            0 <= i < rows@.len() && #[trigger] database::get_outcome(
                v,
                pages,
                (#[trigger] rows@[i]).0,
                found,
            ) && (found is Err || found matches Ok(Progress::Done(_))) ==> (found matches Ok(
                Progress::Done(Some(row)),
            ) && row@ == rows@[i].1@),
        forall|key: i64| #[trigger]
            tree::find(cursor::committed(v, pages), key) is Some ==> exists|i: int|
                0 <= i < rows@.len() && (#[trigger] rows@[i]).0 == key,
{
    let es = cursor::committed(v, pages);
    tree::tree_entries_ascend(pages, v.meta.root, btree::usable(v));
    assert forall|i: int, j: int| 0 <= i < j < rows@.len() implies (#[trigger] rows@[i]).0 < (
    #[trigger] rows@[j]).0 by {
        assert(es[i].0 < es[j].0);
    }
    assert forall|i: int, found: Result<Progress<Option<Row>>, PinaxError>|
        0 <= i < rows@.len() && #[trigger] database::get_outcome(
            v,
            pages,
            (#[trigger] rows@[i]).0,
            found,
        ) && (found is Err || found matches Ok(Progress::Done(_))) implies (found matches Ok(
        Progress::Done(Some(row)),
    ) && row@ == rows@[i].1@) by {
        tree::find_is(es, rows@[i].0, i);
    }
    assert forall|key: i64| #[trigger]
        tree::find(es, key) is Some implies exists|i: int|
        0 <= i < rows@.len() && (#[trigger] rows@[i]).0 == key by {
        let r = tree::rank(es, key);
        tree::rank_bounds(es, key);
        assert(rows@[r].0 == key);
    }
}

/// A commit puts its pages under ids that were not used before, and leaves
/// every page, and so the tree that was committed before, as it was.
pub proof fn commit_is_copy_on_write(
    v: PoolView,
    w: PoolView,
    pages: Pages,
    actions: Seq<IoAction>,
)
    requires
        cursor::valid(v, pages),
        w.pending is Some,
        database::hands_out(v, w, actions, (w.pending->0).0),
    ensures
        ({
            let all = buffer_pool::with_log(pages, w);
            &&& tree::extends(all, pages)
            &&& forall|id: u32| #[trigger]
                all.contains_key(id) && !pages.contains_key(id) ==> v.next_id <= id < w.next_id
            &&& tree::tree_ok(all, v.meta.root, btree::usable(v))
            &&& tree::tree_entries(all, v.meta.root) == cursor::committed(v, pages)
        }),
{
    reveal(database::hands_out);
    let root = (w.pending->0).0;
    let m = choose|m: PoolView|
        {
            &&& #[trigger] buffer_pool::extended(v, m)
            &&& buffer_pool::view_wf(m)
            &&& crate::disk::io_views(actions) == buffer_pool::committing(m, root).outbox
            &&& w == (PoolView { outbox: Seq::empty(), ..buffer_pool::committing(m, root) })
        };
    let all = buffer_pool::with_log(pages, w);
    assert(all == buffer_pool::with_log(pages, m));
    buffer_pool::extended_pages(v, m, pages);
    tree::tree_grows(pages, all, v.meta.root, btree::usable(v));
    assert forall|id: u32| #[trigger] all.contains_key(id) && !pages.contains_key(id) implies
        v.next_id <= id < w.next_id by {
        assert(m.log.contains_key(id));
        if v.log.contains_key(id) {
            assert(pages.contains_key(id));
        }
    }
}

// ---- entries ----

/// In ascending entries, a payload is found under a key if and only if the
/// two make an entry.
pub proof fn found_is_what_is_there(es: Seq<tree::Entry>, key: i64, payload: Seq<u8>)
    requires
        forall|i: int, j: int|
            0 <= i < j < es.len() ==> (#[trigger] es[i]).0 < (#[trigger] es[j]).0,
    ensures
        tree::find(es, key) == Some(payload) <==> es.contains((key, payload)),
        tree::find(es, key) is None <==> forall|i: int|
            0 <= i < es.len() ==> (#[trigger] es[i]).0 != key,
{
    tree::rank_bounds(es, key);
    if es.contains((key, payload)) {
        let i = es.index_of((key, payload));
        tree::find_is(es, key, i);
    }
    if tree::find(es, key) is Some {
        assert(es[tree::rank(es, key)].0 == key);
        assert(es[tree::rank(es, key)] == (key, tree::find(es, key)->0));
    } else {
        assert forall|i: int| 0 <= i < es.len() implies (#[trigger] es[i]).0 != key by {
            if es[i].0 == key {
                tree::find_is(es, key, i);
            }
        }
    }
}

/// Storing a payload makes the key and the payload an entry, in place of the
/// one that the key had, and leaves all other entries, and no others, there.
/// Storing nothing takes the key's entry away.
pub proof fn put_changes_one_entry(
    es: Seq<tree::Entry>,
    key: i64,
    payload: Option<Seq<u8>>,
    other: tree::Entry,
)
    requires
        forall|i: int, j: int|
            0 <= i < j < es.len() ==> (#[trigger] es[i]).0 < (#[trigger] es[j]).0,
    ensures
        ({
            let after = tree::put(es, key, payload);
            &&& forall|i: int, j: int|
                0 <= i < j < after.len() ==> (#[trigger] after[i]).0 < (#[trigger] after[j]).0
            &&& after.contains(other) <==> (if other.0 == key {
                payload == Some(other.1)
            } else {
                es.contains(other)
            })
        }),
{
    let after = tree::put(es, key, payload);
    assert(tree::within(es, tree::key_lo(), tree::key_hi()));
    tree::put_laws(es, key, payload, tree::key_lo(), tree::key_hi());
    found_is_what_is_there(es, other.0, other.1);
    found_is_what_is_there(after, other.0, other.1);
}

// ---- when writes succeed ----

/// How many overflow pages a payload takes at most.
proof fn chain_is_short(len: nat, size: int)
    requires
        page::valid_page_size(size),
    ensures
        0 <= btree::chain_pages(len, size) <= len as int / (size - 13) + 1,
{
    let cap = overflow::chunk_cap(size);
    let tail = overflow::spilled(len, size);
    chunks_fill(tail, cap);
    let n = overflow::chunk_count(tail, cap) as int;
    assert(n <= len as int / cap + 1) by (nonlinear_arith)
        requires
            n * cap < tail + cap,
            tail <= len,
            cap > 0,
    ;
}

/// All pages of a chain but the last are full.
proof fn chunks_fill(len: nat, cap: int)
    requires
        0 < cap,
    ensures
        overflow::chunk_count(len, cap) * cap < len + cap,
    decreases len,
{
    let all = overflow::chunk_count(len, cap) as int;
    if len <= cap {
        assert(all * cap < len + cap) by (nonlinear_arith)
            requires
                0 < cap,
                0 <= len,
                len == 0 && all == 0 || len > 0 && all == 1,
        ;
    } else {
        let rest = (len - cap) as nat;
        chunks_fill(rest, cap);
        let n = overflow::chunk_count(rest, cap) as int;
        assert((1 + n) * cap == cap + n * cap) by (nonlinear_arith);
    }
}

/// How many pages carry a change up at most.
proof fn climb_is_short(nodes: path::Nodes, i: int, parts: int, size: int)
    ensures
        0 <= btree::climb_pages(nodes, i, parts, size),
        i >= 0 ==> btree::climb_pages(nodes, i, parts, size) <= 2 * i + 1,
        i < 0 ==> btree::climb_pages(nodes, i, parts, size) <= 1,
    decreases i,
{
    if i > 0 {
        climb_is_short(nodes, i - 1, 1, size);
        climb_is_short(nodes, i - 1, 2, size);
    }
}

/// How many pages an insert or an update puts at most.
proof fn writes_are_short(nodes: path::Nodes, key: i64, len: nat, size: int)
    requires
        page::valid_page_size(size),
    ensures
        btree::insert_pages(nodes, key, len, size) <= len as int / (size - 13) + 3 + 2
            * nodes.len(),
        nodes.len() > 0 ==> btree::update_pages(nodes, key, len, size) <= len as int / (size - 13)
            + 3 + 2 * nodes.len(),
{
    chain_is_short(len, size);
    if nodes.len() > 0 {
        let i = nodes.len() - 1;
        climb_is_short(nodes, i, btree::leaf_parts(nodes.last().1, key, len), size);
        climb_is_short(nodes, i, btree::update_parts(nodes.last().1, key, len), size);
    }
}

/// A row whose column count, texts, blobs and encoding have lengths of 32
/// bits at most is not too large.
proof fn fitting_row_is_not_too_large(vs: Seq<ValueView>)
    requires
        vs.len() <= 0xFFFF_FFFF,
        forall|i: int|
            0 <= i < vs.len() ==> match #[trigger] vs[i] {
                ValueView::Text(s) => utf8::encode_utf8(s).len() <= 0xFFFF_FFFF,
                ValueView::Blob(b) => b.len() <= 0xFFFF_FFFF,
                _ => true,
            },
        row::row_bytes(vs).len() <= 0xFFFF_FFFF,
    ensures
        overflow::row_too_large(vs) is None,
{
    fitting_values(vs);
}

proof fn fitting_values(vs: Seq<ValueView>)
    requires
        forall|i: int|
            0 <= i < vs.len() ==> match #[trigger] vs[i] {
                ValueView::Text(s) => utf8::encode_utf8(s).len() <= 0xFFFF_FFFF,
                ValueView::Blob(b) => b.len() <= 0xFFFF_FFFF,
                _ => true,
            },
    ensures
        row::oversize_value(vs) is None,
    decreases vs.len(),
{
    if vs.len() > 0 {
        assert forall|i: int| 0 <= i < vs.len() - 1 implies match #[trigger] vs.drop_last()[i] {
            ValueView::Text(s) => utf8::encode_utf8(s).len() <= 0xFFFF_FFFF,
            ValueView::Blob(b) => b.len() <= 0xFFFF_FFFF,
            _ => true,
        } by {
            assert(vs.drop_last()[i] == vs[i]);
        }
        fitting_values(vs.drop_last());
        let last = vs[vs.len() - 1];
        assert(last == vs.last());
    }
}

/// An insert under a free key stores every row whose column count, texts,
/// blobs and whole encoding have lengths of 32 bits at most, wherever there
/// are a transaction number and page ids left: two for each page of the
/// path, three more, and one for every overflow page that the encoding could
/// fill, and one more.
pub proof fn insert_stores_every_row_that_fits(
    v: PoolView,
    w: PoolView,
    pages: Pages,
    key: i64,
    vs: Seq<ValueView>,
    r: Result<Progress<()>, PinaxError>,
)
    requires
        page::valid_page_size(v.meta.size),
        cursor::valid(v, pages),
        r is Err || r matches Ok(Progress::Commit { .. }),
        database::insert_outcome(v, w, pages, key, vs, r),
        forall|i: int|
            0 <= i < cursor::committed(v, pages).len() ==> (#[trigger] cursor::committed(
                v,
                pages,
            )[i]).0 != key,
        vs.len() <= 0xFFFF_FFFF,
        forall|i: int|
            0 <= i < vs.len() ==> match #[trigger] vs[i] {
                ValueView::Text(s) => utf8::encode_utf8(s).len() <= 0xFFFF_FFFF,
                ValueView::Blob(b) => b.len() <= 0xFFFF_FFFF,
                _ => true,
            },
        row::row_bytes(vs).len() <= 0xFFFF_FFFF,
        v.meta.txn_id < 0xFFFF_FFFF_FFFF_FFFF,
        forall|nodes: path::Nodes| #[trigger]
            btree::at_leaf(v, nodes, key, pages) ==> v.next_id + row::row_bytes(vs).len() as int / (
            v.meta.size - 13) + 3 + 2 * nodes.len() <= 0xFFFF_FFFF,
    ensures
        r matches Ok(Progress::Commit { .. }),
        ({
            let before = cursor::committed(v, pages);
            let after = cursor::committed(
                database::commit_performed(w),
                buffer_pool::with_log(pages, w),
            );
            &&& after.contains((key, row::row_bytes(vs)))
            &&& after.len() == before.len() + 1
            &&& forall|e: tree::Entry| #[trigger] before.contains(e) ==> after.contains(e)
        }),
{
    let es = cursor::committed(v, pages);
    tree::tree_entries_ascend(pages, v.meta.root, btree::usable(v));
    tree::find_none(es, key);
    fitting_row_is_not_too_large(vs);
    if let Err(e) = r {
        let nodes = choose|nodes: path::Nodes| #[trigger]
            btree::at_leaf(v, nodes, key, pages) && btree::insert_error(e, v, nodes, es, key, vs);
        writes_are_short(nodes, key, row::row_bytes(vs).len(), v.meta.size);
        assert(false);
    }
    tree::rank_bounds(es, key);
    put_changes_one_entry(es, key, Some(row::row_bytes(vs)), (key, row::row_bytes(vs)));
    let after = cursor::committed(database::commit_performed(w), buffer_pool::with_log(pages, w));
    assert forall|e: tree::Entry| #[trigger] es.contains(e) implies after.contains(e) by {
        let i = es.index_of(e);
        assert(es[i].0 != key);
        put_changes_one_entry(es, key, Some(row::row_bytes(vs)), e);
    }
}

/// An update of a row that is there stores every row whose column count,
/// texts, blobs and whole encoding have lengths of 32 bits at most, wherever
/// there are a transaction number and page ids left: two for each page of
/// the path, three more, and one for every overflow page that the encoding
/// could fill.
pub proof fn update_stores_every_row_that_fits(
    v: PoolView,
    w: PoolView,
    pages: Pages,
    key: i64,
    vs: Seq<ValueView>,
    r: Result<Progress<()>, PinaxError>,
    old_payload: Seq<u8>,
)
    requires
        page::valid_page_size(v.meta.size),
        cursor::valid(v, pages),
        r is Err || r matches Ok(Progress::Commit { .. }),
        database::update_outcome(v, w, pages, key, vs, r),
        cursor::committed(v, pages).contains((key, old_payload)),
        vs.len() <= 0xFFFF_FFFF,
        forall|i: int|
            0 <= i < vs.len() ==> match #[trigger] vs[i] {
                ValueView::Text(s) => utf8::encode_utf8(s).len() <= 0xFFFF_FFFF,
                ValueView::Blob(b) => b.len() <= 0xFFFF_FFFF,
                _ => true,
            },
        row::row_bytes(vs).len() <= 0xFFFF_FFFF,
        v.meta.txn_id < 0xFFFF_FFFF_FFFF_FFFF,
        forall|nodes: path::Nodes| #[trigger]
            btree::at_leaf(v, nodes, key, pages) ==> v.next_id + row::row_bytes(vs).len() as int / (
            v.meta.size - 13) + 3 + 2 * nodes.len() <= 0xFFFF_FFFF,
    ensures
        r matches Ok(Progress::Commit { .. }),
        ({
            let before = cursor::committed(v, pages);
            let after = cursor::committed(
                database::commit_performed(w),
                buffer_pool::with_log(pages, w),
            );
            &&& after.contains((key, row::row_bytes(vs)))
            &&& after.len() == before.len()
            &&& forall|e: tree::Entry| #[trigger]
                before.contains(e) && e.0 != key ==> after.contains(e)
        }),
{
    let es = cursor::committed(v, pages);
    tree::tree_entries_ascend(pages, v.meta.root, btree::usable(v));
    found_is_what_is_there(es, key, old_payload);
    fitting_row_is_not_too_large(vs);
    if let Err(e) = r {
        let nodes = choose|nodes: path::Nodes| #[trigger]
            btree::at_leaf(v, nodes, key, pages) && btree::update_error(e, v, nodes, es, key, vs);
        assert(es.len() > 0);
        assert(nodes.len() > 0);
        writes_are_short(nodes, key, row::row_bytes(vs).len(), v.meta.size);
        assert(false);
    }
    tree::rank_bounds(es, key);
    put_changes_one_entry(es, key, Some(row::row_bytes(vs)), (key, row::row_bytes(vs)));
    let after = cursor::committed(database::commit_performed(w), buffer_pool::with_log(pages, w));
    assert forall|e: tree::Entry| #[trigger]
        es.contains(e) && e.0 != key implies after.contains(e) by {
        put_changes_one_entry(es, key, Some(row::row_bytes(vs)), e);
    }
}

/// A delete of a row that is there, and that decodes, returns the row and
/// removes it and no other, wherever there are a transaction number and a
/// page id for each page of the path left.
pub proof fn delete_removes_every_row_that_is_there(
    v: PoolView,
    w: PoolView,
    pages: Pages,
    key: i64,
    r: Result<Progress<Row>, PinaxError>,
    payload: Seq<u8>,
    vs: Seq<ValueView>,
)
    requires
        cursor::valid(v, pages),
        r is Err || r matches Ok(Progress::Commit { .. }),
        database::delete_outcome(v, w, pages, key, r),
        cursor::committed(v, pages).contains((key, payload)),
        row::parse_row(payload) == Ok::<_, row::Fault>(vs),
        v.meta.txn_id < 0xFFFF_FFFF_FFFF_FFFF,
        forall|nodes: path::Nodes| #[trigger]
            btree::at_leaf(v, nodes, key, pages) ==> v.next_id + nodes.len() <= 0xFFFF_FFFF,
    ensures
        r matches Ok(Progress::Commit { value, .. }) && value@ == vs,
        ({
            let before = cursor::committed(v, pages);
            let after = cursor::committed(
                database::commit_performed(w),
                buffer_pool::with_log(pages, w),
            );
            &&& after.len() == before.len() - 1
            &&& forall|e: tree::Entry| #[trigger]
                after.contains(e) <==> before.contains(e) && e.0 != key
        }),
{
    let es = cursor::committed(v, pages);
    tree::tree_entries_ascend(pages, v.meta.root, btree::usable(v));
    found_is_what_is_there(es, key, payload);
    tree::rank_bounds(es, key);
    let after = cursor::committed(database::commit_performed(w), buffer_pool::with_log(pages, w));
    assert forall|e: tree::Entry| #[trigger] after.contains(e) <==> es.contains(e) && e.0
        != key by {
        put_changes_one_entry(es, key, None, e);
    }
}

/// A write is refused for its key with the error that names the key: an
/// insert where the key has an entry, an update or a delete where it has
/// none.
pub proof fn refusals_name_the_key(
    v: PoolView,
    w: PoolView,
    pages: Pages,
    key: i64,
    vs: Seq<ValueView>,
    i: Result<Progress<()>, PinaxError>,
    u: Result<Progress<()>, PinaxError>,
    d: Result<Progress<Row>, PinaxError>,
)
    requires
        cursor::valid(v, pages),
        i is Err || i matches Ok(Progress::Commit { .. }),
        u is Err || u matches Ok(Progress::Commit { .. }),
        d is Err || d matches Ok(Progress::Commit { .. }),
        database::insert_outcome(v, w, pages, key, vs, i),
        database::update_outcome(v, w, pages, key, vs, u),
        database::delete_outcome(v, w, pages, key, d),
    ensures
        ({
            let es = cursor::committed(v, pages);
            let there = exists|k: int| 0 <= k < es.len() && (#[trigger] es[k]).0 == key;
            &&& there <==> i == Err::<Progress<()>, PinaxError>(
                PinaxError::Permanent { source: PermanentError::KeyAlreadyExists { key } },
            )
            &&& !there <==> u == Err::<Progress<()>, PinaxError>(
                PinaxError::Permanent { source: PermanentError::KeyNotFound { key } },
            )
            &&& !there <==> d == Err::<Progress<Row>, PinaxError>(
                PinaxError::Permanent { source: PermanentError::KeyNotFound { key } },
            )
        }),
{
    let es = cursor::committed(v, pages);
    tree::tree_entries_ascend(pages, v.meta.root, btree::usable(v));
    found_is_what_is_there(es, key, Seq::empty());
}

/// A write that fails for a row's size names the key and a length of more
/// than 32 bits, which is the row's column count, the length of one of its
/// texts or blobs, or that of its whole encoding. A write that fails for
/// want of counters has too few transaction numbers or page ids left.
pub proof fn failed_stores_say_why(
    v: PoolView,
    w: PoolView,
    pages: Pages,
    key: i64,
    vs: Seq<ValueView>,
    e: PinaxError,
)
    requires
        page::valid_page_size(v.meta.size),
        cursor::valid(v, pages),
        database::insert_outcome(v, w, pages, key, vs, Err(e)) || database::update_outcome(
            v,
            w,
            pages,
            key,
            vs,
            Err(e),
        ),
    ensures
        e matches PinaxError::Permanent { source: PermanentError::PayloadTooLarge {
            key: k,
            encoded_len,
        } } ==> {
            &&& k == key
            &&& exists|n: nat|
                {
                    &&& encoded_len == n as usize
                    &&& n > 0xFFFF_FFFF
                    &&& #[trigger] a_length_of(vs, n)
                }
        },
        e matches PinaxError::Fatal { source } ==> {
            &&& source is CounterExhausted
            &&& v.meta.txn_id == 0xFFFF_FFFF_FFFF_FFFF || exists|nodes: path::Nodes|
                {
                    &&& #[trigger] btree::at_leaf(v, nodes, key, pages)
                    &&& v.next_id + row::row_bytes(vs).len() as int / (v.meta.size - 13) + 3 + 2
                        * nodes.len() > 0xFFFF_FFFF
                }
        },
{
    let es = cursor::committed(v, pages);
    let nodes = if database::insert_outcome(v, w, pages, key, vs, Err(e)) {
        choose|nodes: path::Nodes| #[trigger]
            btree::at_leaf(v, nodes, key, pages) && btree::insert_error(e, v, nodes, es, key, vs)
    } else {
        choose|nodes: path::Nodes| #[trigger]
            btree::at_leaf(v, nodes, key, pages) && btree::update_error(e, v, nodes, es, key, vs)
    };
    writes_are_short(nodes, key, row::row_bytes(vs).len(), v.meta.size);
    if nodes.len() == 0 {
        tree::find_none(es, key);
    }
    if overflow::row_too_large(vs) is Some {
        let n = overflow::row_too_large(vs)->0;
        oversize_is_a_length(vs);
        assert(a_length_of(vs, n));
    }
}

/// `n` is one of the lengths that a row's encoding states: its column count,
/// the length of a text or a blob, or that of the whole.
pub open spec fn a_length_of(vs: Seq<ValueView>, n: nat) -> bool {
    ||| n == vs.len()
    ||| n == row::row_bytes(vs).len()
    ||| exists|i: int|
        0 <= i < vs.len() && match #[trigger] vs[i] {
            ValueView::Text(s) => n == utf8::encode_utf8(s).len(),
            ValueView::Blob(b) => n == b.len(),
            _ => false,
        }
}

proof fn oversize_is_a_length(vs: Seq<ValueView>)
    ensures
        row::oversize_value(vs) matches Some(n) ==> n > 0xFFFF_FFFF && exists|i: int|
            0 <= i < vs.len() && match #[trigger] vs[i] {
                ValueView::Text(s) => n == utf8::encode_utf8(s).len(),
                ValueView::Blob(b) => n == b.len(),
                _ => false,
            },
    decreases vs.len(),
{
    if vs.len() > 0 {
        oversize_is_a_length(vs.drop_last());
        if let Some(n) = row::oversize_value(vs.drop_last()) {
            let i = choose|i: int|
                0 <= i < vs.drop_last().len() && match #[trigger] vs.drop_last()[i] {
                    ValueView::Text(s) => n == utf8::encode_utf8(s).len(),
                    ValueView::Blob(b) => n == b.len(),
                    _ => false,
                };
            assert(vs[i] == vs.drop_last()[i]);
        } else {
            assert(vs[vs.len() - 1] == vs.last());
        }
    }
}

/// A delete of a row that does not decode removes nothing, and reports what
/// is wrong with the row.
pub proof fn undecodable_row_is_not_deleted(
    v: PoolView,
    w: PoolView,
    pages: Pages,
    key: i64,
    r: Result<Progress<Row>, PinaxError>,
    payload: Seq<u8>,
    f: row::Fault,
)
    requires
        cursor::valid(v, pages),
        r is Err || r matches Ok(Progress::Commit { .. }),
        database::delete_outcome(v, w, pages, key, r),
        cursor::committed(v, pages).contains((key, payload)),
        row::parse_row(payload) == Err::<Seq<ValueView>, row::Fault>(f),
    ensures
        r matches Err(e) && row::reports(e, f),
{
    let es = cursor::committed(v, pages);
    tree::tree_entries_ascend(pages, v.meta.root, btree::usable(v));
    found_is_what_is_there(es, key, payload);
}

// ---- how many pages a write puts ----

/// The path of a key starts at the root, leads over interior pages, at each
/// to the child that the key belongs to, to a leaf page, and its page ids
/// descend. A tree without pages has a path without pages.
pub proof fn path_leads_down(v: PoolView, nodes: path::Nodes, pages: Pages, key: i64, i: int)
    requires
        btree::at_leaf(v, nodes, key, pages),
    ensures
        nodes.len() == 0 <==> v.meta.root == 0,
        nodes.len() > 0 ==> nodes[0].0 == v.meta.root && nodes.last().1[0] == 1,
        0 <= i < nodes.len() ==> pages.contains_key(nodes[i].0) && pages[nodes[i].0] == nodes[i].1,
        0 <= i < nodes.len() - 1 ==> {
            let c = nodes[i].1;
            let keys = layout::interior_keys(c);
            &&& c[0] == 2
            &&& nodes[i + 1].0 == layout::interior_children(c)[layout::route(keys, key)]
            &&& nodes[i + 1].0 < nodes[i].0
        },
{
    if 0 <= i < nodes.len() - 1 {
        let u = btree::usable(v);
        path::path_node(pages, nodes, key, i, u);
        assert(path::linked_at(nodes, i, key));
        tree::interior_find(
            pages,
            nodes[i].0,
            key,
            path::path_lo(nodes, i, key),
            path::path_hi(nodes, i, key),
            u,
        );
    }
}

/// A key has one path.
pub proof fn keys_have_one_path(
    v: PoolView,
    a: path::Nodes,
    b: path::Nodes,
    pages: Pages,
    key: i64,
)
    requires
        btree::at_leaf(v, a, key, pages),
        btree::at_leaf(v, b, key, pages),
    ensures
        a == b,
{
    if a.len() > 0 {
        let n = if a.len() <= b.len() {
            a.len()
        } else {
            b.len()
        };
        assert forall|i: int| 0 <= i < n implies a[i] == b[i] by {
            paths_agree(v, a, b, pages, key, i);
        }
        if a.len() < b.len() {
            path_leads_down(v, b, pages, key, n - 1);
        } else if b.len() < a.len() {
            path_leads_down(v, a, pages, key, n - 1);
        }
        assert(a =~= b);
    } else {
        assert(a =~= b);
    }
}

proof fn paths_agree(
    v: PoolView,
    a: path::Nodes,
    b: path::Nodes,
    pages: Pages,
    key: i64,
    i: int,
)
    requires
        btree::at_leaf(v, a, key, pages),
        btree::at_leaf(v, b, key, pages),
        0 <= i < a.len(),
        i < b.len(),
    ensures
        a[i] == b[i],
    decreases i,
{
    if i > 0 {
        paths_agree(v, a, b, pages, key, i - 1);
        path_leads_down(v, a, pages, key, i - 1);
        path_leads_down(v, b, pages, key, i - 1);
    }
    path_leads_down(v, a, pages, key, i);
    path_leads_down(v, b, pages, key, i);
}

/// An insert of a row that fits, under a free key, stores it if and only if
/// there are a transaction number left and page ids for the pages that it
/// puts, and no more than these; it then takes their ids.
pub proof fn insert_needs_the_pages_that_it_puts(
    v: PoolView,
    w: PoolView,
    pages: Pages,
    nodes: path::Nodes,
    key: i64,
    vs: Seq<ValueView>,
    r: Result<Progress<()>, PinaxError>,
)
    requires
        cursor::valid(v, pages),
        btree::at_leaf(v, nodes, key, pages),
        r is Err || r matches Ok(Progress::Commit { .. }),
        database::insert_outcome(v, w, pages, key, vs, r),
        forall|i: int|
            0 <= i < cursor::committed(v, pages).len() ==> (#[trigger] cursor::committed(
                v,
                pages,
            )[i]).0 != key,
        vs.len() <= 0xFFFF_FFFF,
        forall|i: int|
            0 <= i < vs.len() ==> match #[trigger] vs[i] {
                ValueView::Text(s) => utf8::encode_utf8(s).len() <= 0xFFFF_FFFF,
                ValueView::Blob(b) => b.len() <= 0xFFFF_FFFF,
                _ => true,
            },
        row::row_bytes(vs).len() <= 0xFFFF_FFFF,
    ensures
        ({
            let n = btree::insert_pages(nodes, key, row::row_bytes(vs).len(), v.meta.size);
            &&& r matches Ok(Progress::Commit { .. }) ==> w.next_id == v.next_id + n
            &&& (r matches Ok(Progress::Commit { .. })) <==> v.meta.txn_id < 0xFFFF_FFFF_FFFF_FFFF
                && v.next_id + n <= 0xFFFF_FFFF
        }),
{
    let es = cursor::committed(v, pages);
    tree::tree_entries_ascend(pages, v.meta.root, btree::usable(v));
    tree::find_none(es, key);
    fitting_row_is_not_too_large(vs);
    match r {
        Err(e) => {
            let found = choose|nodes: path::Nodes| #[trigger]
                btree::at_leaf(v, nodes, key, pages) && btree::insert_error(
                    e,
                    v,
                    nodes,
                    es,
                    key,
                    vs,
                );
            keys_have_one_path(v, found, nodes, pages, key);
        },
        Ok(_) => {
            let found = choose|nodes: path::Nodes| #[trigger]
                btree::at_leaf(v, nodes, key, pages) && btree::insert_possible(
                    v,
                    nodes,
                    es,
                    key,
                    vs,
                ) && w.next_id == v.next_id + btree::insert_pages(
                    nodes,
                    key,
                    row::row_bytes(vs).len(),
                    v.meta.size,
                );
            keys_have_one_path(v, found, nodes, pages, key);
        },
    }
}

/// An update to a row that fits, under a key that is there, stores it if and
/// only if there are a transaction number left and page ids for the pages
/// that it puts, and no more than these; it then takes their ids.
pub proof fn update_needs_the_pages_that_it_puts(
    v: PoolView,
    w: PoolView,
    pages: Pages,
    nodes: path::Nodes,
    key: i64,
    vs: Seq<ValueView>,
    r: Result<Progress<()>, PinaxError>,
    old_payload: Seq<u8>,
)
    requires
        cursor::valid(v, pages),
        btree::at_leaf(v, nodes, key, pages),
        r is Err || r matches Ok(Progress::Commit { .. }),
        database::update_outcome(v, w, pages, key, vs, r),
        cursor::committed(v, pages).contains((key, old_payload)),
        vs.len() <= 0xFFFF_FFFF,
        forall|i: int|
            0 <= i < vs.len() ==> match #[trigger] vs[i] {
                ValueView::Text(s) => utf8::encode_utf8(s).len() <= 0xFFFF_FFFF,
                ValueView::Blob(b) => b.len() <= 0xFFFF_FFFF,
                _ => true,
            },
        row::row_bytes(vs).len() <= 0xFFFF_FFFF,
    ensures
        ({
            let n = btree::update_pages(nodes, key, row::row_bytes(vs).len(), v.meta.size);
            &&& r matches Ok(Progress::Commit { .. }) ==> w.next_id == v.next_id + n
            &&& (r matches Ok(Progress::Commit { .. })) <==> v.meta.txn_id < 0xFFFF_FFFF_FFFF_FFFF
                && v.next_id + n <= 0xFFFF_FFFF
        }),
{
    let es = cursor::committed(v, pages);
    tree::tree_entries_ascend(pages, v.meta.root, btree::usable(v));
    found_is_what_is_there(es, key, old_payload);
    fitting_row_is_not_too_large(vs);
    match r {
        Err(e) => {
            let found = choose|nodes: path::Nodes| #[trigger]
                btree::at_leaf(v, nodes, key, pages) && btree::update_error(
                    e,
                    v,
                    nodes,
                    es,
                    key,
                    vs,
                );
            keys_have_one_path(v, found, nodes, pages, key);
        },
        Ok(_) => {
            let found = choose|nodes: path::Nodes| #[trigger]
                btree::at_leaf(v, nodes, key, pages) && btree::update_possible(
                    v,
                    nodes,
                    es,
                    key,
                    vs,
                ) && w.next_id == v.next_id + btree::update_pages(
                    nodes,
                    key,
                    row::row_bytes(vs).len(),
                    v.meta.size,
                );
            keys_have_one_path(v, found, nodes, pages, key);
        },
    }
}

/// A delete of a row that is there, and that decodes, removes it if and only
/// if there are a transaction number left and a page id for each page of its
/// path; it then takes these ids.
pub proof fn delete_needs_a_page_for_each_of_the_path(
    v: PoolView,
    w: PoolView,
    pages: Pages,
    nodes: path::Nodes,
    key: i64,
    r: Result<Progress<Row>, PinaxError>,
    payload: Seq<u8>,
    vs: Seq<ValueView>,
)
    requires
        cursor::valid(v, pages),
        btree::at_leaf(v, nodes, key, pages),
        r is Err || r matches Ok(Progress::Commit { .. }),
        database::delete_outcome(v, w, pages, key, r),
        cursor::committed(v, pages).contains((key, payload)),
        row::parse_row(payload) == Ok::<_, row::Fault>(vs),
    ensures
        r matches Ok(Progress::Commit { .. }) ==> w.next_id == v.next_id + nodes.len(),
        (r matches Ok(Progress::Commit { .. })) <==> v.meta.txn_id < 0xFFFF_FFFF_FFFF_FFFF
            && v.next_id + nodes.len() <= 0xFFFF_FFFF,
{
    let es = cursor::committed(v, pages);
    tree::tree_entries_ascend(pages, v.meta.root, btree::usable(v));
    found_is_what_is_there(es, key, payload);
    assert forall|found: path::Nodes| #[trigger]
        btree::at_leaf(v, found, key, pages) implies found == nodes by {
        keys_have_one_path(v, found, nodes, pages, key);
    }
}

// ---- how an operation goes on ----

/// A page that is asked for is not cached, and the bytes that are asked for
/// are that page's in the file: behind the meta slots, pages of one size
/// follow each other from page two on.
pub proof fn asked_pages_stand_in_the_file<T>(
    db: database::Database,
    page_id: u32,
    offset: u64,
    len: usize,
)
    requires
        db.asks_for::<T>(Progress::Read { page_id, offset, len }),
        page_id >= 2,
    ensures
        len == db.pool_view().meta.size,
        offset == 8192 + (page_id - 2) * db.pool_view().meta.size,
        !db.pool_view().cache.contains_key(page_id),
{
}

/// A step that is to be called again at once has brought its operation nearer
/// to the end; one that asks for a page asks for the one that was needed, and
/// leaves the operation where it was.
pub proof fn steps_go_on<T>(
    db: database::Database,
    before: database::Database,
    key: i64,
    page_id: u32,
    offset: u64,
    len: usize,
)
    ensures
        db.goes_on::<T>(before, key, Progress::Continue) ==> {
            let a = db.left(key);
            let b = before.left(key);
            &&& a.pages <= b.pages
            &&& a.pages == b.pages ==> a.steps <= b.steps
            &&& a.pages == b.pages && a.steps == b.steps ==> a.bytes < b.bytes
        },
        db.goes_on::<T>(before, key, Progress::Read { page_id, offset, len }) ==> {
            &&& db.left(key) == before.left(key)
            &&& before.wants(key) == Some(page_id) && db.wants(key) == Some(page_id)
        },
{
}

/// The same of a scan.
pub proof fn scans_go_on<T>(
    db: database::Database,
    before: database::Database,
    pages: Pages,
    page_id: u32,
    offset: u64,
    len: usize,
)
    ensures
        db.scans_on::<T>(before, pages, Progress::Continue) ==> {
            let a = db.scan_left(pages);
            let b = before.scan_left(pages);
            &&& a.pages <= b.pages
            &&& a.pages == b.pages ==> a.steps <= b.steps
            &&& a.pages == b.pages && a.steps == b.steps ==> a.bytes < b.bytes
        },
        db.scans_on::<T>(before, pages, Progress::Read { page_id, offset, len }) ==> {
            &&& db.scan_left(pages) == before.scan_left(pages)
            &&& before.scan_wants() == Some(page_id) && db.scan_wants() == Some(page_id)
        },
{
}

/// An operation keeps the committed entries, and every page that was there.
pub proof fn operations_keep_what_is_committed(
    db: database::Database,
    before: database::Database,
    pages: Pages,
    id: u32,
)
    requires
        db.keeps(before, pages),
    ensures
        ({
            let all = buffer_pool::with_log(pages, db.pool_view());
            &&& db.follows(all)
            &&& cursor::committed(db.pool_view(), all) == cursor::committed(
                before.pool_view(),
                pages,
            )
            &&& pages.contains_key(id) ==> all.contains_key(id) && all[id] == pages[id]
        }),
{
}

// ---- what reads return ----

/// A lookup, once it is over, returns the row if the key has an entry whose
/// payload decodes, nothing if the key has no entry, and an error only if
/// the payload does not decode.
pub proof fn get_returns_what_is_there(
    v: PoolView,
    pages: Pages,
    key: i64,
    r: Result<Progress<Option<Row>>, PinaxError>,
)
    requires
        cursor::valid(v, pages),
        r is Err || r matches Ok(Progress::Done(_)),
        database::get_outcome(v, pages, key, r),
    ensures
        ({
            let es = cursor::committed(v, pages);
            &&& (forall|k: int| 0 <= k < es.len() ==> (#[trigger] es[k]).0 != key) <==> (
            r matches Ok(Progress::Done(None)))
            &&& forall|k: int|
                0 <= k < es.len() && (#[trigger] es[k]).0 == key ==> match row::parse_row(es[k].1) {
                    Ok(vs) => r matches Ok(Progress::Done(Some(row))) && row@ == vs,
                    Err(f) => r matches Err(e) && row::reports(e, f),
                }
        }),
{
    let es = cursor::committed(v, pages);
    tree::tree_entries_ascend(pages, v.meta.root, btree::usable(v));
    found_is_what_is_there(es, key, Seq::empty());
    assert forall|k: int| 0 <= k < es.len() && (#[trigger] es[k]).0 == key implies match
        row::parse_row(es[k].1) {
        Ok(vs) => r matches Ok(Progress::Done(Some(row))) && row@ == vs,
        Err(f) => r matches Err(e) && row::reports(e, f),
    } by {
        tree::find_is(es, key, k);
    }
}

/// A scan, once it is over, returns one row for each entry, in their order,
/// if all payloads decode, and an error if one does not.
pub proof fn scan_returns_what_is_there(
    v: PoolView,
    pages: Pages,
    r: Result<Progress<Vec<(i64, Row)>>, PinaxError>,
)
    requires
        r is Err || r matches Ok(Progress::Done(_)),
        database::scan_outcome(v, pages, r),
    ensures
        ({
            let es = cursor::committed(v, pages);
            &&& r is Err <==> exists|k: int|
                0 <= k < es.len() && row::parse_row((#[trigger] es[k]).1) is Err
            &&& r matches Ok(Progress::Done(rows)) ==> {
                &&& rows@.len() == es.len()
                &&& forall|k: int|
                    0 <= k < es.len() ==> (#[trigger] rows@[k]).0 == es[k].0 && row::parse_row(
                        es[k].1,
                    ) == Ok::<_, row::Fault>(rows@[k].1@)
            }
        }),
{
    let es = cursor::committed(v, pages);
    if let Ok(Progress::Done(rows)) = r {
        assert forall|k: int| 0 <= k < es.len() implies row::parse_row((#[trigger] es[k]).1)
            is Ok by {
            assert(rows@[k].0 == es[k].0);
        }
    }
}

/// A scan that fails reports the first row, by its key, that does not decode.
pub proof fn scan_reports_the_first_fault(
    v: PoolView,
    pages: Pages,
    e: PinaxError,
    k: int,
)
    requires
        database::scan_outcome(v, pages, Err(e)),
        0 <= k < cursor::committed(v, pages).len(),
        row::parse_row(cursor::committed(v, pages)[k].1) is Err,
        forall|j: int|
            0 <= j < k ==> row::parse_row((#[trigger] cursor::committed(v, pages)[j]).1) is Ok,
    ensures
        row::reports(e, row::parse_row(cursor::committed(v, pages)[k].1)->Err_0),
{
}

/// An operation that is not over comes nearer to its end in a way that
/// cannot go on forever: of three numbers, the first that changes gets
/// smaller.
pub proof fn nearer_is_fewer(a: cursor::Left, b: cursor::Left)
    requires
        cursor::nearer(a, b),
    ensures
        a.pages <= b.pages,
        a.pages == b.pages ==> a.steps <= b.steps,
        a.pages == b.pages && a.steps == b.steps ==> a.bytes < b.bytes,
{
}

} // verus!
