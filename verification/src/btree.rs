//! The copy-on-write B+tree: slotted leaf and interior pages, overflow
//! chains for payloads that do not fit their cell, and path-copying
//! insert, update and delete, which never change a page that the committed
//! meta page reaches.
//!
//! The operations work on pages that the caller has already brought: a path
//! from the root to the leaf page that a key belongs to. They put new pages
//! into the buffer pool and hand out the commit of the new root.
//!
//! A delete never merges pages: a page may stay underfull, or empty.

use vstd::prelude::*;

pub mod cursor;
pub mod laws;
pub mod layout;
pub mod mutate;
pub mod overflow;
pub mod path;
pub mod tree;

use crate::btree::layout::{init_leaf, insert_cell_at, leaf_search};
use crate::btree::mutate::{
    apply_result_to_interior, collapse_root_if_needed, finalize_root, leaf_insert_or_split,
    leaf_without,
};
use crate::btree::overflow::{build_row_cell, encode_row, overflow_pages};
use crate::btree::path::PathNode;
use crate::btree::tree::{NodeResult, Pages};
use crate::buffer_pool;
use crate::buffer_pool::{BufferPool, PoolView};
use crate::codec;
use crate::error;
use crate::error::{counter_exhausted, FatalError, PermanentError, PinaxError};
use crate::lexis::value::ValueView;
use crate::page;
use crate::row;
use crate::row::Row;

verus! {

/// The body of a page of the pool.
pub open spec fn usable(v: PoolView) -> int {
    v.meta.size - page::CHECKSUM_LEN
}

// ---- carrying a change from the leaf to the root ----

/// In the tree of `p`, the page at the end of the path was replaced by
/// `result`, which stores `payload` under `key`; the pages put for it are in
/// the pool `v`, and their ids are `from` at least.
pub open spec fn replaced_leaf(
    p: Pages,
    nodes: path::Nodes,
    key: i64,
    payload: Option<Seq<u8>>,
    v: PoolView,
    result: NodeResult,
    from: int,
) -> bool {
    &&& nodes.len() > 0
    &&& path::on_pages(nodes, p)
    &&& path::linked(nodes, key)
    &&& tree::node_ok(p, nodes[0].0, tree::key_lo(), tree::key_hi(), usable(v))
    &&& forall|id: u32| #[trigger] p.contains_key(id) ==> id < from
    &&& carried(p, nodes, key, payload, nodes.len() - 1, v, result, from)
}

/// In the tree of `p`, page `i` of the path was replaced by `result`, which
/// stores `payload` under `key`; the pages on its way to `key` have ids of
/// `from` at least.
pub open spec fn carried(
    p: Pages,
    nodes: path::Nodes,
    key: i64,
    payload: Option<Seq<u8>>,
    i: int,
    v: PoolView,
    result: NodeResult,
    from: int,
) -> bool {
    let q = buffer_pool::with_log(p, v);
    &&& tree::extends(q, p)
    &&& tree::result_ok(
        q,
        result,
        path::path_lo(nodes, i, key),
        path::path_hi(nodes, i, key),
        usable(v),
    )
    &&& tree::result_entries(q, result) == tree::put(
        tree::entries(p, nodes[i].0),
        key,
        payload,
    )
    &&& tree::result_fresh(q, result, key, from)
}

/// More put pages do not change what was carried.
proof fn carried_grows(
    p: Pages,
    nodes: path::Nodes,
    key: i64,
    payload: Option<Seq<u8>>,
    i: int,
    v: PoolView,
    w: PoolView,
    result: NodeResult,
    from: int,
)
    requires
        carried(p, nodes, key, payload, i, v, result, from),
        buffer_pool::extended(v, w),
        forall|id: u32| #[trigger] p.contains_key(id) ==> id < v.next_id,
    ensures
        carried(p, nodes, key, payload, i, w, result, from),
        tree::extends(buffer_pool::with_log(p, w), buffer_pool::with_log(p, v)),
{
    let a = buffer_pool::with_log(p, v);
    let b = buffer_pool::with_log(p, w);
    let lo = path::path_lo(nodes, i, key);
    let hi = path::path_hi(nodes, i, key);
    assert forall|id: u32| #[trigger] a.contains_key(id) implies b.contains_key(id) && b[id]
        == a[id] by {
        if v.log.contains_key(id) {
            assert(w.log.contains_key(id));
        } else {
            assert(p.contains_key(id));
            if w.log.contains_key(id) {
                assert(v.next_id <= id);
            }
        }
    }
    assert forall|id: u32| #[trigger] p.contains_key(id) implies b.contains_key(id) && b[id]
        == p[id] by {
        assert(a.contains_key(id));
    }
    let ns = tree::result_pages(result);
    let ks = tree::result_keys(result);
    assert forall|m: int| 0 <= m < ns.len() implies tree::node_ok(
        b,
        #[trigger] ns[m],
        tree::child_lo(ks, m, lo),
        tree::child_hi(ks, m, hi),
        usable(v),
    ) && tree::entries(b, ns[m]) == tree::entries(a, ns[m]) by {
        tree::node_grows(
            a,
            b,
            ns[m],
            tree::child_lo(ks, m, lo),
            tree::child_hi(ks, m, hi),
            usable(v),
        );
    }
    assert(tree::child_lists(b, ns) =~= tree::child_lists(a, ns));
    tree::fresh_way_grows(a, b, ns[layout::route(ks, key)], key, from);
}

/// One page further up.
proof fn carried_up(
    p: Pages,
    nodes: path::Nodes,
    key: i64,
    payload: Option<Seq<u8>>,
    i: int,
    v: PoolView,
    w: PoolView,
    below: NodeResult,
    above: NodeResult,
    from: int,
)
    requires
        0 < i < nodes.len(),
        path::on_pages(nodes, p),
        path::linked(nodes, key),
        tree::node_ok(p, nodes[0].0, tree::key_lo(), tree::key_hi(), usable(v)),
        forall|id: u32| #[trigger] p.contains_key(id) ==> id < from,
        from <= v.next_id,
        carried(p, nodes, key, payload, i, v, below, from),
        buffer_pool::extended(v, w),
        tree::result_ids(below, from, v.next_id as int),
        tree::result_ids(above, v.next_id as int, w.next_id as int),
        layout::interior_shape(nodes[i - 1].1) ==> ({
            let c = nodes[i - 1].1;
            let at = tree::child_position(layout::interior_children(c), nodes[i].0);
            tree::made_above(
                w.log,
                above,
                tree::spliced_keys(layout::interior_keys(c), at, below),
                tree::spliced_children(layout::interior_children(c), at, below),
                usable(v),
            )
        }),
    ensures
        carried(p, nodes, key, payload, i - 1, w, above, from),
{
    let q = buffer_pool::with_log(p, w);
    let id = nodes[i - 1].0;
    carried_grows(p, nodes, key, payload, i, v, w, below, from);
    path::path_node(p, nodes, key, i - 1, usable(v));
    path::path_node(p, nodes, key, i, usable(v));
    assert(path::linked_at(nodes, i - 1, key));
    assert(p.contains_key(nodes[i - 1].0) && p[id] == nodes[i - 1].1);
    let c = p[id];
    assert(nodes[i].0 == path::routed(c, key));
    assert(tree::made_above(
        q,
        above,
        tree::spliced_keys(
            layout::interior_keys(c),
            tree::child_position(layout::interior_children(c), nodes[i].0),
            below,
        ),
        tree::spliced_children(
            layout::interior_children(c),
            tree::child_position(layout::interior_children(c), nodes[i].0),
            below,
        ),
        usable(v),
    ));
    tree::climb(
        p,
        q,
        id,
        key,
        payload,
        below,
        above,
        path::path_lo(nodes, i - 1, key),
        path::path_hi(nodes, i - 1, key),
        usable(v),
        from,
        v.next_id as int,
    );
}

/// One page further up, for every tree.
proof fn all_carried_up(
    nodes: path::Nodes,
    key: i64,
    i: int,
    start: PoolView,
    v: PoolView,
    w: PoolView,
    leaf: NodeResult,
    below: NodeResult,
    above: NodeResult,
    from: int,
)
    requires
        0 < i < nodes.len(),
        from <= v.next_id,
        v.meta == start.meta,
        buffer_pool::extended(v, w),
        tree::result_ids(below, from, v.next_id as int),
        tree::result_ids(above, v.next_id as int, w.next_id as int),
        forall|p: Pages, payload: Option<Seq<u8>>| #[trigger]
            replaced_leaf(p, nodes, key, payload, start, leaf, from) ==> carried(
                p,
                nodes,
                key,
                payload,
                i,
                v,
                below,
                from,
            ),
        layout::interior_shape(nodes[i - 1].1) ==> ({
            let c = nodes[i - 1].1;
            let at = tree::child_position(layout::interior_children(c), nodes[i].0);
            tree::made_above(
                w.log,
                above,
                tree::spliced_keys(layout::interior_keys(c), at, below),
                tree::spliced_children(layout::interior_children(c), at, below),
                usable(v),
            )
        }),
    ensures
        forall|p: Pages, payload: Option<Seq<u8>>| #[trigger]
            replaced_leaf(p, nodes, key, payload, start, leaf, from) ==> carried(
                p,
                nodes,
                key,
                payload,
                i - 1,
                w,
                above,
                from,
            ),
{
    assert forall|p: Pages, payload: Option<Seq<u8>>| #[trigger]
        replaced_leaf(p, nodes, key, payload, start, leaf, from) implies carried(
        p,
        nodes,
        key,
        payload,
        i - 1,
        w,
        above,
        from,
    ) by {
        carried_up(p, nodes, key, payload, i, v, w, below, above, from);
    }
}

/// The pages above the end of a path are interior pages.
proof fn path_is_interior(
    nodes: path::Nodes,
    key: i64,
    i: int,
    start: PoolView,
    leaf: NodeResult,
    from: int,
)
    requires
        0 <= i < nodes.len() - 1,
    ensures
        forall|p: Pages, payload: Option<Seq<u8>>| #[trigger]
            replaced_leaf(p, nodes, key, payload, start, leaf, from) ==> layout::interior_shape(
                nodes[i].1,
            ),
{
    assert forall|p: Pages, payload: Option<Seq<u8>>| #[trigger]
        replaced_leaf(p, nodes, key, payload, start, leaf, from) implies layout::interior_shape(
        nodes[i].1,
    ) by {
        path::path_node(p, nodes, key, i, usable(start));
    }
}

/// Above a carried root in two parts or three, an interior page makes the
/// tree whole.
proof fn carried_root(
    p: Pages,
    nodes: path::Nodes,
    key: i64,
    payload: Option<Seq<u8>>,
    v: PoolView,
    w: PoolView,
    result: NodeResult,
    root: u32,
    from: int,
)
    requires
        nodes.len() > 0,
        carried(p, nodes, key, payload, 0, v, result, from),
        buffer_pool::extended(v, w),
        forall|id: u32| #[trigger] p.contains_key(id) ==> id < v.next_id,
        page::FIRST_DATA_PAGE_ID <= from <= v.next_id,
        tree::result_ids(result, from, v.next_id as int),
        match result {
            NodeResult::Replaced(id) => root == id,
            _ => {
                &&& root == v.next_id
                &&& tree::interior_made(
                    w.log,
                    root,
                    tree::result_keys(result),
                    tree::result_pages(result),
                    usable(v),
                )
            },
        },
    ensures
        tree::tree_ok(buffer_pool::with_log(p, w), root, usable(v)),
        tree::tree_entries(buffer_pool::with_log(p, w), root) == tree::put(
            tree::entries(p, nodes[0].0),
            key,
            payload,
        ),
        tree::fresh_way(buffer_pool::with_log(p, w), root, key, from),
{
    let q = buffer_pool::with_log(p, w);
    carried_grows(p, nodes, key, payload, 0, v, w, result, from);
    let ns = tree::result_pages(result);
    let ks = tree::result_keys(result);
    layout::route_bounds(ks, key);
    if let NodeResult::Replaced(id) = result {
        assert(ns[0] == id);
        tree::one_list(q, id);
        assert(tree::node_ok(
            q,
            ns[0],
            tree::child_lo(ks, 0, tree::key_lo()),
            tree::child_hi(ks, 0, tree::key_hi()),
            usable(v),
        ));
    } else {
        tree::interior_node(q, root, ks, ns, tree::key_lo(), tree::key_hi(), usable(v));
        assert(q[root] == w.log[root]);
        assert(ns[layout::route(ks, key)] < root);
        tree::fresh_interior(q, root, key, from);
    }
}

/// How many pages carry a change up from page `i` of the path, which `parts`
/// pages stand in place of: for each page above one, or two if its
/// separators become too many, and one more for a root above the parts.
pub open spec fn climb_pages(nodes: path::Nodes, i: int, parts: int, size: int) -> int
    decreases i,
{
    if i <= 0 {
        if parts > 1 {
            1
        } else {
            0
        }
    } else if parts == 1 || layout::cell_count(nodes[i - 1].1) + parts - 1
        <= mutate::max_entries(size) {
        1 + climb_pages(nodes, i - 1, 1, size)
    } else {
        2 + climb_pages(nodes, i - 1, 2, size)
    }
}

/// Some pages carry a change up, but for one that is at the root.
proof fn climb_pages_bound(nodes: path::Nodes, i: int, parts: int, size: int)
    ensures
        0 <= climb_pages(nodes, i, parts, size),
        i > 0 ==> 1 <= climb_pages(nodes, i, parts, size),
    decreases i,
{
    if i > 0 {
        climb_pages_bound(nodes, i - 1, 1, size);
        climb_pages_bound(nodes, i - 1, 2, size);
    }
}

/// A child's position is one of the children's.
proof fn position_in_range(children: Seq<u32>, child: u32)
    requires
        children.len() > 0,
    ensures
        0 <= tree::child_position(children, child) < children.len(),
    decreases children.len(),
{
    if children.len() > 1 && children[0] != child {
        position_in_range(children.drop_first(), child);
    }
}

/// Pages that the path leads over, and that the pool saw in `v`, it sees in
/// `w` with those that were put.
#[verifier::opaque]
pub open spec fn sees_on(v: PoolView, w: PoolView, nodes: path::Nodes) -> bool {
    forall|p: Pages| #[trigger]
        buffer_pool::sees(v, p) && path::on_pages(nodes, p) ==> buffer_pool::sees(
            w,
            buffer_pool::with_log(p, w),
        )
}

/// A pool that has grown sees what it saw.
proof fn grown_sees_on(v: PoolView, w: PoolView, nodes: path::Nodes)
    requires
        buffer_pool::grown(v, w),
        buffer_pool::view_wf(w),
    ensures
        sees_on(v, w, nodes),
{
    reveal(sees_on);
    assert forall|p: Pages| #[trigger]
        buffer_pool::sees(v, p) && path::on_pages(nodes, p) implies buffer_pool::sees(
        w,
        buffer_pool::with_log(p, w),
    ) by {
        buffer_pool::grown_sees(v, w, p);
    }
}

/// What a pool sees, and goes on to see, it sees.
proof fn sees_on_trans(u: PoolView, v: PoolView, w: PoolView, nodes: path::Nodes)
    requires
        sees_on(u, v, nodes),
        sees_on(v, w, nodes),
        buffer_pool::extended(u, v),
        buffer_pool::extended(v, w),
    ensures
        sees_on(u, w, nodes),
{
    reveal(sees_on);
    assert forall|p: Pages| #[trigger]
        buffer_pool::sees(u, p) && path::on_pages(nodes, p) implies buffer_pool::sees(
        w,
        buffer_pool::with_log(p, w),
    ) by {
        let q = buffer_pool::with_log(p, v);
        buffer_pool::extended_pages(u, v, p);
        assert(path::on_pages(nodes, q));
        assert(buffer_pool::sees(v, q));
        assert(buffer_pool::with_log(q, w) =~= buffer_pool::with_log(p, w));
    }
}

/// Making a page of the path the most recently used one changes nothing of
/// what the pool sees.
proof fn recalled_sees_on(v: PoolView, nodes: path::Nodes, i: int, bytes: Seq<u8>)
    requires
        buffer_pool::view_wf(v),
        bytes.len() == v.meta.size,
        0 <= i < nodes.len(),
        nodes[i].1 == page::body(bytes),
    ensures
        buffer_pool::extended(v, buffer_pool::recalled(v, nodes[i].0, bytes)),
        buffer_pool::view_wf(buffer_pool::recalled(v, nodes[i].0, bytes)),
        sees_on(v, buffer_pool::recalled(v, nodes[i].0, bytes), nodes),
{
    reveal(sees_on);
    let w = buffer_pool::recalled(v, nodes[i].0, bytes);
    buffer_pool::recalled_facts(v, nodes[i].0, bytes);
    assert forall|p: Pages| #[trigger]
        buffer_pool::sees(v, p) && path::on_pages(nodes, p) implies buffer_pool::sees(
        w,
        buffer_pool::with_log(p, w),
    ) by {
        assert(p.contains_key(nodes[i].0) && p[nodes[i].0] == nodes[i].1);
        assert(buffer_pool::with_log(p, w) =~= p);
    }
}

/// Handing out a commit changes nothing of what the pool sees.
proof fn committing_sees_on(v: PoolView, m: PoolView, root: u32, nodes: path::Nodes)
    requires
        sees_on(v, m, nodes),
        buffer_pool::view_wf(m),
    ensures
        sees_on(v, buffer_pool::committing(m, root), nodes),
{
    reveal(sees_on);
    let w = buffer_pool::committing(m, root);
    assert forall|p: Pages| #[trigger]
        buffer_pool::sees(v, p) && path::on_pages(nodes, p) implies buffer_pool::sees(
        w,
        buffer_pool::with_log(p, w),
    ) by {
        buffer_pool::committing_sees(m, root, buffer_pool::with_log(p, m));
    }
}

/// Using cached pages changes nothing of what the pool sees.
proof fn looked_sees_on(v: PoolView, w: PoolView, nodes: path::Nodes)
    requires
        cursor::looked(v, w),
    ensures
        buffer_pool::extended(v, w),
        sees_on(v, w, nodes),
{
    reveal(sees_on);
    assert(w.history.subrange(0, v.history.len() as int) =~= v.history);
    assert forall|p: Pages| #[trigger]
        buffer_pool::sees(v, p) && path::on_pages(nodes, p) implies buffer_pool::sees(
        w,
        buffer_pool::with_log(p, w),
    ) by {
        cursor::looked_sees(v, w, p);
        assert(buffer_pool::with_log(p, w) =~= p);
    }
}

/// From `v` to `w` the pages above page `i` of the path were used, from the
/// lowest up: each became the most recently used page, and then the pages
/// that stand in its place were put. Last, a root was put where one was
/// needed.
pub open spec fn climbed(v: PoolView, w: PoolView, path: Seq<PathNode>, i: int) -> bool
    decreases i,
{
    if i <= 0 {
        buffer_pool::grown(v, w)
    } else {
        exists|x: PoolView| #[trigger]
            buffer_pool::grown(buffer_pool::recalled(v, path[i - 1].id, path[i - 1].buf@), x)
                && climbed(x, w, path, i - 1)
    }
}

/// From `v` to `w` the pages of a changed leaf page were put, then those that
/// carry the change up the path, and the commit of `root` was handed out.
#[verifier::opaque]
pub open spec fn writes_up(v: PoolView, w: PoolView, path: Seq<PathNode>, root: u32) -> bool {
    exists|u: PoolView, m: PoolView|
        {
            &&& buffer_pool::grown(v, u)
            &&& #[trigger] climbed(u, m, path, path.len() - 1)
            &&& w == buffer_pool::committing(m, root)
        }
}

/// The same of a removal, which uses the topmost page that was put once more.
#[verifier::opaque]
pub open spec fn removes_up(v: PoolView, w: PoolView, path: Seq<PathNode>, root: u32) -> bool {
    exists|u: PoolView, m: PoolView, top: u32|
        {
            &&& buffer_pool::grown(v, u)
            &&& #[trigger] climbed(u, m, path, path.len() - 1)
            &&& w == buffer_pool::committing(#[trigger] buffer_pool::touched(m, top), root)
        }
}

/// Carry a change of the page at the end of the path up to the root, and
/// return the new root. Each page above becomes the most recently used one
/// before its copy is put.
fn propagate(
    pool: &mut BufferPool,
    path: &Vec<PathNode>,
    leaf_result: NodeResult,
    Ghost(key): Ghost<i64>,
    Ghost(from): Ghost<int>,
) -> (r: Result<u32, PinaxError>)
    requires
        old(pool).wf(),
        path@.len() > 0,
        path::sized(path@, old(pool)@.meta.size),
        from <= old(pool)@.next_id,
        tree::result_ids(leaf_result, from, old(pool)@.next_id as int),
    ensures
        final(pool).wf(),
        buffer_pool::extended(old(pool)@, final(pool)@),
        sees_on(old(pool)@, final(pool)@, path::nodes_of(path@)),
        r is Ok ==> climbed(old(pool)@, final(pool)@, path@, path@.len() - 1),
        r matches Err(e) ==> error::is_bounds_error(e) || e == error::exhausted(),
        r matches Ok(root) ==> from <= root < final(pool)@.next_id,
        forall|p: Pages, payload: Option<Seq<u8>>| #[trigger]
            replaced_leaf(
                p,
                path::nodes_of(path@),
                key,
                payload,
                old(pool)@,
                leaf_result,
                from,
            ) ==> {
                let q = buffer_pool::with_log(p, final(pool)@);
                let ids = old(pool)@.next_id + climb_pages(
                    path::nodes_of(path@),
                    path@.len() - 1,
                    tree::result_pages(leaf_result).len() as int,
                    old(pool)@.meta.size,
                );
                match r {
                    Ok(root) => {
                        &&& final(pool)@.next_id == ids
                        &&& tree::tree_ok(q, root, usable(old(pool)@))
                        &&& tree::tree_entries(q, root) == tree::put(
                            tree::entries(p, path@[0].id),
                            key,
                            payload,
                        )
                        &&& tree::fresh_way(q, root, key, from)
                    },
                    Err(e) => e == error::exhausted() && ids > u32::MAX,
                }
            },
        leaf_result is Replaced && old(pool)@.cache.contains_key(leaf_result->0) && page::body(
            old(pool)@.cache[leaf_result->0],
        ) == old(pool)@.log[leaf_result->0] && r is Ok ==> final(pool)@.cache.contains_key(r->Ok_0)
            && page::body(final(pool)@.cache[r->Ok_0]) == final(pool)@.log[r->Ok_0],
{
    let ghost v = pool@;
    let ghost nodes = path::nodes_of(path@);
    let ghost in_cache = leaf_result is Replaced && v.cache.contains_key(leaf_result->0)
        && page::body(v.cache[leaf_result->0]) == v.log[leaf_result->0];
    proof {
        pool.wf_facts();
        buffer_pool::grown_refl(v);
        grown_sees_on(v, v, nodes);
    }
    let ghost parts = tree::result_pages(leaf_result).len() as int;
    let mut result: NodeResult = leaf_result;
    let mut i: usize = path.len() - 1;
    while i > 0
        invariant
            i < path@.len(),
            v == old(pool)@,
            pool.wf(),
            buffer_pool::extended(v, pool@),
            sees_on(v, pool@, nodes),
            forall|w: PoolView| #[trigger]
                climbed(pool@, w, path@, i as int) ==> climbed(v, w, path@, path@.len() - 1),
            path::sized(path@, v.meta.size),
            nodes == path::nodes_of(path@),
            from <= v.next_id,
            parts == tree::result_pages(leaf_result).len(),
            forall|p: Pages, payload: Option<Seq<u8>>| #[trigger]
                replaced_leaf(p, nodes, key, payload, v, leaf_result, from) ==> v.next_id
                    + climb_pages(nodes, nodes.len() - 1, parts, v.meta.size) == pool@.next_id
                    + climb_pages(
                    nodes,
                    i as int,
                    tree::result_pages(result).len() as int,
                    v.meta.size,
                ),
            tree::result_ids(result, from, pool@.next_id as int),
            forall|p: Pages, payload: Option<Seq<u8>>| #[trigger]
                replaced_leaf(p, nodes, key, payload, v, leaf_result, from) ==> carried(
                    p,
                    nodes,
                    key,
                    payload,
                    i as int,
                    pool@,
                    result,
                    from,
                ),
            in_cache ==> result is Replaced && pool@.cache.contains_key(result->0) && page::body(
                pool@.cache[result->0],
            ) == pool@.log[result->0],
        decreases i,
    {
        let ghost before = pool@;
        let ghost below = result;
        assert(path@[i - 1].buf@.len() == v.meta.size);
        assert(nodes[i - 1].1 == page::body(path@[i - 1].buf@));
        assert(nodes[i - 1].0 == path@[i - 1].id);
        proof {
            pool.wf_facts();
            recalled_sees_on(before, nodes, i - 1, path@[i - 1].buf@);
        }
        let step = apply_result_to_interior(
            pool,
            path[i - 1].id,
            &path[i - 1].buf,
            path[i].id,
            &result,
        );
        proof {
            let recalled = buffer_pool::recalled(before, nodes[i - 1].0, path@[i - 1].buf@);
            assert forall|w: PoolView| #[trigger]
                climbed(pool@, w, path@, i - 1) implies climbed(
                v,
                w,
                path@,
                path@.len() - 1,
            ) by {
                assert(buffer_pool::grown(recalled, pool@));
                assert(climbed(before, w, path@, i as int));
            }
            pool.wf_facts();
            grown_sees_on(recalled, pool@, nodes);
            sees_on_trans(before, recalled, pool@, nodes);
            buffer_pool::extended_trans(before, recalled, pool@);
            sees_on_trans(v, before, pool@, nodes);
            buffer_pool::extended_trans(v, before, pool@);
            assert(nodes[i as int].0 == path@[i as int].id);
            path_is_interior(nodes, key, i - 1, v, leaf_result, from);
            climb_pages_bound(nodes, i - 1, 1, v.meta.size);
            climb_pages_bound(nodes, i - 1, 2, v.meta.size);
            let at = tree::child_position(
                layout::interior_children(nodes[i - 1].1),
                path@[i as int].id,
            );
            position_in_range(layout::interior_children(nodes[i - 1].1), path@[i as int].id);
            assert(tree::spliced_keys(layout::interior_keys(nodes[i - 1].1), at, below).len()
                == layout::cell_count(nodes[i - 1].1) + tree::result_pages(below).len() - 1);
            if step is Ok {
                all_carried_up(
                    nodes,
                    key,
                    i as int,
                    v,
                    before,
                    pool@,
                    leaf_result,
                    below,
                    step->Ok_0,
                    from,
                );
            }
        }
        result = step?;
        i = i - 1;
    }
    let ghost before = pool@;
    let made = finalize_root(pool, result);
    proof {
        pool.wf_facts();
        assert(climbed(before, pool@, path@, 0));
        grown_sees_on(before, pool@, nodes);
        sees_on_trans(v, before, pool@, nodes);
        buffer_pool::extended_trans(v, before, pool@);
        assert(tree::result_pages(result).len() == 1 <==> result is Replaced);
        if result is Replaced {
            assert(tree::result_pages(result)[0] == result->0);
        }
    }
    let root: u32 = made?;
    proof {
        assert forall|p: Pages, payload: Option<Seq<u8>>| #[trigger]
            replaced_leaf(p, nodes, key, payload, v, leaf_result, from) implies tree::tree_ok(
            buffer_pool::with_log(p, pool@),
            root,
            usable(v),
        ) && tree::tree_entries(buffer_pool::with_log(p, pool@), root) == tree::put(
            tree::entries(p, path@[0].id),
            key,
            payload,
        ) && tree::fresh_way(buffer_pool::with_log(p, pool@), root, key, from) by {
            assert(p.contains_key(nodes[0].0));
            carried_root(p, nodes, key, payload, before, pool@, result, root, from);
        }
    }
    Ok(root)
}

// ---- the operations ----

/// The path leads from the root of a tree of `pages`, which the pool sees,
/// to the leaf page that `key` belongs to. The path of a tree without pages
/// is empty.
pub open spec fn at_leaf(v: PoolView, nodes: path::Nodes, key: i64, pages: Pages) -> bool {
    &&& buffer_pool::sees(v, pages)
    &&& page::FIRST_DATA_PAGE_ID <= v.next_id
    &&& tree::tree_ok(pages, v.meta.root, usable(v))
    &&& path::on_pages(nodes, pages)
    &&& path::linked(nodes, key)
    &&& nodes.len() == 0 <==> v.meta.root == page::EMPTY_TREE_ROOT
    &&& nodes.len() > 0 ==> nodes[0].0 == v.meta.root && nodes.last().1[0] == page::PAGE_TYPE_LEAF
}

/// There are this many page ids, and a transaction number, left.
pub open spec fn counters_left(v: PoolView, ids: int) -> bool {
    &&& v.meta.txn_id < u64::MAX
    &&& v.next_id + ids <= u32::MAX
}

/// How many overflow pages a payload of this length takes.
pub open spec fn chain_pages(payload_len: nat, size: int) -> int {
    overflow::chunk_count(overflow::spilled(payload_len, size), overflow::chunk_cap(size)) as int
}

/// The error of an insert under a key that is taken.
pub open spec fn key_exists(key: i64) -> PinaxError {
    PinaxError::Permanent { source: PermanentError::KeyAlreadyExists { key } }
}

/// The error of an update or delete under a key that is not there.
pub open spec fn key_not_found(key: i64) -> PinaxError {
    PinaxError::Permanent { source: PermanentError::KeyNotFound { key } }
}

/// A cell for `key` with a payload of this length, and no other content.
pub open spec fn blank_cell(key: i64, payload_len: nat, usable: int) -> Seq<u8> {
    layout::leaf_cell_bytes(
        key,
        payload_len as u32,
        0,
        Seq::new(layout::local_len(payload_len as int, usable - 35) as nat, |i: int| 0u8),
    )
}

/// How many leaf pages the cells of the leaf page with the body `c` and one
/// of `key`, with a payload of this length, are put on.
pub open spec fn leaf_parts(c: Seq<u8>, key: i64, payload_len: nat) -> int {
    let at = choose|at: int| tree::insertion_point(layout::leaf_cells(c), key, at);
    mutate::leaf_pages(c, at, blank_cell(key, payload_len, c.len() as int))
}

/// How many pages are put to store a payload of this length under `key`, at
/// the end of the path, on `parts` leaf pages.
pub open spec fn store_pages(nodes: path::Nodes, parts: int, payload_len: nat, size: int) -> int {
    chain_pages(payload_len, size) + parts + climb_pages(nodes, nodes.len() - 1, parts, size)
}

/// How many pages are put to insert a payload of this length under `key`.
pub open spec fn insert_pages(nodes: path::Nodes, key: i64, payload_len: nat, size: int) -> int {
    if nodes.len() == 0 {
        chain_pages(payload_len, size) + 1
    } else {
        store_pages(nodes, leaf_parts(nodes.last().1, key, payload_len), payload_len, size)
    }
}

/// The cells of two pages take the same space if they have the same lengths.
proof fn space_by_length(a: Seq<Seq<u8>>, b: Seq<Seq<u8>>)
    requires
        a.len() == b.len(),
        forall|i: int| 0 <= i < a.len() ==> (#[trigger] a[i]).len() == b[i].len(),
    ensures
        layout::space_of(a) == layout::space_of(b),
    decreases a.len(),
{
    if a.len() > 0 {
        assert(a[a.len() - 1].len() == b[a.len() - 1].len());
        assert forall|i: int| 0 <= i < a.len() - 1 implies (#[trigger] a.drop_last()[i]).len()
            == b.drop_last()[i].len() by {
            assert(a[i].len() == b[i].len());
        }
        space_by_length(a.drop_last(), b.drop_last());
    }
}

/// How many of the first cells fit depends on the cells' lengths only.
proof fn first_fit_by_length(a: Seq<Seq<u8>>, b: Seq<Seq<u8>>, n: int, size: int)
    requires
        a.len() == b.len(),
        n <= a.len(),
        forall|i: int| 0 <= i < a.len() ==> (#[trigger] a[i]).len() == b[i].len(),
    ensures
        mutate::first_fit(a, n, size) == mutate::first_fit(b, n, size),
    decreases n,
{
    if n > 0 {
        part_by_length(a, b, 0, n);
        assert(a.take(n) =~= a.subrange(0, n));
        assert(b.take(n) =~= b.subrange(0, n));
        first_fit_by_length(a, b, n - 1, size);
    }
}

/// Some of the cells take the same space if they have the same lengths.
proof fn part_by_length(a: Seq<Seq<u8>>, b: Seq<Seq<u8>>, from: int, to: int)
    requires
        a.len() == b.len(),
        0 <= from <= to <= a.len(),
        forall|i: int| 0 <= i < a.len() ==> (#[trigger] a[i]).len() == b[i].len(),
    ensures
        layout::space_of(a.subrange(from, to)) == layout::space_of(b.subrange(from, to)),
{
    assert forall|i: int| 0 <= i < to - from implies (#[trigger] a.subrange(from, to)[i]).len()
        == b.subrange(from, to)[i].len() by {
        assert(a[from + i].len() == b[from + i].len());
    }
    space_by_length(a.subrange(from, to), b.subrange(from, to));
}

/// Whether two pages do depends on the cells' lengths only.
proof fn two_pages_by_length(a: Seq<Seq<u8>>, b: Seq<Seq<u8>>, size: int)
    requires
        a.len() == b.len(),
        forall|i: int| 0 <= i < a.len() ==> (#[trigger] a[i]).len() == b[i].len(),
    ensures
        mutate::two_pages_do(a, size) == mutate::two_pages_do(b, size),
{
    let n = a.len() as int;
    part_by_length(a, b, 0, n / 2);
    part_by_length(a, b, n / 2, n);
    first_fit_by_length(a, b, n, size);
    let k = mutate::division(a, size);
    if 0 <= k < n {
        part_by_length(a, b, k, n);
    } else if k < 0 {
        first_fit_bound(a, n, size);
    }
}

/// The number of first cells that fit is not negative.
proof fn first_fit_bound(a: Seq<Seq<u8>>, n: int, size: int)
    requires
        0 <= n,
    ensures
        0 <= mutate::first_fit(a, n, size) <= n,
    decreases n,
{
    if n > 0 {
        first_fit_bound(a, n - 1, size);
    }
}

/// On how many pages a leaf page's cells and a new one are put depends on
/// the new cell's length only.
proof fn parts_by_length(c: Seq<u8>, key: i64, payload_len: nat, at: int, cell: Seq<u8>)
    requires
        tree::insertion_point(layout::leaf_cells(c), key, at),
        payload_len <= u32::MAX,
        35 <= c.len(),
        cell.len() == 16 + layout::local_len(payload_len as int, c.len() - 35),
    ensures
        leaf_parts(c, key, payload_len) == mutate::leaf_pages(c, at, cell),
{
    let cells = layout::leaf_cells(c);
    let other = choose|other: int| tree::insertion_point(cells, key, other);
    assert(other == at) by {
        if other < at {
            assert(layout::cell_key(cells[other]) < key);
        } else if at < other {
            assert(layout::cell_key(cells[at]) < key);
        }
    }
    let blank = blank_cell(key, payload_len, c.len() as int);
    layout::leaf_cell_round_trip(
        key,
        payload_len as u32,
        0,
        Seq::new(layout::local_len(payload_len as int, c.len() - 35) as nat, |i: int| 0u8),
    );
    assert(blank.len() == cell.len());
    let a = mutate::leaf_with(c, at, cell);
    let b = mutate::leaf_with(c, at, blank);
    assert forall|i: int| 0 <= i < a.len() implies (#[trigger] a[i]).len() == b[i].len() by {
        if i < at {
            assert(a[i] == cells[i] && b[i] == cells[i]);
        } else if i > at {
            assert(a[i] == cells[i - 1] && b[i] == cells[i - 1]);
        }
    }
    two_pages_by_length(a, b, c.len() + page::CHECKSUM_LEN);
}


/// The page at the end of the path is a leaf page in order.
pub proof fn leaf_of_path(v: PoolView, nodes: path::Nodes, key: i64, p: Pages)
    requires
        at_leaf(v, nodes, key, p),
        nodes.len() > 0,
    ensures
        ({
            let i = nodes.len() - 1;
            let c = nodes[i].1;
            &&& tree::node_ok(
                p,
                nodes[i].0,
                path::path_lo(nodes, i, key),
                path::path_hi(nodes, i, key),
                usable(v),
            )
            &&& tree::leaf_ok(
                p,
                c,
                nodes[i].0,
                path::path_lo(nodes, i, key),
                path::path_hi(nodes, i, key),
            )
            &&& path::path_lo(nodes, i, key) <= key < path::path_hi(nodes, i, key)
            &&& c.len() == usable(v)
            &&& p.contains_key(nodes[i].0)
            &&& p[nodes[i].0] == c
            &&& tree::entries(p, nodes[i].0) == tree::cell_entries(
                p,
                layout::leaf_cells(c),
                usable(v),
            )
            &&& tree::find(tree::tree_entries(p, v.meta.root), key) == tree::find(
                tree::entries(p, nodes[i].0),
                key,
            )
        }),
{
    let i = nodes.len() - 1;
    path::path_node(p, nodes, key, i, usable(v));
    assert(p.contains_key(nodes[i].0) && p[nodes[i].0] == nodes[i].1);
    tree::leaf_or_interior(nodes[i].1);
}

/// A page that cells were put on is a leaf page in order.
proof fn leaf_in_order(
    q: Pages,
    log: Pages,
    id: u32,
    cells: Seq<Seq<u8>>,
    below: int,
    u: int,
    lo: int,
    hi: int,
)
    requires
        tree::extends(q, log),
        tree::cells_ok(q, cells, below, u, lo, hi),
        mutate::leaf_made(log, id, cells, u),
        page::FIRST_DATA_PAGE_ID <= below <= id,
    ensures
        tree::node_ok(q, id, lo, hi, u),
        tree::entries(q, id) == tree::cell_entries(q, cells, u),
        q.contains_key(id),
        layout::leaf_shape(q[id]),
{
    assert(log.contains_key(id));
    tree::cells_grow(q, q, cells, below, id as int, u, lo, hi);
    tree::leaf_node(q, id, cells, lo, hi, u);
}

/// Two pages that cells were divided between are leaf pages in order.
proof fn leaves_in_two(
    q: Pages,
    log: Pages,
    result: NodeResult,
    all: Seq<Seq<u8>>,
    at: int,
    below: int,
    u: int,
    lo: int,
    hi: int,
)
    requires
        tree::extends(q, log),
        tree::cells_ok(q, all, below, u, lo, hi),
        mutate::leaf_result(log, result, all, at, u),
        tree::result_ids(result, below, 0x1_0000_0000),
        page::FIRST_DATA_PAGE_ID <= below,
        result is Split,
    ensures
        tree::result_ok(q, result, lo, hi, u),
        tree::result_entries(q, result) == tree::cell_entries(q, all, u),
        forall|i: int|
            0 <= i < tree::result_pages(result).len() ==> q.contains_key(
                #[trigger] tree::result_pages(result)[i],
            ) && layout::leaf_shape(q[tree::result_pages(result)[i]]),
{
    if let NodeResult::Split { left, right, separator_key } = result {
        let ns = tree::result_pages(result);
        let mid = mutate::division(all, u + page::CHECKSUM_LEN);
        let sep = separator_key as int;
        assert(ns[0] == left && ns[1] == right);
        tree::cells_split(q, all, mid, below, u, lo, hi);
        leaf_in_order(q, log, left, all.subrange(0, mid), below, u, lo, sep);
        leaf_in_order(q, log, right, all.subrange(mid, all.len() as int), below, u, sep, hi);
        tree::two_results(q, left, right, separator_key, lo, hi, u);
    }
}

/// Three pages that cells were put on are leaf pages in order.
proof fn leaves_in_three(
    q: Pages,
    log: Pages,
    result: NodeResult,
    all: Seq<Seq<u8>>,
    at: int,
    below: int,
    u: int,
    lo: int,
    hi: int,
)
    requires
        tree::extends(q, log),
        tree::cells_ok(q, all, below, u, lo, hi),
        mutate::leaf_result(log, result, all, at, u),
        tree::result_ids(result, below, 0x1_0000_0000),
        page::FIRST_DATA_PAGE_ID <= below,
        result is Parted,
    ensures
        tree::result_ok(q, result, lo, hi, u),
        tree::result_entries(q, result) == tree::cell_entries(q, all, u),
        forall|i: int|
            0 <= i < tree::result_pages(result).len() ==> q.contains_key(
                #[trigger] tree::result_pages(result)[i],
            ) && layout::leaf_shape(q[tree::result_pages(result)[i]]),
{
    if let NodeResult::Parted { left, middle, right, low_key, high_key } = result {
        let ns = tree::result_pages(result);
        let n = all.len() as int;
        let low = low_key as int;
        let high = high_key as int;
        let rest = all.subrange(at, n);
        assert(ns[0] == left && ns[1] == middle && ns[2] == right);
        tree::cells_split(q, all, at, below, u, lo, hi);
        tree::cells_split(q, rest, 1, below, u, low, hi);
        assert(rest[1] == all[at + 1]);
        assert(rest.subrange(0, 1) =~= all.subrange(at, at + 1));
        assert(rest.subrange(1, rest.len() as int) =~= all.subrange(at + 1, n));
        leaf_in_order(q, log, left, all.subrange(0, at), below, u, lo, low);
        leaf_in_order(q, log, middle, all.subrange(at, at + 1), below, u, low, high);
        leaf_in_order(q, log, right, all.subrange(at + 1, n), below, u, high, hi);
        tree::three_results(q, left, middle, right, low_key, high_key, lo, hi, u);
    }
}

/// The pages that cells were put on are leaf pages in order.
proof fn leaf_results(
    q: Pages,
    log: Pages,
    key: i64,
    result: NodeResult,
    all: Seq<Seq<u8>>,
    at: int,
    below: int,
    u: int,
    lo: int,
    hi: int,
    from: int,
)
    requires
        tree::extends(q, log),
        tree::cells_ok(q, all, below, u, lo, hi),
        mutate::leaf_result(log, result, all, at, u),
        tree::result_ids(result, below, 0x1_0000_0000),
        page::FIRST_DATA_PAGE_ID <= below,
        from <= below,
    ensures
        tree::result_ok(q, result, lo, hi, u),
        tree::result_entries(q, result) == tree::cell_entries(q, all, u),
        tree::result_fresh(q, result, key, from),
{
    let ns = tree::result_pages(result);
    match result {
        NodeResult::Replaced(id) => {
            assert(ns[0] == id);
            leaf_in_order(q, log, id, all, below, u, lo, hi);
            tree::one_result(q, id, lo, hi, u);
        },
        NodeResult::Split { .. } => {
            leaves_in_two(q, log, result, all, at, below, u, lo, hi);
        },
        NodeResult::Parted { .. } => {
            leaves_in_three(q, log, result, all, at, below, u, lo, hi);
        },
    }
    let m = layout::route(tree::result_keys(result), key);
    layout::route_bounds(tree::result_keys(result), key);
    assert(from <= ns[m]);
    tree::fresh_leaf(q, ns[m], key, from);
}

/// The pages that a leaf page was replaced by, with a new cell on them,
/// store the cell's payload.
proof fn leaf_replaced(
    p: Pages,
    nodes: path::Nodes,
    key: i64,
    payload: Seq<u8>,
    start: PoolView,
    v: PoolView,
    w: PoolView,
    result: NodeResult,
    base: Seq<Seq<u8>>,
    at: int,
    cell: Seq<u8>,
)
    requires
        at_leaf(start, nodes, key, p),
        nodes.len() > 0,
        buffer_pool::grown(start, v),
        buffer_pool::grown(v, w),
        buffer_pool::view_wf(w),
        tree::cell_ok(v.log, cell, v.next_id as int, usable(start)),
        layout::cell_key(cell) == key,
        tree::cell_payload(v.log, cell, usable(start)) == payload,
        ({
            let i = nodes.len() - 1;
            &&& tree::cells_ok(
                p,
                base,
                nodes[i].0 as int,
                usable(start),
                path::path_lo(nodes, i, key),
                path::path_hi(nodes, i, key),
            )
            &&& tree::put(tree::cell_entries(p, base, usable(start)), key, Some(payload))
                == tree::put(tree::entries(p, nodes[i].0), key, Some(payload))
        }),
        tree::insertion_point(base, key, at),
        mutate::leaf_result(w.log, result, base.insert(at, cell), at, usable(start)),
        tree::result_ids(result, v.next_id as int, w.next_id as int),
    ensures
        replaced_leaf(p, nodes, key, Some(payload), w, result, start.next_id as int),
{
    let i = nodes.len() - 1;
    let lo = path::path_lo(nodes, i, key);
    let hi = path::path_hi(nodes, i, key);
    let u = usable(start);
    let leaf = nodes[i].0;
    leaf_of_path(start, nodes, key, p);
    buffer_pool::grown_trans(start, v, w);
    buffer_pool::grown_sees(start, w, p);
    let q = buffer_pool::with_log(p, w);
    let all = base.insert(at, cell);
    assert(tree::extends(q, v.log)) by {
        assert forall|id: u32| #[trigger] v.log.contains_key(id) implies q.contains_key(id)
            && q[id] == v.log[id] by {
            assert(w.log.contains_key(id));
        }
    }
    let below = v.next_id as int;
    tree::cells_grow(p, q, base, leaf as int, below, u, lo, hi);
    tree::cell_grows(v.log, q, cell, below, below, u);
    tree::cells_insert(q, base, at, cell, below, u, lo, hi);
    leaf_results(q, w.log, key, result, all, at, below, u, lo, hi, start.next_id as int);
}

/// The errors of an attempt to store a row, whatever the pages hold: the row
/// is too large, or the error is a fatal one that reports no page type.
pub open spec fn store_fails(e: PinaxError, key: i64, vs: Seq<ValueView>) -> bool {
    ||| e is Fatal && !error::is_wrong_type(e)
    ||| overflow::row_too_large(vs) is Some && e == row::too_large(
        key,
        overflow::row_too_large(vs)->0 as int,
    )
}

/// The error of a failed insert: the key is taken, the row is too large, or
/// the counters are exhausted.
pub open spec fn insert_error(
    e: PinaxError,
    v: PoolView,
    nodes: path::Nodes,
    es: Seq<tree::Entry>,
    key: i64,
    vs: Seq<ValueView>,
) -> bool {
    if tree::find(es, key) is Some {
        e == key_exists(key)
    } else if overflow::row_too_large(vs) is Some {
        e == row::too_large(key, overflow::row_too_large(vs)->0 as int)
    } else {
        &&& !counters_left(v, insert_pages(nodes, key, row::row_bytes(vs).len(), v.meta.size))
        &&& e == error::exhausted()
    }
}

/// An insert succeeds: the key is free, the row fits in a payload, and the
/// counters suffice.
pub open spec fn insert_possible(
    v: PoolView,
    nodes: path::Nodes,
    es: Seq<tree::Entry>,
    key: i64,
    vs: Seq<ValueView>,
) -> bool {
    let payload = row::row_bytes(vs);
    &&& tree::find(es, key) is None
    &&& overflow::row_too_large(vs) is None
    &&& counters_left(v, insert_pages(nodes, key, payload.len(), v.meta.size))
}

/// What an insert into the tree of `pages` comes to.
pub open spec fn insert_result(
    v: PoolView,
    w: PoolView,
    nodes: path::Nodes,
    pages: Pages,
    key: i64,
    vs: Seq<ValueView>,
    r: Result<u32, PinaxError>,
) -> bool {
    let es = tree::tree_entries(pages, v.meta.root);
    match r {
        Ok(root) => insert_possible(v, nodes, es, key, vs) && stores(
            v,
            w,
            pages,
            root,
            key,
            Some(row::row_bytes(vs)),
        ) && w.next_id == v.next_id + insert_pages(
            nodes,
            key,
            row::row_bytes(vs).len(),
            v.meta.size,
        ),
        Err(e) => insert_error(e, v, nodes, es, key, vs),
    }
}

/// In the state `w`, the tree with the root page `root` is the committed
/// tree of the state `v` with `payload` stored under `key`. The root, and
/// all pages on the way from it to the key's leaf page, were put since `v`.
pub open spec fn stores(
    v: PoolView,
    w: PoolView,
    pages: Pages,
    root: u32,
    key: i64,
    payload: Option<Seq<u8>>,
) -> bool {
    let all = buffer_pool::with_log(pages, w);
    &&& tree::tree_ok(all, root, usable(v))
    &&& tree::tree_entries(all, root) == tree::put(
        tree::tree_entries(pages, v.meta.root),
        key,
        payload,
    )
    &&& v.next_id <= root < w.next_id
    &&& tree::fresh_way(all, root, key, v.next_id as int)
}

/// A new root was committed on top of a pool that pages were put into since
/// `v`.
#[verifier::opaque]
pub open spec fn commits(v: PoolView, w: PoolView, root: u32) -> bool {
    &&& v.meta.txn_id < u64::MAX
    &&& exists|m: PoolView| #[trigger]
        buffer_pool::extended(v, m) && buffer_pool::view_wf(m) && w == buffer_pool::committing(
            m,
            root,
        )
}

/// What a commit says of the pool that it is on top of.
pub proof fn commits_facts(v: PoolView, w: PoolView, root: u32)
    requires
        commits(v, w, root),
    ensures
        v.meta.txn_id < u64::MAX,
        w.meta == v.meta,
{
    reveal(commits);
}

/// Fail unless there are a transaction number, and page ids for the overflow
/// pages of a payload of this length, left.
fn check_counters(pool: &BufferPool, payload_len: usize) -> (r: Result<(), PinaxError>)
    requires
        pool.wf(),
    ensures
        match r {
            Ok(()) => counters_left(pool@, chain_pages(payload_len as nat, pool@.meta.size)),
            Err(e) => !counters_left(pool@, chain_pages(payload_len as nat, pool@.meta.size)) && e
                == error::exhausted(),
        },
{
    let pages: usize = overflow_pages(payload_len, pool.page_size());
    if pool.txn_id() == 0xFFFF_FFFF_FFFF_FFFF || pool.next_page_id() as u128 + pages as u128
        > 0xFFFF_FFFF {
        return Err(counter_exhausted());
    }
    Ok(())
}

/// What searching a leaf page with these bytes, whatever they are, means for
/// an insert: it is refused where the key is found, and fails where a key
/// that the search comes to is not on the page.
pub open spec fn insert_found<T>(b: Seq<u8>, key: i64, r: Result<T, PinaxError>) -> bool {
    match layout::searched(b, key, 0, layout::cell_count(b)) {
        Ok(Ok(_)) => r matches Err(e) && e == key_exists(key),
        Ok(Err(_)) => r matches Err(e) ==> e != key_exists(key),
        Err(i) => r matches Err(e) && layout::is_cell_error(e, b, 5, i, 0, 8),
    }
}

/// The same for an update, which is refused where the key is not found.
pub open spec fn update_found<T>(b: Seq<u8>, key: i64, r: Result<T, PinaxError>) -> bool {
    match layout::searched(b, key, 0, layout::cell_count(b)) {
        Ok(Ok(_)) => r matches Err(e) ==> e != key_not_found(key),
        Ok(Err(_)) => r matches Err(e) && e == key_not_found(key),
        Err(i) => r matches Err(e) && layout::is_cell_error(e, b, 5, i, 0, 8),
    }
}

/// Insert `row` under `key`, and return the new root, whose commit is handed
/// out. `path` leads to the leaf page that the key belongs to.
pub fn insert(pool: &mut BufferPool, path: &Vec<PathNode>, key: i64, row: &Row) -> (r: Result<
    u32,
    PinaxError,
>)
    requires
        old(pool).wf(),
        path::sized(path@, old(pool)@.meta.size),
    ensures
        final(pool).wf(),
        sees_on(old(pool)@, final(pool)@, path::nodes_of(path@)),
        match r {
            Ok(root) => {
                &&& commits(old(pool)@, final(pool)@, root)
                &&& writes_up(old(pool)@, final(pool)@, path@, root)
                &&& old(pool)@.next_id <= root < final(pool)@.next_id
            },
            Err(e) => {
                &&& buffer_pool::extended(old(pool)@, final(pool)@)
                &&& store_fails(e, key, row@) || e == key_exists(key)
                &&& e is Permanent ==> final(pool)@ == old(pool)@
            },
        },
        forall|pages: Pages| #[trigger]
            at_leaf(old(pool)@, path::nodes_of(path@), key, pages) ==> insert_result(
                old(pool)@,
                final(pool)@,
                path::nodes_of(path@),
                pages,
                key,
                row@,
                r,
            ),
        path@.len() > 0 ==> insert_found(path@.last().buf@, key, r),
        path@.len() == 0 ==> (r matches Err(e) ==> e != key_exists(key)),
{
    let ghost start = pool@;
    let ghost nodes = path::nodes_of(path@);
    proof {
        pool.wf_facts();
        buffer_pool::grown_refl(start);
        grown_sees_on(start, start, nodes);
    }
    if path.len() == 0 {
        assert(path@ =~= Seq::empty());
        return insert_first(pool, key, row, Ghost(nodes));
    }
    let n: usize = path.len();
    let leaf_buf: &Vec<u8> = &path[n - 1].buf;
    assert(nodes[n - 1].1 == page::body(leaf_buf@));
    assert(leaf_buf@.len() == start.meta.size);
    let found = leaf_search(leaf_buf.as_slice(), key);
    proof {
        search_outcome(start, nodes, key, leaf_buf@, found);
    }
    let at: usize = match found? {
        Ok(_) => {
            return Err(PinaxError::Permanent { source: PermanentError::KeyAlreadyExists { key } });
        },
        Err(at) => at,
    };
    proof {
        same_leaf_takes(start, nodes, key, leaf_buf@, at as int);
    }
    store_at_leaf(pool, path, leaf_buf, at, key, row)
}

/// A leaf page's body `c` that can stand for the page at the end of the
/// path: storing `key` at `at` among its cells is storing it in the tree.
pub open spec fn leaf_base(
    v: PoolView,
    nodes: path::Nodes,
    key: i64,
    pages: Pages,
    c: Seq<u8>,
    at: int,
) -> bool {
    let i = nodes.len() - 1;
    let base = layout::leaf_cells(c);
    &&& at_leaf(v, nodes, key, pages)
    &&& nodes.len() > 0
    &&& layout::leaf_shape(c)
    &&& tree::insertion_point(base, key, at)
    &&& tree::cells_ok(
        pages,
        base,
        nodes[i].0 as int,
        usable(v),
        path::path_lo(nodes, i, key),
        path::path_hi(nodes, i, key),
    )
    &&& forall|payload: Seq<u8>|
        tree::put(tree::cell_entries(pages, base, usable(v)), key, Some(payload))
            == #[trigger] tree::put(tree::entries(pages, nodes[i].0), key, Some(payload))
}

/// The page at the end of the path can stand for itself where the key is not
/// there.
proof fn same_leaf_takes(v: PoolView, nodes: path::Nodes, key: i64, buf: Seq<u8>, at: int)
    requires
        nodes.len() > 0,
        nodes.last().1 == page::body(buf),
        forall|pages: Pages| #[trigger]
            at_leaf(v, nodes, key, pages) ==> tree::insertion_point(
                layout::leaf_cells(nodes.last().1),
                key,
                at,
            ),
    ensures
        forall|pages: Pages| #[trigger]
            at_leaf(v, nodes, key, pages) ==> leaf_base(v, nodes, key, pages, page::body(buf), at),
{
    assert forall|pages: Pages| #[trigger] at_leaf(v, nodes, key, pages) implies leaf_base(
        v,
        nodes,
        key,
        pages,
        page::body(buf),
        at,
    ) by {
        leaf_of_path(v, nodes, key, pages);
    }
}

/// The error of a failed attempt to store a row: the row is too large, or
/// the counters are exhausted.
pub open spec fn store_error(
    e: PinaxError,
    v: PoolView,
    nodes: path::Nodes,
    c: Seq<u8>,
    key: i64,
    vs: Seq<ValueView>,
) -> bool {
    let len = row::row_bytes(vs).len();
    if overflow::row_too_large(vs) is Some {
        e == row::too_large(key, overflow::row_too_large(vs)->0 as int)
    } else {
        &&& !counters_left(v, store_pages(nodes, leaf_parts(c, key, len), len, v.meta.size))
        &&& e == error::exhausted()
    }
}

/// Store `row` under `key` at `at` among the cells of a leaf page that
/// stands for the page at the end of the path.
fn store_at_leaf(
    pool: &mut BufferPool,
    path: &Vec<PathNode>,
    leaf_buf: &Vec<u8>,
    at: usize,
    key: i64,
    row: &Row,
) -> (r: Result<u32, PinaxError>)
    requires
        old(pool).wf(),
        path@.len() > 0,
        path::sized(path@, old(pool)@.meta.size),
        leaf_buf@.len() == old(pool)@.meta.size,
    ensures
        final(pool).wf(),
        sees_on(old(pool)@, final(pool)@, path::nodes_of(path@)),
        match r {
            Ok(root) => {
                &&& commits(old(pool)@, final(pool)@, root)
                &&& writes_up(old(pool)@, final(pool)@, path@, root)
                &&& old(pool)@.next_id <= root < final(pool)@.next_id
            },
            Err(e) => {
                &&& buffer_pool::extended(old(pool)@, final(pool)@)
                &&& store_fails(e, key, row@)
                &&& e is Permanent ==> final(pool)@ == old(pool)@
            },
        },
        forall|pages: Pages| #[trigger]
            leaf_base(
                old(pool)@,
                path::nodes_of(path@),
                key,
                pages,
                page::body(leaf_buf@),
                at as int,
            ) ==> {
                let c = page::body(leaf_buf@);
                let len = row::row_bytes(row@).len();
                let nodes = path::nodes_of(path@);
                match r {
                    Ok(root) => {
                        &&& overflow::row_too_large(row@) is None
                        &&& counters_left(
                            old(pool)@,
                            store_pages(
                                nodes,
                                leaf_parts(c, key, len),
                                len,
                                old(pool)@.meta.size,
                            ),
                        )
                        &&& stores(
                            old(pool)@,
                            final(pool)@,
                            pages,
                            root,
                            key,
                            Some(row::row_bytes(row@)),
                        )
                        &&& final(pool)@.next_id == old(pool)@.next_id + store_pages(
                            nodes,
                            leaf_parts(c, key, len),
                            len,
                            old(pool)@.meta.size,
                        )
                    },
                    Err(e) => store_error(e, old(pool)@, nodes, c, key, row@),
                }
            },
{
    let ghost start = pool@;
    let ghost nodes = path::nodes_of(path@);
    let ghost c = page::body(leaf_buf@);
    proof {
        pool.wf_facts();
        buffer_pool::grown_refl(start);
        grown_sees_on(start, start, nodes);
    }
    let encoded = encode_row(key, row)?;
    proof {
        let parts = leaf_parts(c, key, encoded@.len());
        climb_pages_bound(nodes, nodes.len() - 1, parts, start.meta.size);
    }
    check_counters(pool, encoded.len())?;
    let placed = place_cell(pool, leaf_buf, at, key, encoded.as_slice(), Ghost(nodes));
    let ghost w = pool@;
    proof {
        pool.wf_facts();
        grown_sees_on(start, w, nodes);
    }
    let result: NodeResult = placed?;
    let carried_up_to = propagate(pool, path, result, Ghost(key), Ghost(start.next_id as int));
    let ghost m = pool@;
    proof {
        buffer_pool::extended_trans(start, w, m);
        sees_on_trans(start, w, m, nodes);
        pool.wf_facts();
    }
    let root: u32 = carried_up_to?;
    pool.commit(root)?;
    proof {
        committing_sees_on(start, m, root, nodes);
        assert(commits(start, pool@, root)) by {
            reveal(commits);
            assert(buffer_pool::extended(start, m));
        }
        assert(writes_up(start, pool@, path@, root)) by {
            reveal(writes_up);
            assert(climbed(w, m, path@, path@.len() - 1));
        }
        assert forall|pages: Pages| #[trigger]
            leaf_base(start, nodes, key, pages, c, at as int) implies stores(
            start,
            pool@,
            pages,
            root,
            key,
            Some(encoded@),
        ) by {
            assert(replaced_leaf(
                pages,
                nodes,
                key,
                Some(encoded@),
                w,
                result,
                start.next_id as int,
            ));
            assert(buffer_pool::with_log(pages, pool@) == buffer_pool::with_log(pages, m));
        }
    }
    Ok(root)
}

/// Put the cell of an encoded row at `at` among the cells of a leaf page
/// that stands for the page at the end of the path.
fn place_cell(
    pool: &mut BufferPool,
    leaf_buf: &Vec<u8>,
    at: usize,
    key: i64,
    encoded: &[u8],
    Ghost(nodes): Ghost<path::Nodes>,
) -> (r: Result<NodeResult, PinaxError>)
    requires
        old(pool).wf(),
        nodes.len() > 0,
        leaf_buf@.len() == old(pool)@.meta.size,
        encoded@.len() <= u32::MAX,
        counters_left(old(pool)@, chain_pages(encoded@.len(), old(pool)@.meta.size)),
    ensures
        final(pool).wf(),
        buffer_pool::grown(old(pool)@, final(pool)@),
        match r {
            Ok(result) => {
                &&& tree::result_ids(
                    result,
                    old(pool)@.next_id as int,
                    final(pool)@.next_id as int,
                )
                &&& forall|pages: Pages| #[trigger]
                    leaf_base(
                        old(pool)@,
                        nodes,
                        key,
                        pages,
                        page::body(leaf_buf@),
                        at as int,
                    ) ==> replaced_leaf(
                        pages,
                        nodes,
                        key,
                        Some(encoded@),
                        final(pool)@,
                        result,
                        old(pool)@.next_id as int,
                    ) && tree::result_pages(result).len() == leaf_parts(
                        page::body(leaf_buf@),
                        key,
                        encoded@.len(),
                    ) && final(pool)@.next_id == old(pool)@.next_id + chain_pages(
                        encoded@.len(),
                        old(pool)@.meta.size,
                    ) + leaf_parts(page::body(leaf_buf@), key, encoded@.len())
            },
            Err(e) => {
                &&& error::is_bounds_error(e) || e == error::exhausted()
                &&& forall|pages: Pages| #[trigger]
                    leaf_base(
                        old(pool)@,
                        nodes,
                        key,
                        pages,
                        page::body(leaf_buf@),
                        at as int,
                    ) ==> e == error::exhausted() && old(pool)@.next_id + chain_pages(
                        encoded@.len(),
                        old(pool)@.meta.size,
                    ) + leaf_parts(page::body(leaf_buf@), key, encoded@.len()) > u32::MAX
            },
        },
{
    let ghost start = pool@;
    let ghost c = page::body(leaf_buf@);
    proof {
        pool.wf_facts();
    }
    let cell = build_row_cell(pool, key, encoded)?;
    let ghost v = pool@;
    let made = leaf_insert_or_split(pool, leaf_buf, at, &cell);
    proof {
        buffer_pool::grown_trans(start, v, pool@);
        pool.wf_facts();
        store_outcome(start, nodes, key, encoded@, v, pool@, c, at as int, cell@, made);
    }
    made
}

/// What a search of the leaf page at the end of a path finds is what the
/// tree has.
pub proof fn search_outcome(
    v: PoolView,
    nodes: path::Nodes,
    key: i64,
    buf: Seq<u8>,
    found: Result<Result<usize, usize>, PinaxError>,
)
    requires
        nodes.len() > 0,
        nodes.last().1 == page::body(buf),
        buf.len() == v.meta.size,
        page::valid_page_size(v.meta.size),
        match found {
            Ok(Ok(i)) => i < layout::cell_count(buf) && layout::key_of(buf, 5, i as int) == key,
            Ok(Err(i)) => {
                &&& i <= layout::cell_count(buf)
                &&& layout::keys_ascend(buf) ==> {
                    &&& forall|j: int| 0 <= j < i ==> #[trigger] layout::key_of(buf, 5, j) < key
                    &&& forall|j: int|
                        i <= j < layout::cell_count(buf) ==> #[trigger] layout::key_of(buf, 5, j)
                            > key
                }
            },
            Err(_) => exists|i: int|
                0 <= i < layout::cell_count(buf) && !#[trigger] layout::cell_readable(buf, 5, i, 8),
        },
    ensures
        forall|pages: Pages| #[trigger]
            at_leaf(v, nodes, key, pages) ==> {
                let es = tree::tree_entries(pages, v.meta.root);
                let cells = layout::leaf_cells(nodes.last().1);
                match found {
                    Ok(Ok(i)) => {
                        &&& i < cells.len()
                        &&& layout::cell_key(cells[i as int]) == key
                        &&& tree::find(es, key) == Some(
                            tree::cell_payload(pages, cells[i as int], usable(v)),
                        )
                    },
                    Ok(Err(i)) => tree::find(es, key) is None && tree::insertion_point(
                        cells,
                        key,
                        i as int,
                    ),
                    Err(_) => false,
                }
            },
{
    let i = nodes.len() - 1;
    let c = nodes[i].1;
    let cells = layout::leaf_cells(c);
    assert forall|pages: Pages| #[trigger] at_leaf(v, nodes, key, pages) implies {
        let es = tree::tree_entries(pages, v.meta.root);
        match found {
            Ok(Ok(i)) => {
                &&& i < cells.len()
                &&& layout::cell_key(cells[i as int]) == key
                &&& tree::find(es, key) == Some(
                    tree::cell_payload(pages, cells[i as int], usable(v)),
                )
            },
            Ok(Err(i)) => tree::find(es, key) is None && tree::insertion_point(
                cells,
                key,
                i as int,
            ),
            Err(_) => false,
        }
    } by {
        leaf_of_path(v, nodes, key, pages);
        mutate::leaf_buffer_keys(buf);
        let lo = path::path_lo(nodes, i, key);
        let hi = path::path_hi(nodes, i, key);
        match found {
            Ok(Ok(k)) => {
                assert(layout::key_of(buf, 5, k as int) == layout::cell_key(cells[k as int]));
                tree::cells_find(
                    pages,
                    cells,
                    k as int,
                    nodes[i].0 as int,
                    usable(v),
                    lo,
                    hi,
                );
            },
            Ok(Err(k)) => {
                assert forall|j: int| 0 <= j < k implies layout::cell_key(#[trigger] cells[j])
                    < key by {
                    assert(layout::key_of(buf, 5, j) == layout::cell_key(cells[j]));
                }
                assert forall|j: int| k <= j < cells.len() implies layout::cell_key(
                    #[trigger] cells[j],
                ) > key by {
                    assert(layout::key_of(buf, 5, j) == layout::cell_key(cells[j]));
                }
                tree::cells_find_none(pages, cells, key, k as int, usable(v));
            },
            Err(_) => {},
        }
    }
}

/// What storing a cell on the leaf page at the end of a path comes to.
proof fn store_outcome(
    start: PoolView,
    nodes: path::Nodes,
    key: i64,
    encoded: Seq<u8>,
    v: PoolView,
    w: PoolView,
    c: Seq<u8>,
    at: int,
    cell: Seq<u8>,
    made: Result<NodeResult, PinaxError>,
)
    requires
        nodes.len() > 0,
        c.len() == usable(start),
        encoded.len() <= u32::MAX,
        buffer_pool::grown(start, v),
        buffer_pool::grown(v, w),
        buffer_pool::view_wf(w),
        layout::cell_wf(cell, usable(start) - 35),
        layout::cell_key(cell) == key,
        start.next_id >= page::FIRST_DATA_PAGE_ID ==> tree::cell_ok(
            v.log,
            cell,
            v.next_id as int,
            usable(start),
        ) && tree::cell_payload(v.log, cell, usable(start)) == encoded,
        ({
            let all = mutate::leaf_with(c, at, cell);
            match made {
                Ok(result) => {
                    &&& tree::result_ids(result, v.next_id as int, w.next_id as int)
                    &&& mutate::leaf_takes(c, at, cell) ==> mutate::leaf_result(
                        w.log,
                        result,
                        all,
                        at,
                        usable(start),
                    ) && tree::result_pages(result).len() == mutate::leaf_pages(c, at, cell)
                },
                Err(e) => {
                    &&& mutate::leaf_takes(c, at, cell) ==> e == error::exhausted() && v.next_id
                        + mutate::leaf_pages(c, at, cell) > u32::MAX
                },
            }
        }),
    ensures
        forall|pages: Pages| #[trigger]
            leaf_base(start, nodes, key, pages, c, at) ==> match made {
                Ok(result) => replaced_leaf(
                    pages,
                    nodes,
                    key,
                    Some(encoded),
                    w,
                    result,
                    start.next_id as int,
                ) && tree::result_pages(result).len() == leaf_parts(c, key, encoded.len()),
                Err(e) => e == error::exhausted() && v.next_id + leaf_parts(c, key, encoded.len())
                    > u32::MAX,
            },
{
    let i = nodes.len() - 1;
    let cells = layout::leaf_cells(c);
    assert forall|pages: Pages| #[trigger]
        leaf_base(start, nodes, key, pages, c, at) implies match made {
        Ok(result) => replaced_leaf(
            pages,
            nodes,
            key,
            Some(encoded),
            w,
            result,
            start.next_id as int,
        ) && tree::result_pages(result).len() == leaf_parts(c, key, encoded.len()),
        Err(e) => e == error::exhausted() && v.next_id + leaf_parts(c, key, encoded.len())
            > u32::MAX,
    } by {
        leaf_of_path(start, nodes, key, pages);
        cell_length(v.log, cell, encoded, usable(start), v.next_id as int);
        parts_by_length(c, key, encoded.len(), at, cell);
        if made is Ok {
            leaf_replaced(
                pages,
                nodes,
                key,
                encoded,
                start,
                v,
                w,
                made->Ok_0,
                cells,
                at,
                cell,
            );
        }
    }
}

/// The length of a cell is that of its payload's local part.
proof fn cell_length(log: Pages, cell: Seq<u8>, payload: Seq<u8>, u: int, below: int)
    requires
        35 < u,
        tree::cell_ok(log, cell, below, u),
        tree::cell_payload(log, cell, u) == payload,
    ensures
        cell.len() == 16 + layout::local_len(payload.len() as int, u - 35),
{
    if layout::cell_overflow_first(cell) != 0 {
        tree::chain_grows(
            log,
            log,
            layout::cell_overflow_first(cell),
            tree::tail_len(cell, u - 35),
            below,
            below,
            u - 5,
        );
    }
}

/// Where there is no path, the pages that were put and the commit are all.
proof fn first_writes(v: PoolView, m: PoolView, root: u32)
    requires
        buffer_pool::grown(v, m),
    ensures
        writes_up(v, buffer_pool::committing(m, root), Seq::empty(), root),
{
    reveal(writes_up);
    buffer_pool::grown_refl(m);
    let path = Seq::<PathNode>::empty();
    assert(climbed(m, m, path, path.len() - 1));
}

/// Insert into a tree without pages: the row's cell on a leaf page, which is
/// the root.
fn insert_first(pool: &mut BufferPool, key: i64, row: &Row, Ghost(nodes): Ghost<path::Nodes>) -> (r:
    Result<u32, PinaxError>)
    requires
        old(pool).wf(),
        nodes.len() == 0,
    ensures
        final(pool).wf(),
        sees_on(old(pool)@, final(pool)@, nodes),
        match r {
            Ok(root) => {
                &&& commits(old(pool)@, final(pool)@, root)
                &&& writes_up(old(pool)@, final(pool)@, Seq::empty(), root)
                &&& old(pool)@.next_id <= root < final(pool)@.next_id
            },
            Err(e) => {
                &&& buffer_pool::extended(old(pool)@, final(pool)@)
                &&& store_fails(e, key, row@)
                &&& e is Permanent ==> final(pool)@ == old(pool)@
            },
        },
        forall|pages: Pages| #[trigger]
            at_leaf(old(pool)@, nodes, key, pages) ==> {
                let es = tree::tree_entries(pages, old(pool)@.meta.root);
                match r {
                    Ok(root) => insert_possible(old(pool)@, nodes, es, key, row@) && stores(
                        old(pool)@,
                        final(pool)@,
                        pages,
                        root,
                        key,
                        Some(row::row_bytes(row@)),
                    ) && final(pool)@.next_id == old(pool)@.next_id + insert_pages(
                        nodes,
                        key,
                        row::row_bytes(row@).len(),
                        old(pool)@.meta.size,
                    ),
                    Err(e) => insert_error(e, old(pool)@, nodes, es, key, row@),
                }
            },
{
    let ghost start = pool@;
    proof {
        pool.wf_facts();
        buffer_pool::grown_refl(start);
        grown_sees_on(start, start, nodes);
    }
    let encoded = encode_row(key, row)?;
    check_counters(pool, encoded.len())?;
    let built = build_row_cell(pool, key, encoded.as_slice());
    let ghost v = pool@;
    proof {
        pool.wf_facts();
        grown_sees_on(start, v, nodes);
    }
    let cell = built?;
    let mut buf: Vec<u8> = vec![0u8; pool.page_size().bytes_usize()];
    init_leaf(&mut buf)?;
    let ghost empty = buf@;
    insert_cell_at(&mut buf, 5, 0, cell.as_slice())?;
    let ghost after = page::body(buf@);
    proof {
        mutate::first_cell(empty, buf@, cell@);
    }
    if pool.next_page_id() == 0xFFFF_FFFF {
        return Err(counter_exhausted());
    }
    let id: u32 = pool.put_page(buf)?;
    let ghost m = pool@;
    proof {
        buffer_pool::grown_trans(start, v, m);
        pool.wf_facts();
        grown_sees_on(start, m, nodes);
    }
    pool.commit(id)?;
    proof {
        committing_sees_on(start, m, id, nodes);
        assert(commits(start, pool@, id)) by {
            reveal(commits);
            assert(buffer_pool::extended(start, m));
        }
        first_writes(start, m, id);
        assert forall|pages: Pages| #[trigger] at_leaf(start, nodes, key, pages) implies stores(
            start,
            pool@,
            pages,
            id,
            key,
            Some(encoded@),
        ) by {
            first_leaf(
                pages,
                start,
                v,
                m,
                key,
                encoded@,
                cell@,
                id,
                start.next_id as int,
            );
        }
    }
    Ok(id)
}

/// The first cell of a tree makes its one entry.
proof fn first_leaf(
    p: Pages,
    start: PoolView,
    v: PoolView,
    w: PoolView,
    key: i64,
    encoded: Seq<u8>,
    cell: Seq<u8>,
    id: u32,
    from: int,
)
    requires
        start.meta.root == page::EMPTY_TREE_ROOT,
        page::FIRST_DATA_PAGE_ID <= id,
        from <= id,
        id == v.next_id,
        tree::extends(w.log, v.log),
        tree::cell_ok(v.log, cell, v.next_id as int, usable(start)),
        tree::cell_payload(v.log, cell, usable(start)) == encoded,
        layout::cell_key(cell) == key,
        mutate::leaf_made(w.log, id, seq![cell], usable(start)),
    ensures
        tree::tree_ok(buffer_pool::with_log(p, w), id, usable(start)),
        tree::tree_entries(buffer_pool::with_log(p, w), id) == tree::put(
            tree::tree_entries(p, start.meta.root),
            key,
            Some(encoded),
        ),
        tree::fresh_way(buffer_pool::with_log(p, w), id, key, from),
{
    let q = buffer_pool::with_log(p, w);
    let u = usable(start);
    let none = Seq::<Seq<u8>>::empty();
    assert(tree::extends(q, v.log));
    tree::cell_grows(v.log, q, cell, id as int, id as int, u);
    assert(tree::cells_ok(q, none, id as int, u, tree::key_lo(), tree::key_hi()));
    tree::cells_insert(q, none, 0, cell, id as int, u, tree::key_lo(), tree::key_hi());
    assert(none.insert(0, cell) =~= seq![cell]);
    assert(tree::cell_entries(q, none, u) =~= Seq::<tree::Entry>::empty());
    assert(q.contains_key(id) && q[id] == w.log[id]);
    tree::leaf_node(q, id, seq![cell], tree::key_lo(), tree::key_hi(), u);
    tree::fresh_leaf(q, id, key, from);
}

/// How many leaf pages the cells of the leaf page with the body `c` are put
/// on, with a new payload of this length in place of the one under `key`.
pub open spec fn update_parts(c: Seq<u8>, key: i64, payload_len: nat) -> int {
    let at = choose|at: int|
        0 <= at < layout::leaf_cells(c).len() && layout::cell_key(
            #[trigger] layout::leaf_cells(c)[at],
        ) == key;
    let cell = blank_cell(key, payload_len, c.len() as int);
    if layout::free_bytes(c, 5) + 2 >= cell.len() + 2 {
        1
    } else if mutate::two_pages_do(
        layout::leaf_cells(c).update(at, cell),
        c.len() + page::CHECKSUM_LEN,
    ) {
        2
    } else {
        3
    }
}

/// How many pages are put to update the row under `key` to a payload of this
/// length.
pub open spec fn update_pages(nodes: path::Nodes, key: i64, payload_len: nat, size: int) -> int {
    store_pages(nodes, update_parts(nodes.last().1, key, payload_len), payload_len, size)
}

/// The error of a failed update: the key is not there, the row is too large,
/// or the counters are exhausted.
pub open spec fn update_error(
    e: PinaxError,
    v: PoolView,
    nodes: path::Nodes,
    es: Seq<tree::Entry>,
    key: i64,
    vs: Seq<ValueView>,
) -> bool {
    if tree::find(es, key) is None {
        e == key_not_found(key)
    } else if overflow::row_too_large(vs) is Some {
        e == row::too_large(key, overflow::row_too_large(vs)->0 as int)
    } else {
        &&& !counters_left(v, update_pages(nodes, key, row::row_bytes(vs).len(), v.meta.size))
        &&& e == error::exhausted()
    }
}

/// An update succeeds: there is a row under the key, the new row fits in a
/// payload, and the counters suffice.
pub open spec fn update_possible(
    v: PoolView,
    nodes: path::Nodes,
    es: Seq<tree::Entry>,
    key: i64,
    vs: Seq<ValueView>,
) -> bool {
    let payload = row::row_bytes(vs);
    &&& tree::find(es, key) is Some
    &&& overflow::row_too_large(vs) is None
    &&& counters_left(v, update_pages(nodes, key, payload.len(), v.meta.size))
}

/// What an update of the tree of `pages` comes to.
pub open spec fn update_result(
    v: PoolView,
    w: PoolView,
    nodes: path::Nodes,
    pages: Pages,
    key: i64,
    vs: Seq<ValueView>,
    r: Result<u32, PinaxError>,
) -> bool {
    let es = tree::tree_entries(pages, v.meta.root);
    match r {
        Ok(root) => update_possible(v, nodes, es, key, vs) && stores(
            v,
            w,
            pages,
            root,
            key,
            Some(row::row_bytes(vs)),
        ) && w.next_id == v.next_id + update_pages(
            nodes,
            key,
            row::row_bytes(vs).len(),
            v.meta.size,
        ),
        Err(e) => update_error(e, v, nodes, es, key, vs),
    }
}

/// The page at the end of the path, without the key's cell, can stand for
/// it.
proof fn lighter_leaf_takes(
    v: PoolView,
    nodes: path::Nodes,
    key: i64,
    buf: Seq<u8>,
    lighter: Seq<u8>,
    at: int,
    payload_len: nat,
)
    requires
        nodes.len() > 0,
        nodes.last().1 == page::body(buf),
        page::valid_page_size(v.meta.size),
        buf.len() == v.meta.size,
        lighter.len() == buf.len(),
        payload_len <= u32::MAX,
        forall|pages: Pages| #[trigger]
            at_leaf(v, nodes, key, pages) ==> at < layout::leaf_cells(nodes.last().1).len()
                && layout::cell_key(layout::leaf_cells(nodes.last().1)[at]) == key,
        0 <= at,
        layout::leaf_shape(page::body(buf)) ==> {
            &&& layout::leaf_shape(page::body(lighter))
            &&& layout::leaf_cells(page::body(lighter)) == layout::leaf_cells(
                page::body(buf),
            ).remove(at)
            &&& layout::free_bytes(page::body(lighter), 5) == layout::free_bytes(
                page::body(buf),
                5,
            ) + 2
        },
    ensures
        forall|pages: Pages| #[trigger]
            at_leaf(v, nodes, key, pages) ==> leaf_base(
                v,
                nodes,
                key,
                pages,
                page::body(lighter),
                at,
            ) && leaf_parts(page::body(lighter), key, payload_len) == update_parts(
                page::body(buf),
                key,
                payload_len,
            ),
{
    let i = nodes.len() - 1;
    let c = page::body(buf);
    let d = page::body(lighter);
    let cells = layout::leaf_cells(c);
    assert forall|pages: Pages| #[trigger] at_leaf(v, nodes, key, pages) implies leaf_base(
        v,
        nodes,
        key,
        pages,
        d,
        at,
    ) && leaf_parts(d, key, payload_len) == update_parts(c, key, payload_len) by {
        leaf_of_path(v, nodes, key, pages);
        let lo = path::path_lo(nodes, i, key);
        let hi = path::path_hi(nodes, i, key);
        let es = tree::entries(pages, nodes[i].0);
        tree::cells_remove(pages, cells, at, nodes[i].0 as int, usable(v), lo, hi);
        tree::node_entries(pages, nodes[i].0, lo, hi, usable(v));
        assert forall|payload: Seq<u8>|
            tree::put(
                tree::cell_entries(pages, layout::leaf_cells(d), usable(v)),
                key,
                Some(payload),
            ) == #[trigger] tree::put(es, key, Some(payload)) by {
            tree::put_over(es, key, Some(payload));
        }
        let blank = blank_cell(key, payload_len, c.len() as int);
        layout::leaf_cell_round_trip(
            key,
            payload_len as u32,
            0,
            Seq::new(layout::local_len(payload_len as int, c.len() - 35) as nat, |k: int| 0u8),
        );
        parts_by_length(d, key, payload_len, at, blank);
        let other = choose|other: int|
            0 <= other < cells.len() && layout::cell_key(#[trigger] cells[other]) == key;
        assert(layout::cell_key(cells[at]) == key);
        assert(other == at) by {
            if other < at {
                assert(layout::cell_key(cells[other]) < layout::cell_key(cells[at]));
            } else if at < other {
                assert(layout::cell_key(cells[at]) < layout::cell_key(cells[other]));
            }
        }
        assert(cells.remove(at).insert(at, blank) =~= cells.update(at, blank));
    }
}

/// Replace the row under `key`, and return the new root, whose commit is
/// handed out. `path` leads to the leaf page that the key belongs to.
pub fn update(pool: &mut BufferPool, path: &Vec<PathNode>, key: i64, row: &Row) -> (r: Result<
    u32,
    PinaxError,
>)
    requires
        old(pool).wf(),
        path::sized(path@, old(pool)@.meta.size),
    ensures
        final(pool).wf(),
        sees_on(old(pool)@, final(pool)@, path::nodes_of(path@)),
        match r {
            Ok(root) => {
                &&& commits(old(pool)@, final(pool)@, root)
                &&& writes_up(old(pool)@, final(pool)@, path@, root)
                &&& old(pool)@.next_id <= root < final(pool)@.next_id
            },
            Err(e) => {
                &&& buffer_pool::extended(old(pool)@, final(pool)@)
                &&& store_fails(e, key, row@) || e == key_not_found(key)
                &&& e is Permanent ==> final(pool)@ == old(pool)@
            },
        },
        forall|pages: Pages| #[trigger]
            at_leaf(old(pool)@, path::nodes_of(path@), key, pages) ==> update_result(
                old(pool)@,
                final(pool)@,
                path::nodes_of(path@),
                pages,
                key,
                row@,
                r,
            ),
        path@.len() > 0 ==> update_found(path@.last().buf@, key, r),
        path@.len() == 0 ==> r == Err::<u32, PinaxError>(key_not_found(key)),
{
    let ghost start = pool@;
    let ghost nodes = path::nodes_of(path@);
    proof {
        pool.wf_facts();
        buffer_pool::grown_refl(start);
        grown_sees_on(start, start, nodes);
    }
    if path.len() == 0 {
        proof {
            assert forall|pages: Pages| #[trigger]
                at_leaf(start, nodes, key, pages) implies tree::find(
                tree::tree_entries(pages, start.meta.root),
                key,
            ) is None by {
                tree::find_none(tree::tree_entries(pages, start.meta.root), key);
            }
        }
        return Err(PinaxError::Permanent { source: PermanentError::KeyNotFound { key } });
    }
    let n: usize = path.len();
    let leaf_buf: &Vec<u8> = &path[n - 1].buf;
    assert(nodes[n - 1].1 == page::body(leaf_buf@));
    assert(leaf_buf@.len() == start.meta.size);
    let found = leaf_search(leaf_buf.as_slice(), key);
    proof {
        search_outcome(start, nodes, key, leaf_buf@, found);
        leaf_pages_have_shape(start, nodes, key);
    }
    let at: usize = match found? {
        Ok(at) => at,
        Err(_) => {
            return Err(PinaxError::Permanent { source: PermanentError::KeyNotFound { key } });
        },
    };
    let lighter = leaf_without(leaf_buf, at)?;
    proof {
        if row::row_bytes(row@).len() <= u32::MAX {
            lighter_leaf_takes(
                start,
                nodes,
                key,
                leaf_buf@,
                lighter@,
                at as int,
                row::row_bytes(row@).len(),
            );
        } else {
            lighter_leaf_takes(start, nodes, key, leaf_buf@, lighter@, at as int, 0);
        }
    }
    store_at_leaf(pool, path, &lighter, at, key, row)
}

/// The page at the end of a path is a leaf page.
proof fn leaf_pages_have_shape(v: PoolView, nodes: path::Nodes, key: i64)
    requires
        nodes.len() > 0,
    ensures
        forall|pages: Pages| #[trigger]
            at_leaf(v, nodes, key, pages) ==> layout::leaf_shape(nodes.last().1),
{
    assert forall|pages: Pages| #[trigger] at_leaf(v, nodes, key, pages) implies layout::leaf_shape(
        nodes.last().1,
    ) by {
        leaf_of_path(v, nodes, key, pages);
    }
}

/// The page that the end of the path was replaced by, without the key's
/// cell, has nothing under the key.
proof fn leaf_lightened(
    p: Pages,
    nodes: path::Nodes,
    key: i64,
    v: PoolView,
    w: PoolView,
    at: int,
    id: u32,
)
    requires
        at_leaf(v, nodes, key, p),
        nodes.len() > 0,
        buffer_pool::grown(v, w),
        buffer_pool::view_wf(w),
        0 <= at < layout::leaf_cells(nodes.last().1).len(),
        layout::cell_key(layout::leaf_cells(nodes.last().1)[at]) == key,
        id == v.next_id,
        mutate::leaf_made(
            w.log,
            id,
            layout::leaf_cells(nodes.last().1).remove(at),
            usable(v),
        ),
    ensures
        replaced_leaf(p, nodes, key, None, w, NodeResult::Replaced(id), v.next_id as int),
{
    let i = nodes.len() - 1;
    let lo = path::path_lo(nodes, i, key);
    let hi = path::path_hi(nodes, i, key);
    let u = usable(v);
    leaf_of_path(v, nodes, key, p);
    buffer_pool::grown_sees(v, w, p);
    let q = buffer_pool::with_log(p, w);
    let cells = layout::leaf_cells(nodes[i].1);
    tree::cells_remove(p, cells, at, nodes[i].0 as int, u, lo, hi);
    tree::cells_grow(p, q, cells.remove(at), nodes[i].0 as int, id as int, u, lo, hi);
    assert(w.log.contains_key(id));
    tree::leaf_node(q, id, cells.remove(at), lo, hi, u);
    tree::one_result(q, id, lo, hi, u);
    tree::fresh_leaf(q, id, key, v.next_id as int);
    layout::route_bounds(Seq::empty(), key);
    assert(tree::result_pages(NodeResult::Replaced(id))[0] == id);
}

/// The error of a failed delete: the key is not there, or the counters are
/// exhausted.
pub open spec fn delete_error(
    e: PinaxError,
    v: PoolView,
    nodes: path::Nodes,
    es: Seq<tree::Entry>,
    key: i64,
) -> bool {
    if tree::find(es, key) is None {
        e == key_not_found(key)
    } else {
        !counters_left(v, nodes.len() as int) && e == error::exhausted()
    }
}

/// What a delete from the tree of `pages` comes to.
pub open spec fn delete_result(
    v: PoolView,
    w: PoolView,
    nodes: path::Nodes,
    pages: Pages,
    key: i64,
    r: Result<u32, PinaxError>,
) -> bool {
    let es = tree::tree_entries(pages, v.meta.root);
    match r {
        Ok(root) => {
            &&& tree::find(es, key) is Some
            &&& counters_left(v, nodes.len() as int)
            &&& stores(v, w, pages, root, key, None)
            &&& w.next_id == v.next_id + nodes.len()
        },
        Err(e) => delete_error(e, v, nodes, es, key),
    }
}

/// An interior root without separators has the entries of its one child.
proof fn collapsed_root(q: Pages, root: u32, u: int)
    requires
        tree::node_ok(q, root, tree::key_lo(), tree::key_hi(), u),
        layout::interior_shape(q[root]),
        layout::cell_count(q[root]) == 0,
    ensures
        tree::node_ok(q, codec::be_u32(q[root], 5), tree::key_lo(), tree::key_hi(), u),
        tree::entries(q, codec::be_u32(q[root], 5)) == tree::entries(q, root),
        codec::be_u32(q[root], 5) < root,
        forall|key: i64| path::routed(q[root], key) == codec::be_u32(q[root], 5),
{
    let c = q[root];
    let children = layout::interior_children(c);
    let child = codec::be_u32(c, 5);
    tree::leaf_or_interior(c);
    assert(children =~= seq![child]);
    assert(children[0] < root);
    tree::interior_entries_flat(q, root, 0);
    tree::one_list(q, child);
}

/// One page for each page above carries up a page in place of another.
proof fn climb_alone(nodes: path::Nodes, i: int, size: int)
    requires
        0 <= i,
    ensures
        climb_pages(nodes, i, 1, size) == i,
    decreases i,
{
    if i > 0 {
        climb_alone(nodes, i - 1, size);
    }
}

/// Remove the row under `key`, and return the new root, whose commit is
/// handed out. `path` leads to the leaf page that the key belongs to.
pub fn delete(pool: &mut BufferPool, path: &Vec<PathNode>, key: i64) -> (r: Result<u32, PinaxError>)
    requires
        old(pool).wf(),
        path::sized(path@, old(pool)@.meta.size),
    ensures
        final(pool).wf(),
        sees_on(old(pool)@, final(pool)@, path::nodes_of(path@)),
        match r {
            Ok(root) => {
                &&& commits(old(pool)@, final(pool)@, root)
                &&& removes_up(old(pool)@, final(pool)@, path@, root)
            },
            Err(e) => {
                &&& buffer_pool::extended(old(pool)@, final(pool)@)
                &&& e is Fatal && !error::is_wrong_type(e) || e == key_not_found(key)
                &&& e is Permanent ==> final(pool)@ == old(pool)@
            },
        },
        forall|pages: Pages| #[trigger]
            at_leaf(old(pool)@, path::nodes_of(path@), key, pages) ==> delete_result(
                old(pool)@,
                final(pool)@,
                path::nodes_of(path@),
                pages,
                key,
                r,
            ),
{
    let ghost start = pool@;
    let ghost nodes = path::nodes_of(path@);
    proof {
        pool.wf_facts();
        buffer_pool::grown_refl(start);
        grown_sees_on(start, start, nodes);
    }
    if path.len() == 0 {
        proof {
            assert forall|pages: Pages| #[trigger]
                at_leaf(start, nodes, key, pages) implies tree::find(
                tree::tree_entries(pages, start.meta.root),
                key,
            ) is None by {
                tree::find_none(tree::tree_entries(pages, start.meta.root), key);
            }
        }
        return Err(PinaxError::Permanent { source: PermanentError::KeyNotFound { key } });
    }
    let n: usize = path.len();
    let leaf_buf: &Vec<u8> = &path[n - 1].buf;
    assert(nodes[n - 1].1 == page::body(leaf_buf@));
    assert(leaf_buf@.len() == start.meta.size);
    let found = leaf_search(leaf_buf.as_slice(), key);
    proof {
        search_outcome(start, nodes, key, leaf_buf@, found);
        leaf_pages_have_shape(start, nodes, key);
    }
    let at: usize = match found? {
        Ok(at) => at,
        Err(_) => {
            return Err(PinaxError::Permanent { source: PermanentError::KeyNotFound { key } });
        },
    };
    let lighter = leaf_without(leaf_buf, at)?;
    check_counters(pool, 0)?;
    if pool.next_page_id() == 0xFFFF_FFFF {
        return Err(counter_exhausted());
    }
    let ghost after = page::body(lighter@);
    let id: u32 = pool.put_page(lighter)?;
    let ghost w = pool@;
    proof {
        assert(w.log[id] == after);
        pool.wf_facts();
        assert forall|pages: Pages| #[trigger] at_leaf(start, nodes, key, pages) implies
            replaced_leaf(
            pages,
            nodes,
            key,
            None,
            w,
            NodeResult::Replaced(id),
            start.next_id as int,
        ) by {
            leaf_of_path(start, nodes, key, pages);
            leaf_lightened(pages, nodes, key, start, w, at as int, id);
        }
    }
    commit_path(pool, path, id, Ghost(key), Ghost(start))
}

/// Carry a replaced leaf page up to the root, make away with a root that has
/// one child, and hand out the commit.
fn commit_path(
    pool: &mut BufferPool,
    path: &Vec<PathNode>,
    id: u32,
    Ghost(key): Ghost<i64>,
    Ghost(start): Ghost<PoolView>,
) -> (r: Result<u32, PinaxError>)
    requires
        old(pool).wf(),
        path@.len() > 0,
        path::sized(path@, old(pool)@.meta.size),
        old(pool)@.meta.txn_id < u64::MAX,
        buffer_pool::grown(start, old(pool)@),
        start.next_id <= id < old(pool)@.next_id,
        old(pool)@.cache.contains_key(id),
        page::body(old(pool)@.cache[id]) == old(pool)@.log[id],
    ensures
        final(pool).wf(),
        sees_on(start, final(pool)@, path::nodes_of(path@)),
        match r {
            Ok(root) => {
                &&& commits(start, final(pool)@, root)
                &&& removes_up(start, final(pool)@, path@, root)
            },
            Err(e) => {
                &&& e is Fatal
                &&& !error::is_wrong_type(e)
                &&& buffer_pool::extended(start, final(pool)@)
            },
        },
        forall|p: Pages, payload: Option<Seq<u8>>| #[trigger]
            replaced_leaf(
                p,
                path::nodes_of(path@),
                key,
                payload,
                old(pool)@,
                NodeResult::Replaced(id),
                start.next_id as int,
            ) ==> {
                let q = buffer_pool::with_log(p, final(pool)@);
                let ids = old(pool)@.next_id + path@.len() - 1;
                match r {
                    Ok(root) => {
                        &&& ids <= u32::MAX
                        &&& final(pool)@.next_id == ids
                        &&& tree::tree_ok(q, root, usable(start))
                        &&& tree::tree_entries(q, root) == tree::put(
                            tree::entries(p, path@[0].id),
                            key,
                            payload,
                        )
                        &&& start.next_id <= root < final(pool)@.next_id
                        &&& tree::fresh_way(q, root, key, start.next_id as int)
                    },
                    Err(e) => e == error::exhausted() && ids > u32::MAX,
                }
            },
{
    let ghost v = pool@;
    let ghost nodes = path::nodes_of(path@);
    proof {
        pool.wf_facts();
        grown_sees_on(start, v, nodes);
    }
    let carried_up_to = propagate(
        pool,
        path,
        NodeResult::Replaced(id),
        Ghost(key),
        Ghost(start.next_id as int),
    );
    let ghost w = pool@;
    proof {
        buffer_pool::extended_trans(start, v, w);
        sees_on_trans(start, v, w, nodes);
        pool.wf_facts();
        climb_alone(nodes, nodes.len() - 1, start.meta.size);
    }
    let top: u32 = carried_up_to?;
    let buf: Vec<u8> = match pool.get(top) {
        Some(buf) => buf,
        None => {
            return Err(PinaxError::Fatal { source: FatalError::PoolInvariantViolated });
        },
    };
    let ghost m = pool@;
    proof {
        pool.wf_facts();
        looked_sees_on(w, m, nodes);
        sees_on_trans(start, w, m, nodes);
        buffer_pool::extended_trans(start, w, m);
    }
    assert(buf@.len() == start.meta.size);
    let root: u32 = collapse_root_if_needed(top, buf.as_slice())?;
    pool.commit(root)?;
    proof {
        committing_sees_on(start, m, root, nodes);
        assert(commits(start, pool@, root)) by {
            reveal(commits);
            assert(buffer_pool::extended(start, m));
        }
        assert(removes_up(start, pool@, path@, root)) by {
            reveal(removes_up);
            assert(climbed(v, w, path@, path@.len() - 1));
            assert(m == buffer_pool::touched(w, top));
        }
        assert forall|p: Pages, payload: Option<Seq<u8>>| #[trigger]
            replaced_leaf(
                p,
                nodes,
                key,
                payload,
                v,
                NodeResult::Replaced(id),
                start.next_id as int,
            ) implies tree::tree_ok(buffer_pool::with_log(p, pool@), root, usable(start))
            && tree::tree_entries(buffer_pool::with_log(p, pool@), root) == tree::put(
            tree::entries(p, path@[0].id),
            key,
            payload,
        ) && start.next_id <= root < pool@.next_id && tree::fresh_way(
            buffer_pool::with_log(p, pool@),
            root,
            key,
            start.next_id as int,
        ) by {
            let q = buffer_pool::with_log(p, w);
            assert(buffer_pool::with_log(p, pool@) == q);
            root_in_log(p, v, w, top, start.next_id as int);
            mutate::buffer_header(buf@);
            tree::leaf_or_interior(q[top]);
            tree::fresh_first(q, top, key, start.next_id as int);
            if root != top {
                collapsed_root(q, top, usable(start));
                tree::fresh_interior(q, top, key, start.next_id as int);
                tree::fresh_first(q, root, key, start.next_id as int);
            }
        }
    }
    Ok(root)
}

/// A root among the put pages is found among all pages.
proof fn root_in_log(p: Pages, v: PoolView, w: PoolView, top: u32, from: int)
    requires
        w.log.contains_key(top),
    ensures
        buffer_pool::with_log(p, w)[top] == w.log[top],
{
}

} // verus!
