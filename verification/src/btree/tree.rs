//! What the B+tree means: the pages of a tree as a sequence of entries in
//! ascending key order, what makes pages a tree, and how replacing a subtree
//! changes the entries.
//!
//! A store maps page ids to page bodies. Every page of a tree has a higher
//! id than the pages below it, because a changed page always gets a new id
//! and is put after the pages that it refers to.

use vstd::prelude::*;

use crate::btree::layout;
use crate::codec;
use crate::page;

verus! {

/// The bodies of pages, by page id.
pub type Pages = Map<u32, Seq<u8>>;

/// A key and the payload that is stored under it.
pub type Entry = (i64, Seq<u8>);

// ---- sequences of entries ----

/// The keys ascend.
pub open spec fn ascending(es: Seq<Entry>) -> bool {
    forall|i: int, j: int|
        0 <= i < j < es.len() ==> (#[trigger] es[i]).0 < (#[trigger] es[j]).0
}

/// The keys lie in `lo..hi`.
pub open spec fn within(es: Seq<Entry>, lo: int, hi: int) -> bool {
    forall|i: int| 0 <= i < es.len() ==> lo <= (#[trigger] es[i]).0 < hi
}

/// How many entries stand before the first whose key is at least `key`.
pub open spec fn rank(es: Seq<Entry>, key: i64) -> int
    decreases es.len(),
{
    if es.len() == 0 || es[0].0 >= key {
        0
    } else {
        1 + rank(es.drop_first(), key)
    }
}

/// There is an entry with this key.
pub open spec fn holds_key(es: Seq<Entry>, key: i64) -> bool {
    rank(es, key) < es.len() && es[rank(es, key)].0 == key
}

/// The payload that is stored under this key.
pub open spec fn find(es: Seq<Entry>, key: i64) -> Option<Seq<u8>> {
    if holds_key(es, key) {
        Some(es[rank(es, key)].1)
    } else {
        None
    }
}

/// The entries with `payload` under `key`, in place of what was there; or,
/// for `None`, with nothing there.
pub open spec fn put(es: Seq<Entry>, key: i64, payload: Option<Seq<u8>>) -> Seq<Entry> {
    let r = rank(es, key);
    let rest = es.subrange(
        if holds_key(es, key) {
            r + 1
        } else {
            r
        },
        es.len() as int,
    );
    match payload {
        Some(p) => es.subrange(0, r) + seq![(key, p)] + rest,
        None => es.subrange(0, r) + rest,
    }
}

/// The entries before the rank have smaller keys, and the one at the rank
/// does not.
pub proof fn rank_bounds(es: Seq<Entry>, key: i64)
    ensures
        0 <= rank(es, key) <= es.len(),
        forall|i: int| 0 <= i < rank(es, key) ==> (#[trigger] es[i]).0 < key,
        rank(es, key) < es.len() ==> es[rank(es, key)].0 >= key,
    decreases es.len(),
{
    if es.len() != 0 && es[0].0 < key {
        let rest = es.drop_first();
        rank_bounds(rest, key);
        assert forall|i: int| 0 <= i < rank(es, key) implies (#[trigger] es[i]).0 < key by {
            if i > 0 {
                assert(rest[i - 1] == es[i]);
            }
        }
    }
}

/// No other place is the rank.
pub proof fn rank_is(es: Seq<Entry>, key: i64, at: int)
    requires
        0 <= at <= es.len(),
        forall|i: int| 0 <= i < at ==> (#[trigger] es[i]).0 < key,
        at < es.len() ==> es[at].0 >= key,
    ensures
        rank(es, key) == at,
{
    rank_bounds(es, key);
}

/// Where an ascending sequence has an entry, it is found.
pub proof fn find_is(es: Seq<Entry>, key: i64, at: int)
    requires
        ascending(es),
        0 <= at < es.len(),
        es[at].0 == key,
    ensures
        rank(es, key) == at,
        find(es, key) == Some(es[at].1),
{
    rank_is(es, key, at);
}

/// Where an ascending sequence has no entry, none is found.
pub proof fn find_none(es: Seq<Entry>, key: i64)
    requires
        forall|i: int| 0 <= i < es.len() ==> (#[trigger] es[i]).0 != key,
    ensures
        find(es, key) is None,
{
    rank_bounds(es, key);
}

/// Storing a payload under a key of the middle part changes the middle part
/// only.
pub proof fn put_in_middle(
    a: Seq<Entry>,
    b: Seq<Entry>,
    c: Seq<Entry>,
    key: i64,
    payload: Option<Seq<u8>>,
)
    requires
        forall|i: int| 0 <= i < a.len() ==> (#[trigger] a[i]).0 < key,
        forall|i: int| 0 <= i < c.len() ==> (#[trigger] c[i]).0 > key,
    ensures
        put(a + b + c, key, payload) == a + put(b, key, payload) + c,
        find(a + b + c, key) == find(b, key),
{
    let all = a + b + c;
    let r = rank(b, key);
    rank_bounds(b, key);
    let at = a.len() + r;
    assert forall|i: int| 0 <= i < at implies (#[trigger] all[i]).0 < key by {
        if i < a.len() {
            assert(all[i] == a[i]);
        } else {
            assert(all[i] == b[i - a.len()]);
        }
    }
    if at < all.len() {
        if r < b.len() {
            assert(all[at] == b[r]);
        } else {
            assert(all[at] == c[0]);
        }
    }
    rank_is(all, key, at);
    assert(holds_key(all, key) == holds_key(b, key));
    assert(put(all, key, payload) =~= a + put(b, key, payload) + c);
}

/// Storing keeps the order and the key range, and changes what is found
/// under that key and no other.
pub proof fn put_laws(es: Seq<Entry>, key: i64, payload: Option<Seq<u8>>, lo: int, hi: int)
    requires
        ascending(es),
        within(es, lo, hi),
        lo <= key < hi,
    ensures
        ascending(put(es, key, payload)),
        within(put(es, key, payload), lo, hi),
        find(put(es, key, payload), key) == payload,
        forall|other: i64|
            other != key ==> #[trigger] find(put(es, key, payload), other) == find(es, other),
{
    let r = rank(es, key);
    rank_bounds(es, key);
    let out = put(es, key, payload);
    let skip = if holds_key(es, key) {
        r + 1
    } else {
        r
    };
    let grown: int = if payload is Some {
        1
    } else {
        0
    };
    assert forall|i: int| 0 <= i < out.len() implies #[trigger] out[i] == (if i < r {
        es[i]
    } else if i < r + grown {
        (key, payload->0)
    } else {
        es[i - r - grown + skip]
    }) by {
    }
    assert forall|i: int| r <= i < es.len() implies (#[trigger] es[i]).0 >= key by {
        if i > r {
            assert(es[r].0 < es[i].0);
        }
    }
    assert forall|i: int| skip <= i < es.len() implies (#[trigger] es[i]).0 > key by {
        if i > r {
            assert(es[r].0 < es[i].0);
        }
    }
    assert(ascending(out));
    assert(within(out, lo, hi));
    if payload is Some {
        find_is(out, key, r);
    } else {
        find_none(out, key);
    }
    assert forall|other: i64| other != key implies #[trigger] find(out, other) == find(
        es,
        other,
    ) by {
        rank_bounds(es, other);
        let q = rank(es, other);
        if holds_key(es, other) {
            let at = if q < r {
                q
            } else {
                q - skip + r + grown
            };
            assert(out[at] == es[q]);
            find_is(out, other, at);
        } else {
            assert forall|i: int| 0 <= i < out.len() implies (#[trigger] out[i]).0 != other by {
                if out[i].0 == other {
                    if i < r {
                        find_is(es, other, i);
                    } else if i >= r + grown {
                        find_is(es, other, i - r - grown + skip);
                    }
                }
            }
            find_none(out, other);
        }
    }
}

// ---- overflow chains ----

/// The pages from `id` on hold `len` payload bytes, `cap` on each but the
/// last, each page before the ones with lower ids. The last page names no
/// other.
pub open spec fn chain_ok(pages: Pages, id: u32, len: nat, below: int, cap: int) -> bool
    decreases len,
{
    if len == 0 || cap <= 0 {
        true
    } else {
        &&& page::FIRST_DATA_PAGE_ID <= id < below
        &&& pages.contains_key(id)
        &&& pages[id].len() == cap + 5
        &&& pages[id][0] == page::PAGE_TYPE_OVERFLOW
        &&& if len > cap {
            chain_ok(pages, codec::be_u32(pages[id], 1), (len - cap) as nat, id as int, cap)
        } else {
            codec::be_u32(pages[id], 1) == 0
        }
    }
}

/// The `len` payload bytes that the pages from `id` on hold.
pub open spec fn chain_data(pages: Pages, id: u32, len: nat, cap: int) -> Seq<u8>
    decreases len,
{
    if len == 0 || cap <= 0 {
        Seq::empty()
    } else if len <= cap {
        pages[id].subrange(5, 5 + len as int)
    } else {
        pages[id].subrange(5, 5 + cap) + chain_data(
            pages,
            codec::be_u32(pages[id], 1),
            (len - cap) as nat,
            cap,
        )
    }
}

/// The payload bytes of a leaf cell that overflow.
pub open spec fn tail_len(cell: Seq<u8>, max_local: int) -> nat {
    if layout::cell_payload_len(cell) > max_local {
        (layout::cell_payload_len(cell) - max_local) as nat
    } else {
        0
    }
}

/// A leaf cell on a page with the id `below` and a body of `usable` bytes:
/// its length is right, and its overflow chain is there if it has one.
pub open spec fn cell_ok(pages: Pages, cell: Seq<u8>, below: int, usable: int) -> bool {
    &&& layout::cell_wf(cell, usable - 35)
    &&& layout::cell_overflow_first(cell) == 0 <==> layout::cell_payload_len(cell) <= usable - 35
    &&& chain_ok(
        pages,
        layout::cell_overflow_first(cell),
        tail_len(cell, usable - 35),
        below,
        usable - 5,
    )
}

/// The payload of a leaf cell, local and overflowing.
pub open spec fn cell_payload(pages: Pages, cell: Seq<u8>, usable: int) -> Seq<u8> {
    if layout::cell_overflow_first(cell) == 0 {
        layout::cell_local(cell)
    } else {
        layout::cell_local(cell) + chain_data(
            pages,
            layout::cell_overflow_first(cell),
            tail_len(cell, usable - 35),
            usable - 5,
        )
    }
}

/// The entry of a leaf cell.
pub open spec fn cell_entry(pages: Pages, cell: Seq<u8>, usable: int) -> Entry {
    (layout::cell_key(cell), cell_payload(pages, cell, usable))
}

/// The entries of leaf cells.
pub open spec fn cell_entries(pages: Pages, cells: Seq<Seq<u8>>, usable: int) -> Seq<Entry> {
    Seq::new(cells.len(), |i: int| cell_entry(pages, cells[i], usable))
}

// ---- trees ----

/// The least key that child `i` of an interior page can hold, where the page
/// can hold `lo` at least.
pub open spec fn child_lo(keys: Seq<i64>, i: int, lo: int) -> int {
    if i == 0 {
        lo
    } else {
        keys[i - 1] as int
    }
}

/// The bound that the keys of child `i` of an interior page stay below,
/// where those of the page stay below `hi`.
pub open spec fn child_hi(keys: Seq<i64>, i: int, hi: int) -> int {
    if i == keys.len() {
        hi
    } else {
        keys[i] as int
    }
}

/// The separators lie between `lo` and `hi` and do not descend.
pub open spec fn separators_ok(keys: Seq<i64>, lo: int, hi: int) -> bool {
    &&& forall|i: int| 0 <= i < keys.len() ==> lo <= #[trigger] keys[i] <= hi
    &&& forall|i: int, j: int|
        0 <= i < j < keys.len() ==> #[trigger] keys[i] <= #[trigger] keys[j]
}

/// The cells of a leaf page are in order, with keys in `lo..hi`.
pub open spec fn leaf_ok(pages: Pages, c: Seq<u8>, id: u32, lo: int, hi: int) -> bool {
    &&& layout::leaf_shape(c)
    &&& cells_ok(pages, layout::leaf_cells(c), id as int, c.len() as int, lo, hi)
}

/// Cells that can make up a leaf page.
pub open spec fn cells_ok(
    pages: Pages,
    cells: Seq<Seq<u8>>,
    below: int,
    usable: int,
    lo: int,
    hi: int,
) -> bool {
    &&& layout::cells_sorted(cells)
    &&& forall|i: int|
        0 <= i < cells.len() ==> cell_ok(pages, #[trigger] cells[i], below, usable) && lo
            <= layout::cell_key(cells[i]) < hi
}

/// Page `id` is the root of a tree whose keys lie in `lo..hi`.
pub open spec fn node_ok(pages: Pages, id: u32, lo: int, hi: int, usable: int) -> bool
    decreases id,
{
    let c = pages[id];
    let keys = layout::interior_keys(c);
    let children = layout::interior_children(c);
    &&& page::FIRST_DATA_PAGE_ID <= id
    &&& pages.contains_key(id)
    &&& c.len() == usable
    &&& leaf_ok(pages, c, id, lo, hi) || {
        &&& layout::interior_shape(c)
        &&& separators_ok(keys, lo, hi)
        &&& children.no_duplicates()
        &&& forall|i: int|
            0 <= i < children.len() ==> #[trigger] children[i] < id && node_ok(
                pages,
                children[i],
                child_lo(keys, i, lo),
                child_hi(keys, i, hi),
                usable,
            )
    }
}

/// The entries of the tree with the root page `id`, in order.
pub open spec fn entries(pages: Pages, id: u32) -> Seq<Entry>
    decreases id, 1int, 0int,
{
    let c = pages[id];
    if c[0] == page::PAGE_TYPE_LEAF {
        cell_entries(pages, layout::leaf_cells(c), c.len() as int)
    } else {
        children_entries(
            pages,
            layout::interior_children(c),
            layout::interior_children(c).len(),
            id,
        )
    }
}

/// The entries of the trees below the first `n` children of page `id`.
pub open spec fn children_entries(pages: Pages, children: Seq<u32>, n: nat, id: u32) -> Seq<Entry>
    decreases id, 0int, n,
{
    if n == 0 {
        Seq::empty()
    } else {
        children_entries(pages, children, (n - 1) as nat, id) + (if children[n - 1] < id {
            entries(pages, children[n - 1])
        } else {
            Seq::empty()
        })
    }
}

/// The least key of all.
pub open spec fn key_lo() -> int {
    i64::MIN as int
}

/// The bound that all keys stay below.
pub open spec fn key_hi() -> int {
    i64::MAX + 1
}

/// `root` is the root page of a tree, or stands for the tree without pages.
pub open spec fn tree_ok(pages: Pages, root: u32, usable: int) -> bool {
    root == page::EMPTY_TREE_ROOT || node_ok(pages, root, key_lo(), key_hi(), usable)
}

/// The entries of a tree, in ascending key order.
pub open spec fn tree_entries(pages: Pages, root: u32) -> Seq<Entry> {
    if root == page::EMPTY_TREE_ROOT {
        Seq::empty()
    } else {
        entries(pages, root)
    }
}

// ---- more pages do not change a tree ----

/// `q` has every page of `p`.
pub open spec fn extends(q: Pages, p: Pages) -> bool {
    forall|id: u32| #[trigger] p.contains_key(id) ==> q.contains_key(id) && q[id] == p[id]
}

/// `q` has every page of `p` with an id below `n`.
pub open spec fn extends_below(q: Pages, p: Pages, n: int) -> bool {
    forall|id: u32| #[trigger]
        p.contains_key(id) && id < n ==> q.contains_key(id) && q[id] == p[id]
}

/// An overflow chain stays what it is when pages are added, or taken away above it.
pub proof fn chain_grows(p: Pages, q: Pages, id: u32, len: nat, below: int, more: int, cap: int)
    requires
        chain_ok(p, id, len, below, cap),
        extends_below(q, p, below),
        below <= more,
    ensures
        chain_ok(q, id, len, more, cap),
        chain_data(q, id, len, cap) == chain_data(p, id, len, cap),
        cap > 0 ==> chain_data(p, id, len, cap).len() == len,
    decreases len,
{
    if len > 0 && cap > 0 {
        assert(p.contains_key(id));
        if len > cap {
            chain_grows(
                p,
                q,
                codec::be_u32(p[id], 1),
                (len - cap) as nat,
                id as int,
                id as int,
                cap,
            );
        }
    }
}

/// A leaf cell stays what it is when pages are added, or taken away above it.
pub proof fn cell_grows(p: Pages, q: Pages, cell: Seq<u8>, below: int, more: int, usable: int)
    requires
        cell_ok(p, cell, below, usable),
        extends_below(q, p, below),
        below <= more,
    ensures
        cell_ok(q, cell, more, usable),
        cell_entry(q, cell, usable) == cell_entry(p, cell, usable),
{
    chain_grows(
        p,
        q,
        layout::cell_overflow_first(cell),
        tail_len(cell, usable - 35),
        below,
        more,
        usable - 5,
    );
}

/// Cells stay what they are when pages are added, or taken away above them.
pub proof fn cells_grow(
    p: Pages,
    q: Pages,
    cells: Seq<Seq<u8>>,
    below: int,
    more: int,
    usable: int,
    lo: int,
    hi: int,
)
    requires
        cells_ok(p, cells, below, usable, lo, hi),
        extends_below(q, p, below),
        below <= more,
    ensures
        cells_ok(q, cells, more, usable, lo, hi),
        cell_entries(q, cells, usable) == cell_entries(p, cells, usable),
{
    assert forall|i: int| 0 <= i < cells.len() implies cell_ok(q, #[trigger] cells[i], more, usable)
        && cell_entry(q, cells[i], usable) == cell_entry(p, cells[i], usable) by {
        cell_grows(p, q, cells[i], below, more, usable);
    }
    assert(cell_entries(q, cells, usable) =~= cell_entries(p, cells, usable));
}

/// A page is not both a leaf page and an interior page.
pub proof fn leaf_or_interior(c: Seq<u8>)
    ensures
        layout::leaf_shape(c) ==> c[0] == page::PAGE_TYPE_LEAF && !layout::interior_shape(c),
        layout::interior_shape(c) ==> c[0] == page::PAGE_TYPE_INTERIOR && !layout::leaf_shape(c),
{
}

/// A tree stays what it is when pages are added, or taken away above it.
pub proof fn node_grows(p: Pages, q: Pages, id: u32, lo: int, hi: int, usable: int)
    requires
        node_ok(p, id, lo, hi, usable),
        extends_below(q, p, id + 1),
    ensures
        node_ok(q, id, lo, hi, usable),
        entries(q, id) == entries(p, id),
    decreases id, 1int, 0int,
{
    let c = p[id];
    assert(p.contains_key(id));
    leaf_or_interior(c);
    if leaf_ok(p, c, id, lo, hi) {
        cells_grow(p, q, layout::leaf_cells(c), id as int, id as int, usable, lo, hi);
    } else {
        let keys = layout::interior_keys(c);
        let children = layout::interior_children(c);
        assert forall|i: int| 0 <= i < children.len() implies #[trigger] children[i] < id
            && node_ok(
            q,
            children[i],
            child_lo(keys, i, lo),
            child_hi(keys, i, hi),
            usable,
        ) && entries(q, children[i]) == entries(p, children[i]) by {
            node_grows(
                p,
                q,
                children[i],
                child_lo(keys, i, lo),
                child_hi(keys, i, hi),
                usable,
            );
        }
        children_grow(p, q, children, children.len(), id);
    }
}

proof fn children_grow(p: Pages, q: Pages, children: Seq<u32>, n: nat, id: u32)
    requires
        n <= children.len(),
        forall|i: int|
            0 <= i < n ==> #[trigger] children[i] < id ==> entries(q, children[i]) == entries(
                p,
                children[i],
            ),
    ensures
        children_entries(q, children, n, id) == children_entries(p, children, n, id),
    decreases n,
{
    if n > 0 {
        children_grow(p, q, children, (n - 1) as nat, id);
        assert(children[n - 1] < id ==> entries(q, children[n - 1]) == entries(p, children[n - 1]));
    }
}

/// A tree stays what it is when pages are added, or taken away above it.
pub proof fn tree_grows(p: Pages, q: Pages, root: u32, usable: int)
    requires
        tree_ok(p, root, usable),
        extends_below(q, p, root + 1),
    ensures
        tree_ok(q, root, usable),
        tree_entries(q, root) == tree_entries(p, root),
{
    if root != page::EMPTY_TREE_ROOT {
        node_grows(p, q, root, key_lo(), key_hi(), usable);
    }
}

// ---- entries of an interior page, child by child ----

/// Sequences of entries, one after the other.
pub open spec fn flat(lists: Seq<Seq<Entry>>) -> Seq<Entry>
    decreases lists.len(),
{
    if lists.len() == 0 {
        Seq::empty()
    } else {
        flat(lists.drop_last()) + lists.last()
    }
}

/// The entries of the trees below some pages.
pub open spec fn child_lists(pages: Pages, children: Seq<u32>) -> Seq<Seq<Entry>> {
    Seq::new(children.len(), |i: int| entries(pages, children[i]))
}

proof fn flat_concat(a: Seq<Seq<Entry>>, b: Seq<Seq<Entry>>)
    ensures
        flat(a + b) == flat(a) + flat(b),
    decreases b.len(),
{
    if b.len() == 0 {
        assert(a + b =~= a);
        assert(flat(a) + flat(b) =~= flat(a));
    } else {
        assert((a + b).drop_last() =~= a + b.drop_last());
        flat_concat(a, b.drop_last());
        assert(flat(a + b) =~= flat(a) + flat(b));
    }
}

proof fn flat_one(a: Seq<Entry>)
    ensures
        flat(seq![a]) == a,
{
    let l = seq![a];
    assert(l.drop_last() =~= Seq::<Seq<Entry>>::empty());
    assert(flat(l.drop_last()) =~= Seq::<Entry>::empty());
    assert(flat(l) =~= a);
}

/// The entries of one tree.
pub proof fn one_list(pages: Pages, child: u32)
    ensures
        flat(child_lists(pages, seq![child])) == entries(pages, child),
{
    assert(child_lists(pages, seq![child]) =~= seq![entries(pages, child)]);
    flat_one(entries(pages, child));
}

/// The entries below some pages begin with those below the first.
pub proof fn first_list(pages: Pages, children: Seq<u32>)
    requires
        children.len() > 0,
    ensures
        flat(child_lists(pages, children)) == entries(pages, children[0]) + flat(
            child_lists(pages, children.drop_first()),
        ),
{
    let first = seq![entries(pages, children[0])];
    let rest = child_lists(pages, children.drop_first());
    assert(child_lists(pages, children) =~= first + rest);
    flat_concat(first, rest);
    flat_one(entries(pages, children[0]));
}

/// The entries of two trees, one after the other.
pub proof fn two_lists(pages: Pages, left: u32, right: u32)
    ensures
        flat(child_lists(pages, seq![left, right])) == entries(pages, left) + entries(
            pages,
            right,
        ),
{
    let a = entries(pages, left);
    let b = entries(pages, right);
    assert(child_lists(pages, seq![left, right]) =~= seq![a] + seq![b]);
    flat_concat(seq![a], seq![b]);
    flat_one(a);
    flat_one(b);
}

/// Where every list keeps to its own key range, and the ranges follow one
/// another, the lists together ascend.
proof fn flat_ordered(
    lists: Seq<Seq<Entry>>,
    keys: Seq<i64>,
    lo: int,
    hi: int,
    n: int,
)
    requires
        0 <= n <= lists.len(),
        lists.len() == keys.len() + 1,
        lo <= hi,
        separators_ok(keys, lo, hi),
        forall|i: int|
            0 <= i < lists.len() ==> ascending(#[trigger] lists[i]) && within(
                lists[i],
                child_lo(keys, i, lo),
                child_hi(keys, i, hi),
            ),
    ensures
        ascending(flat(lists.take(n))),
        within(
            flat(lists.take(n)),
            lo,
            if n == 0 {
                lo
            } else {
                child_hi(keys, n - 1, hi)
            },
        ),
    decreases n,
{
    let part = lists.take(n);
    if n == 0 {
        assert(part =~= Seq::<Seq<Entry>>::empty());
        assert(flat(part).len() == 0);
    } else {
        flat_ordered(lists, keys, lo, hi, n - 1);
        let before = flat(lists.take(n - 1));
        let last = lists[n - 1];
        assert(part.drop_last() =~= lists.take(n - 1));
        assert(part.last() == last);
        assert(ascending(last));
        let out = flat(part);
        assert(out == before + last);
        let mid = child_lo(keys, n - 1, lo);
        assert(within(before, lo, mid));
        assert(lo <= mid);
        assert(mid <= child_hi(keys, n - 1, hi));
        assert forall|i: int| 0 <= i < out.len() implies lo <= (#[trigger] out[i]).0 < child_hi(
            keys,
            n - 1,
            hi,
        ) by {
            if i < before.len() {
                assert(out[i] == before[i]);
            } else {
                assert(out[i] == last[i - before.len()]);
            }
        }
        assert forall|i: int, j: int| 0 <= i < j < out.len() implies (#[trigger] out[i]).0 < (
        #[trigger] out[j]).0 by {
            if j < before.len() {
                assert(out[i] == before[i] && out[j] == before[j]);
            } else if i >= before.len() {
                assert(out[i] == last[i - before.len()] && out[j] == last[j - before.len()]);
            } else {
                assert(out[i] == before[i] && out[j] == last[j - before.len()]);
            }
        }
    }
}

/// The entries of an interior page are those of its children.
pub proof fn interior_entries_flat(pages: Pages, id: u32, n: nat)
    requires
        layout::interior_shape(pages[id]),
        n <= layout::interior_children(pages[id]).len(),
        forall|i: int|
            0 <= i < layout::interior_children(pages[id]).len()
                ==> #[trigger] layout::interior_children(pages[id])[i] < id,
    ensures
        children_entries(pages, layout::interior_children(pages[id]), n, id) == flat(
            child_lists(pages, layout::interior_children(pages[id])).take(n as int),
        ),
        entries(pages, id) == flat(child_lists(pages, layout::interior_children(pages[id]))),
    decreases layout::interior_children(pages[id]).len() - n,
{
    let children = layout::interior_children(pages[id]);
    children_flat(pages, children, n, id);
    children_flat(pages, children, children.len(), id);
    assert(child_lists(pages, children).take(children.len() as int) =~= child_lists(
        pages,
        children,
    ));
}

proof fn children_flat(pages: Pages, children: Seq<u32>, n: nat, id: u32)
    requires
        n <= children.len(),
        forall|i: int| 0 <= i < children.len() ==> #[trigger] children[i] < id,
    ensures
        children_entries(pages, children, n, id) == flat(
            child_lists(pages, children).take(n as int),
        ),
    decreases n,
{
    let lists = child_lists(pages, children);
    if n == 0 {
        assert(lists.take(0) =~= Seq::<Seq<Entry>>::empty());
    } else {
        children_flat(pages, children, (n - 1) as nat, id);
        assert(lists.take(n as int).drop_last() =~= lists.take(n - 1));
        assert(lists.take(n as int).last() == entries(pages, children[n - 1]));
        assert(children[n - 1] < id);
    }
}

/// The entries of a tree ascend and keep to its key range.
pub proof fn node_entries(pages: Pages, id: u32, lo: int, hi: int, usable: int)
    requires
        node_ok(pages, id, lo, hi, usable),
        lo <= hi,
    ensures
        ascending(entries(pages, id)),
        within(entries(pages, id), lo, hi),
    decreases id,
{
    let c = pages[id];
    leaf_or_interior(c);
    if leaf_ok(pages, c, id, lo, hi) {
        let cells = layout::leaf_cells(c);
        let es = cell_entries(pages, cells, usable);
        assert forall|i: int, j: int| 0 <= i < j < es.len() implies (#[trigger] es[i]).0 < (
        #[trigger] es[j]).0 by {
            assert(layout::cell_key(cells[i]) < layout::cell_key(cells[j]));
        }
        assert forall|i: int| 0 <= i < es.len() implies lo <= (#[trigger] es[i]).0 < hi by {
            assert(cell_ok(pages, cells[i], id as int, usable));
        }
    } else {
        let keys = layout::interior_keys(c);
        let children = layout::interior_children(c);
        let lists = child_lists(pages, children);
        assert forall|i: int| 0 <= i < lists.len() implies ascending(#[trigger] lists[i])
            && within(lists[i], child_lo(keys, i, lo), child_hi(keys, i, hi)) by {
            assert(children[i] < id);
            child_range(keys, i, lo, hi);
            node_entries(
                pages,
                children[i],
                child_lo(keys, i, lo),
                child_hi(keys, i, hi),
                usable,
            );
        }
        flat_ordered(lists, keys, lo, hi, lists.len() as int);
        assert(lists.take(lists.len() as int) =~= lists);
        interior_entries_flat(pages, id, 0);
    }
}

/// The key range of a child lies within that of its page.
pub proof fn child_range(keys: Seq<i64>, i: int, lo: int, hi: int)
    requires
        separators_ok(keys, lo, hi),
        0 <= i <= keys.len(),
        lo <= hi,
    ensures
        lo <= child_lo(keys, i, lo) <= child_hi(keys, i, hi) <= hi,
{
}

/// The entries of a tree ascend.
pub proof fn tree_entries_ascend(pages: Pages, root: u32, usable: int)
    requires
        tree_ok(pages, root, usable),
    ensures
        ascending(tree_entries(pages, root)),
        within(tree_entries(pages, root), key_lo(), key_hi()),
{
    if root != page::EMPTY_TREE_ROOT {
        node_entries(pages, root, key_lo(), key_hi(), usable);
    }
}

// ---- what an operation does to a leaf ----

/// `key` belongs at `at` among the cells: the keys before it are smaller,
/// those from it on are greater.
pub open spec fn insertion_point(cells: Seq<Seq<u8>>, key: i64, at: int) -> bool {
    &&& 0 <= at <= cells.len()
    &&& forall|i: int| 0 <= i < at ==> layout::cell_key(#[trigger] cells[i]) < key
    &&& forall|i: int| at <= i < cells.len() ==> layout::cell_key(#[trigger] cells[i]) > key
}

/// Putting a cell among a leaf's cells stores its payload under its key.
pub proof fn cells_insert(
    pages: Pages,
    cells: Seq<Seq<u8>>,
    at: int,
    cell: Seq<u8>,
    below: int,
    usable: int,
    lo: int,
    hi: int,
)
    requires
        cells_ok(pages, cells, below, usable, lo, hi),
        cell_ok(pages, cell, below, usable),
        lo <= layout::cell_key(cell) < hi,
        insertion_point(cells, layout::cell_key(cell), at),
    ensures
        cells_ok(pages, cells.insert(at, cell), below, usable, lo, hi),
        find(cell_entries(pages, cells, usable), layout::cell_key(cell)) is None,
        cell_entries(pages, cells.insert(at, cell), usable) == put(
            cell_entries(pages, cells, usable),
            layout::cell_key(cell),
            Some(cell_payload(pages, cell, usable)),
        ),
{
    let key = layout::cell_key(cell);
    let es = cell_entries(pages, cells, usable);
    let out = cells.insert(at, cell);
    assert forall|i: int, j: int| 0 <= i < j < out.len() implies layout::cell_key(
        #[trigger] out[i],
    ) < layout::cell_key(#[trigger] out[j]) by {
        let a = if i < at {
            i
        } else {
            i - 1
        };
        let b = if j < at {
            j
        } else {
            j - 1
        };
        if i == at {
            assert(out[j] == cells[b]);
        } else if j == at {
            assert(out[i] == cells[a]);
        } else {
            assert(out[i] == cells[a] && out[j] == cells[b]);
        }
    }
    assert forall|i: int| 0 <= i < out.len() implies cell_ok(
        pages,
        #[trigger] out[i],
        below,
        usable,
    ) && lo <= layout::cell_key(out[i]) < hi by {
        if i < at {
            assert(out[i] == cells[i]);
        } else if i > at {
            assert(out[i] == cells[i - 1]);
        }
    }
    assert forall|i: int| 0 <= i < at implies (#[trigger] es[i]).0 < key by {
        assert(layout::cell_key(cells[i]) < key);
    }
    if at < es.len() {
        assert(layout::cell_key(cells[at]) > key);
    }
    rank_is(es, key, at);
    assert(!holds_key(es, key));
    assert(cell_entries(pages, out, usable) =~= put(
        es,
        key,
        Some(cell_payload(pages, cell, usable)),
    ));
}

/// Removing a cell from a leaf's cells leaves nothing under its key.
pub proof fn cells_remove(
    pages: Pages,
    cells: Seq<Seq<u8>>,
    at: int,
    below: int,
    usable: int,
    lo: int,
    hi: int,
)
    requires
        cells_ok(pages, cells, below, usable, lo, hi),
        0 <= at < cells.len(),
    ensures
        cells_ok(pages, cells.remove(at), below, usable, lo, hi),
        insertion_point(cells.remove(at), layout::cell_key(cells[at]), at),
        find(cell_entries(pages, cells, usable), layout::cell_key(cells[at])) == Some(
            cell_payload(pages, cells[at], usable),
        ),
        cell_entries(pages, cells.remove(at), usable) == put(
            cell_entries(pages, cells, usable),
            layout::cell_key(cells[at]),
            None,
        ),
{
    let key = layout::cell_key(cells[at]);
    let es = cell_entries(pages, cells, usable);
    let out = cells.remove(at);
    assert forall|i: int| 0 <= i < out.len() implies #[trigger] out[i] == cells[if i < at {
        i
    } else {
        i + 1
    }] by {
    }
    assert(layout::cells_sorted(out));
    assert forall|i: int| 0 <= i < at implies (#[trigger] es[i]).0 < key by {
        assert(layout::cell_key(cells[i]) < key);
    }
    rank_is(es, key, at);
    assert(holds_key(es, key));
    assert(cell_entries(pages, out, usable) =~= put(es, key, None));
}

/// Storing over what a key had is removing it and storing anew.
pub proof fn put_over(es: Seq<Entry>, key: i64, payload: Option<Seq<u8>>)
    requires
        ascending(es),
    ensures
        put(put(es, key, None), key, payload) == put(es, key, payload),
{
    rank_bounds(es, key);
    let r = rank(es, key);
    let rest = put(es, key, None);
    assert forall|i: int| 0 <= i < r implies (#[trigger] rest[i]).0 < key by {
        assert(rest[i] == es[i]);
    }
    if r < rest.len() {
        let k = if holds_key(es, key) {
            r + 1
        } else {
            r
        };
        assert(rest[r] == es[k]);
        assert(es[k].0 > key) by {
            if k > r {
                assert(es[r].0 < es[k].0);
            }
        }
    }
    rank_is(rest, key, r);
    assert(put(rest, key, payload) =~= put(es, key, payload));
}

/// What a search among a leaf's cells finds is what is stored under the key.
pub proof fn cells_find(
    pages: Pages,
    cells: Seq<Seq<u8>>,
    at: int,
    below: int,
    usable: int,
    lo: int,
    hi: int,
)
    requires
        cells_ok(pages, cells, below, usable, lo, hi),
        0 <= at < cells.len(),
    ensures
        find(cell_entries(pages, cells, usable), layout::cell_key(cells[at])) == Some(
            cell_payload(pages, cells[at], usable),
        ),
{
    cells_remove(pages, cells, at, below, usable, lo, hi);
}

/// Where a key has an insertion point among a leaf's cells, nothing is
/// stored under it.
pub proof fn cells_find_none(pages: Pages, cells: Seq<Seq<u8>>, key: i64, at: int, usable: int)
    requires
        insertion_point(cells, key, at),
    ensures
        find(cell_entries(pages, cells, usable), key) is None,
{
    let es = cell_entries(pages, cells, usable);
    assert forall|i: int| 0 <= i < es.len() implies (#[trigger] es[i]).0 != key by {
        if i < at {
            assert(layout::cell_key(cells[i]) < key);
        } else {
            assert(layout::cell_key(cells[i]) > key);
        }
    }
    find_none(es, key);
}

/// Cells split in two make two leaves, before and from the first key of the
/// second.
pub proof fn cells_split(
    pages: Pages,
    cells: Seq<Seq<u8>>,
    mid: int,
    below: int,
    usable: int,
    lo: int,
    hi: int,
)
    requires
        cells_ok(pages, cells, below, usable, lo, hi),
        0 <= mid < cells.len(),
    ensures
        ({
            let sep = layout::cell_key(cells[mid]) as int;
            &&& lo <= sep < hi
            &&& cells_ok(pages, cells.subrange(0, mid), below, usable, lo, sep)
            &&& cells_ok(
                pages,
                cells.subrange(mid, cells.len() as int),
                below,
                usable,
                sep,
                hi,
            )
            &&& cell_entries(pages, cells.subrange(0, mid), usable) + cell_entries(
                pages,
                cells.subrange(mid, cells.len() as int),
                usable,
            ) == cell_entries(pages, cells, usable)
        }),
{
    let sep = layout::cell_key(cells[mid]) as int;
    let left = cells.subrange(0, mid);
    let right = cells.subrange(mid, cells.len() as int);
    assert(cell_ok(pages, cells[mid], below, usable));
    assert forall|i: int| 0 <= i < left.len() implies cell_ok(
        pages,
        #[trigger] left[i],
        below,
        usable,
    ) && lo <= layout::cell_key(left[i]) < sep by {
        assert(left[i] == cells[i]);
    }
    assert forall|i: int| 0 <= i < right.len() implies cell_ok(
        pages,
        #[trigger] right[i],
        below,
        usable,
    ) && sep <= layout::cell_key(right[i]) < hi by {
        assert(right[i] == cells[mid + i]);
        if i > 0 {
            assert(layout::cell_key(cells[mid]) < layout::cell_key(cells[mid + i]));
        }
    }
    assert(layout::cells_sorted(left));
    assert(layout::cells_sorted(right));
    assert(cell_entries(pages, left, usable) + cell_entries(pages, right, usable)
        =~= cell_entries(pages, cells, usable));
}

/// A page with these cells is a leaf page of the tree.
pub proof fn leaf_node(
    pages: Pages,
    id: u32,
    cells: Seq<Seq<u8>>,
    lo: int,
    hi: int,
    usable: int,
)
    requires
        page::FIRST_DATA_PAGE_ID <= id,
        pages.contains_key(id),
        pages[id].len() == usable,
        layout::leaf_shape(pages[id]),
        layout::leaf_cells(pages[id]) == cells,
        cells_ok(pages, cells, id as int, usable, lo, hi),
    ensures
        node_ok(pages, id, lo, hi, usable),
        entries(pages, id) == cell_entries(pages, cells, usable),
{
}

// ---- what an operation does to an interior page ----

/// What became of a page that was changed: a page in its place, or two or
/// three with separator keys between them.
#[derive(Debug, Clone, Copy)]
pub enum NodeResult {
    /// The page with this id stands in its place.
    Replaced(u32),
    /// Two pages stand in its place.
    Split {
        /// The page with the smaller keys.
        left: u32,
        /// The page with the keys from `separator_key` on.
        right: u32,
        /// The key that separates them.
        separator_key: i64,
    },
    /// Three pages stand in its place.
    Parted {
        /// The page with the keys below `low_key`.
        left: u32,
        /// The page with the keys from `low_key` on, and below `high_key`.
        middle: u32,
        /// The page with the keys from `high_key` on.
        right: u32,
        /// The key that separates the first two.
        low_key: i64,
        /// The key that separates the last two.
        high_key: i64,
    },
}

/// The pages that stand in place of a changed page.
pub open spec fn result_pages(r: NodeResult) -> Seq<u32> {
    match r {
        NodeResult::Replaced(id) => seq![id],
        NodeResult::Split { left, right, .. } => seq![left, right],
        NodeResult::Parted { left, middle, right, .. } => seq![left, middle, right],
    }
}

/// The separator keys between them.
pub open spec fn result_keys(r: NodeResult) -> Seq<i64> {
    match r {
        NodeResult::Replaced(_) => Seq::empty(),
        NodeResult::Split { separator_key, .. } => seq![separator_key],
        NodeResult::Parted { low_key, high_key, .. } => seq![low_key, high_key],
    }
}

/// The pages that stand in place of a changed page are trees, with keys in
/// `lo..hi`.
pub open spec fn result_ok(pages: Pages, r: NodeResult, lo: int, hi: int, usable: int) -> bool {
    interior_parts_ok(pages, result_keys(r), result_pages(r), lo, hi, usable)
}

/// The entries of the pages that stand in place of a changed page.
pub open spec fn result_entries(pages: Pages, r: NodeResult) -> Seq<Entry> {
    flat(child_lists(pages, result_pages(r)))
}

/// The ids of the pages that stand in place of a changed page lie in
/// `from..to`.
pub open spec fn result_ids(r: NodeResult, from: int, to: int) -> bool {
    forall|i: int| 0 <= i < result_pages(r).len() ==> from <= #[trigger] result_pages(r)[i] < to
}

/// The pages that stand in place of a changed page have the ids from `from`
/// on, in their order.
pub open spec fn result_in_order(r: NodeResult, from: int) -> bool {
    forall|i: int| 0 <= i < result_pages(r).len() ==> #[trigger] result_pages(r)[i] == from + i
}

/// All pages on the way from page `id` down to the leaf page that `key`
/// belongs to have ids of `from` at least, each below the one before.
#[verifier::opaque]
pub open spec fn fresh_way(pages: Pages, id: u32, key: i64, from: int) -> bool
    decreases id,
{
    let c = pages[id];
    let child = layout::interior_children(c)[layout::route(layout::interior_keys(c), key)];
    &&& from <= id
    &&& pages.contains_key(id)
    &&& layout::interior_shape(c) ==> child < id && fresh_way(pages, child, key, from)
}

/// More pages do not change the way.
pub proof fn fresh_way_grows(p: Pages, q: Pages, id: u32, key: i64, from: int)
    requires
        fresh_way(p, id, key, from),
        extends(q, p),
    ensures
        fresh_way(q, id, key, from),
    decreases id,
{
    reveal(fresh_way);
    let c = p[id];
    let child = layout::interior_children(c)[layout::route(layout::interior_keys(c), key)];
    assert(q[id] == c);
    if layout::interior_shape(c) {
        fresh_way_grows(p, q, child, key, from);
    }
}

/// At a leaf page the way ends.
pub proof fn fresh_leaf(pages: Pages, id: u32, key: i64, from: int)
    requires
        from <= id,
        pages.contains_key(id),
        layout::leaf_shape(pages[id]),
    ensures
        fresh_way(pages, id, key, from),
{
    reveal(fresh_way);
    leaf_or_interior(pages[id]);
}

/// At an interior page the way leads to the child that the key belongs to.
pub proof fn fresh_interior(pages: Pages, id: u32, key: i64, from: int)
    requires
        layout::interior_shape(pages[id]),
    ensures
        ({
            let c = pages[id];
            let child = layout::interior_children(c)[layout::route(layout::interior_keys(c), key)];
            fresh_way(pages, id, key, from) <==> from <= id && pages.contains_key(id) && child < id
                && fresh_way(pages, child, key, from)
        }),
{
    reveal(fresh_way);
}

/// The first page of a fresh way is fresh.
pub proof fn fresh_first(pages: Pages, id: u32, key: i64, from: int)
    requires
        fresh_way(pages, id, key, from),
    ensures
        from <= id,
        pages.contains_key(id),
{
    reveal(fresh_way);
}

/// The way to the leaf page that `key` belongs to, from the page among those
/// that stand in place of a changed page, is fresh.
pub open spec fn result_fresh(pages: Pages, r: NodeResult, key: i64, from: int) -> bool {
    fresh_way(pages, result_pages(r)[layout::route(result_keys(r), key)], key, from)
}

/// Where a child stands among an interior page's children: the first place
/// but the last that has it, or the last.
pub open spec fn child_position(children: Seq<u32>, child: u32) -> int
    decreases children.len(),
{
    if children.len() <= 1 || children[0] == child {
        0
    } else {
        1 + child_position(children.drop_first(), child)
    }
}

/// The child's position, pinned down.
pub proof fn child_position_is(children: Seq<u32>, child: u32, at: int)
    requires
        0 <= at < children.len(),
        forall|i: int| 0 <= i < at ==> #[trigger] children[i] != child,
        at == children.len() - 1 || children[at] == child,
    ensures
        child_position(children, child) == at,
    decreases children.len(),
{
    if children.len() > 1 && children[0] != child {
        let rest = children.drop_first();
        assert forall|i: int| 0 <= i < at - 1 implies #[trigger] rest[i] != child by {
            assert(rest[i] == children[i + 1]);
        }
        child_position_is(rest, child, at - 1);
    }
}

/// The separators of an interior page after the child at `at` was replaced.
pub open spec fn spliced_keys(keys: Seq<i64>, at: int, r: NodeResult) -> Seq<i64> {
    keys.take(at) + result_keys(r) + keys.skip(at)
}

/// The children of an interior page after the child at `at` was replaced.
pub open spec fn spliced_children(children: Seq<u32>, at: int, r: NodeResult) -> Seq<u32> {
    children.take(at) + result_pages(r) + children.skip(at + 1)
}

/// Two or three pages in place of a child, put one by one.
pub proof fn spliced_by_insert(keys: Seq<i64>, children: Seq<u32>, at: int, r: NodeResult)
    requires
        children.len() == keys.len() + 1,
        0 <= at < children.len(),
    ensures
        match r {
            NodeResult::Replaced(_) => true,
            NodeResult::Split { left, right, separator_key } => {
                &&& spliced_keys(keys, at, r) == keys.insert(at, separator_key)
                &&& spliced_children(children, at, r) == children.insert(at, left).update(
                    at + 1,
                    right,
                )
            },
            NodeResult::Parted { left, middle, right, low_key, high_key } => {
                &&& spliced_keys(keys, at, r) == keys.insert(at, high_key).insert(at, low_key)
                &&& spliced_children(children, at, r) == children.update(at, right).insert(
                    at,
                    middle,
                ).insert(at, left)
            },
        },
{
    match r {
        NodeResult::Replaced(_) => {},
        NodeResult::Split { left, right, separator_key } => {
            assert(spliced_keys(keys, at, r) =~= keys.insert(at, separator_key));
            assert(spliced_children(children, at, r) =~= children.insert(at, left).update(
                at + 1,
                right,
            ));
        },
        NodeResult::Parted { left, middle, right, low_key, high_key } => {
            assert(spliced_keys(keys, at, r) =~= keys.insert(at, high_key).insert(at, low_key));
            assert(spliced_children(children, at, r) =~= children.update(at, right).insert(
                at,
                middle,
            ).insert(at, left));
        },
    }
}

/// A key that belongs to the child at `at` belongs, once that was replaced,
/// to the page in its place that it belongs to.
pub proof fn spliced_route(keys: Seq<i64>, children: Seq<u32>, key: i64, r: NodeResult)
    requires
        children.len() == keys.len() + 1,
    ensures
        ({
            let j = layout::route(keys, key);
            let m = layout::route(result_keys(r), key);
            &&& layout::route(spliced_keys(keys, j, r), key) == j + m
            &&& spliced_children(children, j, r)[j + m] == result_pages(r)[m]
            &&& 0 <= j <= keys.len()
            &&& 0 <= m < result_pages(r).len()
        }),
{
    let j = layout::route(keys, key);
    let ks = result_keys(r);
    let m = layout::route(ks, key);
    let k2 = spliced_keys(keys, j, r);
    layout::route_bounds(keys, key);
    layout::route_bounds(ks, key);
    assert forall|i: int| 0 <= i < j + m implies #[trigger] k2[i] <= key by {
        if i < j {
            assert(k2[i] == keys[i]);
        } else {
            assert(k2[i] == ks[i - j]);
        }
    }
    if j + m < k2.len() {
        if m < ks.len() {
            assert(k2[j + m] == ks[m]);
        } else {
            assert(k2[j + m] == keys[j]);
        }
    }
    layout::route_is(k2, key, j + m);
}

/// Page `id` is an interior page with these separators and children.
pub open spec fn interior_made(
    pages: Pages,
    id: u32,
    keys: Seq<i64>,
    children: Seq<u32>,
    usable: int,
) -> bool {
    &&& pages.contains_key(id)
    &&& pages[id].len() == usable
    &&& layout::interior_shape(pages[id])
    &&& layout::interior_keys(pages[id]) == keys
    &&& layout::interior_children(pages[id]) == children
}

/// The parts of an interior page that is the root of a tree.
pub open spec fn interior_parts_ok(
    pages: Pages,
    keys: Seq<i64>,
    children: Seq<u32>,
    lo: int,
    hi: int,
    usable: int,
) -> bool {
    &&& children.len() == keys.len() + 1
    &&& separators_ok(keys, lo, hi)
    &&& children.no_duplicates()
    &&& forall|i: int|
        0 <= i < children.len() ==> node_ok(
            pages,
            #[trigger] children[i],
            child_lo(keys, i, lo),
            child_hi(keys, i, hi),
            usable,
        )
}

/// A page with such parts, above all its children, is the root of a tree.
pub proof fn interior_node(
    pages: Pages,
    id: u32,
    keys: Seq<i64>,
    children: Seq<u32>,
    lo: int,
    hi: int,
    usable: int,
)
    requires
        page::FIRST_DATA_PAGE_ID <= id,
        interior_made(pages, id, keys, children, usable),
        interior_parts_ok(pages, keys, children, lo, hi, usable),
        forall|i: int| 0 <= i < children.len() ==> #[trigger] children[i] < id,
    ensures
        node_ok(pages, id, lo, hi, usable),
        entries(pages, id) == flat(child_lists(pages, children)),
{
    interior_entries_flat(pages, id, 0);
}

/// A key of an interior page's range belongs to one child, and the entries
/// of the other children have smaller keys before it, greater keys behind.
pub proof fn routed_child(
    pages: Pages,
    keys: Seq<i64>,
    children: Seq<u32>,
    key: i64,
    lo: int,
    hi: int,
    usable: int,
)
    requires
        interior_parts_ok(pages, keys, children, lo, hi, usable),
        lo <= key < hi,
    ensures
        ({
            let j = layout::route(keys, key);
            let lists = child_lists(pages, children);
            &&& 0 <= j < children.len()
            &&& child_lo(keys, j, lo) <= key < child_hi(keys, j, hi)
            &&& flat(lists) == flat(lists.take(j)) + entries(pages, children[j]) + flat(
                lists.skip(j + 1),
            )
            &&& forall|i: int|
                0 <= i < flat(lists.take(j)).len() ==> (#[trigger] flat(lists.take(j))[i]).0 < key
            &&& forall|i: int|
                0 <= i < flat(lists.skip(j + 1)).len() ==> (#[trigger] flat(
                    lists.skip(j + 1),
                )[i]).0 > key
        }),
{
    let j = layout::route(keys, key);
    let lists = child_lists(pages, children);
    layout::route_bounds(keys, key);
    assert forall|i: int| 0 <= i < lists.len() implies within(
        #[trigger] lists[i],
        child_lo(keys, i, lo),
        child_hi(keys, i, hi),
    ) by {
        child_range(keys, i, lo, hi);
        node_entries(
            pages,
            children[i],
            child_lo(keys, i, lo),
            child_hi(keys, i, hi),
            usable,
        );
    }
    let before = lists.take(j);
    let after = lists.skip(j + 1);
    assert(lists =~= before + seq![lists[j]] + after);
    flat_concat(before + seq![lists[j]], after);
    flat_concat(before, seq![lists[j]]);
    flat_one(lists[j]);
    assert forall|i: int| 0 <= i < before.len() implies within(#[trigger] before[i], lo, key as int)
        by {
        assert(before[i] == lists[i]);
        assert(within(lists[i], child_lo(keys, i, lo), child_hi(keys, i, hi)));
        assert(keys[i] <= key);
        child_range(keys, i, lo, hi);
    }
    flat_within(before, lo, key as int);
    assert forall|i: int| 0 <= i < after.len() implies within(
        #[trigger] after[i],
        key + 1,
        hi,
    ) by {
        let k = j + 1 + i;
        assert(after[i] == lists[k]);
        assert(within(lists[k], child_lo(keys, k, lo), child_hi(keys, k, hi)));
        assert(keys[j] <= keys[k - 1]);
        child_range(keys, k, lo, hi);
    }
    flat_within(after, key + 1, hi);
}

proof fn flat_within(lists: Seq<Seq<Entry>>, lo: int, hi: int)
    requires
        forall|i: int| 0 <= i < lists.len() ==> within(#[trigger] lists[i], lo, hi),
    ensures
        within(flat(lists), lo, hi),
    decreases lists.len(),
{
    if lists.len() > 0 {
        let init = lists.drop_last();
        assert forall|i: int| 0 <= i < init.len() implies within(#[trigger] init[i], lo, hi) by {
            assert(init[i] == lists[i]);
        }
        flat_within(init, lo, hi);
        assert(within(lists[lists.len() - 1], lo, hi));
        let out = flat(lists);
        let a = flat(init);
        let b = lists.last();
        assert forall|i: int| 0 <= i < out.len() implies lo <= (#[trigger] out[i]).0 < hi by {
            if i < a.len() {
                assert(out[i] == a[i]);
            } else {
                assert(out[i] == b[i - a.len()]);
            }
        }
    }
}

/// What is stored under a key in the tree of an interior page is what is
/// stored under it in the tree of the child that the key belongs to.
pub proof fn interior_find(pages: Pages, id: u32, key: i64, lo: int, hi: int, usable: int)
    requires
        node_ok(pages, id, lo, hi, usable),
        layout::interior_shape(pages[id]),
        lo <= key < hi,
    ensures
        ({
            let keys = layout::interior_keys(pages[id]);
            let children = layout::interior_children(pages[id]);
            let j = layout::route(keys, key);
            &&& 0 <= j < children.len()
            &&& children[j] < id
            &&& child_lo(keys, j, lo) <= key < child_hi(keys, j, hi)
            &&& node_ok(
                pages,
                children[j],
                child_lo(keys, j, lo),
                child_hi(keys, j, hi),
                usable,
            )
            &&& find(entries(pages, id), key) == find(entries(pages, children[j]), key)
        }),
{
    let c = pages[id];
    let keys = layout::interior_keys(c);
    let children = layout::interior_children(c);
    let j = layout::route(keys, key);
    let lists = child_lists(pages, children);
    leaf_or_interior(c);
    assert forall|i: int| 0 <= i < children.len() implies #[trigger] children[i] < id by {
    }
    routed_child(pages, keys, children, key, lo, hi, usable);
    interior_entries_flat(pages, id, 0);
    put_in_middle(
        flat(lists.take(j)),
        entries(pages, children[j]),
        flat(lists.skip(j + 1)),
        key,
        None,
    );
}

/// Replacing the child that a key belongs to stores under the key in the
/// tree of the whole page.
pub proof fn spliced_parts(
    p: Pages,
    q: Pages,
    id: u32,
    key: i64,
    payload: Option<Seq<u8>>,
    r: NodeResult,
    lo: int,
    hi: int,
    usable: int,
    from: int,
    to: int,
)
    requires
        node_ok(p, id, lo, hi, usable),
        layout::interior_shape(p[id]),
        lo <= key < hi,
        extends(q, p),
        id < from <= to,
        result_ids(r, from, to),
        ({
            let keys = layout::interior_keys(p[id]);
            let j = layout::route(keys, key);
            &&& result_ok(q, r, child_lo(keys, j, lo), child_hi(keys, j, hi), usable)
            &&& result_entries(q, r) == put(
                entries(p, layout::interior_children(p[id])[j]),
                key,
                payload,
            )
        }),
    ensures
        ({
            let keys = layout::interior_keys(p[id]);
            let children = layout::interior_children(p[id]);
            let j = layout::route(keys, key);
            let more_keys = spliced_keys(keys, j, r);
            let more_children = spliced_children(children, j, r);
            &&& child_position(children, children[j]) == j
            &&& interior_parts_ok(q, more_keys, more_children, lo, hi, usable)
            &&& flat(child_lists(q, more_children)) == put(entries(p, id), key, payload)
            &&& forall|i: int| 0 <= i < more_children.len() ==> #[trigger] more_children[i] < to
        }),
{
    let c = p[id];
    let keys = layout::interior_keys(c);
    let children = layout::interior_children(c);
    let j = layout::route(keys, key);
    let k2 = spliced_keys(keys, j, r);
    let c2 = spliced_children(children, j, r);
    leaf_or_interior(c);
    assert(interior_parts_ok(p, keys, children, lo, hi, usable)) by {
        assert forall|i: int| 0 <= i < children.len() implies node_ok(
            p,
            #[trigger] children[i],
            child_lo(keys, i, lo),
            child_hi(keys, i, hi),
            usable,
        ) by {
            assert(children[i] < id);
        }
    }
    routed_child(p, keys, children, key, lo, hi, usable);
    interior_entries_flat(p, id, 0);
    assert forall|i: int| 0 <= i < children.len() implies node_ok(
        q,
        #[trigger] children[i],
        child_lo(keys, i, lo),
        child_hi(keys, i, hi),
        usable,
    ) && entries(q, children[i]) == entries(p, children[i]) && children[i] < id by {
        assert(children[i] < id);
        node_grows(p, q, children[i], child_lo(keys, i, lo), child_hi(keys, i, hi), usable);
    }
    child_position_is(children, children[j], j);
    let lists = child_lists(p, children);
    assert(lists =~= child_lists(q, children));
    put_in_middle(
        flat(lists.take(j)),
        entries(p, children[j]),
        flat(lists.skip(j + 1)),
        key,
        payload,
    );
    assert(interior_parts_ok(q, keys, children, lo, hi, usable));
    spread_parts(q, keys, children, j, result_keys(r), result_pages(r), lo, hi, usable, from, to);
}

/// Parts of an interior page, with pages and separators in place of a child.
proof fn spread_parts(
    q: Pages,
    keys: Seq<i64>,
    children: Seq<u32>,
    j: int,
    ks: Seq<i64>,
    ns: Seq<u32>,
    lo: int,
    hi: int,
    usable: int,
    from: int,
    to: int,
)
    requires
        interior_parts_ok(q, keys, children, lo, hi, usable),
        0 <= j < children.len(),
        lo <= hi,
        forall|i: int| 0 <= i < children.len() ==> #[trigger] children[i] < from,
        from <= to,
        interior_parts_ok(q, ks, ns, child_lo(keys, j, lo), child_hi(keys, j, hi), usable),
        forall|i: int| 0 <= i < ns.len() ==> from <= #[trigger] ns[i] < to,
    ensures
        ({
            let k2 = keys.take(j) + ks + keys.skip(j);
            let c2 = children.take(j) + ns + children.skip(j + 1);
            let lists = child_lists(q, children);
            &&& interior_parts_ok(q, k2, c2, lo, hi, usable)
            &&& flat(child_lists(q, c2)) == flat(lists.take(j)) + flat(child_lists(q, ns)) + flat(
                lists.skip(j + 1),
            )
            &&& forall|i: int| 0 <= i < c2.len() ==> #[trigger] c2[i] < to
        }),
{
    let k2 = keys.take(j) + ks + keys.skip(j);
    let c2 = children.take(j) + ns + children.skip(j + 1);
    let lists = child_lists(q, children);
    let a = lists.take(j);
    let b = lists.skip(j + 1);
    let middle = child_lists(q, ns);
    let n = ns.len() as int;
    spread_separators(keys, j, ks, lo, hi);
    assert forall|i: int| 0 <= i < c2.len() implies #[trigger] c2[i] == (if i < j {
        children[i]
    } else if i < j + n {
        ns[i - j]
    } else {
        children[i - n + 1]
    }) by {
    }
    assert forall|i: int| 0 <= i < k2.len() implies #[trigger] k2[i] == (if i < j {
        keys[i]
    } else if i < j + n - 1 {
        ks[i - j]
    } else {
        keys[i - n + 1]
    }) by {
    }
    assert forall|i: int| 0 <= i < c2.len() implies node_ok(
        q,
        #[trigger] c2[i],
        child_lo(k2, i, lo),
        child_hi(k2, i, hi),
        usable,
    ) && c2[i] < to by {
        if i < j {
            assert(c2[i] == children[i]);
            assert(child_lo(k2, i, lo) == child_lo(keys, i, lo));
            if i < j - 1 || n > 1 || j < keys.len() {
                assert(child_hi(k2, i, hi) == child_hi(keys, i, hi));
            }
        } else if i < j + n {
            let m = i - j;
            assert(c2[i] == ns[m]);
            assert(child_lo(k2, i, lo) == child_lo(ks, m, child_lo(keys, j, lo)));
            assert(child_hi(k2, i, hi) == child_hi(ks, m, child_hi(keys, j, hi)));
        } else {
            let m = i - n + 1;
            assert(c2[i] == children[m]);
            assert(child_lo(k2, i, lo) == child_lo(keys, m, lo));
            assert(child_hi(k2, i, hi) == child_hi(keys, m, hi));
        }
    }
    assert(c2.no_duplicates()) by {
        assert forall|x: int, y: int| 0 <= x < c2.len() && 0 <= y < c2.len() && x != y implies
            c2[x] != c2[y] by {
            let u = if x < j {
                x
            } else {
                x - n + 1
            };
            let w = if y < j {
                y
            } else {
                y - n + 1
            };
            if x < j || x >= j + n {
                assert(c2[x] == children[u] && children[u] < from);
            } else {
                assert(c2[x] == ns[x - j]);
            }
            if y < j || y >= j + n {
                assert(c2[y] == children[w] && children[w] < from);
            } else {
                assert(c2[y] == ns[y - j]);
            }
        }
    }
    assert(child_lists(q, c2) =~= a + middle + b);
    flat_concat(a + middle, b);
    flat_concat(a, middle);
}

/// Separators with some more within one of the ranges that they delimit.
proof fn spread_separators(keys: Seq<i64>, j: int, ks: Seq<i64>, lo: int, hi: int)
    requires
        separators_ok(keys, lo, hi),
        0 <= j <= keys.len(),
        lo <= hi,
        separators_ok(ks, child_lo(keys, j, lo), child_hi(keys, j, hi)),
    ensures
        separators_ok(keys.take(j) + ks + keys.skip(j), lo, hi),
{
    let k2 = keys.take(j) + ks + keys.skip(j);
    let n = ks.len() as int;
    assert forall|i: int| 0 <= i < k2.len() implies #[trigger] k2[i] == (if i < j {
        keys[i]
    } else if i < j + n {
        ks[i - j]
    } else {
        keys[i - n]
    }) by {
    }
    child_range(keys, j, lo, hi);
    assert forall|x: int, y: int| 0 <= x < y < k2.len() implies #[trigger] k2[x]
        <= #[trigger] k2[y] by {
        if x < j && j <= y < j + n {
            assert(keys[x] <= keys[j - 1]);
            assert(ks[y - j] >= child_lo(keys, j, lo));
        } else if j <= x < j + n && y >= j + n {
            assert(keys[j] <= keys[y - n]);
            assert(ks[x - j] <= child_hi(keys, j, hi));
        } else if j <= x && y < j + n {
            assert(ks[x - j] <= ks[y - j]);
        } else if x < j && y >= j + n {
            assert(keys[x] <= keys[y - n]);
        }
    }
}

/// Parts of an interior page, split at a separator, are the parts of two.
pub proof fn parts_split(
    pages: Pages,
    keys: Seq<i64>,
    children: Seq<u32>,
    mid: int,
    lo: int,
    hi: int,
    usable: int,
)
    requires
        interior_parts_ok(pages, keys, children, lo, hi, usable),
        0 <= mid < keys.len(),
    ensures
        ({
            let n = keys.len() as int;
            let left = children.subrange(0, mid + 1);
            let right = children.subrange(mid + 1, n + 1);
            &&& lo <= keys[mid] <= hi
            &&& interior_parts_ok(
                pages,
                keys.subrange(0, mid),
                left,
                lo,
                keys[mid] as int,
                usable,
            )
            &&& interior_parts_ok(
                pages,
                keys.subrange(mid + 1, n),
                right,
                keys[mid] as int,
                hi,
                usable,
            )
            &&& flat(child_lists(pages, left)) + flat(child_lists(pages, right)) == flat(
                child_lists(pages, children),
            )
        }),
{
    let n = keys.len() as int;
    let left = children.subrange(0, mid + 1);
    let right = children.subrange(mid + 1, n + 1);
    let lk = keys.subrange(0, mid);
    let rk = keys.subrange(mid + 1, n);
    assert forall|i: int| 0 <= i < left.len() implies node_ok(
        pages,
        #[trigger] left[i],
        child_lo(lk, i, lo),
        child_hi(lk, i, keys[mid] as int),
        usable,
    ) by {
        assert(left[i] == children[i]);
    }
    assert forall|i: int| 0 <= i < right.len() implies node_ok(
        pages,
        #[trigger] right[i],
        child_lo(rk, i, keys[mid] as int),
        child_hi(rk, i, hi),
        usable,
    ) by {
        assert(right[i] == children[mid + 1 + i]);
    }
    assert(child_lists(pages, children) =~= child_lists(pages, left) + child_lists(pages, right));
    flat_concat(child_lists(pages, left), child_lists(pages, right));
}

/// Above pages on whose way to a key all ids are fresh, a fresh page keeps
/// the way fresh.
proof fn above_fresh(
    q: Pages,
    keys: Seq<i64>,
    children: Seq<u32>,
    key: i64,
    below: NodeResult,
    above: NodeResult,
    lo: int,
    hi: int,
    usable: int,
    from: int,
    to: int,
)
    requires
        children.len() == keys.len() + 1,
        from <= to,
        result_ids(below, from, to),
        result_ids(above, to, 0x1_0000_0000),
        result_fresh(q, below, key, from),
        ({
            let j = layout::route(keys, key);
            let k2 = spliced_keys(keys, j, below);
            &&& separators_ok(k2, lo, hi)
            &&& made_above(q, above, k2, spliced_children(children, j, below), usable)
        }),
    ensures
        result_fresh(q, above, key, from),
{
    let j = layout::route(keys, key);
    let k2 = spliced_keys(keys, j, below);
    let c2 = spliced_children(children, j, below);
    spliced_route(keys, children, key, below);
    let m = layout::route(result_keys(below), key);
    let t = j + m;
    layout::route_bounds(k2, key);
    assert(c2[t] == result_pages(below)[m]);
    assert(c2[t] < to);
    match above {
        NodeResult::Replaced(n) => {
            assert(result_pages(above)[0] == n);
            fresh_interior(q, n, key, from);
        },
        NodeResult::Split { left, right, separator_key } => {
            let mid = k2.len() as int / 2;
            assert(result_pages(above)[0] == left && result_pages(above)[1] == right);
            fresh_interior(q, left, key, from);
            fresh_interior(q, right, key, from);
            if key < k2[mid] {
                assert(t <= mid);
                layout::route_is(seq![separator_key], key, 0);
                layout::route_is(k2.subrange(0, mid), key, t);
                assert(c2.subrange(0, mid + 1)[t] == c2[t]);
            } else {
                assert(mid < t) by {
                    if t <= mid {
                        assert(k2[t] <= k2[mid]);
                    }
                }
                layout::route_is(seq![separator_key], key, 1);
                let rk = k2.subrange(mid + 1, k2.len() as int);
                let n = t - mid - 1;
                assert forall|i: int| 0 <= i < n implies #[trigger] rk[i] <= key by {
                    assert(rk[i] == k2[mid + 1 + i]);
                }
                layout::route_is(rk, key, n);
                assert(c2.subrange(mid + 1, c2.len() as int)[n] == c2[t]);
            }
        },
        NodeResult::Parted { .. } => {},
    }
}

/// Replacing the child that a key belongs to, and with it the page above,
/// stores under the key in the tree of that page.
pub proof fn climb(
    p: Pages,
    q: Pages,
    id: u32,
    key: i64,
    payload: Option<Seq<u8>>,
    below: NodeResult,
    above: NodeResult,
    lo: int,
    hi: int,
    usable: int,
    from: int,
    to: int,
)
    requires
        node_ok(p, id, lo, hi, usable),
        layout::interior_shape(p[id]),
        lo <= key < hi,
        extends(q, p),
        page::FIRST_DATA_PAGE_ID <= id < from <= to,
        result_ids(below, from, to),
        result_ids(above, to, 0x1_0000_0000),
        ({
            let keys = layout::interior_keys(p[id]);
            let children = layout::interior_children(p[id]);
            let j = layout::route(keys, key);
            &&& result_ok(q, below, child_lo(keys, j, lo), child_hi(keys, j, hi), usable)
            &&& result_entries(q, below) == put(entries(p, children[j]), key, payload)
            &&& result_fresh(q, below, key, from)
            &&& made_above(
                q,
                above,
                spliced_keys(keys, child_position(children, children[j]), below),
                spliced_children(children, child_position(children, children[j]), below),
                usable,
            )
        }),
    ensures
        result_ok(q, above, lo, hi, usable),
        result_entries(q, above) == put(entries(p, id), key, payload),
        result_fresh(q, above, key, from),
{
    let keys = layout::interior_keys(p[id]);
    let children = layout::interior_children(p[id]);
    let j = layout::route(keys, key);
    spliced_parts(p, q, id, key, payload, below, lo, hi, usable, from, to);
    let k2 = spliced_keys(keys, j, below);
    let c2 = spliced_children(children, j, below);
    above_fresh(q, keys, children, key, below, above, lo, hi, usable, from, to);
    match above {
        NodeResult::Replaced(n) => {
            assert(result_pages(above)[0] == n);
            interior_node(q, n, k2, c2, lo, hi, usable);
            one_result(q, n, lo, hi, usable);
        },
        NodeResult::Split { left, right, separator_key } => {
            let mid = k2.len() as int / 2;
            assert(result_pages(above)[0] == left && result_pages(above)[1] == right);
            parts_split(q, k2, c2, mid, lo, hi, usable);
            let lc = c2.subrange(0, mid + 1);
            let rc = c2.subrange(mid + 1, c2.len() as int);
            assert forall|i: int| 0 <= i < lc.len() implies #[trigger] lc[i] < left by {
                assert(lc[i] == c2[i]);
            }
            assert forall|i: int| 0 <= i < rc.len() implies #[trigger] rc[i] < right by {
                assert(rc[i] == c2[mid + 1 + i]);
            }
            interior_node(q, left, k2.subrange(0, mid), lc, lo, k2[mid] as int, usable);
            interior_node(
                q,
                right,
                k2.subrange(mid + 1, k2.len() as int),
                rc,
                k2[mid] as int,
                hi,
                usable,
            );
            two_results(q, left, right, separator_key, lo, hi, usable);
        },
        NodeResult::Parted { .. } => {},
    }
}

/// One tree in place of a page.
pub proof fn one_result(pages: Pages, id: u32, lo: int, hi: int, usable: int)
    requires
        node_ok(pages, id, lo, hi, usable),
    ensures
        result_ok(pages, NodeResult::Replaced(id), lo, hi, usable),
        result_entries(pages, NodeResult::Replaced(id)) == entries(pages, id),
{
    let ns = result_pages(NodeResult::Replaced(id));
    assert forall|i: int| 0 <= i < ns.len() implies node_ok(
        pages,
        #[trigger] ns[i],
        child_lo(Seq::empty(), i, lo),
        child_hi(Seq::empty(), i, hi),
        usable,
    ) by {
    }
    one_list(pages, id);
}

/// Two trees in place of a page.
pub proof fn two_results(
    pages: Pages,
    left: u32,
    right: u32,
    separator_key: i64,
    lo: int,
    hi: int,
    usable: int,
)
    requires
        left != right,
        lo <= separator_key <= hi,
        node_ok(pages, left, lo, separator_key as int, usable),
        node_ok(pages, right, separator_key as int, hi, usable),
    ensures
        ({
            let r = NodeResult::Split { left, right, separator_key };
            &&& result_ok(pages, r, lo, hi, usable)
            &&& result_entries(pages, r) == entries(pages, left) + entries(pages, right)
        }),
{
    let r = NodeResult::Split { left, right, separator_key };
    let ns = result_pages(r);
    let ks = result_keys(r);
    assert forall|i: int| 0 <= i < ns.len() implies node_ok(
        pages,
        #[trigger] ns[i],
        child_lo(ks, i, lo),
        child_hi(ks, i, hi),
        usable,
    ) by {
        assert(i == 0 || i == 1);
    }
    two_lists(pages, left, right);
}

/// Three trees in place of a page.
pub proof fn three_results(
    pages: Pages,
    left: u32,
    middle: u32,
    right: u32,
    low_key: i64,
    high_key: i64,
    lo: int,
    hi: int,
    usable: int,
)
    requires
        left != middle,
        middle != right,
        left != right,
        lo <= low_key <= high_key <= hi,
        node_ok(pages, left, lo, low_key as int, usable),
        node_ok(pages, middle, low_key as int, high_key as int, usable),
        node_ok(pages, right, high_key as int, hi, usable),
    ensures
        ({
            let r = NodeResult::Parted { left, middle, right, low_key, high_key };
            &&& result_ok(pages, r, lo, hi, usable)
            &&& result_entries(pages, r) == entries(pages, left) + (entries(pages, middle)
                + entries(pages, right))
        }),
{
    let r = NodeResult::Parted { left, middle, right, low_key, high_key };
    let ns = result_pages(r);
    let ks = result_keys(r);
    assert forall|i: int| 0 <= i < ns.len() implies node_ok(
        pages,
        #[trigger] ns[i],
        child_lo(ks, i, lo),
        child_hi(ks, i, hi),
        usable,
    ) by {
        assert(i == 0 || i == 1 || i == 2);
    }
    first_list(pages, ns);
    assert(ns.drop_first() =~= seq![middle, right]);
    two_lists(pages, middle, right);
}

/// The pages that stand in place of an interior page have these separators
/// and children: all on one page, or split at the middle separator.
pub open spec fn made_above(
    pages: Pages,
    r: NodeResult,
    keys: Seq<i64>,
    children: Seq<u32>,
    usable: int,
) -> bool {
    let mid = keys.len() as int / 2;
    match r {
        NodeResult::Replaced(id) => interior_made(pages, id, keys, children, usable),
        NodeResult::Split { left, right, separator_key } => {
            &&& keys.len() > 0
            &&& left != right
            &&& separator_key == keys[mid]
            &&& interior_made(
                pages,
                left,
                keys.subrange(0, mid),
                children.subrange(0, mid + 1),
                usable,
            )
            &&& interior_made(
                pages,
                right,
                keys.subrange(mid + 1, keys.len() as int),
                children.subrange(mid + 1, children.len() as int),
                usable,
            )
        },
        NodeResult::Parted { .. } => false,
    }
}

} // verus!
