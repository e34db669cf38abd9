//! Reading a tree one page at a time: the descent to a leaf page, the lookup
//! of a row, and the scan of all rows.
//!
//! Each of these is a state machine. A step takes at most one page from the
//! buffer pool. Where the page is not cached, the step names it, and is
//! tried again once the page was supplied.

use vstd::prelude::*;

use crate::btree;
use crate::btree::layout;
use crate::btree::layout::{leaf_cell_at, leaf_search, num_cells};
use crate::btree::mutate;
use crate::btree::mutate::interior_entries;
use crate::btree::overflow::{overflow_chunk_cap, Reassembly};
use crate::btree::path;
use crate::btree::path::{turn_at, PathNode, Turn};
use crate::btree::tree;
use crate::btree::tree::Pages;
use crate::buffer_pool;
use crate::buffer_pool::{BufferPool, PoolView};
use crate::codec;
use crate::codec::read_u8;
use crate::error;
use crate::error::PinaxError;
use crate::lexis::value::ValueView;
use crate::page;
use crate::page::{PAGE_TYPE_INTERIOR, PAGE_TYPE_LEAF};
use crate::pager::Pager;
use crate::row;
use crate::row::Row;

verus! {

/// The pool sees `pages`, and its committed root is the root of a tree of
/// them.
pub open spec fn valid(v: PoolView, pages: Pages) -> bool {
    &&& buffer_pool::sees(v, pages)
    &&& page::FIRST_DATA_PAGE_ID <= v.next_id
    &&& tree::tree_ok(pages, v.meta.root, btree::usable(v))
}

/// The entries of the committed tree.
pub open spec fn committed(v: PoolView, pages: Pages) -> Seq<tree::Entry> {
    tree::tree_entries(pages, v.meta.root)
}

/// From `v` to `w` pages were used, and nothing else happened.
pub open spec fn looked(v: PoolView, w: PoolView) -> bool {
    w == (PoolView { order: w.order, ..v })
}

/// The pool after a step that needs the page `wants`: that page is used, if
/// it is cached, and nothing else happens.
pub open spec fn used(v: PoolView, wants: Option<u32>) -> PoolView {
    match wants {
        Some(id) => if v.cache.contains_key(id) {
            buffer_pool::touched(v, id)
        } else {
            v
        },
        None => v,
    }
}

/// Using cached pages does not change what the pool sees.
pub proof fn looked_sees(v: PoolView, w: PoolView, pages: Pages)
    requires
        looked(v, w),
    ensures
        buffer_pool::sees(w, pages) == buffer_pool::sees(v, pages),
        valid(w, pages) == valid(v, pages),
        committed(w, pages) == committed(v, pages),
{
    if buffer_pool::sees(v, pages) {
        assert(buffer_pool::sees(w, pages));
    }
    if buffer_pool::sees(w, pages) {
        assert forall|x: u32| #[trigger]
            v.cache.contains_key(x) && pages.contains_key(x) implies page::body(v.cache[x])
            == pages[x] by {
            assert(w.cache.contains_key(x));
        }
        assert forall|x: u32| #[trigger] v.log.contains_key(x) implies pages.contains_key(x)
            && pages[x] == v.log[x] by {
            assert(w.log.contains_key(x));
        }
    }
}

/// How far an operation is from its end. The first number weighs most.
pub struct Left {
    /// Pages of the tree that are still to be visited, or a bound on them.
    pub pages: nat,
    /// Steps on the page that is being visited.
    pub steps: nat,
    /// Payload bytes that are still to be read.
    pub bytes: nat,
}

/// `a` is nearer to the end than `b`.
pub open spec fn nearer(a: Left, b: Left) -> bool {
    ||| a.pages < b.pages
    ||| a.pages == b.pages && a.steps < b.steps
    ||| a.pages == b.pages && a.steps == b.steps && a.bytes < b.bytes
}

/// How far a lookup is from its end before its first step.
pub open spec fn lookup_ahead(v: PoolView) -> Left {
    Left {
        pages: if v.meta.root == page::EMPTY_TREE_ROOT {
            0
        } else {
            (v.meta.root + 1) as nat
        },
        steps: 1,
        bytes: 0,
    }
}

/// The page that an operation on the committed tree needs first.
pub open spec fn first_page(v: PoolView) -> Option<u32> {
    if v.meta.root == page::EMPTY_TREE_ROOT {
        None
    } else {
        Some(v.meta.root)
    }
}

/// The page that is needed next is cached, and its type byte is none that
/// its place calls for: that of an overflow page in a chain, else that of a
/// leaf page or an interior page.
pub open spec fn misplaced(v: PoolView, wants: Option<u32>, in_chain: bool) -> bool {
    wants matches Some(id) && v.cache.contains_key(id) && {
        let byte = v.cache[id][0];
        if in_chain {
            byte != page::PAGE_TYPE_OVERFLOW
        } else {
            byte != PAGE_TYPE_LEAF && byte != PAGE_TYPE_INTERIOR
        }
    }
}

/// A step reports the type of the page that is needed next if that page is
/// misplaced, and no other page's.
pub open spec fn reports_type<T>(
    v: PoolView,
    wants: Option<u32>,
    in_chain: bool,
    r: Result<T, PinaxError>,
) -> bool {
    match r {
        Ok(_) => !misplaced(v, wants, in_chain),
        Err(e) => if misplaced(v, wants, in_chain) {
            error::wrong_type(
                e,
                wants->0,
                if in_chain {
                    "overflow"@
                } else {
                    "interior"@
                },
                v.cache[wants->0][0],
            )
        } else {
            !error::is_wrong_type(e)
        },
    }
}

/// A step that needs an interior page, and has it, goes on if and only if the
/// way of the key leads over that page to a child; else it says where it ends.
pub open spec fn reports_way<T>(
    v: PoolView,
    wants: Option<u32>,
    in_chain: bool,
    key: i64,
    r: Result<T, PinaxError>,
) -> bool {
    match wants {
        Some(id) => v.cache.contains_key(id) && !in_chain && v.cache[id][0] == PAGE_TYPE_INTERIOR
            ==> match r {
            Ok(_) => layout::leads(v.cache[id], key),
            Err(e) => layout::is_way_error(e, v.cache[id], key),
        },
        None => true,
    }
}

/// A step of a scan that needs an interior page, and has it, goes on if and
/// only if all its entries lie on the page; else it names the first that does
/// not.
pub open spec fn reports_entries<T>(
    v: PoolView,
    wants: Option<u32>,
    in_chain: bool,
    r: Result<T, PinaxError>,
) -> bool {
    match wants {
        Some(id) => v.cache.contains_key(id) && !in_chain && v.cache[id][0] == PAGE_TYPE_INTERIOR
            ==> match r {
            Ok(_) => layout::entries_readable(v.cache[id]),
            Err(e) => layout::is_first_entries_error(e, v.cache[id]),
        },
        None => true,
    }
}

/// A descent to the leaf page that a key belongs to.
pub struct Descent {
    /// The key.
    pub key: i64,
    /// The pages so far, from the root.
    pub path: Vec<PathNode>,
    /// The next page.
    pub next: u32,
    /// Whether the leaf page, or the end of a tree without pages, is
    /// reached.
    pub arrived: bool,
}

impl Descent {
    /// The page ids and page bodies so far.
    pub open spec fn nodes(self) -> path::Nodes {
        path::nodes_of(self.path@)
    }

    /// The descent is in order, over the pool `v`.
    pub open spec fn wf(self, v: PoolView) -> bool {
        let nodes = self.nodes();
        &&& path::sized(self.path@, v.meta.size)
        &&& path::linked(nodes, self.key)
        &&& nodes.len() > 0 ==> nodes[0].0 == v.meta.root && v.meta.root != page::EMPTY_TREE_ROOT
        &&& if self.arrived {
            if nodes.len() == 0 {
                v.meta.root == page::EMPTY_TREE_ROOT
            } else {
                nodes.last().1[0] == PAGE_TYPE_LEAF
            }
        } else {
            if nodes.len() == 0 {
                v.meta.root != page::EMPTY_TREE_ROOT && self.next == v.meta.root
            } else {
                &&& nodes.last().1[0] == PAGE_TYPE_INTERIOR
                &&& layout::interior_shape(nodes.last().1) ==> self.next == path::routed(
                    nodes.last().1,
                    self.key,
                )
            }
        }
    }

    /// The pages so far are those of `pages`.
    pub open spec fn follows(self, pages: Pages) -> bool {
        path::on_pages(self.nodes(), pages)
    }

    /// Start at the root.
    pub fn begin(pool: &BufferPool, key: i64) -> (d: Self)
        requires
            pool.wf(),
        ensures
            d.wf(pool@),
            d.key == key,
            d.path@.len() == 0,
            d.next == pool@.meta.root,
            d.arrived == (pool@.meta.root == page::EMPTY_TREE_ROOT),
            forall|pages: Pages| d.follows(pages),
    {
        let root: u32 = pool.root_page_id();
        Descent { key, path: Vec::new(), next: root, arrived: root == page::EMPTY_TREE_ROOT }
    }

    /// The next page is one of a valid tree's.
    pub proof fn next_is_there(self, v: PoolView, pages: Pages)
        requires
            self.wf(v),
            !self.arrived,
            self.follows(pages),
            valid(v, pages),
        ensures
            pages.contains_key(self.next),
            self.next <= v.meta.root,
            pages[self.next].len() == btree::usable(v),
            layout::leaf_shape(pages[self.next]) || layout::interior_shape(pages[self.next]),
            self.path@.len() > 0 ==> self.next < self.nodes().last().0,
    {
        let nodes = self.nodes();
        if nodes.len() > 0 {
            let i = nodes.len() - 1;
            path::path_node(pages, nodes, self.key, i, btree::usable(v));
            assert(pages[nodes[i].0] == nodes[i].1);
            tree::leaf_or_interior(nodes[i].1);
            tree::interior_find(
                pages,
                nodes[i].0,
                self.key,
                path::path_lo(nodes, i, self.key),
                path::path_hi(nodes, i, self.key),
                btree::usable(v),
            );
        }
    }

    /// Take the next page from the pool. `Some` names a page that is not
    /// cached.
    pub fn step(&mut self, pool: &mut BufferPool) -> (r: Result<Option<u32>, PinaxError>)
        requires
            old(pool).wf(),
            old(self).wf(old(pool)@),
            !old(self).arrived,
        ensures
            final(pool).wf(),
            final(self).key == old(self).key,
            match r {
                Ok(Some(id)) => {
                    &&& id == old(self).next
                    &&& !old(pool)@.cache.contains_key(id)
                    &&& final(pool)@ == old(pool)@
                    &&& *final(self) == *old(self)
                },
                Ok(None) => {
                    &&& old(pool)@.cache.contains_key(old(self).next)
                    &&& final(pool)@ == buffer_pool::touched(old(pool)@, old(self).next)
                    &&& final(self).wf(final(pool)@)
                    &&& final(self).nodes() == old(self).nodes().push(
                        (old(self).next, page::body(old(pool)@.cache[old(self).next])),
                    )
                    &&& final(self).path@.len() == old(self).path@.len() + 1
                    &&& final(self).path@.last().buf@ == old(pool)@.cache[old(self).next]
                    &&& final(self).arrived <==> old(pool)@.cache[old(self).next][0]
                        == PAGE_TYPE_LEAF
                },
                Err(e) => {
                    &&& old(pool)@.cache.contains_key(old(self).next)
                    &&& final(pool)@ == buffer_pool::touched(old(pool)@, old(self).next)
                    &&& path::turn_error(e, old(self).next, old(pool)@.cache[old(self).next])
                    &&& e is Fatal
                },
            },
            reports_type(old(pool)@, Some(old(self).next), false, r),
            reports_way(old(pool)@, Some(old(self).next), false, old(self).key, r),
            forall|pages: Pages| #[trigger]
                valid(old(pool)@, pages) && old(self).follows(pages) ==> match r {
                    Ok(Some(id)) => pages.contains_key(id) && id <= old(pool)@.meta.root,
                    Ok(None) => final(self).follows(pages) && (final(self).arrived || final(
                        self).next < old(self).next),
                    Err(_) => false,
                },
    {
        let ghost v = pool@;
        let ghost before = *self;
        let id: u32 = self.next;
        proof {
            pool.wf_facts();
            assert forall|pages: Pages| #[trigger]
                valid(v, pages) && before.follows(pages) implies pages.contains_key(id) && id
                <= v.meta.root && pages[id].len() == btree::usable(v) && (layout::leaf_shape(pages[id])
                || layout::interior_shape(pages[id])) by {
                before.next_is_there(v, pages);
            }
        }
        let buf: Vec<u8> = match pool.get(id) {
            Some(buf) => buf,
            None => {
                return Ok(Some(id));
            },
        };
        let ghost c = page::body(buf@);
        proof {
            mutate::buffer_header(buf@);
            assert forall|pages: Pages| #[trigger]
                valid(v, pages) && before.follows(pages) implies pages[id] == c by {
                assert(v.cache.contains_key(id));
            }
        }
        let turn = turn_at(id, buf.as_slice(), self.key)?;
        self.path.push(PathNode { id, buf });
        match turn {
            Turn::Leaf => {
                self.arrived = true;
            },
            Turn::Child(child) => {
                self.next = child;
            },
        }
        proof {
            let old_nodes = before.nodes();
            let nodes = self.nodes();
            assert(nodes =~= old_nodes.push((id, c)));
            assert forall|i: int| 0 <= i < nodes.len() - 1 implies #[trigger] path::linked_at(
                nodes,
                i,
                self.key,
            ) by {
                if i < old_nodes.len() - 1 {
                    assert(path::linked_at(old_nodes, i, self.key));
                    assert(nodes[i] == old_nodes[i] && nodes[i + 1] == old_nodes[i + 1]);
                } else {
                    assert(nodes[i] == old_nodes.last());
                }
            }
            assert forall|pages: Pages| #[trigger]
                valid(v, pages) && before.follows(pages) implies self.follows(pages) && (
            self.arrived || self.next < id) by {
                assert forall|i: int| 0 <= i < nodes.len() implies pages.contains_key(
                    (#[trigger] nodes[i]).0,
                ) && pages[nodes[i].0] == nodes[i].1 by {
                    if i < old_nodes.len() {
                        assert(nodes[i] == old_nodes[i]);
                    }
                }
                looked_sees(v, pool@, pages);
                if !self.arrived {
                    self.next_is_there(pool@, pages);
                }
            }
        }
        Ok(None)
    }

    /// An arrived descent over a valid tree leads to its leaf page.
    pub proof fn arrived_at_leaf(self, v: PoolView, pages: Pages)
        requires
            self.wf(v),
            self.arrived,
            self.follows(pages),
            valid(v, pages),
        ensures
            btree::at_leaf(v, self.nodes(), self.key, pages),
    {
    }
}

/// What a step of a lookup comes to.
pub enum Found {
    /// The lookup goes on. `Some` names a page that is not cached.
    Wait(Option<u32>),
    /// There is no row under the key.
    Absent,
    /// The row under the key.
    Row(Row),
}

/// The lookup of the row under a key.
pub struct Lookup {
    /// The descent to the leaf page.
    pub descent: Descent,
    /// The row's payload, once its cell was found.
    pub reading: Option<Reassembly>,
}

/// The payload bytes on one overflow page of the pool.
pub open spec fn cap(v: PoolView) -> int {
    btree::usable(v) - 5
}

/// What there is of a payload, and what is to come.
pub struct Gathered {
    /// The bytes so far.
    pub full: Seq<u8>,
    /// The page that holds the next ones, or 0.
    pub next: u32,
    /// How many bytes are to come.
    pub remaining: nat,
}

/// What there is of a payload that is being put together.
pub open spec fn gathered(r: Reassembly) -> Gathered {
    Gathered { full: r.full@, next: r.next, remaining: r.remaining as nat }
}

/// The page that is needed to go on; `None` when there is nothing to come.
pub open spec fn needed(g: Gathered) -> Option<u32> {
    if g.next != 0 && g.remaining > 0 {
        Some(g.next)
    } else {
        None
    }
}

/// What cell `i` of a leaf page with these bytes keeps of its payload.
pub open spec fn begun(b: Seq<u8>, i: int, max_local: int) -> Gathered {
    let p = layout::pointer(b, 5, i);
    let len = codec::be_u32(b, p + 8) as int;
    let first = codec::be_u32(b, p + 12);
    Gathered {
        full: b.subrange(p + 16, p + layout::leaf_cell_len(b, p, max_local)),
        next: first,
        remaining: if first != 0 && len > max_local {
            (len - max_local) as nat
        } else {
            0
        },
    }
}

/// What there is of a payload after the next page, with these bytes, which
/// holds `cap` payload bytes at most.
pub open spec fn gathered_on(g: Gathered, c: Seq<u8>, cap: int) -> Gathered {
    let take = if g.remaining <= cap {
        g.remaining as int
    } else {
        cap
    };
    Gathered {
        full: g.full + c.subrange(5, 5 + take),
        next: codec::be_u32(c, 1),
        remaining: (g.remaining - take) as nat,
    }
}

/// A leaf page with these bytes, whatever they are, has no cell with the key
/// where one would stand.
pub open spec fn leaf_lacks(b: Seq<u8>, key: i64) -> bool {
    layout::searched(b, key, 0, layout::cell_count(b)) matches Ok(Err(_))
}

/// What the cell with the key on a leaf page with these bytes keeps of its
/// payload; `None` if there is no such cell, or it does not lie on the page.
pub open spec fn leaf_gives(b: Seq<u8>, max_local: int, key: i64) -> Option<Gathered> {
    match layout::searched(b, key, 0, layout::cell_count(b)) {
        Ok(Ok(i)) => if layout::leaf_cell_readable(b, i, max_local) {
            Some(begun(b, i, max_local))
        } else {
            None
        },
        _ => None,
    }
}

/// `e` says what of the cells that a search for the key comes to is not on
/// the leaf page with these bytes.
pub open spec fn is_leaf_fault(e: PinaxError, b: Seq<u8>, max_local: int, key: i64) -> bool {
    match layout::searched(b, key, 0, layout::cell_count(b)) {
        Ok(Ok(i)) => !layout::leaf_cell_readable(b, i, max_local) && layout::is_leaf_cell_error(
            e,
            b,
            i,
            max_local,
        ),
        Ok(Err(_)) => false,
        Err(i) => layout::is_cell_error(e, b, 5, i, 0, 8),
    }
}

/// The most payload bytes that a leaf cell of the pool's pages keeps.
pub open spec fn kept(v: PoolView) -> int {
    page::max_local_of(v.meta.size)
}

/// A payload that is being put together of `pages` is `payload`.
pub open spec fn reads(r: Reassembly, v: PoolView, pages: Pages, payload: Seq<u8>) -> bool {
    &&& r.available(pages, v.meta.root as int, cap(v))
    &&& r.result(pages, cap(v)) == payload
}

impl Lookup {
    /// The lookup is in order, over the pool `v`.
    pub open spec fn wf(self, v: PoolView) -> bool {
        &&& self.descent.wf(v)
        &&& self.reading is Some ==> self.descent.arrived
    }

    /// The leaf page that is to be searched for the key, if that is what
    /// comes next.
    pub open spec fn leaf_page(self) -> Option<Seq<u8>> {
        if self.descent.arrived && self.reading is None && self.descent.path@.len() > 0 {
            Some(self.descent.path@.last().buf@)
        } else {
            None
        }
    }

    /// What there is of the payload, once its cell was found.
    pub open spec fn payload(self) -> Option<Gathered> {
        match self.reading {
            Some(r) => Some(gathered(r)),
            None => None,
        }
    }

    /// What the lookup has read so far is what `pages` holds.
    pub open spec fn follows(self, v: PoolView, pages: Pages) -> bool {
        &&& self.descent.follows(pages)
        &&& self.reading matches Some(r) ==> {
            let payload = tree::find(committed(v, pages), self.descent.key);
            payload is Some && reads(r, v, pages, payload->0)
        }
    }

    /// How far the lookup is from its end.
    pub open spec fn left(self) -> Left {
        if !self.descent.arrived {
            Left { pages: (self.descent.next + 1) as nat, steps: 1, bytes: 0 }
        } else {
            match self.reading {
                None => Left { pages: 0, steps: 1, bytes: 0 },
                Some(r) => Left { pages: 0, steps: 0, bytes: r.remaining as nat },
            }
        }
    }

    /// The page that the lookup needs next.
    pub open spec fn wants(self) -> Option<u32> {
        if !self.descent.arrived {
            Some(self.descent.next)
        } else {
            match self.reading {
                None => None,
                Some(r) => r.wants(),
            }
        }
    }

    /// What the lookup comes to.
    pub open spec fn outcome(
        key: i64,
        v: PoolView,
        pages: Pages,
        r: Result<Found, PinaxError>,
    ) -> bool {
        let payload = tree::find(committed(v, pages), key);
        match r {
            Ok(Found::Wait(None)) => true,
            Ok(Found::Wait(Some(id))) => pages.contains_key(id) && id <= v.meta.root,
            Ok(Found::Absent) => payload is None,
            Ok(Found::Row(row)) => payload is Some && row::parse_row(payload->0) == Ok::<
                _,
                row::Fault,
            >(row@),
            Err(e) => payload is Some && row::parse_row(payload->0) is Err && row::reports(
                e,
                row::parse_row(payload->0)->Err_0,
            ),
        }
    }

    /// Start at the root.
    pub fn begin(pool: &BufferPool, key: i64) -> (l: Self)
        requires
            pool.wf(),
        ensures
            l.wf(pool@),
            l.descent.key == key,
            l.descent.path@.len() == 0,
            l.reading is None,
            l.left() == lookup_ahead(pool@),
            l.wants() == first_page(pool@),
            forall|pages: Pages| l.follows(pool@, pages),
    {
        Lookup { descent: Descent::begin(pool, key), reading: None }
    }

    /// Find the key's cell on the leaf page. `false` if there is none.
    fn find_cell(&mut self, pool: &BufferPool) -> (r: Result<bool, PinaxError>)
        requires
            pool.wf(),
            old(self).wf(pool@),
            old(self).descent.arrived,
            old(self).reading is None,
        ensures
            final(self).descent == old(self).descent,
            final(self).wf(pool@),
            r == Ok::<_, PinaxError>(true) ==> final(self).reading is Some,
            r == Ok::<_, PinaxError>(false) ==> *final(self) == *old(self),
            r matches Err(e) ==> e is Fatal && !error::is_wrong_type(e),
            match old(self).leaf_page() {
                Some(b) => match r {
                    Ok(true) => {
                        &&& leaf_gives(b, kept(pool@), old(self).descent.key) is Some
                        &&& final(self).payload() == leaf_gives(
                            b,
                            kept(pool@),
                            old(self).descent.key,
                        )
                    },
                    Ok(false) => leaf_lacks(b, old(self).descent.key),
                    Err(e) => is_leaf_fault(e, b, kept(pool@), old(self).descent.key),
                },
                None => r == Ok::<_, PinaxError>(false),
            },
            forall|pages: Pages| #[trigger]
                valid(pool@, pages) && old(self).follows(pool@, pages) ==> match r {
                    Ok(true) => final(self).follows(pool@, pages),
                    Ok(false) => tree::find(committed(pool@, pages), old(self).descent.key)
                        is None,
                    Err(_) => false,
                },
    {
        let ghost v = pool@;
        let ghost before = *self;
        let ghost nodes = self.descent.nodes();
        let key: i64 = self.descent.key;
        proof {
            pool.wf_facts();
        }
        let n: usize = self.descent.path.len();
        if n == 0 {
            proof {
                assert forall|pages: Pages| #[trigger]
                    valid(v, pages) && before.follows(v, pages) implies tree::find(
                    committed(v, pages),
                    key,
                ) is None by {
                    tree::find_none(committed(v, pages), key);
                }
            }
            return Ok(false);
        }
        let max_local: u32 = pool.page_size().max_local();
        let leaf_buf: &Vec<u8> = &self.descent.path[n - 1].buf;
        assert(nodes[n - 1].1 == page::body(leaf_buf@));
        assert(leaf_buf@.len() == v.meta.size);
        let found = leaf_search(leaf_buf.as_slice(), key);
        proof {
            btree::search_outcome(v, nodes, key, leaf_buf@, found);
            assert forall|pages: Pages| #[trigger]
                valid(v, pages) && before.follows(v, pages) implies btree::at_leaf(
                v,
                nodes,
                key,
                pages,
            ) by {
                before.descent.arrived_at_leaf(v, pages);
            }
        }
        let at: usize = match found? {
            Ok(at) => at,
            Err(_) => {
                return Ok(false);
            },
        };
        let ghost buf = leaf_buf@;
        let read = leaf_cell_at(leaf_buf.as_slice(), at, max_local);
        proof {
            assert forall|pages: Pages| #[trigger]
                valid(v, pages) && before.follows(v, pages) implies read is Ok && cell_read(
                v,
                nodes,
                key,
                pages,
                buf,
                at as int,
                read->Ok_0,
            ) by {
                read_cell(v, nodes, key, pages, buf, at as int);
            }
        }
        let cell = read?;
        let ghost fields = cell;
        let reading = Reassembly::start(cell, max_local);
        proof {
            assert forall|pages: Pages| #[trigger]
                valid(v, pages) && before.follows(v, pages) implies reads(
                reading,
                v,
                pages,
                tree::find(committed(v, pages), key)->0,
            ) && tree::find(committed(v, pages), key) is Some by {
                assert(cell_read(v, nodes, key, pages, buf, at as int, fields));
                started_reading(v, nodes, key, pages, buf, at as int, fields, reading);
            }
        }
        self.reading = Some(reading);
        Ok(true)
    }

    /// One step.
    pub fn step(&mut self, pool: &mut BufferPool) -> (r: Result<Found, PinaxError>)
        requires
            old(pool).wf(),
            old(self).wf(old(pool)@),
        ensures
            final(pool).wf(),
            looked(old(pool)@, final(pool)@),
            final(pool)@ == used(old(pool)@, old(self).wants()),
            r is Ok ==> final(self).wf(final(pool)@),
            final(self).descent.key == old(self).descent.key,
            r matches Ok(Found::Wait(Some(id))) ==> !old(pool)@.cache.contains_key(id)
                && old(self).wants() == Some(id) && *final(self) == *old(self),
            r matches Ok(Found::Row(_)) ==> final(self).descent.arrived,
            r matches Ok(Found::Row(_)) ==> old(self).descent.arrived,
            r matches Ok(Found::Absent) ==> old(self).descent.arrived,
            old(self).leaf_page() matches Some(b) ==> match r {
                Ok(Found::Absent) => leaf_lacks(b, old(self).descent.key),
                Ok(Found::Wait(None)) => {
                    &&& leaf_gives(b, kept(old(pool)@), old(self).descent.key) is Some
                    &&& final(self).payload() == leaf_gives(
                        b,
                        kept(old(pool)@),
                        old(self).descent.key,
                    )
                },
                Ok(_) => false,
                Err(e) => is_leaf_fault(e, b, kept(old(pool)@), old(self).descent.key),
            },
            old(self).descent.arrived && old(self).leaf_page() is None && old(self).payload()
                is None ==> r matches Ok(Found::Absent),
            !old(self).descent.arrived && old(pool)@.cache.contains_key(old(self).descent.next)
                && old(pool)@.cache[old(self).descent.next][0] == PAGE_TYPE_LEAF ==> {
                &&& r matches Ok(Found::Wait(None))
                &&& final(self).leaf_page() == Some(old(pool)@.cache[old(self).descent.next])
            },
            old(self).payload() matches Some(g) ==> match needed(g) {
                None => match r {
                    Ok(Found::Row(row)) => row::parse_row(g.full) == Ok::<_, row::Fault>(row@),
                    Ok(_) => false,
                    Err(e) => row::parse_row(g.full) is Err && row::reports(
                        e,
                        row::parse_row(g.full)->Err_0,
                    ),
                },
                Some(id) => old(pool)@.cache.contains_key(id) && old(pool)@.cache[id][0]
                    == page::PAGE_TYPE_OVERFLOW ==> {
                    &&& r matches Ok(Found::Wait(None))
                    &&& final(self).payload() == Some(
                        gathered_on(g, old(pool)@.cache[id], cap(old(pool)@)),
                    )
                },
            },
            r matches Err(e) ==> e is Fatal,
            reports_type(old(pool)@, old(self).wants(), old(self).descent.arrived, r),
            reports_way(
                old(pool)@,
                old(self).wants(),
                old(self).descent.arrived,
                old(self).descent.key,
                r,
            ),
            forall|pages: Pages| #[trigger]
                valid(old(pool)@, pages) && old(self).follows(old(pool)@, pages)
                    ==> Self::outcome(old(self).descent.key, old(pool)@, pages, r) && (r is Ok
                    ==> final(self).follows(final(pool)@, pages)) && (r matches Ok(
                    Found::Wait(None),
                ) ==> nearer(final(self).left(), old(self).left())),
    {
        let ghost v = pool@;
        let ghost before = *self;
        proof {
            pool.wf_facts();
        }
        if !self.descent.arrived {
            let step = self.descent.step(pool);
            return match step {
                Ok(Some(id)) => Ok(Found::Wait(Some(id))),
                Ok(None) => Ok(Found::Wait(None)),
                Err(e) => Err(e),
            };
        }
        if self.reading.is_none() {
            let found = self.find_cell(pool)?;
            if !found {
                return Ok(Found::Absent);
            }
            return Ok(Found::Wait(None));
        }
        self.read_on(pool)
    }

    /// Take the next overflow page, or decode the row.
    fn read_on(&mut self, pool: &mut BufferPool) -> (r: Result<Found, PinaxError>)
        requires
            old(pool).wf(),
            old(self).wf(old(pool)@),
            old(self).reading is Some,
        ensures
            final(pool).wf(),
            looked(old(pool)@, final(pool)@),
            final(pool)@ == used(old(pool)@, old(self).wants()),
            r is Ok ==> final(self).wf(final(pool)@),
            final(self).descent == old(self).descent,
            r matches Ok(Found::Wait(Some(id))) ==> !old(pool)@.cache.contains_key(id)
                && old(self).wants() == Some(id) && *final(self) == *old(self),
            r matches Ok(Found::Wait(None)) ==> nearer(final(self).left(), old(self).left()),
            r matches Err(e) ==> e is Fatal,
            old(self).payload() matches Some(g) ==> match needed(g) {
                None => match r {
                    Ok(Found::Row(row)) => row::parse_row(g.full) == Ok::<_, row::Fault>(row@),
                    Ok(_) => false,
                    Err(e) => row::parse_row(g.full) is Err && row::reports(
                        e,
                        row::parse_row(g.full)->Err_0,
                    ),
                },
                Some(id) => old(pool)@.cache.contains_key(id) && old(pool)@.cache[id][0]
                    == page::PAGE_TYPE_OVERFLOW ==> {
                    &&& r matches Ok(Found::Wait(None))
                    &&& final(self).payload() == Some(
                        gathered_on(g, old(pool)@.cache[id], cap(old(pool)@)),
                    )
                },
            },
            reports_type(old(pool)@, old(self).wants(), true, r),
            forall|pages: Pages| #[trigger]
                valid(old(pool)@, pages) && old(self).follows(old(pool)@, pages)
                    ==> Self::outcome(old(self).descent.key, old(pool)@, pages, r) && (r is Ok
                    ==> final(self).follows(final(pool)@, pages)),
    {
        let ghost v = pool@;
        let ghost before = *self;
        proof {
            pool.wf_facts();
        }
        let mut reading: Reassembly = match self.reading.take() {
            Some(reading) => reading,
            None => {
                return Ok(Found::Absent);
            },
        };
        let ghost held = reading;
        let step = read_page(pool, &mut reading);
        proof {
            let g = gathered(held);
            assert(before.payload() == Some(g));
            assert(needed(g) == held.wants());
            if let Ok(Read::Taken) = step {
                assert(needed(g) == Some(held.next));
                assert(gathered(reading) == gathered_on(g, v.cache[held.next], cap(v)));
            }
            assert forall|pages: Pages| #[trigger]
                valid(v, pages) && before.follows(v, pages) implies reads(
                held,
                v,
                pages,
                tree::find(committed(v, pages), before.descent.key)->0,
            ) by {
            }
        }
        match step {
            Ok(Read::Missing(id)) => {
                self.reading = Some(reading);
                Ok(Found::Wait(Some(id)))
            },
            Ok(Read::Taken) => {
                self.reading = Some(reading);
                proof {
                    assert forall|pages: Pages| #[trigger]
                        valid(v, pages) && before.follows(v, pages) implies self.follows(
                        pool@,
                        pages,
                    ) by {
                        looked_sees(v, pool@, pages);
                    }
                }
                Ok(Found::Wait(None))
            },
            Ok(Read::Complete) => {
                let decoded = Row::decode(reading.full.as_slice());
                match decoded {
                    Ok(row) => Ok(Found::Row(row)),
                    Err(e) => Err(e),
                }
            },
            Err(e) => Err(e),
        }
    }
}

/// What taking an overflow page comes to.
pub enum Read {
    /// This page is needed and is not cached.
    Missing(u32),
    /// A page was taken.
    Taken,
    /// The payload is complete.
    Complete,
}

/// Take the next overflow page of a payload from the pool.
fn read_page(pool: &mut BufferPool, reading: &mut Reassembly) -> (r: Result<Read, PinaxError>)
    requires
        old(pool).wf(),
    ensures
        final(pool).wf(),
        looked(old(pool)@, final(pool)@),
        final(pool)@ == used(old(pool)@, old(reading).wants()),
        match r {
            Ok(Read::Missing(id)) => old(reading).wants() == Some(id)
                && !old(pool)@.cache.contains_key(id) && *final(reading) == *old(reading)
                && final(pool)@ == old(pool)@,
            Ok(Read::Taken) => {
                &&& final(reading).remaining < old(reading).remaining
                &&& old(reading).wants() == Some(old(reading).next)
                &&& old(pool)@.cache.contains_key(old(reading).next)
                &&& gathered(*final(reading)) == gathered_on(
                    gathered(*old(reading)),
                    old(pool)@.cache[old(reading).next],
                    cap(old(pool)@),
                )
            },
            Ok(Read::Complete) => old(reading).wants() is None && *final(reading) == *old(reading)
                && final(pool)@ == old(pool)@,
            Err(e) => old(reading).wants() is Some && e is Fatal && old(pool)@.cache.contains_key(
                old(reading).next,
            ) && old(pool)@.cache[old(reading).next][0] != page::PAGE_TYPE_OVERFLOW,
        },
        reports_type(old(pool)@, old(reading).wants(), true, r),
        forall|pages: Pages, payload: Seq<u8>|
            valid(old(pool)@, pages) && #[trigger] reads(
                *old(reading),
                old(pool)@,
                pages,
                payload,
            ) ==> match r {
                Ok(Read::Missing(id)) => pages.contains_key(id) && id <= old(pool)@.meta.root,
                Ok(Read::Taken) => reads(*final(reading), final(pool)@, pages, payload),
                Ok(Read::Complete) => final(reading).full@ == payload,
                Err(_) => false,
            },
{
    let ghost v = pool@;
    let ghost before = *reading;
    proof {
        pool.wf_facts();
    }
    let id: u32 = match reading.needs() {
        Some(id) => id,
        None => {
            proof {
                assert forall|pages: Pages, payload: Seq<u8>|
                    valid(v, pages) && #[trigger] reads(before, v, pages, payload) implies
                    before.full@ == payload by {
                    assert(before.full@ + Seq::<u8>::empty() =~= before.full@);
                }
            }
            return Ok(Read::Complete);
        },
    };
    let chunk_cap: usize = overflow_chunk_cap(pool.page_size().bytes());
    proof {
        assert forall|pages: Pages, payload: Seq<u8>|
            valid(v, pages) && #[trigger] reads(before, v, pages, payload) implies
            pages.contains_key(id) && id <= v.meta.root && pages[id].len() == cap(v) + 5
            && pages[id][0] == page::PAGE_TYPE_OVERFLOW by {
        }
    }
    let buf: Vec<u8> = match pool.get(id) {
        Some(buf) => buf,
        None => {
            return Ok(Read::Missing(id));
        },
    };
    let ghost c = page::body(buf@);
    proof {
        mutate::buffer_header(buf@);
        assert forall|pages: Pages, payload: Seq<u8>|
            valid(v, pages) && #[trigger] reads(before, v, pages, payload) implies pages[id]
            == c by {
            assert(v.cache.contains_key(id));
        }
    }
    reading.feed(id, buf.as_slice(), chunk_cap)?;
    proof {
        assert forall|pages: Pages, payload: Seq<u8>|
            valid(v, pages) && #[trigger] reads(before, v, pages, payload) implies reads(
            *reading,
            pool@,
            pages,
            payload,
        ) by {
            fed(before, *reading, v, pages, payload, id, buf@);
        }
    }
    Ok(Read::Taken)
}

/// After an overflow page was taken, the payload is still the same.
proof fn fed(
    before: Reassembly,
    after: Reassembly,
    v: PoolView,
    pages: Pages,
    payload: Seq<u8>,
    id: u32,
    buf: Seq<u8>,
)
    requires
        reads(before, v, pages, payload),
        before.wants() == Some(id),
        0 < cap(v),
        buf.len() == cap(v) + 5 + page::CHECKSUM_LEN,
        pages[id] == page::body(buf),
        ({
            let take = if before.remaining <= cap(v) {
                before.remaining as int
            } else {
                cap(v)
            };
            &&& after.full@ == before.full@ + buf.subrange(5, 5 + take)
            &&& after.next == codec::be_u32(buf, 1)
            &&& after.remaining == before.remaining - take
        }),
    ensures
        reads(after, v, pages, payload),
{
    let k = cap(v);
    let c = pages[id];
    assert(codec::be_u32(c, 1) == codec::be_u32(buf, 1));
    if before.remaining > k {
        assert(c.subrange(5, 5 + k) =~= buf.subrange(5, 5 + k));
        tree::chain_grows(
            pages,
            pages,
            after.next,
            after.remaining as nat,
            id as int,
            v.meta.root as int,
            k,
        );
        assert(after.result(pages, k) =~= before.result(pages, k));
    } else {
        let n = before.remaining as int;
        assert(c.subrange(5, 5 + n) =~= buf.subrange(5, 5 + n));
        assert(after.result(pages, k) =~= before.result(pages, k));
    }
}

/// `fields` is the cell of `key` on the leaf page at the end of the path.
pub open spec fn cell_read(
    v: PoolView,
    nodes: path::Nodes,
    key: i64,
    pages: Pages,
    buf: Seq<u8>,
    at: int,
    fields: layout::LeafCell,
) -> bool {
    let cells = layout::leaf_cells(page::body(buf));
    &&& 0 <= at < cells.len()
    &&& nodes.last().0 <= v.meta.root
    &&& tree::cell_ok(pages, cells[at], nodes.last().0 as int, btree::usable(v))
    &&& tree::find(committed(v, pages), key) == Some(
        tree::cell_payload(pages, cells[at], btree::usable(v)),
    )
    &&& fields.key == layout::cell_key(cells[at])
    &&& fields.payload_len == layout::cell_payload_len(cells[at])
    &&& fields.overflow_first == layout::cell_overflow_first(cells[at])
    &&& fields.local@ == layout::cell_local(cells[at])
}

/// Reading a cell off a leaf page in order succeeds.
proof fn read_cell(
    v: PoolView,
    nodes: path::Nodes,
    key: i64,
    pages: Pages,
    buf: Seq<u8>,
    at: int,
)
    requires
        btree::at_leaf(v, nodes, key, pages),
        nodes.len() > 0,
        nodes.last().1 == page::body(buf),
        buf.len() == v.meta.size,
        page::valid_page_size(v.meta.size),
        0 <= at < layout::leaf_cells(page::body(buf)).len(),
        layout::cell_key(layout::leaf_cells(page::body(buf))[at]) == key,
    ensures
        layout::leaf_cell_readable(buf, at, v.meta.size - 43),
        forall|fields: layout::LeafCell|
            ({
                let p = layout::pointer(buf, 5, at);
                &&& fields.key == codec::be_i64(buf, p)
                &&& fields.payload_len == codec::be_u32(buf, p + 8)
                &&& fields.overflow_first == codec::be_u32(buf, p + 12)
                &&& fields.local@ == buf.subrange(
                    p + 16,
                    p + layout::leaf_cell_len(buf, p, v.meta.size - 43),
                )
            }) ==> #[trigger] cell_read(v, nodes, key, pages, buf, at, fields),
{
    let i = nodes.len() - 1;
    let cells = layout::leaf_cells(page::body(buf));
    btree::leaf_of_path(v, nodes, key, pages);
    path::path_node(pages, nodes, key, i, btree::usable(v));
    mutate::leaf_buffer_cell(buf, at);
    tree::cells_find(
        pages,
        cells,
        at,
        nodes[i].0 as int,
        btree::usable(v),
        path::path_lo(nodes, i, key),
        path::path_hi(nodes, i, key),
    );
}

/// Beginning with a cell, the payload that is put together is the cell's.
proof fn started_reading(
    v: PoolView,
    nodes: path::Nodes,
    key: i64,
    pages: Pages,
    buf: Seq<u8>,
    at: int,
    fields: layout::LeafCell,
    r: Reassembly,
)
    requires
        cell_read(v, nodes, key, pages, buf, at, fields),
        page::valid_page_size(v.meta.size),
        r.full@ == fields.local@,
        r.next == fields.overflow_first,
        r.remaining == (if fields.overflow_first != 0 && fields.payload_len > v.meta.size - 43 {
            fields.payload_len - (v.meta.size - 43)
        } else {
            0
        }),
    ensures
        tree::find(committed(v, pages), key) is Some,
        reads(r, v, pages, tree::find(committed(v, pages), key)->0),
{
    let cells = layout::leaf_cells(page::body(buf));
    let cell = cells[at];
    tree::chain_grows(
        pages,
        pages,
        r.next,
        r.remaining as nat,
        nodes.last().0 as int,
        v.meta.root as int,
        cap(v),
    );
}

/// What a step of a scan comes to.
pub enum Scanned {
    /// The scan goes on. `Some` names a page that is not cached.
    Wait(Option<u32>),
    /// All rows, with their keys.
    Rows(Vec<(i64, Row)>),
}

/// The scan of all rows of a tree, in key order.
pub struct Scan {
    /// The pages that are still to be visited, the next one last.
    pub stack: Vec<u32>,
    /// The leaf page that is being visited, and the index of its next cell.
    pub leaf: Option<(Vec<u8>, usize)>,
    /// The payload of that cell, once its reading has begun.
    pub reading: Option<Reassembly>,
    /// The rows so far.
    pub rows: Vec<(i64, Row)>,
}

/// Where a scan stands, as plain mathematical data.
pub struct ScanView {
    /// The pages that are still to be visited, the next one last.
    pub stack: Seq<u32>,
    /// The leaf page that is being visited, and the index of its next cell.
    pub leaf: Option<(Seq<u8>, int)>,
    /// What there is of that cell's payload, once its reading has begun.
    pub payload: Option<Gathered>,
    /// The rows so far.
    pub rows: Seq<(i64, Seq<ValueView>)>,
}

/// How a step ended.
pub enum Came {
    /// The operation goes on.
    On,
    /// It needs this page, which is not cached.
    Asks(u32),
    /// It is over.
    Over,
    /// It failed.
    Failed(PinaxError),
}

/// The keys and values of rows.
pub open spec fn row_views(rows: Seq<(i64, Row)>) -> Seq<(i64, Seq<ValueView>)> {
    Seq::new(rows.len(), |i: int| (rows[i].0, rows[i].1@))
}

/// Where a scan stands before its first step.
pub open spec fn scan_start(v: PoolView) -> ScanView {
    ScanView {
        stack: if v.meta.root == page::EMPTY_TREE_ROOT {
            Seq::empty()
        } else {
            seq![v.meta.root]
        },
        leaf: None,
        payload: None,
        rows: Seq::empty(),
    }
}

/// A step of a scan, whatever the pages hold: where it leads from `s`, and
/// how it ends.
pub open spec fn scan_steps(s: ScanView, v: PoolView, t: ScanView, c: Came) -> bool {
    match s.payload {
        Some(g) => match needed(g) {
            Some(id) => if !v.cache.contains_key(id) {
                c == Came::Asks(id) && t == s
            } else if v.cache[id][0] == page::PAGE_TYPE_OVERFLOW {
                c is On && t == (ScanView {
                    payload: Some(gathered_on(g, v.cache[id], cap(v))),
                    ..s
                })
            } else {
                c is Failed
            },
            None => match row::parse_row(g.full) {
                Err(f) => c matches Came::Failed(e) && row::reports(e, f),
                Ok(vs) => s.leaf matches Some((b, at)) ==> if layout::leaf_cell_readable(
                    b,
                    at,
                    kept(v),
                ) {
                    c is On && t == (ScanView {
                        leaf: Some((b, at + 1)),
                        payload: None,
                        rows: s.rows.push((layout::key_of(b, 5, at), vs)),
                        ..s
                    })
                } else {
                    c matches Came::Failed(e) && layout::is_leaf_cell_error(e, b, at, kept(v))
                },
            },
        },
        None => match s.leaf {
            Some((b, at)) => if at >= layout::cell_count(b) {
                c is On && t == (ScanView { leaf: None, ..s })
            } else if layout::leaf_cell_readable(b, at, kept(v)) {
                c is On && t == (ScanView { payload: Some(begun(b, at, kept(v))), ..s })
            } else {
                c matches Came::Failed(e) && layout::is_leaf_cell_error(e, b, at, kept(v))
            },
            None => if s.stack.len() == 0 {
                c is Over
            } else {
                let id = s.stack.last();
                let b = v.cache[id];
                if !v.cache.contains_key(id) {
                    c == Came::Asks(id) && t == s
                } else if b[0] == PAGE_TYPE_LEAF {
                    c is On && t == (ScanView {
                        stack: s.stack.drop_last(),
                        leaf: Some((b, 0)),
                        ..s
                    })
                } else if b[0] == PAGE_TYPE_INTERIOR && layout::entries_readable(b) {
                    c is On && t == (ScanView {
                        stack: s.stack.drop_last() + layout::interior_children(b).reverse(),
                        ..s
                    })
                } else {
                    c is Failed
                }
            },
        },
    }
}

/// How a step of a scan ended.
pub open spec fn came(r: Result<Scanned, PinaxError>) -> Came {
    match r {
        Ok(Scanned::Wait(None)) => Came::On,
        Ok(Scanned::Wait(Some(id))) => Came::Asks(id),
        Ok(Scanned::Rows(_)) => Came::Over,
        Err(e) => Came::Failed(e),
    }
}

/// The entries of the trees below the pages of a stack, the last page first.
pub open spec fn stack_entries(pages: Pages, stack: Seq<u32>) -> Seq<tree::Entry>
    decreases stack.len(),
{
    if stack.len() == 0 {
        Seq::empty()
    } else {
        tree::entries(pages, stack.last()) + stack_entries(pages, stack.drop_last())
    }
}

/// How many pages of the tree below page `id` a scan visits.
pub open spec fn visits(pages: Pages, id: u32) -> nat
    decreases id, 1int, 0int,
{
    let c = pages[id];
    if c[0] == PAGE_TYPE_LEAF {
        1
    } else {
        1 + child_visits(
            pages,
            layout::interior_children(c),
            layout::interior_children(c).len(),
            id,
        )
    }
}

/// How many pages of the trees below the first `n` children of page `id` a
/// scan visits.
pub open spec fn child_visits(pages: Pages, children: Seq<u32>, n: nat, id: u32) -> nat
    decreases id, 0int, n,
{
    if n == 0 {
        0
    } else {
        child_visits(pages, children, (n - 1) as nat, id) + (if children[n - 1] < id {
            visits(pages, children[n - 1])
        } else {
            0
        })
    }
}

/// How many pages of the trees below the pages of a stack a scan visits.
pub open spec fn stack_visits(pages: Pages, stack: Seq<u32>) -> nat
    decreases stack.len(),
{
    if stack.len() == 0 {
        0
    } else {
        visits(pages, stack.last()) + stack_visits(pages, stack.drop_last())
    }
}

/// How far a scan is from its end before its first step.
pub open spec fn scan_ahead(v: PoolView, pages: Pages) -> Left {
    Left {
        pages: if v.meta.root == page::EMPTY_TREE_ROOT {
            0
        } else {
            visits(pages, v.meta.root)
        },
        steps: 0,
        bytes: 0,
    }
}

/// Page `id` is the root of a tree.
pub open spec fn is_node(pages: Pages, id: u32, u: int) -> bool {
    exists|lo: int, hi: int| #[trigger] tree::node_ok(pages, id, lo, hi, u)
}

/// `c` is the body of a leaf page whose cells are in order, and whose id is
/// at most `top`.
pub open spec fn is_leaf(pages: Pages, c: Seq<u8>, top: u32) -> bool {
    exists|id: u32, lo: int, hi: int| #[trigger] tree::leaf_ok(pages, c, id, lo, hi) && id <= top
}

/// The rows are those of the first entries.
pub open spec fn rows_are(rows: Seq<(i64, Row)>, es: Seq<tree::Entry>) -> bool {
    &&& rows.len() <= es.len()
    &&& forall|i: int|
        0 <= i < rows.len() ==> (#[trigger] rows[i]).0 == es[i].0 && row::parse_row(es[i].1)
            == Ok::<_, row::Fault>(rows[i].1@)
}

/// `e` reports what is wrong with the first payload that does not decode.
pub open spec fn first_fault(es: Seq<tree::Entry>, e: PinaxError) -> bool {
    exists|k: int|
        {
            &&& 0 <= k < es.len()
            &&& row::parse_row((#[trigger] es[k]).1) is Err
            &&& row::reports(e, row::parse_row(es[k].1)->Err_0)
            &&& forall|j: int| 0 <= j < k ==> row::parse_row((#[trigger] es[j]).1) is Ok
        }
}

impl Scan {
    /// Where the scan stands.
    pub open spec fn state(self) -> ScanView {
        ScanView {
            stack: self.stack@,
            leaf: match self.leaf {
                Some(l) => Some((l.0@, l.1 as int)),
                None => None,
            },
            payload: match self.reading {
                Some(r) => Some(gathered(r)),
                None => None,
            },
            rows: row_views(self.rows@),
        }
    }

    /// The scan is in order, over the pool `v`.
    pub open spec fn wf(self, v: PoolView) -> bool {
        &&& self.leaf matches Some(l) ==> l.0@.len() == v.meta.size && l.0@[0] == PAGE_TYPE_LEAF
        &&& self.reading is Some ==> self.leaf is Some
    }

    /// The entries that are still to be visited.
    pub open spec fn rest(self, v: PoolView, pages: Pages) -> Seq<tree::Entry> {
        let below = stack_entries(pages, self.stack@);
        match self.leaf {
            Some((buf, at)) => tree::cell_entries(
                pages,
                layout::leaf_cells(page::body(buf@)).skip(at as int),
                btree::usable(v),
            ) + below,
            None => below,
        }
    }

    /// What the scan has read so far is what `pages` holds.
    pub open spec fn follows(self, v: PoolView, pages: Pages) -> bool {
        let es = committed(v, pages);
        &&& rows_are(self.rows@, es)
        &&& es.skip(self.rows@.len() as int) == self.rest(v, pages)
        &&& forall|i: int|
            0 <= i < self.stack@.len() ==> is_node(pages, #[trigger] self.stack@[i], btree::usable(v))
                && self.stack@[i] <= v.meta.root
        &&& self.leaf matches Some((buf, at)) ==> is_leaf(pages, page::body(buf@), v.meta.root)
            && at <= layout::cell_count(buf@)
        &&& self.reading matches Some(r) ==> {
            &&& self.leaf matches Some((buf, at)) && at < layout::cell_count(buf@) && reads(
                r,
                v,
                pages,
                tree::cell_payload(
                    pages,
                    layout::leaf_cells(page::body(buf@))[at as int],
                    btree::usable(v),
                ),
            )
        }
    }

    /// How far the scan is from its end.
    pub open spec fn left(self, v: PoolView, pages: Pages) -> Left {
        Left {
            pages: stack_visits(pages, self.stack@),
            steps: if self.leaf is None {
                0
            } else if self.reading is None {
                2 * self.rest(v, pages).len() + 1
            } else {
                2 * self.rest(v, pages).len()
            },
            bytes: match self.reading {
                Some(r) => r.remaining as nat,
                None => 0,
            },
        }
    }

    /// The page that the scan needs next.
    pub open spec fn wants(self) -> Option<u32> {
        match self.reading {
            Some(r) => r.wants(),
            None => if self.leaf is None && self.stack@.len() > 0 {
                Some(self.stack@.last())
            } else {
                None
            },
        }
    }

    /// What the scan comes to.
    pub open spec fn outcome(v: PoolView, pages: Pages, r: Result<Scanned, PinaxError>) -> bool {
        let es = committed(v, pages);
        match r {
            Ok(Scanned::Wait(None)) => true,
            Ok(Scanned::Wait(Some(id))) => pages.contains_key(id) && id <= v.meta.root,
            Ok(Scanned::Rows(rows)) => rows@.len() == es.len() && rows_are(rows@, es),
            Err(e) => first_fault(es, e),
        }
    }

    /// Start at the root.
    pub fn begin(pool: &BufferPool) -> (s: Self)
        requires
            pool.wf(),
        ensures
            s.wf(pool@),
            s.reading is None,
            s.wants() == first_page(pool@),
            s.state() == scan_start(pool@),
            forall|pages: Pages| #[trigger]
                valid(pool@, pages) ==> s.follows(pool@, pages) && s.left(pool@, pages)
                    == scan_ahead(pool@, pages),
    {
        let root: u32 = pool.root_page_id();
        let mut stack: Vec<u32> = Vec::new();
        if root != page::EMPTY_TREE_ROOT {
            stack.push(root);
        }
        let s = Scan { stack, leaf: None, reading: None, rows: Vec::new() };
        proof {
            assert(s.state().stack =~= scan_start(pool@).stack);
            assert(s.state().rows =~= Seq::<(i64, Seq<ValueView>)>::empty());
            let v = pool@;
            assert forall|pages: Pages| #[trigger] valid(v, pages) implies s.follows(v, pages)
                && s.left(v, pages) == scan_ahead(v, pages) by {
                let es = committed(v, pages);
                assert(es.skip(0) =~= es);
                if root != page::EMPTY_TREE_ROOT {
                    assert(stack@.drop_last() =~= Seq::<u32>::empty());
                    assert(stack_entries(pages, stack@.drop_last()) =~= Seq::<
                        tree::Entry,
                    >::empty());
                    assert(stack_entries(pages, s.stack@) =~= es);
                    assert(stack_visits(pages, stack@.drop_last()) == 0);
                    assert(tree::node_ok(
                        pages,
                        root,
                        tree::key_lo(),
                        tree::key_hi(),
                        btree::usable(v),
                    ));
                }
            }
        }
        s
    }

    /// One step.
    pub fn step(&mut self, pool: &mut BufferPool) -> (r: Result<Scanned, PinaxError>)
        requires
            old(pool).wf(),
            old(self).wf(old(pool)@),
        ensures
            final(pool).wf(),
            looked(old(pool)@, final(pool)@),
            scan_steps(old(self).state(), old(pool)@, final(self).state(), came(r)),
            r matches Ok(Scanned::Rows(rows)) ==> rows@ == old(self).rows@,
            final(pool)@ == used(old(pool)@, old(self).wants()),
            r is Ok ==> final(self).wf(final(pool)@),
            r matches Ok(Scanned::Wait(Some(id))) ==> !old(pool)@.cache.contains_key(id)
                && old(self).wants() == Some(id) && *final(self) == *old(self),
            r matches Err(e) ==> e is Fatal,
            reports_type(old(pool)@, old(self).wants(), old(self).reading is Some, r),
            reports_entries(old(pool)@, old(self).wants(), old(self).reading is Some, r),
            forall|pages: Pages| #[trigger]
                valid(old(pool)@, pages) && old(self).follows(old(pool)@, pages)
                    ==> Self::outcome(old(pool)@, pages, r) && (r matches Ok(Scanned::Wait(_))
                    ==> final(self).follows(final(pool)@, pages)) && (r matches Ok(
                    Scanned::Wait(None),
                ) ==> nearer(
                    final(self).left(final(pool)@, pages),
                    old(self).left(old(pool)@, pages),
                )),
    {
        let ghost v = pool@;
        proof {
            pool.wf_facts();
        }
        if self.reading.is_some() {
            return self.read_on(pool);
        }
        if self.leaf.is_some() {
            return self.next_cell(pool);
        }
        if self.stack.len() == 0 {
            let mut rows: Vec<(i64, Row)> = Vec::new();
            rows.append(&mut self.rows);
            proof {
                assert(rows@ =~= old(self).rows@);
                assert forall|pages: Pages| #[trigger]
                    valid(v, pages) && old(self).follows(v, pages) implies rows@.len()
                    == committed(v, pages).len() by {
                    assert(committed(v, pages).skip(rows@.len() as int).len() == 0);
                }
            }
            return Ok(Scanned::Rows(rows));
        }
        self.next_page(pool)
    }

    /// Take the next overflow page, or decode the row.
    fn read_on(&mut self, pool: &mut BufferPool) -> (r: Result<Scanned, PinaxError>)
        requires
            old(pool).wf(),
            old(self).wf(old(pool)@),
            old(self).reading is Some,
        ensures
            final(pool).wf(),
            looked(old(pool)@, final(pool)@),
            scan_steps(old(self).state(), old(pool)@, final(self).state(), came(r)),
            final(pool)@ == used(old(pool)@, old(self).wants()),
            r is Ok ==> final(self).wf(final(pool)@),
            r matches Ok(Scanned::Wait(Some(id))) ==> !old(pool)@.cache.contains_key(id)
                && old(self).wants() == Some(id) && *final(self) == *old(self),
            r matches Err(e) ==> e is Fatal,
            reports_type(old(pool)@, old(self).wants(), true, r),
            !(r matches Ok(Scanned::Rows(_))),
            forall|pages: Pages| #[trigger]
                valid(old(pool)@, pages) && old(self).follows(old(pool)@, pages)
                    ==> Self::outcome(old(pool)@, pages, r) && (r is Ok ==> final(self).follows(
                    final(pool)@,
                    pages,
                )) && (r matches Ok(Scanned::Wait(None)) ==> nearer(
                    final(self).left(final(pool)@, pages),
                    old(self).left(old(pool)@, pages),
                )),
    {
        let ghost v = pool@;
        let ghost before = *self;
        proof {
            pool.wf_facts();
        }
        let mut reading: Reassembly = match self.reading.take() {
            Some(reading) => reading,
            None => {
                return Ok(Scanned::Wait(None));
            },
        };
        let (buf, at): (Vec<u8>, usize) = match self.leaf.take() {
            Some(leaf) => leaf,
            None => {
                return Ok(Scanned::Wait(None));
            },
        };
        let ghost held = reading;
        let ghost cells = layout::leaf_cells(page::body(buf@));
        let step = read_page(pool, &mut reading);
        proof {
            assert forall|pages: Pages| #[trigger]
                valid(v, pages) && before.follows(v, pages) implies reads(
                held,
                v,
                pages,
                tree::cell_payload(pages, cells[at as int], btree::usable(v)),
            ) by {
            }
        }
        match step {
            Ok(Read::Missing(id)) => {
                self.reading = Some(reading);
                self.leaf = Some((buf, at));
                Ok(Scanned::Wait(Some(id)))
            },
            Ok(Read::Taken) => {
                self.reading = Some(reading);
                self.leaf = Some((buf, at));
                proof {
                    assert forall|pages: Pages| #[trigger]
                        valid(v, pages) && before.follows(v, pages) implies self.follows(
                        pool@,
                        pages,
                    ) by {
                        looked_sees(v, pool@, pages);
                    }
                }
                Ok(Scanned::Wait(None))
            },
            Ok(Read::Complete) => {
                let max_local: u32 = pool.page_size().max_local();
                let decoded = Row::decode(reading.full.as_slice());
                let cell = leaf_cell_at(buf.as_slice(), at, max_local);
                proof {
                    assert forall|pages: Pages| #[trigger]
                        valid(v, pages) && before.follows(v, pages) implies cell is Ok
                        && cell->Ok_0.key == committed(v, pages)[before.rows@.len() as int].0
                        && committed(v, pages)[before.rows@.len() as int].1 == reading.full@
                        && before.rows@.len() < committed(v, pages).len() by {
                        next_entry(before, v, pages, buf, at);
                        leaf_cell_found(v, pages, buf@, at as int);
                    }
                }
                let row = match decoded {
                    Ok(row) => row,
                    Err(e) => {
                        proof {
                            assert forall|pages: Pages| #[trigger]
                                valid(v, pages) && before.follows(v, pages) implies first_fault(
                                committed(v, pages),
                                e,
                            ) by {
                                let es = committed(v, pages);
                                let k = before.rows@.len() as int;
                                assert(row::parse_row(es[k].1) is Err);
                                assert forall|j: int| 0 <= j < k implies row::parse_row(
                                    (#[trigger] es[j]).1,
                                ) is Ok by {
                                    assert(before.rows@[j].0 == es[j].0);
                                }
                            }
                        }
                        return Err(e);
                    },
                };
                let key: i64 = cell?.key;
                self.rows.push((key, row));
                self.leaf = Some((buf, at + 1));
                proof {
                    assert(self.state().rows =~= before.state().rows.push((key, row@)));
                    assert forall|pages: Pages| #[trigger]
                        valid(v, pages) && before.follows(v, pages) implies self.follows(
                        pool@,
                        pages,
                    ) && nearer(self.left(pool@, pages), before.left(v, pages)) by {
                        looked_sees(v, pool@, pages);
                        next_entry(before, v, pages, buf, at);
                        let es = committed(v, pages);
                        let k = before.rows@.len() as int;
                        assert(es.skip(k).skip(1) =~= es.skip(k + 1));
                        assert forall|i: int| 0 <= i < self.rows@.len() implies (
                        #[trigger] self.rows@[i]).0 == es[i].0 && row::parse_row(es[i].1) == Ok::<
                            _,
                            row::Fault,
                        >(self.rows@[i].1@) by {
                            if i < k {
                                assert(self.rows@[i] == before.rows@[i]);
                            }
                        }
                    }
                }
                Ok(Scanned::Wait(None))
            },
            Err(e) => Err(e),
        }
    }

    /// Begin to read the next cell of the leaf page, or leave the page.
    fn next_cell(&mut self, pool: &BufferPool) -> (r: Result<Scanned, PinaxError>)
        requires
            pool.wf(),
            old(self).wf(pool@),
            old(self).reading is None,
            old(self).leaf is Some,
        ensures
            r is Ok ==> final(self).wf(pool@),
            scan_steps(old(self).state(), pool@, final(self).state(), came(r)),
            !(r matches Ok(Scanned::Rows(_))),
            !(r matches Ok(Scanned::Wait(Some(_)))),
            r matches Err(e) ==> e is Fatal && !error::is_wrong_type(e),
            forall|pages: Pages| #[trigger]
                valid(pool@, pages) && old(self).follows(pool@, pages) ==> r is Ok && final(
                    self).follows(pool@, pages) && nearer(
                    final(self).left(pool@, pages),
                    old(self).left(pool@, pages),
                ),
    {
        let ghost v = pool@;
        let ghost before = *self;
        proof {
            pool.wf_facts();
        }
        let (buf, at): (Vec<u8>, usize) = match self.leaf.take() {
            Some(leaf) => leaf,
            None => {
                return Ok(Scanned::Wait(None));
            },
        };
        let max_local: u32 = pool.page_size().max_local();
        let n: usize = num_cells(buf.as_slice())? as usize;
        if at >= n {
            proof {
                assert forall|pages: Pages| #[trigger]
                    valid(v, pages) && before.follows(v, pages) implies self.follows(v, pages) by {
                    mutate::buffer_header(buf@);
                    let cells = layout::leaf_cells(page::body(buf@));
                    assert(cells.skip(at as int) =~= Seq::<Seq<u8>>::empty());
                    assert(tree::cell_entries(pages, cells.skip(at as int), btree::usable(v))
                        =~= Seq::<tree::Entry>::empty());
                    assert(before.rest(v, pages) =~= self.rest(v, pages));
                }
            }
            return Ok(Scanned::Wait(None));
        }
        let read = leaf_cell_at(buf.as_slice(), at, max_local);
        proof {
            assert forall|pages: Pages| #[trigger]
                valid(v, pages) && before.follows(v, pages) implies read is Ok && cell_in(
                v,
                pages,
                buf@,
                at as int,
                read->Ok_0,
            ) by {
                leaf_cell_found(v, pages, buf@, at as int);
            }
        }
        let cell = read?;
        let ghost fields = cell;
        let reading = Reassembly::start(cell, max_local);
        proof {
            assert forall|pages: Pages| #[trigger]
                valid(v, pages) && before.follows(v, pages) implies reads(
                reading,
                v,
                pages,
                tree::cell_payload(
                    pages,
                    layout::leaf_cells(page::body(buf@))[at as int],
                    btree::usable(v),
                ),
            ) by {
                assert(cell_in(v, pages, buf@, at as int, fields));
                reading_of_cell(v, pages, buf@, at as int, fields, reading);
            }
        }
        self.leaf = Some((buf, at));
        self.reading = Some(reading);
        Ok(Scanned::Wait(None))
    }

    /// Visit the next page.
    fn next_page(&mut self, pool: &mut BufferPool) -> (r: Result<Scanned, PinaxError>)
        requires
            old(pool).wf(),
            old(self).wf(old(pool)@),
            old(self).reading is None,
            old(self).leaf is None,
            old(self).stack@.len() > 0,
        ensures
            final(pool).wf(),
            looked(old(pool)@, final(pool)@),
            scan_steps(old(self).state(), old(pool)@, final(self).state(), came(r)),
            final(pool)@ == used(old(pool)@, old(self).wants()),
            r is Ok ==> final(self).wf(final(pool)@),
            r matches Ok(Scanned::Wait(Some(id))) ==> !old(pool)@.cache.contains_key(id)
                && old(self).wants() == Some(id) && *final(self) == *old(self),
            r matches Err(e) ==> e is Fatal,
            reports_type(old(pool)@, old(self).wants(), false, r),
            reports_entries(old(pool)@, old(self).wants(), false, r),
            !(r matches Ok(Scanned::Rows(_))),
            forall|pages: Pages| #[trigger]
                valid(old(pool)@, pages) && old(self).follows(old(pool)@, pages)
                    ==> Self::outcome(old(pool)@, pages, r) && final(self).follows(
                    final(pool)@,
                    pages,
                ) && r is Ok && (r matches Ok(Scanned::Wait(None)) ==> nearer(
                    final(self).left(final(pool)@, pages),
                    old(self).left(old(pool)@, pages),
                )),
    {
        let ghost v = pool@;
        let ghost before = *self;
        proof {
            pool.wf_facts();
        }
        let id: u32 = self.stack[self.stack.len() - 1];
        proof {
            assert forall|pages: Pages| #[trigger]
                valid(v, pages) && before.follows(v, pages) implies pages.contains_key(id) && id
                <= v.meta.root && is_node(pages, id, btree::usable(v)) by {
                assert(is_node(pages, before.stack@[before.stack@.len() - 1], btree::usable(v)));
            }
        }
        let buf: Vec<u8> = match pool.get(id) {
            Some(buf) => buf,
            None => {
                return Ok(Scanned::Wait(Some(id)));
            },
        };
        let ghost c = page::body(buf@);
        proof {
            mutate::buffer_header(buf@);
            assert forall|pages: Pages| #[trigger]
                valid(v, pages) && before.follows(v, pages) implies pages[id] == c && valid(
                pool@,
                pages,
            ) && committed(pool@, pages) == committed(v, pages) by {
                assert(v.cache.contains_key(id));
                looked_sees(v, pool@, pages);
            }
        }
        let page_type: u8 = read_u8(buf.as_slice(), 0)?;
        let _ = self.stack.pop();
        if page_type == PAGE_TYPE_LEAF {
            self.leaf = Some((buf, 0));
            proof {
                assert forall|pages: Pages| #[trigger]
                    valid(v, pages) && before.follows(v, pages) implies self.follows(
                    pool@,
                    pages,
                ) && nearer(self.left(pool@, pages), before.left(v, pages)) by {
                    visit_leaf(pages, id, c, v);
                    assert(self.stack@ =~= before.stack@.drop_last());
                    assert(layout::leaf_cells(c).skip(0) =~= layout::leaf_cells(c));
                }
            }
            return Ok(Scanned::Wait(None));
        }
        let type_check = Pager::expect_page_type(id, buf.as_slice(), PAGE_TYPE_INTERIOR, "interior");
        let parts = interior_entries(buf.as_slice());
        proof {
            assert forall|pages: Pages| #[trigger]
                valid(v, pages) && before.follows(v, pages) implies type_check is Ok && parts is Ok
                && layout::interior_shape(c) && parts->Ok_0.1@ == layout::interior_children(c) by {
                visit_interior(pages, id, c, v);
                mutate::interior_buffer(buf@);
            }
        }
        type_check?;
        let (_, children) = parts?;
        let ghost popped = self.stack@;
        assert(popped =~= before.stack@.drop_last());
        let n: usize = children.len();
        let mut i: usize = n;
        assert(children@.skip(n as int) =~= Seq::<u32>::empty());
        assert(popped + children@.skip(n as int).reverse() =~= popped);
        while i > 0
            invariant
                i <= n,
                n == children@.len(),
                self.stack@ == popped + children@.skip(i as int).reverse(),
                self.leaf is None,
                self.reading is None,
                self.rows == before.rows,
            decreases i,
        {
            let ghost done = children@.skip(i as int);
            self.stack.push(children[i - 1]);
            i = i - 1;
            assert(children@.skip(i as int) =~= seq![children@[i as int]] + done);
            assert(self.stack@ =~= popped + children@.skip(i as int).reverse());
        }
        proof {
            assert(children@.skip(0) =~= children@);
            assert forall|pages: Pages| #[trigger]
                valid(v, pages) && before.follows(v, pages) implies self.follows(pool@, pages)
                && nearer(self.left(pool@, pages), before.left(v, pages)) by {
                visit_interior(pages, id, c, v);
                stack_children(pages, popped, children@);
                children_visits(pages, id, popped, children@, 0);
                assert(self.rest(pool@, pages) =~= before.rest(v, pages));
                assert forall|k: int| 0 <= k < self.stack@.len() implies is_node(
                    pages,
                    #[trigger] self.stack@[k],
                    btree::usable(v),
                ) by {
                    if k < popped.len() {
                        assert(self.stack@[k] == before.stack@[k]);
                    } else {
                        let j = n - 1 - (k - popped.len());
                        assert(self.stack@[k] == children@[j]);
                    }
                }
            }
        }
        assert(children@ == layout::interior_children(buf@));
        assert(self.state().stack =~= before.state().stack.drop_last()
            + layout::interior_children(buf@).reverse());
        Ok(Scanned::Wait(None))
    }
}

/// The entries below the children of a page, pushed in reverse, come in the
/// order of the children.
proof fn stack_children(pages: Pages, popped: Seq<u32>, children: Seq<u32>)
    ensures
        stack_entries(pages, popped + children.reverse()) == tree::flat(
            tree::child_lists(pages, children),
        ) + stack_entries(pages, popped),
    decreases children.len(),
{
    if children.len() == 0 {
        assert(popped + children.reverse() =~= popped);
        assert(tree::child_lists(pages, children).len() == 0);
    } else {
        let rest = children.drop_first();
        let stack = popped + children.reverse();
        stack_children(pages, popped, rest);
        assert(stack.last() == children[0]);
        assert(stack.drop_last() =~= popped + rest.reverse());
        tree::first_list(pages, children);
        assert(stack_entries(pages, stack) =~= tree::flat(tree::child_lists(pages, children))
            + stack_entries(pages, popped));
    }
}

/// The pages below the children of page `id`, pushed in reverse, are those
/// that the page's own count names.
proof fn children_visits(pages: Pages, id: u32, popped: Seq<u32>, children: Seq<u32>, m: int)
    requires
        0 <= m <= children.len(),
        forall|i: int| 0 <= i < children.len() ==> #[trigger] children[i] < id,
    ensures
        stack_visits(pages, popped + children.skip(m).reverse()) + child_visits(
            pages,
            children,
            m as nat,
            id,
        ) == stack_visits(pages, popped) + child_visits(pages, children, children.len(), id),
    decreases children.len() - m,
{
    let stack = popped + children.skip(m).reverse();
    if m == children.len() {
        assert(stack =~= popped);
    } else {
        children_visits(pages, id, popped, children, m + 1);
        assert(stack.last() == children[m]);
        assert(stack.drop_last() =~= popped + children.skip(m + 1).reverse());
    }
}

/// A page of a tree with the type byte of a leaf page is one.
proof fn visit_leaf(pages: Pages, id: u32, c: Seq<u8>, v: PoolView)
    requires
        is_node(pages, id, btree::usable(v)),
        pages[id] == c,
        c[0] == PAGE_TYPE_LEAF,
    ensures
        is_leaf(pages, c, id),
        tree::entries(pages, id) == tree::cell_entries(
            pages,
            layout::leaf_cells(c),
            btree::usable(v),
        ),
{
    let (lo, hi) = choose|lo: int, hi: int| #[trigger]
        tree::node_ok(pages, id, lo, hi, btree::usable(v));
    tree::leaf_or_interior(c);
    assert(tree::leaf_ok(pages, c, id, lo, hi));
}

/// A page of a tree with another type byte is an interior page.
proof fn visit_interior(pages: Pages, id: u32, c: Seq<u8>, v: PoolView)
    requires
        is_node(pages, id, btree::usable(v)),
        pages[id] == c,
        c[0] != PAGE_TYPE_LEAF,
    ensures
        layout::interior_shape(c),
        c[0] == PAGE_TYPE_INTERIOR,
        tree::entries(pages, id) == tree::flat(
            tree::child_lists(pages, layout::interior_children(c)),
        ),
        forall|i: int|
            0 <= i < layout::interior_children(c).len() ==> is_node(
                pages,
                #[trigger] layout::interior_children(c)[i],
                btree::usable(v),
            ) && layout::interior_children(c)[i] < id,
{
    let (lo, hi) = choose|lo: int, hi: int| #[trigger]
        tree::node_ok(pages, id, lo, hi, btree::usable(v));
    tree::leaf_or_interior(c);
    let keys = layout::interior_keys(c);
    let children = layout::interior_children(c);
    assert forall|i: int| 0 <= i < children.len() implies is_node(
        pages,
        #[trigger] children[i],
        btree::usable(v),
    ) && children[i] < id by {
        assert(tree::node_ok(
            pages,
            children[i],
            tree::child_lo(keys, i, lo),
            tree::child_hi(keys, i, hi),
            btree::usable(v),
        ));
    }
    tree::interior_entries_flat(pages, id, 0);
}

/// `fields` is cell `at` of the leaf page.
pub open spec fn cell_in(
    v: PoolView,
    pages: Pages,
    buf: Seq<u8>,
    at: int,
    fields: layout::LeafCell,
) -> bool {
    let cells = layout::leaf_cells(page::body(buf));
    &&& 0 <= at < cells.len()
    &&& exists|below: int| #[trigger]
        tree::cell_ok(pages, cells[at], below, btree::usable(v)) && below <= v.meta.root
    &&& fields.key == layout::cell_key(cells[at])
    &&& fields.payload_len == layout::cell_payload_len(cells[at])
    &&& fields.overflow_first == layout::cell_overflow_first(cells[at])
    &&& fields.local@ == layout::cell_local(cells[at])
}

/// Reading a cell off a leaf page in order succeeds.
proof fn leaf_cell_found(v: PoolView, pages: Pages, buf: Seq<u8>, at: int)
    requires
        is_leaf(pages, page::body(buf), v.meta.root),
        buf.len() == v.meta.size,
        page::valid_page_size(v.meta.size),
        0 <= at < layout::cell_count(buf),
    ensures
        layout::leaf_cell_readable(buf, at, v.meta.size - 43),
        forall|fields: layout::LeafCell|
            ({
                let p = layout::pointer(buf, 5, at);
                &&& fields.key == codec::be_i64(buf, p)
                &&& fields.payload_len == codec::be_u32(buf, p + 8)
                &&& fields.overflow_first == codec::be_u32(buf, p + 12)
                &&& fields.local@ == buf.subrange(
                    p + 16,
                    p + layout::leaf_cell_len(buf, p, v.meta.size - 43),
                )
            }) ==> #[trigger] cell_in(v, pages, buf, at, fields),
        layout::cell_key(layout::leaf_cells(page::body(buf))[at]) == codec::be_i64(
            buf,
            layout::pointer(buf, 5, at),
        ),
{
    let c = page::body(buf);
    let (id, lo, hi) = choose|id: u32, lo: int, hi: int| #[trigger]
        tree::leaf_ok(pages, c, id, lo, hi) && id <= v.meta.root;
    mutate::buffer_header(buf);
    mutate::leaf_buffer_cell(buf, at);
    assert(tree::cell_ok(pages, layout::leaf_cells(c)[at], id as int, btree::usable(v)));
}

/// Beginning with a cell, the payload that is put together is the cell's.
proof fn reading_of_cell(
    v: PoolView,
    pages: Pages,
    buf: Seq<u8>,
    at: int,
    fields: layout::LeafCell,
    r: Reassembly,
)
    requires
        cell_in(v, pages, buf, at, fields),
        page::valid_page_size(v.meta.size),
        r.full@ == fields.local@,
        r.next == fields.overflow_first,
        r.remaining == (if fields.overflow_first != 0 && fields.payload_len > v.meta.size - 43 {
            fields.payload_len - (v.meta.size - 43)
        } else {
            0
        }),
    ensures
        reads(
            r,
            v,
            pages,
            tree::cell_payload(
                pages,
                layout::leaf_cells(page::body(buf))[at],
                btree::usable(v),
            ),
        ),
{
    let cell = layout::leaf_cells(page::body(buf))[at];
    let below = choose|below: int| #[trigger]
        tree::cell_ok(pages, cell, below, btree::usable(v)) && below <= v.meta.root;
    tree::chain_grows(
        pages,
        pages,
        r.next,
        r.remaining as nat,
        below,
        v.meta.root as int,
        cap(v),
    );
}

/// The next entry of a scan is that of the next cell.
proof fn next_entry(s: Scan, v: PoolView, pages: Pages, buf: Vec<u8>, at: usize)
    requires
        valid(v, pages),
        s.follows(v, pages),
        s.leaf == Some((buf, at)),
        at < layout::cell_count(buf@),
        buf@.len() == v.meta.size,
        page::valid_page_size(v.meta.size),
    ensures
        ({
            let es = committed(v, pages);
            let k = s.rows@.len() as int;
            let cells = layout::leaf_cells(page::body(buf@));
            &&& k < es.len()
            &&& es[k] == tree::cell_entry(pages, cells[at as int], btree::usable(v))
            &&& es.skip(k).skip(1) == tree::cell_entries(
                pages,
                cells.skip(at + 1),
                btree::usable(v),
            ) + stack_entries(pages, s.stack@)
        }),
{
    let es = committed(v, pages);
    let k = s.rows@.len() as int;
    mutate::buffer_header(buf@);
    let cells = layout::leaf_cells(page::body(buf@));
    let here = tree::cell_entries(pages, cells.skip(at as int), btree::usable(v));
    let below = stack_entries(pages, s.stack@);
    assert(es.skip(k) == here + below);
    assert(here[0] == tree::cell_entry(pages, cells[at as int], btree::usable(v)));
    assert(es.skip(k).len() == es.len() - k);
    assert(es.skip(k)[0] == es[k]);
    assert(es.skip(k).skip(1) =~= tree::cell_entries(
        pages,
        cells.skip(at + 1),
        btree::usable(v),
    ) + below);
}

} // verus!
