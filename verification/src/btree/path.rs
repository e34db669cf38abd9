//! The path from the root of a tree down to the leaf page that a key belongs
//! to.

use vstd::prelude::*;

use crate::btree::layout;
use crate::btree::layout::interior_find_child_for_key;
use crate::btree::mutate;
use crate::btree::tree;
use crate::btree::tree::Pages;
use crate::codec::read_u8;
use crate::error;
use crate::error::PinaxError;
use crate::page;
use crate::page::{PAGE_TYPE_INTERIOR, PAGE_TYPE_LEAF};
use crate::pager::Pager;

verus! {

/// A page on a path: its id and a copy of its bytes.
pub struct PathNode {
    /// The page's id.
    pub id: u32,
    /// The page's bytes.
    pub buf: Vec<u8>,
}

/// Page ids and page bodies along a path.
pub type Nodes = Seq<(u32, Seq<u8>)>;

/// The page ids and page bodies along a path.
pub open spec fn nodes_of(path: Seq<PathNode>) -> Nodes {
    Seq::new(path.len(), |i: int| (path[i].id, page::body(path[i].buf@)))
}

/// Every page of the path has `size` bytes.
pub open spec fn sized(path: Seq<PathNode>, size: int) -> bool {
    forall|i: int| 0 <= i < path.len() ==> (#[trigger] path[i]).buf@.len() == size
}

/// Page `i` of the path is an interior page, and the page below it is the
/// child that `key` belongs to.
pub open spec fn linked_at(nodes: Nodes, i: int, key: i64) -> bool {
    let c = nodes[i].1;
    &&& c[0] == PAGE_TYPE_INTERIOR
    &&& layout::interior_shape(c) ==> nodes[i + 1].0 == routed(c, key)
}

/// The child of an interior page that `key` belongs to.
pub open spec fn routed(c: Seq<u8>, key: i64) -> u32 {
    layout::interior_children(c)[layout::route(layout::interior_keys(c), key)]
}

/// Each page of the path is the child of the one above that `key` belongs
/// to.
pub open spec fn linked(nodes: Nodes, key: i64) -> bool {
    forall|i: int| 0 <= i < nodes.len() - 1 ==> #[trigger] linked_at(nodes, i, key)
}

/// The path's pages are those of `pages`.
pub open spec fn on_pages(nodes: Nodes, pages: Pages) -> bool {
    forall|i: int|
        0 <= i < nodes.len() ==> pages.contains_key((#[trigger] nodes[i]).0) && pages[nodes[i].0]
            == nodes[i].1
}

/// The least key that page `i` of the path can hold.
pub open spec fn path_lo(nodes: Nodes, i: int, key: i64) -> int
    decreases i,
{
    if i <= 0 {
        tree::key_lo()
    } else {
        let keys = layout::interior_keys(nodes[i - 1].1);
        tree::child_lo(keys, layout::route(keys, key), path_lo(nodes, i - 1, key))
    }
}

/// The bound that the keys of page `i` of the path stay below.
pub open spec fn path_hi(nodes: Nodes, i: int, key: i64) -> int
    decreases i,
{
    if i <= 0 {
        tree::key_hi()
    } else {
        let keys = layout::interior_keys(nodes[i - 1].1);
        tree::child_hi(keys, layout::route(keys, key), path_hi(nodes, i - 1, key))
    }
}

/// The tree below each page of the path is the part of the whole tree that
/// `key` belongs to.
pub proof fn path_node(pages: Pages, nodes: Nodes, key: i64, i: int, usable: int)
    requires
        0 <= i < nodes.len(),
        linked(nodes, key),
        on_pages(nodes, pages),
        tree::node_ok(pages, nodes[0].0, tree::key_lo(), tree::key_hi(), usable),
    ensures
        tree::node_ok(
            pages,
            nodes[i].0,
            path_lo(nodes, i, key),
            path_hi(nodes, i, key),
            usable,
        ),
        path_lo(nodes, i, key) <= key < path_hi(nodes, i, key),
        tree::find(tree::entries(pages, nodes[0].0), key) == tree::find(
            tree::entries(pages, nodes[i].0),
            key,
        ),
        i < nodes.len() - 1 ==> layout::interior_shape(nodes[i].1),
        nodes[i].0 <= nodes[0].0,
    decreases i,
{
    if i > 0 {
        path_node(pages, nodes, key, i - 1, usable);
        assert(linked_at(nodes, i - 1, key));
        assert(pages[nodes[i - 1].0] == nodes[i - 1].1);
        tree::interior_find(
            pages,
            nodes[i - 1].0,
            key,
            path_lo(nodes, i - 1, key),
            path_hi(nodes, i - 1, key),
            usable,
        );
    }
    if i < nodes.len() - 1 {
        assert(linked_at(nodes, i, key));
        assert(pages[nodes[i].0] == nodes[i].1);
        tree::leaf_or_interior(nodes[i].1);
    }
}

/// Where a descent goes from a page.
pub enum Turn {
    /// The page is a leaf page: the descent has arrived.
    Leaf,
    /// On to this child.
    Child(u32),
}

/// Where a descent for `key` goes from page `id`.
pub fn turn_at(id: u32, buf: &[u8], key: i64) -> (r: Result<Turn, PinaxError>)
    requires
        buf@.len() >= page::CHECKSUM_LEN + 9,
    ensures
        match r {
            Ok(Turn::Leaf) => buf@[0] == PAGE_TYPE_LEAF,
            Ok(Turn::Child(child)) => {
                &&& buf@[0] == PAGE_TYPE_INTERIOR
                &&& child == routed(buf@, key)
                &&& layout::interior_shape(page::body(buf@)) ==> child == routed(
                    page::body(buf@),
                    key,
                )
            },
            Err(e) => turn_error(e, id, buf@) && !layout::interior_shape(page::body(buf@)),
        },
        buf@[0] == PAGE_TYPE_INTERIOR ==> match r {
            Ok(_) => layout::leads(buf@, key),
            Err(e) => layout::is_way_error(e, buf@, key),
        },
{
    let page_type: u8 = read_u8(buf, 0)?;
    if page_type == PAGE_TYPE_LEAF {
        return Ok(Turn::Leaf);
    }
    Pager::expect_page_type(id, buf, PAGE_TYPE_INTERIOR, "interior")?;
    proof {
        if layout::interior_shape(page::body(buf@)) {
            mutate::interior_buffer(buf@);
        }
    }
    match interior_find_child_for_key(buf, key) {
        Ok(child) => Ok(Turn::Child(child)),
        Err(e) => Err(e),
    }
}

/// `e` says why no descent goes on from page `id`: it is neither a leaf page
/// nor an interior page, or it is an interior page that ends too early.
pub open spec fn turn_error(e: PinaxError, id: u32, b: Seq<u8>) -> bool {
    if b[0] == PAGE_TYPE_INTERIOR {
        layout::is_entries_error(e, b)
    } else {
        b[0] != PAGE_TYPE_LEAF && error::wrong_type(e, id, "interior"@, b[0])
    }
}

} // verus!
