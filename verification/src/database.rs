//! [`Database`]: one B+tree in one file, keyed by `i64`, storing rows.
//!
//! The database does not touch its file. An operation is called again and
//! again until it is done; what it returns says what to do before the next
//! call:
//!
//! - [`Progress::Continue`]: nothing.
//! - [`Progress::Read`]: read that page from the file and hand it to
//!   [`Database::supply`].
//! - [`Progress::Commit`]: perform the actions, in order, then call
//!   [`Database::commit_done`], or [`Database::commit_failed`] if one of them
//!   failed. The operation is then over.
//! - [`Progress::Done`]: the operation is over.
//!
//! An operation that fails, or that another operation takes the place of, is
//! given up, and leaves the committed tree as it was. A commit that is not
//! answered before the next call counts as failed.

use vstd::prelude::*;

use crate::btree;
use crate::btree::cursor;
use crate::btree::cursor::{Came, Found, Gathered, Lookup, Scan, ScanView, Scanned};
use crate::btree::path;
use crate::btree::tree;
use crate::btree::tree::Pages;
use crate::buffer_pool;
use crate::buffer_pool::{BufferPool, PoolView};
use crate::disk;
use crate::disk::IoAction;
use crate::error;
use crate::error::{FatalError, PermanentError, PinaxError};
use crate::lexis::value::ValueView;
use crate::page;
use crate::page::PageSize;
use crate::pager;
use crate::pager::Pager;
use crate::row;
use crate::row::Row;

verus! {

/// Buffer pool capacity, in pages, of a database that is not given another.
pub const DEFAULT_BUFFER_POOL_CAPACITY: usize = 256;

/// How far an operation has come.
pub enum Progress<T> {
    /// The operation is over.
    Done(T),
    /// Call the operation again.
    Continue,
    /// Supply this page, then call the operation again.
    Read {
        /// The page's id.
        page_id: u32,
        /// Where in the file it stands.
        offset: u64,
        /// How many bytes it has.
        len: usize,
    },
    /// Perform these actions, in order, and say how that went.
    Commit {
        /// What to do to the file.
        actions: Vec<IoAction>,
        /// What the operation returns once they were performed.
        value: T,
    },
}

/// A database: one B+tree, keyed by `i64`, that stores rows.
pub struct Database {
    pool: BufferPool,
    lookup: Option<Lookup>,
    scan: Option<Scan>,
}

/// The commit that is being performed, if there is one, left nothing dirty
/// and has the page count of the pool.
pub open spec fn pending_ok(v: PoolView) -> bool {
    v.pending matches Some(p) ==> {
        &&& p.1 == v.next_id
        &&& v.dirty == Set::<u32>::empty()
        &&& v.meta.txn_id < u64::MAX
    }
}

impl Database {
    /// The buffer pool's state.
    pub closed spec fn pool_view(self) -> PoolView {
        self.pool@
    }

    /// The database is in order.
    pub closed spec fn wf(self) -> bool {
        &&& self.pool.wf()
        &&& pending_ok(self.pool@)
        &&& self.lookup matches Some(l) ==> l.wf(self.pool@)
        &&& self.scan matches Some(s) ==> s.wf(self.pool@)
    }

    /// The database's pages are `pages`: the pool sees them, the committed
    /// tree is one of them, and what an operation in progress has read is
    /// what they hold.
    pub closed spec fn follows(self, pages: Pages) -> bool {
        &&& cursor::valid(self.pool@, pages)
        &&& self.lookup matches Some(l) ==> l.follows(self.pool@, pages)
        &&& self.scan matches Some(s) ==> s.follows(self.pool@, pages)
    }

    /// The entries of the committed tree.
    pub open spec fn entries(self, pages: Pages) -> Seq<tree::Entry> {
        cursor::committed(self.pool_view(), pages)
    }

    /// What `wf` and `follows` say.
    pub proof fn follows_facts(self, pages: Pages)
        ensures
            self.wf() ==> buffer_pool::view_wf(self.pool_view()) && pending_ok(self.pool_view()),
            self.follows(pages) ==> cursor::valid(self.pool_view(), pages),
    {
        if self.wf() {
            self.pool.wf_facts();
        }
    }

    /// A database over `pager`, with room for `capacity` pages in its buffer
    /// pool.
    pub fn with_pager(pager: Pager, capacity: usize) -> (r: Result<Self, PinaxError>)
        requires
            pager.wf(),
        ensures
            match r {
                Ok(db) => {
                    &&& capacity >= 1
                    &&& db.wf()
                    &&& db.pool_view() == buffer_pool::fresh_view(
                        pager@,
                        pager.active(),
                        capacity as nat,
                    )
                    &&& forall|pages: Pages| #[trigger]
                        db.follows(pages) == cursor::valid(db.pool_view(), pages)
                },
                Err(e) => capacity == 0 && e == (PinaxError::Permanent {
                    source: PermanentError::InvalidBufferPoolCapacity,
                }),
            },
    {
        let pool = BufferPool::new(pager, capacity)?;
        Ok(Database { pool, lookup: None, scan: None })
    }

    /// A fresh database, with the default capacity: what to write to its
    /// file, and the database.
    pub fn create(page_size: PageSize) -> (r: Result<
        (Vec<IoAction>, Result<Self, PinaxError>),
        PinaxError,
    >)
        requires
            page_size.wf(),
        ensures
            r matches Ok((actions, made)) && created(
                page_size,
                DEFAULT_BUFFER_POOL_CAPACITY,
                actions@,
                made,
            ),
    {
        Self::create_with_capacity(page_size, DEFAULT_BUFFER_POOL_CAPACITY)
    }

    /// A fresh database: what to write to its file, and the database, or the
    /// error that its capacity is zero.
    pub fn create_with_capacity(page_size: PageSize, capacity: usize) -> (r: Result<
        (Vec<IoAction>, Result<Self, PinaxError>),
        PinaxError,
    >)
        requires
            page_size.wf(),
        ensures
            r matches Ok((actions, made)) && created(page_size, capacity, actions@, made),
    {
        let (pager, actions) = Pager::create(page_size)?;
        Ok((actions, Self::with_pager(pager, capacity)))
    }

    /// Open a database file, with the default capacity.
    pub fn open(actual_len: u64, slot_a: &[u8], slot_b: &[u8]) -> (r: Result<Self, PinaxError>)
        ensures
            opened(actual_len, slot_a@, slot_b@, DEFAULT_BUFFER_POOL_CAPACITY, r),
    {
        Self::open_with_capacity(actual_len, slot_a, slot_b, DEFAULT_BUFFER_POOL_CAPACITY)
    }

    /// Open a database file of `actual_len` bytes with these two meta slots.
    pub fn open_with_capacity(
        actual_len: u64,
        slot_a: &[u8],
        slot_b: &[u8],
        capacity: usize,
    ) -> (r: Result<Self, PinaxError>)
        ensures
            opened(actual_len, slot_a@, slot_b@, capacity, r),
    {
        let pager = Pager::open(actual_len, slot_a, slot_b)?;
        Self::with_pager(pager, capacity)
    }

    /// The committed tree, and what is known of it, stay what they were,
    /// while pages may have been put.
    pub open spec fn keeps(self, before: Self, pages: Pages) -> bool {
        let all = buffer_pool::with_log(pages, self.pool_view());
        &&& self.follows(all)
        &&& tree::extends(all, pages)
        &&& self.entries(all) == before.entries(pages)
    }

    /// The page that an operation asks for is not cached, and stands where
    /// the operation says.
    pub open spec fn asks_for<T>(self, p: Progress<T>) -> bool {
        p matches Progress::Read { page_id, offset, len } ==> {
            &&& !self.pool_view().cache.contains_key(page_id)
            &&& offset == disk::page_offset(page_id, self.pool_view().meta.size)
            &&& len == self.pool_view().meta.size
        }
    }

    /// How far an operation on `key` is from its end.
    pub closed spec fn left(self, key: i64) -> cursor::Left {
        if self.lookup is Some && self.lookup->0.descent.key == key {
            self.lookup->0.left()
        } else {
            cursor::lookup_ahead(self.pool@)
        }
    }

    /// The page that an operation on `key` needs next.
    pub closed spec fn wants(self, key: i64) -> Option<u32> {
        if self.lookup is Some && self.lookup->0.descent.key == key {
            self.lookup->0.wants()
        } else {
            cursor::first_page(self.pool@)
        }
    }

    /// Whether that page is one of an overflow chain.
    pub closed spec fn in_chain(self, key: i64) -> bool {
        &&& self.lookup is Some
        &&& self.lookup->0.descent.key == key
        &&& self.lookup->0.descent.arrived
    }

    /// The leaf page that an operation on `key` searches next, if it does.
    pub closed spec fn leaf_page(self, key: i64) -> Option<Seq<u8>> {
        if self.lookup is Some && self.lookup->0.descent.key == key {
            self.lookup->0.leaf_page()
        } else {
            None
        }
    }

    /// What an operation on `key` has of the payload, once its cell was found.
    pub closed spec fn payload(self, key: i64) -> Option<Gathered> {
        if self.lookup is Some && self.lookup->0.descent.key == key {
            self.lookup->0.payload()
        } else {
            None
        }
    }

    /// What the cell with the key on the leaf page with these bytes keeps of
    /// its payload.
    pub open spec fn gives(self, key: i64, b: Seq<u8>) -> Option<Gathered> {
        cursor::leaf_gives(b, cursor::kept(self.pool_view()), key)
    }

    /// What there is of a payload after page `id`, as it is cached.
    pub open spec fn goes_through(self, g: Gathered, id: u32) -> Gathered {
        cursor::gathered_on(g, self.pool_view().cache[id], cursor::cap(self.pool_view()))
    }

    /// Page `id` is cached, and has this type byte.
    pub open spec fn has(self, id: u32, byte: u8) -> bool {
        self.pool_view().cache.contains_key(id) && self.pool_view().cache[id][0] == byte
    }

    /// Where a scan stands.
    pub closed spec fn scan_state(self) -> ScanView {
        match self.scan {
            Some(s) => s.state(),
            None => cursor::scan_start(self.pool@),
        }
    }

    /// How far a scan is from its end.
    pub closed spec fn scan_left(self, pages: Pages) -> cursor::Left {
        match self.scan {
            Some(s) => s.left(self.pool@, pages),
            None => cursor::scan_ahead(self.pool@, pages),
        }
    }

    /// The page that a scan needs next.
    pub closed spec fn scan_wants(self) -> Option<u32> {
        match self.scan {
            Some(s) => s.wants(),
            None => cursor::first_page(self.pool@),
        }
    }

    /// Whether that page is one of an overflow chain.
    pub closed spec fn scan_in_chain(self) -> bool {
        self.scan matches Some(s) && s.reading is Some
    }

    /// An operation on `key` that is not over has come nearer to its end, or
    /// asks for the page that it needs next.
    pub open spec fn goes_on<T>(self, before: Self, key: i64, p: Progress<T>) -> bool {
        match p {
            Progress::Continue => cursor::nearer(self.left(key), before.left(key)),
            Progress::Read { page_id, .. } => {
                &&& self.left(key) == before.left(key)
                &&& before.wants(key) == Some(page_id)
                &&& self.wants(key) == Some(page_id)
            },
            _ => true,
        }
    }

    /// A scan that is not over has come nearer to its end, or asks for the
    /// page that it needs next.
    pub open spec fn scans_on<T>(self, before: Self, pages: Pages, p: Progress<T>) -> bool {
        match p {
            Progress::Continue => cursor::nearer(self.scan_left(pages), before.scan_left(pages)),
            Progress::Read { page_id, .. } => {
                &&& self.scan_left(pages) == before.scan_left(pages)
                &&& before.scan_wants() == Some(page_id)
                &&& self.scan_wants() == Some(page_id)
            },
            _ => true,
        }
    }

    fn wait<T>(&self, missing: Option<u32>) -> (p: Progress<T>)
        requires
            self.wf(),
            missing matches Some(id) ==> !self.pool_view().cache.contains_key(id),
        ensures
            match missing {
                Some(id) => p matches Progress::Read { page_id, .. } && page_id == id,
                None => p is Continue,
            },
            self.asks_for(p),
    {
        match missing {
            None => Progress::Continue,
            Some(page_id) => Progress::Read {
                page_id,
                offset: self.pool.file_offset(page_id),
                len: self.pool.page_size().bytes_usize(),
            },
        }
    }

    /// Make ready for an operation on `key`: go on with the lookup in
    /// progress if it is for that key, else begin one.
    fn begin(&mut self, key: i64) -> (lookup: Lookup)
        requires
            old(self).wf(),
        ensures
            final(self).wf(),
            final(self).pool@ == buffer_pool::settled(old(self).pool@),
            final(self).lookup is None,
            lookup.wf(final(self).pool@),
            lookup.descent.key == key,
            lookup.left() == old(self).left(key),
            lookup.wants() == old(self).wants(key),
            lookup.wants() is Some ==> lookup.descent.arrived == old(self).in_chain(key),
            old(self).in_chain(key) ==> lookup.descent.arrived,
            lookup.leaf_page() == old(self).leaf_page(key),
            lookup.payload() == old(self).payload(key),
            lookup.descent.arrived ==> lookup.wants() is None || lookup.payload() is Some,
            !lookup.descent.arrived ==> lookup.wants() == Some(lookup.descent.next)
                && lookup.leaf_page() is None && lookup.payload() is None,
            forall|pages: Pages| #[trigger]
                old(self).follows(pages) ==> final(self).follows(pages) && lookup.follows(
                    final(self).pool@,
                    pages,
                ),
    {
        let ghost before = *self;
        proof {
            before.pool.put_facts();
        }
        self.pool.commit_failed(0);
        proof {
            assert forall|pages: Pages| #[trigger] before.follows(pages) implies cursor::valid(
                self.pool@,
                pages,
            ) && cursor::committed(self.pool@, pages) == cursor::committed(before.pool@, pages) by {
                alike_facts(before.pool@, self.pool@, pages);
            }
        }
        match self.lookup.take() {
            Some(lookup) => {
                if lookup.descent.key == key {
                    return lookup;
                }
            },
            None => {},
        }
        Lookup::begin(&self.pool, key)
    }

    /// Take one page further down.
    fn descend<T>(&mut self, lookup: Lookup) -> (r: Result<Progress<T>, PinaxError>)
        requires
            old(self).wf(),
            old(self).lookup is None,
            old(self).pool@.pending is None,
            lookup.wf(old(self).pool@),
            !lookup.descent.arrived,
        ensures
            final(self).wf(),
            cursor::looked(old(self).pool@, final(self).pool@),
            final(self).pool@ == cursor::used(old(self).pool@, lookup.wants()),
            match r {
                Ok(p) => (p is Continue || p is Read) && final(self).asks_for(p),
                Err(e) => e is Fatal,
            },
            cursor::reports_type(old(self).pool@, lookup.wants(), false, r),
            cursor::reports_way(old(self).pool@, lookup.wants(), false, lookup.descent.key, r),
            old(self).has(lookup.descent.next, page::PAGE_TYPE_LEAF) ==> {
                &&& r matches Ok(Progress::Continue)
                &&& final(self).leaf_page(lookup.descent.key) == Some(
                    old(self).pool_view().cache[lookup.descent.next],
                )
            },
            forall|pages: Pages| #[trigger]
                old(self).follows(pages) && lookup.follows(old(self).pool@, pages) ==> match r {
                    Ok(Progress::Read { page_id, .. }) => {
                        &&& reads_committed(old(self).pool@, pages, page_id)
                        &&& final(self).follows(pages)
                        &&& final(self).left(lookup.descent.key) == lookup.left()
                        &&& final(self).wants(lookup.descent.key) == Some(page_id)
                        &&& lookup.wants() == Some(page_id)
                    },
                    Ok(_) => final(self).follows(pages) && cursor::nearer(
                        final(self).left(lookup.descent.key),
                        lookup.left(),
                    ),
                    Err(_) => false,
                },
    {
        let ghost before = *self;
        proof {
            before.pool.put_facts();
        }
        let ghost held = lookup;
        let mut lookup = lookup;
        let step = lookup.descent.step(&mut self.pool);
        proof {
            assert forall|pages: Pages| #[trigger]
                before.follows(pages) implies cursor::valid(self.pool@, pages)
                && cursor::committed(self.pool@, pages) == cursor::committed(
                before.pool@,
                pages,
            ) by {
                alike_facts(before.pool@, self.pool@, pages);
            }
        }
        let missing = step?;
        lookup.reading = None;
        self.lookup = Some(lookup);
        Ok(self.wait(missing))
    }

    /// Take the bytes that the file has for page `page_id`.
    pub fn supply(&mut self, page_id: u32, bytes: Vec<u8>) -> (r: Result<(), PinaxError>)
        requires
            old(self).wf(),
            bytes@.len() == old(self).pool_view().meta.size,
        ensures
            final(self).wf(),
            match r {
                Ok(()) => if old(self).pool_view().cache.contains_key(page_id) {
                    final(self).pool_view() == old(self).pool_view()
                } else {
                    &&& page::checksum_ok(bytes@)
                    &&& final(self).pool_view() == buffer_pool::with_page(
                        old(self).pool_view(),
                        page_id,
                        bytes@,
                    )
                },
                Err(e) => {
                    &&& final(self).pool_view() == old(self).pool_view()
                    &&& !old(self).pool_view().cache.contains_key(page_id)
                    &&& !page::checksum_ok(bytes@)
                    &&& e == (PinaxError::Fatal {
                        source: FatalError::Corruption {
                            page_id,
                            expected: page::stored_checksum(bytes@),
                            actual: page::checksum_of(bytes@),
                        },
                    })
                },
            },
            forall|pages: Pages| #[trigger]
                old(self).follows(pages) && pages.contains_key(page_id) && pages[page_id]
                    == page::body(bytes@) ==> final(self).follows(pages) && final(self).entries(
                    pages,
                ) == old(self).entries(pages),
            forall|key: i64| #[trigger] final(self).left(key) == old(self).left(key),
            forall|key: i64| #[trigger] final(self).wants(key) == old(self).wants(key),
            forall|key: i64| #[trigger] final(self).in_chain(key) == old(self).in_chain(key),
            forall|key: i64| #[trigger] final(self).leaf_page(key) == old(self).leaf_page(key),
            forall|key: i64| #[trigger] final(self).payload(key) == old(self).payload(key),
            forall|pages: Pages| #[trigger]
                final(self).scan_left(pages) == old(self).scan_left(pages),
            final(self).scan_wants() == old(self).scan_wants(),
            final(self).scan_in_chain() == old(self).scan_in_chain(),
            final(self).scan_state() == old(self).scan_state(),
    {
        let ghost before = *self;
        proof {
            before.pool.put_facts();
        }
        let ghost data = bytes@;
        let r = self.pool.supply(page_id, bytes);
        proof {
            before.pool.put_facts();
            assert forall|pages: Pages| #[trigger]
                before.follows(pages) && pages.contains_key(page_id) && pages[page_id]
                    == page::body(data) implies self.follows(pages) by {
                if self.pool@ != before.pool@ {
                    supplied(before.pool@, page_id, data, pages);
                }
            }
            if before.pool@.pending is Some {
                assert(self.pool@.dirty =~= Set::<u32>::empty());
            }
        }
        r
    }

    /// Insert `row` under `key`.
    pub fn insert(&mut self, key: i64, row: &Row) -> (r: Result<Progress<()>, PinaxError>)
        requires
            old(self).wf(),
        ensures
            final(self).wf(),
            stepped(old(self).pool_view(), final(self).pool_view(), r),
            r matches Ok(p) && (p is Continue || p is Read) ==> final(self).pool_view()
                == cursor::used(
                buffer_pool::settled(old(self).pool_view()),
                old(self).wants(key),
            ),
            !(r matches Ok(Progress::Done(_))),
            r matches Err(e) ==> btree::store_fails(e, key, row@) || e == btree::key_exists(key)
                || error::is_wrong_type(e),
            cursor::reports_type(
                buffer_pool::settled(old(self).pool_view()),
                if old(self).in_chain(key) {
                    None
                } else {
                    old(self).wants(key)
                },
                false,
                r,
            ),
            cursor::reports_way(
                buffer_pool::settled(old(self).pool_view()),
                old(self).wants(key),
                old(self).in_chain(key),
                key,
                r,
            ),
            old(self).leaf_page(key) matches Some(b) ==> btree::insert_found(b, key, r),
            old(self).leaf_page(key) is None && old(self).payload(key) is None ==> match old(
                self,
            ).wants(key) {
                None => r matches Err(e) ==> e != btree::key_exists(key),
                Some(id) => old(self).has(id, page::PAGE_TYPE_LEAF) ==> {
                    &&& r matches Ok(Progress::Continue)
                    &&& final(self).leaf_page(key) == Some(old(self).pool_view().cache[id])
                },
            },
            r matches Ok(p) ==> final(self).asks_for(p),
            forall|pages: Pages| #[trigger]
                old(self).follows(pages) ==> final(self).keeps(*old(self), pages)
                    && insert_outcome(
                    old(self).pool_view(),
                    final(self).pool_view(),
                    pages,
                    key,
                    row@,
                    r,
                ) && (r matches Ok(p) ==> final(self).goes_on(*old(self), key, p)),
    {
        let ghost before = *self;
        proof {
            before.pool.put_facts();
        }
        let lookup = self.begin(key);
        let ghost v = self.pool@;
        proof {
            alike_all(before, v);
        }
        if !lookup.descent.arrived {
            let r = self.descend(lookup);
            proof {
                looked_all(before, *self);
            }
            return r;
        }
        let r = self.insert_arrived(lookup, key, row);
        proof {
            assert forall|pages: Pages| #[trigger] before.follows(pages) implies self.keeps(
                before,
                pages,
            ) && insert_outcome(before.pool@, self.pool@, pages, key, row@, r) by {
                alike_facts(before.pool@, v, pages);
                insert_outcome_alike(before.pool@, v, self.pool@, pages, key, row@, r);
            }
        }
        r
    }

    /// Hand out the commit of `root`.
    fn hand_out(
        &mut self,
        root: u32,
        Ghost(before): Ghost<Self>,
        Ghost(nodes): Ghost<path::Nodes>,
    ) -> (actions: Vec<IoAction>)
        requires
            old(self).pool.wf(),
            btree::sees_on(before.pool@, old(self).pool@, nodes),
            old(self).lookup is None,
            old(self).scan is None,
            before.pool@.pending is None,
            btree::commits(before.pool@, old(self).pool@, root),
        ensures
            final(self).wf(),
            hands_out(before.pool@, final(self).pool@, actions@, root),
            final(self).pool@.pending == Some((root, final(self).pool@.next_id)),
            final(self).pool@.log == old(self).pool@.log,
            final(self).pool@.next_id == old(self).pool@.next_id,
            final(self).pool@.meta == before.pool@.meta,
            forall|pages: Pages| #[trigger]
                before.follows(pages) && path::on_pages(nodes, pages) ==> final(self).keeps(
                    before,
                    pages,
                ),
    {
        let ghost w = self.pool@;
        let actions = self.pool.take_outbox();
        proof {
            btree::commits_facts(before.pool@, w, root);
            commit_all(before, before.pool@, w, root, *self, actions@, nodes);
        }
        actions
    }

    /// Insert `row` under `key`, whose leaf page was reached.
    fn insert_arrived(&mut self, lookup: Lookup, key: i64, row: &Row) -> (r: Result<
        Progress<()>,
        PinaxError,
    >)
        requires
            old(self).wf(),
            old(self).lookup is None,
            old(self).pool@.pending is None,
            lookup.wf(old(self).pool@),
            lookup.descent.arrived,
            lookup.descent.key == key,
        ensures
            final(self).wf(),
            lookup.leaf_page() matches Some(b) ==> btree::insert_found(b, key, r),
            lookup.descent.path@.len() == 0 ==> (r matches Err(e) ==> e != btree::key_exists(key)),
            stepped(old(self).pool@, final(self).pool@, r),
            r is Err || r matches Ok(Progress::Commit { .. }),
            r matches Err(e) ==> btree::store_fails(e, key, row@) || e == btree::key_exists(key),
            forall|pages: Pages| #[trigger]
                old(self).follows(pages) && lookup.follows(old(self).pool@, pages) ==> final(
                    self).keeps(*old(self), pages) && insert_outcome(
                    old(self).pool@,
                    final(self).pool@,
                    pages,
                    key,
                    row@,
                    r,
                ),
    {
        let ghost before = *self;
        let ghost v = self.pool@;
        self.scan = None;
        let ghost nodes = lookup.descent.nodes();
        let done = btree::insert(&mut self.pool, &lookup.descent.path, key, row);
        let ghost w = self.pool@;
        proof {
            arrived_in(before, lookup);
        }
        let r = self.finish(done, (), Ghost(before), Ghost(nodes));
        proof {
            assert forall|pages: Pages| #[trigger]
                before.follows(pages) && lookup.follows(v, pages) implies insert_outcome(
                v,
                self.pool@,
                pages,
                key,
                row@,
                r,
            ) by {
                inserted(v, w, self.pool@, nodes, pages, key, row@, done, r);
            }
        }
        r
    }

    /// Replace the row under `key`.
    pub fn update(&mut self, key: i64, row: &Row) -> (r: Result<Progress<()>, PinaxError>)
        requires
            old(self).wf(),
        ensures
            final(self).wf(),
            stepped(old(self).pool_view(), final(self).pool_view(), r),
            r matches Ok(p) && (p is Continue || p is Read) ==> final(self).pool_view()
                == cursor::used(
                buffer_pool::settled(old(self).pool_view()),
                old(self).wants(key),
            ),
            !(r matches Ok(Progress::Done(_))),
            r matches Err(e) ==> btree::store_fails(e, key, row@) || e == btree::key_not_found(key)
                || error::is_wrong_type(e),
            cursor::reports_type(
                buffer_pool::settled(old(self).pool_view()),
                if old(self).in_chain(key) {
                    None
                } else {
                    old(self).wants(key)
                },
                false,
                r,
            ),
            cursor::reports_way(
                buffer_pool::settled(old(self).pool_view()),
                old(self).wants(key),
                old(self).in_chain(key),
                key,
                r,
            ),
            old(self).leaf_page(key) matches Some(b) ==> btree::update_found(b, key, r),
            old(self).leaf_page(key) is None && old(self).payload(key) is None ==> match old(
                self,
            ).wants(key) {
                None => r matches Err(e) && e == btree::key_not_found(key),
                Some(id) => old(self).has(id, page::PAGE_TYPE_LEAF) ==> {
                    &&& r matches Ok(Progress::Continue)
                    &&& final(self).leaf_page(key) == Some(old(self).pool_view().cache[id])
                },
            },
            r matches Ok(p) ==> final(self).asks_for(p),
            forall|pages: Pages| #[trigger]
                old(self).follows(pages) ==> final(self).keeps(*old(self), pages)
                    && update_outcome(
                    old(self).pool_view(),
                    final(self).pool_view(),
                    pages,
                    key,
                    row@,
                    r,
                ) && (r matches Ok(p) ==> final(self).goes_on(*old(self), key, p)),
    {
        let ghost before = *self;
        proof {
            before.pool.put_facts();
        }
        let lookup = self.begin(key);
        let ghost v = self.pool@;
        proof {
            alike_all(before, v);
        }
        if !lookup.descent.arrived {
            let r = self.descend(lookup);
            proof {
                looked_all(before, *self);
            }
            return r;
        }
        let r = self.update_arrived(lookup, key, row);
        proof {
            assert forall|pages: Pages| #[trigger] before.follows(pages) implies self.keeps(
                before,
                pages,
            ) && update_outcome(before.pool@, self.pool@, pages, key, row@, r) by {
                alike_facts(before.pool@, v, pages);
                update_outcome_alike(before.pool@, v, self.pool@, pages, key, row@, r);
            }
        }
        r
    }

    /// Replace the row under `key`, whose leaf page was reached.
    fn update_arrived(&mut self, lookup: Lookup, key: i64, row: &Row) -> (r: Result<
        Progress<()>,
        PinaxError,
    >)
        requires
            old(self).wf(),
            old(self).lookup is None,
            old(self).pool@.pending is None,
            lookup.wf(old(self).pool@),
            lookup.descent.arrived,
            lookup.descent.key == key,
        ensures
            final(self).wf(),
            lookup.leaf_page() matches Some(b) ==> btree::update_found(b, key, r),
            lookup.descent.path@.len() == 0 ==> (r matches Err(e) && e == btree::key_not_found(key)),
            stepped(old(self).pool@, final(self).pool@, r),
            r is Err || r matches Ok(Progress::Commit { .. }),
            r matches Err(e) ==> btree::store_fails(e, key, row@) || e == btree::key_not_found(key),
            forall|pages: Pages| #[trigger]
                old(self).follows(pages) && lookup.follows(old(self).pool@, pages) ==> final(
                    self).keeps(*old(self), pages) && update_outcome(
                    old(self).pool@,
                    final(self).pool@,
                    pages,
                    key,
                    row@,
                    r,
                ),
    {
        let ghost before = *self;
        let ghost v = self.pool@;
        self.scan = None;
        let ghost nodes = lookup.descent.nodes();
        let done = btree::update(&mut self.pool, &lookup.descent.path, key, row);
        let ghost w = self.pool@;
        proof {
            arrived_in(before, lookup);
        }
        let r = self.finish(done, (), Ghost(before), Ghost(nodes));
        proof {
            assert forall|pages: Pages| #[trigger]
                before.follows(pages) && lookup.follows(v, pages) implies update_outcome(
                v,
                self.pool@,
                pages,
                key,
                row@,
                r,
            ) by {
                updated(v, w, self.pool@, nodes, pages, key, row@, done, r);
            }
        }
        r
    }

    /// The row under `key`, or `None` if there is none.
    pub fn get(&mut self, key: i64) -> (r: Result<Progress<Option<Row>>, PinaxError>)
        requires
            old(self).wf(),
        ensures
            final(self).wf(),
            cursor::looked(
                buffer_pool::settled(old(self).pool_view()),
                final(self).pool_view(),
            ),
            final(self).pool_view() == cursor::used(
                buffer_pool::settled(old(self).pool_view()),
                old(self).wants(key),
            ),
            !(r matches Ok(Progress::Commit { .. })),
            r matches Err(e) ==> e is Fatal,
            cursor::reports_type(
                buffer_pool::settled(old(self).pool_view()),
                old(self).wants(key),
                old(self).in_chain(key),
                r,
            ),
            cursor::reports_way(
                buffer_pool::settled(old(self).pool_view()),
                old(self).wants(key),
                old(self).in_chain(key),
                key,
                r,
            ),
            old(self).leaf_page(key) matches Some(b) ==> match r {
                Ok(Progress::Done(None)) => cursor::leaf_lacks(b, key),
                Ok(Progress::Continue) => {
                    &&& old(self).gives(key, b) is Some
                    &&& final(self).payload(key) == old(self).gives(key, b)
                },
                Ok(_) => false,
                Err(e) => cursor::is_leaf_fault(e, b, cursor::kept(old(self).pool_view()), key),
            },
            old(self).payload(key) matches Some(g) ==> match cursor::needed(g) {
                None => match r {
                    Ok(Progress::Done(Some(row))) => row::parse_row(g.full) == Ok::<
                        _,
                        row::Fault,
                    >(row@),
                    Ok(_) => false,
                    Err(e) => row::parse_row(g.full) is Err && row::reports(
                        e,
                        row::parse_row(g.full)->Err_0,
                    ),
                },
                Some(id) => old(self).has(id, page::PAGE_TYPE_OVERFLOW) ==> {
                    &&& r matches Ok(Progress::Continue)
                    &&& final(self).payload(key) == Some(old(self).goes_through(g, id))
                },
            },
            old(self).leaf_page(key) is None && old(self).payload(key) is None ==> match old(
                self,
            ).wants(key) {
                None => r matches Ok(Progress::Done(None)),
                Some(id) => old(self).has(id, page::PAGE_TYPE_LEAF) ==> {
                    &&& r matches Ok(Progress::Continue)
                    &&& final(self).leaf_page(key) == Some(old(self).pool_view().cache[id])
                },
            },
            r matches Ok(p) ==> final(self).asks_for(p),
            forall|pages: Pages| #[trigger]
                old(self).follows(pages) ==> final(self).keeps(*old(self), pages) && get_outcome(
                    old(self).pool_view(),
                    pages,
                    key,
                    r,
                ) && (r matches Ok(p) ==> final(self).goes_on(*old(self), key, p)),
    {
        let ghost before = *self;
        proof {
            before.pool.put_facts();
        }
        let mut lookup = self.begin(key);
        let ghost v = self.pool@;
        let ghost held = lookup;
        let step = lookup.step(&mut self.pool);
        proof {
            assert forall|pages: Pages| #[trigger] before.follows(pages) implies cursor::valid(
                self.pool@,
                pages,
            ) && cursor::committed(self.pool@, pages) == before.entries(pages)
                && Lookup::outcome(key, before.pool@, pages, step) by {
                alike_facts(before.pool@, v, pages);
                alike_facts(before.pool@, self.pool@, pages);
                assert(held.follows(v, pages));
                assert(cursor::valid(v, pages));
            }
        }
        let r = match step {
            Ok(Found::Wait(missing)) => {
                self.lookup = Some(lookup);
                Ok(self.wait(missing))
            },
            Ok(Found::Absent) => Ok(Progress::Done(None)),
            Ok(Found::Row(row)) => Ok(Progress::Done(Some(row))),
            Err(e) => Err(e),
        };
        proof {
            looked_all(before, *self);
        }
        r
    }

    /// Remove the row under `key`, and return it.
    pub fn delete(&mut self, key: i64) -> (r: Result<Progress<Row>, PinaxError>)
        requires
            old(self).wf(),
        ensures
            final(self).wf(),
            stepped(old(self).pool_view(), final(self).pool_view(), r),
            r matches Ok(p) && (p is Continue || p is Read) ==> final(self).pool_view()
                == cursor::used(
                buffer_pool::settled(old(self).pool_view()),
                old(self).wants(key),
            ),
            !(r matches Ok(Progress::Done(_))),
            r matches Err(e) ==> e is Fatal || e == btree::key_not_found(key),
            cursor::reports_type(
                buffer_pool::settled(old(self).pool_view()),
                old(self).wants(key),
                old(self).in_chain(key),
                r,
            ),
            cursor::reports_way(
                buffer_pool::settled(old(self).pool_view()),
                old(self).wants(key),
                old(self).in_chain(key),
                key,
                r,
            ),
            old(self).leaf_page(key) matches Some(b) ==> match r {
                Ok(Progress::Continue) => {
                    &&& old(self).gives(key, b) is Some
                    &&& final(self).payload(key) == old(self).gives(key, b)
                },
                Ok(_) => false,
                Err(e) => if cursor::leaf_lacks(b, key) {
                    e == btree::key_not_found(key)
                } else {
                    cursor::is_leaf_fault(e, b, cursor::kept(old(self).pool_view()), key)
                },
            },
            old(self).payload(key) matches Some(g) ==> match cursor::needed(g) {
                None => match row::parse_row(g.full) {
                    Ok(vs) => r matches Ok(p) ==> (p matches Progress::Commit { value, .. }
                        && value@ == vs),
                    Err(f) => r matches Err(e) && row::reports(e, f),
                },
                Some(id) => old(self).has(id, page::PAGE_TYPE_OVERFLOW) ==> {
                    &&& r matches Ok(Progress::Continue)
                    &&& final(self).payload(key) == Some(old(self).goes_through(g, id))
                },
            },
            old(self).leaf_page(key) is None && old(self).payload(key) is None ==> match old(
                self,
            ).wants(key) {
                None => r matches Err(e) && e == btree::key_not_found(key),
                Some(id) => old(self).has(id, page::PAGE_TYPE_LEAF) ==> {
                    &&& r matches Ok(Progress::Continue)
                    &&& final(self).leaf_page(key) == Some(old(self).pool_view().cache[id])
                },
            },
            r matches Ok(p) ==> final(self).asks_for(p),
            forall|pages: Pages| #[trigger]
                old(self).follows(pages) ==> final(self).keeps(*old(self), pages)
                    && delete_outcome(
                    old(self).pool_view(),
                    final(self).pool_view(),
                    pages,
                    key,
                    r,
                ) && (r matches Ok(p) ==> final(self).goes_on(*old(self), key, p)),
    {
        let ghost before = *self;
        proof {
            before.pool.put_facts();
        }
        let mut lookup = self.begin(key);
        let ghost v = self.pool@;
        let ghost held = lookup;
        let step = lookup.step(&mut self.pool);
        proof {
            assert forall|pages: Pages| #[trigger] before.follows(pages) implies cursor::valid(
                self.pool@,
                pages,
            ) && cursor::committed(self.pool@, pages) == before.entries(pages)
                && Lookup::outcome(key, before.pool@, pages, step) && (step is Ok
                ==> lookup.follows(self.pool@, pages)) by {
                alike_facts(before.pool@, v, pages);
                alike_facts(before.pool@, self.pool@, pages);
                assert(held.follows(v, pages));
                assert(cursor::valid(v, pages));
            }
            looked_all(before, *self);
        }
        match step {
            Ok(Found::Wait(missing)) => {
                self.lookup = Some(lookup);
                proof {
                    looked_all(before, *self);
                }
                Ok(self.wait(missing))
            },
            Ok(Found::Absent) => {
                Err(PinaxError::Permanent { source: PermanentError::KeyNotFound { key } })
            },
            Ok(Found::Row(row)) => {
                let ghost x = self.pool@;
                let ghost middle = *self;
                let r = self.delete_found(lookup, key, row);
                proof {
                    assert forall|pages: Pages| #[trigger] before.follows(pages) implies self.keeps(
                        before,
                        pages,
                    ) && delete_outcome(before.pool@, self.pool@, pages, key, r) by {
                        alike_facts(before.pool@, x, pages);
                        assert(middle.follows(pages));
                        delete_outcome_alike(before.pool@, x, self.pool@, pages, key, row@, r);
                    }
                    delete_stepped(before.pool@, x, self.pool@, r);
                }
                r
            },
            Err(e) => Err(e),
        }
    }

    /// Remove `row`, which was found under `key`.
    fn delete_found(&mut self, lookup: Lookup, key: i64, row: Row) -> (r: Result<
        Progress<Row>,
        PinaxError,
    >)
        requires
            old(self).wf(),
            old(self).lookup is None,
            old(self).pool@.pending is None,
            lookup.wf(old(self).pool@),
            lookup.descent.arrived,
            lookup.descent.key == key,
        ensures
            final(self).wf(),
            stepped(old(self).pool@, final(self).pool@, r),
            r is Err || r matches Ok(Progress::Commit { .. }),
            r matches Ok(Progress::Commit { value, .. }) ==> value == row,
            r matches Err(e) ==> e is Fatal && !error::is_wrong_type(e) || e
                == btree::key_not_found(key),
            forall|pages: Pages| #[trigger]
                old(self).follows(pages) && lookup.follows(old(self).pool@, pages) ==> final(
                    self).keeps(*old(self), pages) && removal_outcome(
                    old(self).pool@,
                    final(self).pool@,
                    pages,
                    key,
                    row@,
                    r,
                ),
    {
        let ghost before = *self;
        let ghost v = self.pool@;
        let ghost vs = row@;
        self.scan = None;
        let ghost nodes = lookup.descent.nodes();
        let done = btree::delete(&mut self.pool, &lookup.descent.path, key);
        let ghost w = self.pool@;
        proof {
            arrived_in(before, lookup);
        }
        let r = self.finish(done, row, Ghost(before), Ghost(nodes));
        proof {
            assert forall|pages: Pages| #[trigger]
                before.follows(pages) && lookup.follows(v, pages) implies removal_outcome(
                v,
                self.pool@,
                pages,
                key,
                vs,
                r,
            ) by {
                removed(v, w, self.pool@, nodes, pages, key, vs, done, r);
            }
        }
        r
    }

    /// All rows with their keys, in ascending key order.
    pub fn scan(&mut self) -> (r: Result<Progress<Vec<(i64, Row)>>, PinaxError>)
        requires
            old(self).wf(),
        ensures
            final(self).wf(),
            cursor::looked(
                buffer_pool::settled(old(self).pool_view()),
                final(self).pool_view(),
            ),
            final(self).pool_view() == cursor::used(
                buffer_pool::settled(old(self).pool_view()),
                old(self).scan_wants(),
            ),
            !(r matches Ok(Progress::Commit { .. })),
            r matches Err(e) ==> e is Fatal,
            cursor::reports_type(
                buffer_pool::settled(old(self).pool_view()),
                old(self).scan_wants(),
                old(self).scan_in_chain(),
                r,
            ),
            cursor::reports_entries(
                buffer_pool::settled(old(self).pool_view()),
                old(self).scan_wants(),
                old(self).scan_in_chain(),
                r,
            ),
            cursor::scan_steps(
                old(self).scan_state(),
                buffer_pool::settled(old(self).pool_view()),
                final(self).scan_state(),
                scan_came(r),
            ),
            r matches Ok(Progress::Done(rows)) ==> cursor::row_views(rows@)
                == old(self).scan_state().rows,
            r matches Ok(p) ==> final(self).asks_for(p),
            forall|pages: Pages| #[trigger]
                old(self).follows(pages) ==> final(self).keeps(*old(self), pages) && scan_outcome(
                    old(self).pool_view(),
                    pages,
                    r,
                ) && (r matches Ok(p) ==> final(self).scans_on(*old(self), pages, p)),
    {
        let ghost before = *self;
        proof {
            before.pool.put_facts();
        }
        self.pool.commit_failed(0);
        let ghost v = self.pool@;
        proof {
            alike_all(before, v);
        }
        let mut scan = match self.scan.take() {
            Some(scan) => scan,
            None => Scan::begin(&self.pool),
        };
        let ghost held = scan;
        let step = scan.step(&mut self.pool);
        proof {
            assert forall|pages: Pages| #[trigger] before.follows(pages) implies cursor::valid(
                self.pool@,
                pages,
            ) && cursor::committed(self.pool@, pages) == before.entries(pages) && Scan::outcome(
                before.pool@,
                pages,
                step,
            ) && (step matches Ok(Scanned::Wait(_)) ==> scan.follows(self.pool@, pages)) by {
                alike_facts(before.pool@, v, pages);
                alike_facts(before.pool@, self.pool@, pages);
                assert(held.follows(v, pages));
                assert(cursor::valid(v, pages));
            }
        }
        let r = match step {
            Ok(Scanned::Wait(missing)) => {
                self.scan = Some(scan);
                Ok(self.wait(missing))
            },
            Ok(Scanned::Rows(rows)) => Ok(Progress::Done(rows)),
            Err(e) => Err(e),
        };
        proof {
            looked_all(before, *self);
        }
        r
    }

    /// The actions of the commit that was handed out were performed: its
    /// tree is the committed one. Without one, do nothing.
    pub fn commit_done(&mut self)
        requires
            old(self).wf(),
        ensures
            final(self).wf(),
            final(self).pool_view() == commit_performed(old(self).pool_view()),
            old(self).pool_view().pending is Some ==> forall|pages: Pages| #[trigger]
                old(self).follows(pages) && tree::tree_ok(
                    pages,
                    (old(self).pool_view().pending->0).0,
                    btree::usable(old(self).pool_view()),
                ) ==> final(self).follows(pages) && final(self).entries(pages)
                    == tree::tree_entries(pages, (old(self).pool_view().pending->0).0),
    {
        let ghost before = *self;
        if self.pool.has_pending() {
            self.lookup = None;
            self.scan = None;
            self.pool.commit_done();
            proof {
                assert forall|pages: Pages| #[trigger]
                    before.follows(pages) && tree::tree_ok(
                        pages,
                        (before.pool@.pending->0).0,
                        btree::usable(before.pool@),
                    ) implies self.follows(pages) by {
                    performed_sees(before.pool@, pages);
                }
            }
        }
    }

    /// Only the first actions of the commit that was handed out, this many,
    /// could be performed: the tree stays as it was committed before, and the
    /// cached pages stay cached.
    pub fn commit_failed(&mut self, performed: usize)
        requires
            old(self).wf(),
        ensures
            final(self).wf(),
            final(self).pool_view() == buffer_pool::failed(
                old(self).pool_view(),
                performed as nat,
            ),
            forall|pages: Pages| #[trigger]
                old(self).follows(pages) ==> final(self).follows(pages) && final(self).entries(
                    pages,
                ) == old(self).entries(pages),
    {
        let ghost before = *self;
        self.pool.commit_failed(performed);
        proof {
            before.pool.put_facts();
            assert forall|pages: Pages| #[trigger] before.follows(pages) implies self.follows(
                pages,
            ) && self.entries(pages) == before.entries(pages) by {
                failed_sees(before.pool@, performed as nat, pages);
            }
        }
    }

    /// The database's page size.
    pub fn page_size(&self) -> (p: PageSize)
        requires
            self.wf(),
        ensures
            p.size() == self.pool_view().meta.size,
            p.wf(),
    {
        self.pool.page_size()
    }

    /// End an operation that has changed the tree, or has failed to.
    fn finish<T>(
        &mut self,
        done: Result<u32, PinaxError>,
        value: T,
        Ghost(before): Ghost<Self>,
        Ghost(nodes): Ghost<path::Nodes>,
    ) -> (r: Result<Progress<T>, PinaxError>)
        requires
            old(self).pool.wf(),
            btree::sees_on(before.pool@, old(self).pool@, nodes),
            old(self).lookup is None,
            old(self).scan is None,
            before.pool@.pending is None,
            match done {
                Ok(root) => btree::commits(before.pool@, old(self).pool@, root),
                Err(e) => {
                    &&& buffer_pool::extended(before.pool@, old(self).pool@)
                    &&& e is Permanent ==> old(self).pool@ == before.pool@
                },
            },
        ensures
            final(self).wf(),
            stepped(before.pool@, final(self).pool@, r),
            final(self).pool@.log == old(self).pool@.log,
            final(self).pool@.next_id == old(self).pool@.next_id,
            final(self).pool@.meta == before.pool@.meta,
            match done {
                Ok(root) => r matches Ok(Progress::Commit { value: v, .. }) && v == value
                    && final(self).pool@.pending == Some((root, final(self).pool@.next_id)),
                Err(e) => r == Err::<Progress<T>, PinaxError>(e),
            },
            forall|pages: Pages| #[trigger]
                before.follows(pages) && path::on_pages(nodes, pages) ==> final(self).keeps(
                    before,
                    pages,
                ),
    {
        match done {
            Ok(root) => {
                let actions = self.hand_out(root, Ghost(before), Ghost(nodes));
                Ok(Progress::Commit { actions, value })
            },
            Err(e) => {
                proof {
                    self.pool.wf_facts();
                    extended_all(before, *self, nodes);
                }
                Err(e)
            },
        }
    }
}

/// What an insert comes to, once its commit was handed out or it failed.
proof fn inserted(
    v: PoolView,
    w: PoolView,
    x: PoolView,
    nodes: path::Nodes,
    pages: Pages,
    key: i64,
    vs: Seq<ValueView>,
    done: Result<u32, PinaxError>,
    r: Result<Progress<()>, PinaxError>,
)
    requires
        btree::at_leaf(v, nodes, key, pages),
        btree::insert_result(v, w, nodes, pages, key, vs, done),
        x.log == w.log,
        x.next_id == w.next_id,
        x.meta == v.meta,
        match done {
            Ok(root) => r matches Ok(Progress::Commit { .. }) && x.pending == Some(
                (root, x.next_id),
            ),
            Err(e) => r == Err::<Progress<()>, PinaxError>(e),
        },
    ensures
        insert_outcome(v, x, pages, key, vs, r),
{
    assert(buffer_pool::with_log(pages, x) == buffer_pool::with_log(pages, w));
}

/// An arrived lookup leads to the leaf page, for every tree that it follows.
proof fn arrived_in(before: Database, lookup: Lookup)
    requires
        lookup.wf(before.pool@),
        lookup.descent.arrived,
    ensures
        forall|pages: Pages| #[trigger]
            before.follows(pages) && lookup.follows(before.pool@, pages) ==> btree::at_leaf(
                before.pool@,
                lookup.descent.nodes(),
                lookup.descent.key,
                pages,
            ),
{
    assert forall|pages: Pages| #[trigger]
        before.follows(pages) && lookup.follows(before.pool@, pages) implies btree::at_leaf(
        before.pool@,
        lookup.descent.nodes(),
        lookup.descent.key,
        pages,
    ) by {
        lookup.descent.arrived_at_leaf(before.pool@, pages);
    }
}

/// The page that is asked for is one of the pages, and was in use when its
/// tree was committed.
pub open spec fn reads_committed(v: PoolView, pages: Pages, page_id: u32) -> bool {
    &&& pages.contains_key(page_id)
    &&& page_id <= v.meta.root
}

/// The commit that is being performed makes `es` the entries of the tree.
pub open spec fn will_be(v: PoolView, pages: Pages, es: Seq<tree::Entry>) -> bool {
    let all = buffer_pool::with_log(pages, v);
    &&& v.pending is Some
    &&& tree::tree_ok(all, (v.pending->0).0, btree::usable(v))
    &&& tree::tree_entries(all, (v.pending->0).0) == es
}

/// The root of the commit that is being performed, and all pages on the way
/// from it to the leaf page that `key` belongs to, were put since `v`.
pub open spec fn path_copied(v: PoolView, w: PoolView, pages: Pages, key: i64) -> bool {
    let root = (w.pending->0).0;
    &&& v.next_id <= root < w.next_id
    &&& tree::fresh_way(buffer_pool::with_log(pages, w), root, key, v.next_id as int)
}

/// What a step of an insert into the tree of `pages` comes to.
pub open spec fn insert_outcome(
    v: PoolView,
    w: PoolView,
    pages: Pages,
    key: i64,
    vs: Seq<ValueView>,
    r: Result<Progress<()>, PinaxError>,
) -> bool {
    let es = cursor::committed(v, pages);
    match r {
        Ok(Progress::Read { page_id, .. }) => reads_committed(v, pages, page_id),
        Ok(Progress::Commit { .. }) => {
            &&& exists|nodes: path::Nodes| #[trigger]
                btree::at_leaf(v, nodes, key, pages) && btree::insert_possible(
                    v,
                    nodes,
                    es,
                    key,
                    vs,
                ) && w.next_id == v.next_id + btree::insert_pages(
                    nodes,
                    key,
                    row::row_bytes(vs).len(),
                    v.meta.size,
                )
            &&& will_be(w, pages, tree::put(es, key, Some(row::row_bytes(vs))))
            &&& path_copied(v, w, pages, key)
        },
        Ok(_) => true,
        Err(e) => exists|nodes: path::Nodes| #[trigger]
            btree::at_leaf(v, nodes, key, pages) && btree::insert_error(
                e,
                v,
                nodes,
                es,
                key,
                vs,
            ),
    }
}

/// Pools that are alike have the same outcomes.
proof fn insert_outcome_alike(
    u: PoolView,
    v: PoolView,
    w: PoolView,
    pages: Pages,
    key: i64,
    vs: Seq<ValueView>,
    r: Result<Progress<()>, PinaxError>,
)
    requires
        buffer_pool::flushes_put(u),
        alike(u, v),
        cursor::valid(u, pages),
        insert_outcome(v, w, pages, key, vs, r),
    ensures
        insert_outcome(u, w, pages, key, vs, r),
{
    alike_facts(u, v, pages);
    let es = cursor::committed(v, pages);
    match r {
        Ok(Progress::Commit { .. }) => {
            let nodes = choose|nodes: path::Nodes| #[trigger]
                btree::at_leaf(v, nodes, key, pages) && btree::insert_possible(
                    v,
                    nodes,
                    es,
                    key,
                    vs,
                ) && w.next_id == v.next_id + btree::insert_pages(
                    nodes,
                    key,
                    row::row_bytes(vs).len(),
                    v.meta.size,
                );
            assert(btree::at_leaf(u, nodes, key, pages));
            assert(btree::insert_possible(u, nodes, es, key, vs));
        },
        Ok(_) => {},
        Err(e) => {
            let nodes = choose|nodes: path::Nodes| #[trigger]
                btree::at_leaf(v, nodes, key, pages) && btree::insert_error(e, v, nodes, es, key, vs);
            assert(btree::at_leaf(u, nodes, key, pages));
            assert(btree::insert_error(e, u, nodes, es, key, vs));
        },
    }
}

/// What a step of an update of the tree of `pages` comes to.
pub open spec fn update_outcome(
    v: PoolView,
    w: PoolView,
    pages: Pages,
    key: i64,
    vs: Seq<ValueView>,
    r: Result<Progress<()>, PinaxError>,
) -> bool {
    let es = cursor::committed(v, pages);
    match r {
        Ok(Progress::Read { page_id, .. }) => reads_committed(v, pages, page_id),
        Ok(Progress::Commit { .. }) => {
            &&& exists|nodes: path::Nodes| #[trigger]
                btree::at_leaf(v, nodes, key, pages) && btree::update_possible(
                    v,
                    nodes,
                    es,
                    key,
                    vs,
                ) && w.next_id == v.next_id + btree::update_pages(
                    nodes,
                    key,
                    row::row_bytes(vs).len(),
                    v.meta.size,
                )
            &&& will_be(w, pages, tree::put(es, key, Some(row::row_bytes(vs))))
            &&& path_copied(v, w, pages, key)
        },
        Ok(_) => true,
        Err(e) => exists|nodes: path::Nodes| #[trigger]
            btree::at_leaf(v, nodes, key, pages) && btree::update_error(
                e,
                v,
                nodes,
                es,
                key,
                vs,
            ),
    }
}

/// Pools that are alike have the same outcomes.
proof fn update_outcome_alike(
    u: PoolView,
    v: PoolView,
    w: PoolView,
    pages: Pages,
    key: i64,
    vs: Seq<ValueView>,
    r: Result<Progress<()>, PinaxError>,
)
    requires
        buffer_pool::flushes_put(u),
        alike(u, v),
        cursor::valid(u, pages),
        update_outcome(v, w, pages, key, vs, r),
    ensures
        update_outcome(u, w, pages, key, vs, r),
{
    alike_facts(u, v, pages);
    let es = cursor::committed(v, pages);
    match r {
        Ok(Progress::Commit { .. }) => {
            let nodes = choose|nodes: path::Nodes| #[trigger]
                btree::at_leaf(v, nodes, key, pages) && btree::update_possible(
                    v,
                    nodes,
                    es,
                    key,
                    vs,
                ) && w.next_id == v.next_id + btree::update_pages(
                    nodes,
                    key,
                    row::row_bytes(vs).len(),
                    v.meta.size,
                );
            assert(btree::at_leaf(u, nodes, key, pages));
            assert(btree::update_possible(u, nodes, es, key, vs));
        },
        Ok(_) => {},
        Err(e) => {
            let nodes = choose|nodes: path::Nodes| #[trigger]
                btree::at_leaf(v, nodes, key, pages) && btree::update_error(e, v, nodes, es, key, vs);
            assert(btree::at_leaf(u, nodes, key, pages));
            assert(btree::update_error(e, u, nodes, es, key, vs));
        },
    }
}

/// What an update comes to, once its commit was handed out or it failed.
proof fn updated(
    v: PoolView,
    w: PoolView,
    x: PoolView,
    nodes: path::Nodes,
    pages: Pages,
    key: i64,
    vs: Seq<ValueView>,
    done: Result<u32, PinaxError>,
    r: Result<Progress<()>, PinaxError>,
)
    requires
        btree::at_leaf(v, nodes, key, pages),
        btree::update_result(v, w, nodes, pages, key, vs, done),
        x.log == w.log,
        x.next_id == w.next_id,
        x.meta == v.meta,
        match done {
            Ok(root) => r matches Ok(Progress::Commit { .. }) && x.pending == Some(
                (root, x.next_id),
            ),
            Err(e) => r == Err::<Progress<()>, PinaxError>(e),
        },
    ensures
        update_outcome(v, x, pages, key, vs, r),
{
    assert(buffer_pool::with_log(pages, x) == buffer_pool::with_log(pages, w));
}

/// What a step of a lookup in the tree of `pages` comes to.
pub open spec fn get_outcome(
    v: PoolView,
    pages: Pages,
    key: i64,
    r: Result<Progress<Option<Row>>, PinaxError>,
) -> bool {
    let payload = tree::find(cursor::committed(v, pages), key);
    match r {
        Ok(Progress::Read { page_id, .. }) => reads_committed(v, pages, page_id),
        Ok(Progress::Done(None)) => payload is None,
        Ok(Progress::Done(Some(row))) => payload is Some && row::parse_row(payload->0) == Ok::<
            _,
            row::Fault,
        >(row@),
        Ok(_) => true,
        Err(e) => payload is Some && row::parse_row(payload->0) is Err && row::reports(
            e,
            row::parse_row(payload->0)->Err_0,
        ),
    }
}

/// What removing the row `vs`, which is under `key`, comes to.
pub open spec fn removal_outcome(
    v: PoolView,
    w: PoolView,
    pages: Pages,
    key: i64,
    vs: Seq<ValueView>,
    r: Result<Progress<Row>, PinaxError>,
) -> bool {
    let es = cursor::committed(v, pages);
    match r {
        Ok(Progress::Commit { value, .. }) => {
            &&& value@ == vs
            &&& exists|nodes: path::Nodes| #[trigger]
                btree::at_leaf(v, nodes, key, pages) && btree::counters_left(v, nodes.len() as int)
                    && w.next_id == v.next_id + nodes.len()
            &&& will_be(w, pages, tree::put(es, key, None))
            &&& path_copied(v, w, pages, key)
        },
        Ok(_) => false,
        Err(e) => exists|nodes: path::Nodes| #[trigger]
            btree::at_leaf(v, nodes, key, pages) && btree::delete_error(e, v, nodes, es, key),
    }
}

/// What a step of a delete from the tree of `pages` comes to.
pub open spec fn delete_outcome(
    v: PoolView,
    w: PoolView,
    pages: Pages,
    key: i64,
    r: Result<Progress<Row>, PinaxError>,
) -> bool {
    let es = cursor::committed(v, pages);
    let payload = tree::find(es, key);
    match r {
        Ok(Progress::Read { page_id, .. }) => reads_committed(v, pages, page_id),
        Ok(Progress::Commit { value, .. }) => {
            &&& payload is Some
            &&& row::parse_row(payload->0) == Ok::<_, row::Fault>(value@)
            &&& exists|nodes: path::Nodes| #[trigger]
                btree::at_leaf(v, nodes, key, pages) && btree::counters_left(v, nodes.len() as int)
                    && w.next_id == v.next_id + nodes.len()
            &&& will_be(w, pages, tree::put(es, key, None))
            &&& path_copied(v, w, pages, key)
        },
        Ok(_) => true,
        Err(e) => match payload {
            None => e == btree::key_not_found(key),
            Some(p) => match row::parse_row(p) {
                Err(f) => row::reports(e, f),
                Ok(_) => exists|nodes: path::Nodes| #[trigger]
                    btree::at_leaf(v, nodes, key, pages) && !btree::counters_left(
                        v,
                        nodes.len() as int,
                    ) && e == error::exhausted(),
            },
        },
    }
}

/// The outcome of a removal is that of the delete.
proof fn delete_outcome_alike(
    u: PoolView,
    v: PoolView,
    w: PoolView,
    pages: Pages,
    key: i64,
    vs: Seq<ValueView>,
    r: Result<Progress<Row>, PinaxError>,
)
    requires
        buffer_pool::flushes_put(u),
        alike(u, v),
        cursor::valid(u, pages),
        removal_outcome(v, w, pages, key, vs, r),
        tree::find(cursor::committed(u, pages), key) is Some,
        row::parse_row(tree::find(cursor::committed(u, pages), key)->0) == Ok::<_, row::Fault>(vs),
    ensures
        delete_outcome(u, w, pages, key, r),
{
    alike_facts(u, v, pages);
    let es = cursor::committed(v, pages);
    match r {
        Ok(Progress::Commit { .. }) => {
            let nodes = choose|nodes: path::Nodes| #[trigger]
                btree::at_leaf(v, nodes, key, pages) && btree::counters_left(v, nodes.len() as int)
                    && w.next_id == v.next_id + nodes.len();
            assert(btree::at_leaf(u, nodes, key, pages));
            assert(btree::counters_left(u, nodes.len() as int));
        },
        Ok(_) => {},
        Err(e) => {
            let nodes = choose|nodes: path::Nodes| #[trigger]
                btree::at_leaf(v, nodes, key, pages) && btree::delete_error(e, v, nodes, es, key);
            assert(btree::at_leaf(u, nodes, key, pages));
            assert(!btree::counters_left(u, nodes.len() as int));
        },
    }
}

/// What a removal comes to, once its commit was handed out or it failed.
proof fn removed(
    v: PoolView,
    w: PoolView,
    x: PoolView,
    nodes: path::Nodes,
    pages: Pages,
    key: i64,
    vs: Seq<ValueView>,
    done: Result<u32, PinaxError>,
    r: Result<Progress<Row>, PinaxError>,
)
    requires
        btree::at_leaf(v, nodes, key, pages),
        btree::delete_result(v, w, nodes, pages, key, done),
        x.log == w.log,
        x.next_id == w.next_id,
        x.meta == v.meta,
        match done {
            Ok(root) => r matches Ok(Progress::Commit { value, .. }) && value@ == vs && x.pending
                == Some((root, x.next_id)),
            Err(e) => r == Err::<Progress<Row>, PinaxError>(e),
        },
    ensures
        removal_outcome(v, x, pages, key, vs, r),
{
    assert(buffer_pool::with_log(pages, x) == buffer_pool::with_log(pages, w));
}

/// How a step of a scan ended.
pub open spec fn scan_came(r: Result<Progress<Vec<(i64, Row)>>, PinaxError>) -> Came {
    match r {
        Ok(Progress::Read { page_id, .. }) => Came::Asks(page_id),
        Ok(Progress::Done(_)) => Came::Over,
        Ok(_) => Came::On,
        Err(e) => Came::Failed(e),
    }
}

/// What a step of a scan of the tree of `pages` comes to.
pub open spec fn scan_outcome(
    v: PoolView,
    pages: Pages,
    r: Result<Progress<Vec<(i64, Row)>>, PinaxError>,
) -> bool {
    let es = cursor::committed(v, pages);
    match r {
        Ok(Progress::Read { page_id, .. }) => reads_committed(v, pages, page_id),
        Ok(Progress::Done(rows)) => rows@.len() == es.len() && cursor::rows_are(rows@, es),
        Ok(_) => true,
        Err(e) => cursor::first_fault(es, e),
    }
}

/// The pool once the commit that was handed out was performed.
pub open spec fn commit_performed(v: PoolView) -> PoolView {
    match v.pending {
        Some((root, count)) => PoolView {
            meta: pager::next_meta(v.meta, root, count),
            active: 1 - v.active,
            pending: None,
            ..v
        },
        None => v,
    }
}

/// A performed commit changes the root, and not what the pool sees.
proof fn performed_sees(v: PoolView, pages: Pages)
    requires
        v.pending is Some,
        cursor::valid(v, pages),
        tree::tree_ok(pages, (v.pending->0).0, btree::usable(v)),
    ensures
        cursor::valid(commit_performed(v), pages),
        cursor::committed(commit_performed(v), pages) == tree::tree_entries(
            pages,
            (v.pending->0).0,
        ),
{
    let w = commit_performed(v);
    assert forall|x: u32| #[trigger]
        w.cache.contains_key(x) && pages.contains_key(x) implies page::body(w.cache[x])
        == pages[x] by {
        assert(v.cache.contains_key(x));
    }
    assert(buffer_pool::sees(w, pages));
}

/// A delete's effect, seen from before its lookup.
proof fn delete_stepped(
    u: PoolView,
    v: PoolView,
    w: PoolView,
    r: Result<Progress<Row>, PinaxError>,
)
    requires
        cursor::looked(buffer_pool::settled(u), v),
        stepped(v, w, r),
        v.pending is None,
        r is Err || r matches Ok(Progress::Commit { .. }),
    ensures
        stepped(u, w, r),
{
    let start = buffer_pool::settled(u);
    assert(buffer_pool::extended(start, v)) by {
        assert(v.history.subrange(0, start.history.len() as int) =~= start.history);
    }
    match r {
        Ok(Progress::Commit { actions, .. }) => {
            reveal(hands_out);
            let root = (w.pending->0).0;
            let m = choose|m: PoolView|
                {
                    &&& #[trigger] buffer_pool::extended(v, m)
                    &&& buffer_pool::view_wf(m)
                    &&& disk::io_views(actions@) == buffer_pool::committing(m, root).outbox
                    &&& w == (PoolView {
                        outbox: Seq::empty(),
                        ..buffer_pool::committing(m, root)
                    })
                };
            buffer_pool::extended_trans(start, v, m);
        },
        _ => {
            buffer_pool::extended_trans(start, v, w);
        },
    }
}

/// An operation's effect on the buffer pool: pages were looked at, or a
/// commit was handed out, or, where it failed with a fatal error, pages were
/// put that no commit names.
pub open spec fn stepped<T>(v: PoolView, w: PoolView, r: Result<Progress<T>, PinaxError>) -> bool {
    let start = buffer_pool::settled(v);
    match r {
        Ok(Progress::Commit { actions, .. }) => w.pending is Some && hands_out(
            start,
            w,
            actions@,
            (w.pending->0).0,
        ),
        Ok(_) => cursor::looked(start, w),
        Err(PinaxError::Permanent { .. }) => cursor::looked(start, w),
        Err(_) => buffer_pool::extended(start, w),
    }
}

/// From `v` to `w` a commit of `root` was handed out: the actions are what
/// was not handed out before, the pages that were put, and the meta slot.
#[verifier::opaque]
pub open spec fn hands_out(v: PoolView, w: PoolView, actions: Seq<IoAction>, root: u32) -> bool {
    exists|m: PoolView|
        {
            &&& #[trigger] buffer_pool::extended(v, m)
            &&& buffer_pool::view_wf(m)
            &&& disk::io_views(actions) == buffer_pool::committing(m, root).outbox
            &&& w == (PoolView { outbox: Seq::empty(), ..buffer_pool::committing(m, root) })
        }
}

/// From `v` to `w`, pages were used, a commit may have been given up, and
/// nothing else happened.
pub open spec fn alike(v: PoolView, w: PoolView) -> bool {
    cursor::looked(buffer_pool::settled(v), w)
}

/// Pools that are alike see the same pages and have the same tree.
proof fn alike_facts(v: PoolView, w: PoolView, pages: Pages)
    requires
        buffer_pool::flushes_put(v),
        alike(v, w),
        cursor::valid(v, pages),
    ensures
        cursor::valid(w, pages),
        cursor::committed(w, pages) == cursor::committed(v, pages),
        forall|nodes: path::Nodes, key: i64|
            btree::at_leaf(w, nodes, key, pages) == #[trigger] btree::at_leaf(
                v,
                nodes,
                key,
                pages,
            ),
        buffer_pool::with_log(pages, w) == pages,
{
    let start = buffer_pool::settled(v);
    failed_sees(v, 0, pages);
    cursor::looked_sees(start, w, pages);
    assert(buffer_pool::with_log(pages, w) =~= pages) by {
        assert forall|x: u32| #[trigger] w.log.contains_key(x) implies pages.contains_key(x)
            && pages[x] == w.log[x] by {
        }
    }
}

/// A pool that gave a commit up sees what it saw.
proof fn failed_sees(v: PoolView, performed: nat, pages: Pages)
    requires
        buffer_pool::flushes_put(v),
        cursor::valid(v, pages),
    ensures
        cursor::valid(buffer_pool::failed(v, performed), pages),
        cursor::committed(buffer_pool::failed(v, performed), pages) == cursor::committed(v, pages),
{
    reveal(buffer_pool::flushes_put);
    let w = buffer_pool::failed(v, performed);
    let done = buffer_pool::pages_done(v, performed);
    let left = v.flushing.skip(done);
    assert forall|x: u32| #[trigger]
        w.cache.contains_key(x) && pages.contains_key(x) implies page::body(w.cache[x])
        == pages[x] by {
        assert(v.cache.contains_key(x));
    }
    assert forall|x: u32| #[trigger] w.log.contains_key(x) implies pages.contains_key(x)
        && pages[x] == w.log[x] by {
        if v.pending is Some {
            assert(v.cache.contains_key(x));
            if left.contains(x) {
                let i = left.index_of(x);
                assert(v.flushing[done + i] == x);
            }
        }
        assert(v.log.contains_key(x));
        assert(pages.contains_key(x));
    }
    assert(buffer_pool::sees(w, pages));
}

/// What is alike for every tree that the database follows.
proof fn alike_all(before: Database, v: PoolView)
    requires
        buffer_pool::flushes_put(before.pool@),
        alike(before.pool@, v),
    ensures
        forall|pages: Pages| #[trigger]
            before.follows(pages) ==> cursor::valid(v, pages) && cursor::committed(v, pages)
                == before.entries(pages),
{
    assert forall|pages: Pages| #[trigger] before.follows(pages) implies cursor::valid(v, pages)
        && cursor::committed(v, pages) == before.entries(pages) by {
        alike_facts(before.pool@, v, pages);
    }
}

/// Looking at pages keeps the tree.
proof fn looked_all(before: Database, after: Database)
    requires
        buffer_pool::flushes_put(before.pool@),
        alike(before.pool@, after.pool@),
        after.pool@.pending is None,
    ensures
        forall|pages: Pages| #[trigger]
            before.follows(pages) && after.follows(pages) ==> after.keeps(before, pages),
        buffer_pool::extended(buffer_pool::settled(before.pool@), after.pool@),
{
    assert forall|pages: Pages| #[trigger]
        before.follows(pages) && after.follows(pages) implies after.keeps(before, pages) by {
        alike_facts(before.pool@, after.pool@, pages);
    }
    let v = buffer_pool::settled(before.pool@);
    let w = after.pool@;
    assert(w.history.subrange(0, v.history.len() as int) =~= v.history);
}

/// Putting pages keeps the tree.
proof fn extended_keeps(v: PoolView, w: PoolView, pages: Pages)
    requires
        buffer_pool::extended(v, w),
        cursor::valid(v, pages),
        buffer_pool::sees(w, buffer_pool::with_log(pages, w)),
    ensures
        cursor::valid(w, buffer_pool::with_log(pages, w)),
        tree::extends(buffer_pool::with_log(pages, w), pages),
        cursor::committed(w, buffer_pool::with_log(pages, w)) == cursor::committed(v, pages),
{
    buffer_pool::extended_pages(v, w, pages);
    tree::tree_grows(pages, buffer_pool::with_log(pages, w), v.meta.root, btree::usable(v));
}

/// Putting pages keeps the tree, for every tree that the database follows
/// and the path leads through.
proof fn extended_all(before: Database, after: Database, nodes: path::Nodes)
    requires
        buffer_pool::extended(before.pool@, after.pool@),
        btree::sees_on(before.pool@, after.pool@, nodes),
        after.lookup is None,
        after.scan is None,
    ensures
        forall|pages: Pages| #[trigger]
            before.follows(pages) && path::on_pages(nodes, pages) ==> after.keeps(before, pages),
{
    assert forall|pages: Pages| #[trigger]
        before.follows(pages) && path::on_pages(nodes, pages) implies after.keeps(
        before,
        pages,
    ) by {
        reveal(btree::sees_on);
        assert(buffer_pool::sees(before.pool@, pages));
        extended_keeps(before.pool@, after.pool@, pages);
    }
}

/// Handing out a commit keeps the tree until the commit is performed.
proof fn commit_all(
    before: Database,
    v: PoolView,
    w: PoolView,
    root: u32,
    after: Database,
    actions: Seq<IoAction>,
    nodes: path::Nodes,
)
    requires
        v == before.pool@,
        btree::sees_on(v, w, nodes),
        btree::commits(v, w, root),
        after.pool@ == (PoolView { outbox: Seq::empty(), ..w }),
        disk::io_views(actions) == w.outbox,
        after.lookup is None,
        after.scan is None,
    ensures
        hands_out(v, after.pool@, actions, root),
        after.pool@.pending == Some((root, after.pool@.next_id)),
        after.pool@.dirty == Set::<u32>::empty(),
        forall|pages: Pages| #[trigger]
            before.follows(pages) && path::on_pages(nodes, pages) ==> after.keeps(before, pages),
        forall|pages: Pages|
            #![trigger before.follows(pages)]
            buffer_pool::with_log(pages, after.pool@) == buffer_pool::with_log(pages, w),
{
    reveal(btree::commits);
    let m = choose|m: PoolView| #[trigger]
        buffer_pool::extended(v, m) && buffer_pool::view_wf(m) && w == buffer_pool::committing(
            m,
            root,
        );
    assert(buffer_pool::extended(v, m));
    assert(hands_out(v, after.pool@, actions, root)) by {
        reveal(hands_out);
    }
    assert forall|pages: Pages| #[trigger]
        before.follows(pages) && path::on_pages(nodes, pages) implies after.keeps(
        before,
        pages,
    ) by {
        reveal(btree::sees_on);
        let all = buffer_pool::with_log(pages, m);
        let x = after.pool@;
        assert(buffer_pool::sees(v, pages));
        assert(buffer_pool::sees(w, all));
        buffer_pool::extended_pages(v, m, pages);
        tree::tree_grows(pages, all, v.meta.root, btree::usable(v));
        assert(buffer_pool::sees(x, all)) by {
            assert forall|i: u32| #[trigger]
                x.cache.contains_key(i) && all.contains_key(i) implies page::body(x.cache[i])
                == all[i] by {
                assert(w.cache.contains_key(i));
            }
        }
    }
}

/// A supplied page is seen.
proof fn supplied(v: PoolView, id: u32, bytes: Seq<u8>, pages: Pages)
    requires
        cursor::valid(v, pages),
        pages.contains_key(id),
        pages[id] == page::body(bytes),
    ensures
        cursor::valid(buffer_pool::with_page(v, id, bytes), pages),
        cursor::committed(buffer_pool::with_page(v, id, bytes), pages) == cursor::committed(
            v,
            pages,
        ),
{
    let w = buffer_pool::with_page(v, id, bytes);
    assert forall|x: u32| #[trigger]
        w.cache.contains_key(x) && pages.contains_key(x) implies page::body(w.cache[x])
        == pages[x] by {
        if x != id {
            assert(v.cache.contains_key(x));
        }
    }
}

/// What creating a database comes to.
pub open spec fn created(
    page_size: PageSize,
    capacity: usize,
    actions: Seq<IoAction>,
    made: Result<Database, PinaxError>,
) -> bool {
    let meta = pager::fresh_meta(page_size.size());
    &&& disk::io_views(actions) == pager::create_actions(meta)
    &&& match made {
        Ok(db) => {
            &&& capacity >= 1
            &&& db.wf()
            &&& db.pool_view() == buffer_pool::fresh_view(meta, 0, capacity as nat)
            &&& forall|pages: Pages| #[trigger]
                db.follows(pages) == cursor::valid(db.pool_view(), pages)
        },
        Err(e) => capacity == 0 && e == (PinaxError::Permanent {
            source: PermanentError::InvalidBufferPoolCapacity,
        }),
    }
}

/// What opening a database comes to.
pub open spec fn opened(
    actual_len: u64,
    slot_a: Seq<u8>,
    slot_b: Seq<u8>,
    capacity: usize,
    r: Result<Database, PinaxError>,
) -> bool {
    let found = pager::recovered(slot_a, slot_b);
    match r {
        Ok(db) => {
            &&& actual_len >= page::META_REGION_LEN
            &&& capacity >= 1
            &&& found is Some
            &&& db.wf()
            &&& db.pool_view() == buffer_pool::fresh_view(
                (found->0).1,
                (found->0).0,
                capacity as nat,
            )
            &&& forall|pages: Pages| #[trigger]
                db.follows(pages) == cursor::valid(db.pool_view(), pages)
        },
        Err(e) => if actual_len < page::META_REGION_LEN {
            e == (PinaxError::Fatal {
                source: FatalError::FileTooSmall { actual_len, min_len: page::META_REGION_LEN },
            })
        } else if found is None {
            e == (PinaxError::Fatal { source: FatalError::NoValidMetaPage })
        } else {
            capacity == 0 && e == (PinaxError::Permanent {
                source: PermanentError::InvalidBufferPoolCapacity,
            })
        },
    }
}

} // verus!
