//! The pager: checksummed, copy-on-write page storage with two meta slots.
//!
//! A page that the committed meta slot reaches is never changed in place:
//! every change goes to a freshly allocated page id, and the one write that
//! makes a change visible is that of the *other* meta slot, with a higher
//! transaction number. The data pages are made durable before it, and the
//! slot itself after it. A crash before the slot is durable leaves the
//! previously committed slot as it was, and with it everything it reaches.
//!
//! The meta slots stand at fixed offsets that do not depend on the page
//! size, which is read from them.
//!
//! No page id is ever used twice: the file only grows.

use vstd::prelude::*;

use crate::codec;
use crate::codec::{read_u32, read_u64, read_u8, write_bytes, write_u16, write_u32, write_u64};
use crate::disk;
use crate::disk::{IoAction, IoView};
use crate::error;
use crate::error::{FatalError, PinaxError};
use crate::page;
use crate::page::{stamp_checksum, verify_checksum, PageSize};

verus! {

/// Version number of the meta slot format.
pub const META_FORMAT_VERSION: u16 = 1;

/// Where in a meta slot its magic bytes stand.
pub const OFFSET_MAGIC: usize = 0;

/// Where in a meta slot its format version stands.
pub const OFFSET_VERSION: usize = 4;

/// Where in a meta slot the page size stands.
pub const OFFSET_PAGE_SIZE: usize = 6;

/// Where in a meta slot the transaction number stands.
pub const OFFSET_TXN_ID: usize = 10;

/// Where in a meta slot the root page id stands.
pub const OFFSET_ROOT: usize = 18;

/// Where in a meta slot the page count stands.
pub const OFFSET_PAGE_COUNT: usize = 22;

/// Where in a meta slot the head of the free list stands; it is always 0.
pub const OFFSET_FREELIST_HEAD: usize = 26;

/// What one meta slot says, as plain mathematical data.
pub struct MetaView {
    /// The page size in bytes.
    pub size: int,
    /// The number of the transaction that wrote the slot.
    pub txn_id: u64,
    /// The root page id of the tree.
    pub root: u32,
    /// The first page id that is not in use.
    pub count: u32,
}

/// What one meta slot says.
#[derive(Debug, Clone, Copy)]
pub struct MetaContent {
    /// The page size.
    pub page_size: PageSize,
    /// The number of the transaction that wrote the slot.
    pub txn_id: u64,
    /// The root page id of the tree.
    pub root_page_id: u32,
    /// The first page id that is not in use.
    pub page_count: u32,
}

impl View for MetaContent {
    type V = MetaView;

    open spec fn view(&self) -> MetaView {
        MetaView {
            size: self.page_size.size(),
            txn_id: self.txn_id,
            root: self.root_page_id,
            count: self.page_count,
        }
    }
}

/// The magic bytes of a meta slot: `PNX1`.
pub open spec fn magic() -> Seq<u8> {
    seq![0x50u8, 0x4Eu8, 0x58u8, 0x31u8]
}

/// The fields of a meta slot, before the zeros that fill it.
pub open spec fn meta_fields(m: MetaView) -> Seq<u8> {
    magic() + codec::u16_bytes(META_FORMAT_VERSION) + codec::u32_bytes(m.size as u32)
        + codec::u64_bytes(m.txn_id) + codec::u32_bytes(m.root) + codec::u32_bytes(m.count)
        + codec::u32_bytes(0)
}

/// The body of a meta slot.
pub open spec fn meta_body(m: MetaView) -> Seq<u8> {
    meta_fields(m) + Seq::new(4058, |i: int| 0u8)
}

/// The bytes of a meta slot.
pub open spec fn meta_slot(m: MetaView) -> Seq<u8> {
    page::stamped(meta_body(m))
}

/// What a meta slot with these bytes says, whatever its checksum; `None` if
/// its magic bytes or its page size are wrong.
pub open spec fn meta_of(b: Seq<u8>) -> Option<MetaView> {
    if b.len() >= 26 && b.subrange(0, 4) == magic() && page::valid_page_size(
        codec::be_u32(b, 6) as int,
    ) {
        Some(
            MetaView {
                size: codec::be_u32(b, 6) as int,
                txn_id: codec::be_u64(b, 10),
                root: codec::be_u32(b, 18),
                count: codec::be_u32(b, 22),
            },
        )
    } else {
        None
    }
}

/// What a meta slot with these bytes says; `None` if it is not usable.
pub open spec fn slot_meta(b: Seq<u8>) -> Option<MetaView> {
    if page::checksum_ok(b) {
        meta_of(b)
    } else {
        None
    }
}

/// The slot that is in force, and what it says: the usable one, and of two
/// usable ones that with the higher transaction number.
pub open spec fn recovered(slot_a: Seq<u8>, slot_b: Seq<u8>) -> Option<(int, MetaView)> {
    match (slot_meta(slot_a), slot_meta(slot_b)) {
        (Some(a), Some(b)) => if b.txn_id > a.txn_id {
            Some((1, b))
        } else {
            Some((0, a))
        },
        (Some(a), None) => Some((0, a)),
        (None, Some(b)) => Some((1, b)),
        (None, None) => None,
    }
}

/// The slot of a file that is in force, and what it says.
pub open spec fn recovered_file(file: Seq<u8>) -> Option<(int, MetaView)> {
    recovered(disk::slot_of(file, 0), disk::slot_of(file, 1))
}

/// A meta slot says what it was written to say.
pub proof fn meta_slot_round_trip(m: MetaView)
    requires
        page::valid_page_size(m.size),
    ensures
        meta_slot(m).len() == page::META_SLOT_LEN,
        slot_meta(meta_slot(m)) == Some(m),
{
    let fields = meta_fields(m);
    let content = meta_body(m);
    let b = meta_slot(m);
    page::stamped_page_verifies(content);
    assert(fields.len() == 30);
    assert(b.subrange(0, 4) =~= magic());
    assert(b.subrange(6, 10) =~= codec::u32_bytes(m.size as u32));
    codec::u32_round_trip(b, 6, m.size as u32);
    assert(b.subrange(10, 18) =~= codec::u64_bytes(m.txn_id));
    codec::u64_round_trip(b, 10, m.txn_id);
    assert(b.subrange(18, 22) =~= codec::u32_bytes(m.root));
    codec::u32_round_trip(b, 18, m.root);
    assert(b.subrange(22, 26) =~= codec::u32_bytes(m.count));
    codec::u32_round_trip(b, 22, m.count);
}

/// A slot that does not start with the magic bytes is not usable.
pub proof fn zero_slot_is_unusable(b: Seq<u8>)
    requires
        b.len() >= 4,
        b[0] == 0,
    ensures
        slot_meta(b) is None,
{
    assert(b.subrange(0, 4)[0] == 0);
    assert(magic()[0] == 0x50);
}

/// Decode a meta slot, without regard to its checksum.
pub fn decode_meta_slot(buf: &[u8]) -> (r: Option<MetaContent>)
    ensures
        match r {
            Some(m) => meta_of(buf@) == Some(m@) && m.page_size.wf(),
            None => meta_of(buf@) is None,
        },
{
    let len: usize = buf.len();
    if len < 26 {
        return None;
    }
    if buf[0] != 0x50 || buf[1] != 0x4E || buf[2] != 0x58 || buf[3] != 0x31 {
        assert(buf@.subrange(0, 4)[0] == buf@[0]);
        assert(buf@.subrange(0, 4)[1] == buf@[1]);
        assert(buf@.subrange(0, 4)[2] == buf@[2]);
        assert(buf@.subrange(0, 4)[3] == buf@[3]);
        assert(magic()[0] == 0x50 && magic()[1] == 0x4E && magic()[2] == 0x58 && magic()[3]
            == 0x31);
        return None;
    }
    assert(buf@.subrange(0, 4) =~= magic());
    let size: u32 = match read_u32(buf, OFFSET_PAGE_SIZE) {
        Ok(v) => v,
        Err(_) => return None,
    };
    let page_size = match PageSize::try_from(size) {
        Ok(v) => v,
        Err(_) => return None,
    };
    let txn_id: u64 = match read_u64(buf, OFFSET_TXN_ID) {
        Ok(v) => v,
        Err(_) => return None,
    };
    let root_page_id: u32 = match read_u32(buf, OFFSET_ROOT) {
        Ok(v) => v,
        Err(_) => return None,
    };
    let page_count: u32 = match read_u32(buf, OFFSET_PAGE_COUNT) {
        Ok(v) => v,
        Err(_) => return None,
    };
    Some(MetaContent { page_size, txn_id, root_page_id, page_count })
}

/// Encode a meta slot, with its checksum.
pub fn encode_meta_slot(content: &MetaContent) -> (r: Result<Vec<u8>, PinaxError>)
    requires
        content.page_size.wf(),
    ensures
        r matches Ok(buf) && buf@ == meta_slot(content@),
{
    let mut buf: Vec<u8> = vec![0u8; 4096];
    let magic_bytes: [u8; 4] = [0x50, 0x4E, 0x58, 0x31];
    assert(magic_bytes@ =~= magic());
    write_bytes(&mut buf, OFFSET_MAGIC, &magic_bytes)?;
    write_u16(&mut buf, OFFSET_VERSION, META_FORMAT_VERSION)?;
    write_u32(&mut buf, OFFSET_PAGE_SIZE, content.page_size.bytes())?;
    write_u64(&mut buf, OFFSET_TXN_ID, content.txn_id)?;
    write_u32(&mut buf, OFFSET_ROOT, content.root_page_id)?;
    write_u32(&mut buf, OFFSET_PAGE_COUNT, content.page_count)?;
    write_u32(&mut buf, OFFSET_FREELIST_HEAD, 0)?;
    assert(page::body(buf@) =~= meta_body(content@));
    stamp_checksum(&mut buf)?;
    Ok(buf)
}

/// The committed state of a database: what its meta slot in force says.
pub struct Pager {
    page_size: PageSize,
    active_slot: u8,
    txn_id: u64,
    root_page_id: u32,
    page_count: u32,
}

impl View for Pager {
    type V = MetaView;

    /// What the meta slot in force says.
    closed spec fn view(&self) -> MetaView {
        MetaView {
            size: self.page_size.size(),
            txn_id: self.txn_id,
            root: self.root_page_id,
            count: self.page_count,
        }
    }
}

/// The actions that write a fresh database file.
pub open spec fn create_actions(m: MetaView) -> Seq<IoView> {
    seq![
        IoView::Write { offset: 0, bytes: meta_slot(m) + Seq::new(4096, |i: int| 0u8) },
        IoView::SyncAll,
    ]
}

/// The state of a fresh database.
pub open spec fn fresh_meta(size: int) -> MetaView {
    MetaView { size, txn_id: 0, root: page::EMPTY_TREE_ROOT, count: page::FIRST_DATA_PAGE_ID }
}

/// The state after a commit on top of `m`.
pub open spec fn next_meta(m: MetaView, root: u32, count: u32) -> MetaView {
    MetaView { size: m.size, txn_id: (m.txn_id + 1) as u64, root, count }
}

/// The action that writes a meta slot.
pub open spec fn slot_write(slot: int, m: MetaView) -> IoView {
    IoView::Write { offset: slot * page::META_SLOT_LEN, bytes: meta_slot(m) }
}

/// The actions that commit a state on top of `m`, which `active` holds.
pub open spec fn commit_actions(m: MetaView, active: int, root: u32, count: u32) -> Seq<IoView> {
    seq![
        IoView::SyncData,
        slot_write(1 - active, next_meta(m, root, count)),
        IoView::SyncAll,
    ]
}

impl Pager {
    /// The page size is valid, and the slot in force is one of the two.
    pub closed spec fn wf(self) -> bool {
        &&& self.page_size.wf()
        &&& self.active_slot <= 1
    }

    /// The meta slot in force.
    pub closed spec fn active(self) -> int {
        self.active_slot as int
    }

    /// A well-formed pager's page size is valid, and its slot is 0 or 1.
    pub proof fn wf_facts(self)
        requires
            self.wf(),
        ensures
            page::valid_page_size(self@.size),
            self.active() == 0 || self.active() == 1,
    {
    }

    /// A fresh database with pages of `page_size`, and the actions that
    /// write its file: the first meta slot, an unused second one, and their
    /// sync.
    pub fn create(page_size: PageSize) -> (r: Result<(Self, Vec<IoAction>), PinaxError>)
        requires
            page_size.wf(),
        ensures
            r matches Ok((pager, actions)) && pager.wf() && pager@ == fresh_meta(page_size.size())
                && pager.active() == 0 && disk::io_views(actions@) == create_actions(pager@),
    {
        let content = MetaContent {
            page_size,
            txn_id: 0,
            root_page_id: page::EMPTY_TREE_ROOT,
            page_count: page::FIRST_DATA_PAGE_ID,
        };
        let mut region = encode_meta_slot(&content)?;
        let mut unused: Vec<u8> = vec![0u8; 4096];
        region.append(&mut unused);
        let pager = Pager {
            page_size,
            active_slot: 0,
            txn_id: 0,
            root_page_id: page::EMPTY_TREE_ROOT,
            page_count: page::FIRST_DATA_PAGE_ID,
        };
        assert(region@ =~= meta_slot(pager@) + Seq::new(4096, |i: int| 0u8));
        let mut actions: Vec<IoAction> = Vec::new();
        actions.push(IoAction::Write { offset: 0, bytes: region });
        actions.push(IoAction::SyncAll);
        assert(disk::io_views(actions@) =~= create_actions(pager@));
        Ok((pager, actions))
    }

    /// Open a database file of `actual_len` bytes with these two meta
    /// slots, by the slot in force. (Of a file that is too short the slots
    /// are not looked at.)
    pub fn open(actual_len: u64, slot_a: &[u8], slot_b: &[u8]) -> (r: Result<Self, PinaxError>)
        ensures
            match r {
                Ok(pager) => actual_len >= page::META_REGION_LEN && pager.wf() && recovered(
                    slot_a@,
                    slot_b@,
                ) == Some((pager.active(), pager@)),
                Err(e) => if actual_len < page::META_REGION_LEN {
                    e == (PinaxError::Fatal {
                        source: FatalError::FileTooSmall {
                            actual_len,
                            min_len: page::META_REGION_LEN,
                        },
                    })
                } else {
                    recovered(slot_a@, slot_b@) is None && e == (PinaxError::Fatal {
                        source: FatalError::NoValidMetaPage,
                    })
                },
            },
    {
        if actual_len < page::META_REGION_LEN {
            return Err(
                PinaxError::Fatal {
                    source: FatalError::FileTooSmall {
                        actual_len,
                        min_len: page::META_REGION_LEN,
                    },
                },
            );
        }
        let valid_a = match verify_checksum(slot_a) {
            Ok(()) => decode_meta_slot(slot_a),
            Err(_) => None,
        };
        let valid_b = match verify_checksum(slot_b) {
            Ok(()) => decode_meta_slot(slot_b),
            Err(_) => None,
        };
        let (active_slot, content): (u8, MetaContent) = match (valid_a, valid_b) {
            (Some(a), Some(b)) => if b.txn_id > a.txn_id {
                (1u8, b)
            } else {
                (0u8, a)
            },
            (Some(a), None) => (0u8, a),
            (None, Some(b)) => (1u8, b),
            (None, None) => {
                return Err(PinaxError::Fatal { source: FatalError::NoValidMetaPage });
            },
        };
        Ok(
            Pager {
                page_size: content.page_size,
                active_slot,
                txn_id: content.txn_id,
                root_page_id: content.root_page_id,
                page_count: content.page_count,
            },
        )
    }

    /// The database's page size.
    pub fn page_size(&self) -> (p: PageSize)
        requires
            self.wf(),
        ensures
            p.size() == self@.size,
            p.wf(),
    {
        self.page_size
    }

    /// The committed root page id.
    pub fn root_page_id(&self) -> (id: u32)
        ensures
            id == self@.root,
    {
        self.root_page_id
    }

    /// The first page id that no committed page has.
    pub fn page_count(&self) -> (n: u32)
        ensures
            n == self@.count,
    {
        self.page_count
    }

    /// The number of the transaction that was committed last.
    pub fn txn_id(&self) -> (n: u64)
        ensures
            n == self@.txn_id,
    {
        self.txn_id
    }

    /// The meta slot in force.
    pub fn active_slot(&self) -> (n: u8)
        ensures
            n == self.active(),
    {
        self.active_slot
    }

    /// Where in the file data page `id` stands.
    pub fn file_offset(&self, id: u32) -> (at: u64)
        requires
            self.wf(),
        ensures
            at == disk::page_offset(id, self@.size),
    {
        let index: u64 = if id >= page::FIRST_DATA_PAGE_ID {
            (id - page::FIRST_DATA_PAGE_ID) as u64
        } else {
            0
        };
        let size: u64 = self.page_size.bytes() as u64;
        assert(index * size <= 0xFFFF_FFFF * 0x1_0000) by (nonlinear_arith)
            requires
                index <= 0xFFFF_FFFF,
                size <= 0x1_0000,
        ;
        page::META_REGION_LEN + index * size
    }

    /// Take the bytes that the file has for data page `id`, if their
    /// checksum verifies.
    pub fn read_data_page(&self, id: u32, bytes: Vec<u8>) -> (r: Result<Vec<u8>, PinaxError>)
        ensures
            match r {
                Ok(buf) => page::checksum_ok(bytes@) && buf@ == bytes@,
                Err(e) => !page::checksum_ok(bytes@) && e == (PinaxError::Fatal {
                    source: FatalError::Corruption {
                        page_id: id,
                        expected: page::stored_checksum(bytes@),
                        actual: page::checksum_of(bytes@),
                    },
                }),
            },
    {
        match verify_checksum(bytes.as_slice()) {
            Ok(()) => Ok(bytes),
            Err((expected, actual)) => Err(
                PinaxError::Fatal {
                    source: FatalError::Corruption { page_id: id, expected, actual },
                },
            ),
        }
    }

    /// Stamp `buf`'s checksum and return the action that writes it to data
    /// page `id`. A buffer of any length is taken, if it has room for the
    /// checksum.
    pub fn write_data_page(&self, id: u32, buf: &mut Vec<u8>) -> (r: Result<IoAction, PinaxError>)
        requires
            self.wf(),
        ensures
            match r {
                Ok(action) => old(buf)@.len() >= page::CHECKSUM_LEN && final(buf)@
                    == page::stamped(page::body(old(buf)@)) && action@ == disk::page_write(
                    id,
                    self@.size,
                    page::body(old(buf)@),
                ),
                Err(e) => old(buf)@.len() < page::CHECKSUM_LEN && final(buf)@ == old(buf)@ && e
                    == error::bounds_error(0, 8, old(buf)@.len() as int),
            },
    {
        stamp_checksum(buf)?;
        let copy = buf.clone();
        assert(copy@ =~= buf@);
        Ok(IoAction::Write { offset: self.file_offset(id), bytes: copy })
    }

    /// The actions that commit a new tree state: a sync of the data pages,
    /// the write of the meta slot that is not in force, with the next
    /// transaction number, and a sync of it. The state itself changes when
    /// they have been performed ([`Pager::commit_done`]).
    pub fn commit(&self, new_root: u32, new_page_count: u32) -> (r: Result<
        Vec<IoAction>,
        PinaxError,
    >)
        requires
            self.wf(),
            self@.txn_id < u64::MAX,
        ensures
            r matches Ok(actions) && disk::io_views(actions@) == commit_actions(
                self@,
                self.active(),
                new_root,
                new_page_count,
            ),
    {
        let content = MetaContent {
            page_size: self.page_size,
            txn_id: self.txn_id + 1,
            root_page_id: new_root,
            page_count: new_page_count,
        };
        let slot = encode_meta_slot(&content)?;
        let offset: u64 = (1 - self.active_slot) as u64 * page::META_SLOT_LEN;
        let mut actions: Vec<IoAction> = Vec::new();
        actions.push(IoAction::SyncData);
        actions.push(IoAction::Write { offset, bytes: slot });
        actions.push(IoAction::SyncAll);
        assert(disk::io_views(actions@) =~= commit_actions(
            self@,
            self.active(),
            new_root,
            new_page_count,
        ));
        Ok(actions)
    }

    /// Take the new tree state as committed: the other slot is in force.
    pub fn commit_done(&mut self, new_root: u32, new_page_count: u32)
        requires
            old(self).wf(),
            old(self)@.txn_id < u64::MAX,
        ensures
            final(self).wf(),
            final(self)@ == next_meta(old(self)@, new_root, new_page_count),
            final(self).active() == 1 - old(self).active(),
    {
        self.active_slot = 1 - self.active_slot;
        self.txn_id = self.txn_id + 1;
        self.root_page_id = new_root;
        self.page_count = new_page_count;
    }

    /// Check that a page's type byte is the expected one.
    pub fn expect_page_type(
        id: u32,
        buf: &[u8],
        expected_byte: u8,
        expected_label: &'static str,
    ) -> (r: Result<(), PinaxError>)
        ensures
            match r {
                Ok(()) => buf@.len() >= 1 && buf@[0] == expected_byte,
                Err(e) => if buf@.len() == 0 {
                    e == error::bounds_error(0, 1, 0)
                } else {
                    buf@[0] != expected_byte && e == (PinaxError::Fatal {
                        source: FatalError::UnexpectedPageType {
                            page_id: id,
                            expected: expected_label,
                            actual: buf@[0],
                        },
                    })
                },
            },
    {
        let actual: u8 = read_u8(buf, 0)?;
        if actual == expected_byte {
            Ok(())
        } else {
            Err(
                PinaxError::Fatal {
                    source: FatalError::UnexpectedPageType {
                        page_id: id,
                        expected: expected_label,
                        actual,
                    },
                },
            )
        }
    }
}

/// A freshly created file is opened as what it was created as.
pub proof fn created_file_opens(size: int)
    requires
        page::valid_page_size(size),
    ensures
        ({
            let file = disk::performed(Seq::empty(), create_actions(fresh_meta(size)));
            &&& file.len() == page::META_REGION_LEN
            &&& recovered_file(file) == Some((0int, fresh_meta(size)))
        }),
{
    let m = fresh_meta(size);
    let actions = create_actions(m);
    let region = meta_slot(m) + Seq::new(4096, |i: int| 0u8);
    meta_slot_round_trip(m);
    assert(actions.drop_last() =~= seq![actions[0]]);
    assert(actions.drop_last().drop_last() =~= Seq::<IoView>::empty());
    reveal_with_fuel(disk::performed, 3);
    let file = disk::performed(Seq::empty(), actions);
    assert(file =~= region);
    assert(disk::slot_of(file, 0) =~= meta_slot(m));
    assert(disk::slot_of(file, 1)[0] == 0);
    zero_slot_is_unusable(disk::slot_of(file, 1));
}

/// Performing the actions of a commit puts the new state in force, in the
/// other slot, whatever that held, and leaves the data pages as they were.
pub proof fn committed_file_opens(
    file: Seq<u8>,
    active: int,
    meta: MetaView,
    root: u32,
    count: u32,
)
    requires
        file.len() >= page::META_REGION_LEN,
        active == 0 || active == 1,
        slot_meta(disk::slot_of(file, active)) == Some(meta),
        meta.txn_id < u64::MAX,
    ensures
        ({
            let after = disk::performed(file, commit_actions(meta, active, root, count));
            &&& after.len() == file.len()
            &&& recovered_file(after) == Some((1 - active, next_meta(meta, root, count)))
            &&& disk::pages_of(after, meta.size) == disk::pages_of(file, meta.size)
        }),
{
    let m = next_meta(meta, root, count);
    let slot = 1 - active;
    let actions = commit_actions(meta, active, root, count);
    meta_slot_round_trip(m);
    disk::slot_write_effect(file, meta.size, slot, meta_slot(m));
    assert(actions.drop_last() =~= seq![actions[0], actions[1]]);
    assert(actions.drop_last().drop_last() =~= seq![actions[0]]);
    assert(actions.drop_last().drop_last().drop_last() =~= Seq::<IoView>::empty());
    reveal_with_fuel(disk::performed, 4);
}

/// Whatever a crash leaves in the slot that a commit writes, as long as it
/// is not usable, the previous state stays in force.
pub proof fn torn_commit_keeps_previous_state(
    file: Seq<u8>,
    active: int,
    meta: MetaView,
    torn: Seq<u8>,
)
    requires
        file.len() >= page::META_REGION_LEN,
        recovered_file(file) == Some((active, meta)),
        torn.len() == page::META_SLOT_LEN,
        slot_meta(torn) is None,
    ensures
        recovered_file(disk::written(file, (1 - active) * page::META_SLOT_LEN, torn)) == Some(
            (active, meta),
        ),
{
    disk::slot_write_effect(file, meta.size, 1 - active, torn);
}

} // verus!
