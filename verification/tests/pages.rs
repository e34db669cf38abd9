use pinax::btree::layout::{
    build_leaf_cell, free_space, init_interior, init_leaf, insert_cell_at, interior_child_at,
    interior_find_child_for_key, interior_key_at, interior_rightmost, leaf_cell_at, leaf_search,
    num_cells, remove_cell_at, build_interior_cell,
};
use pinax::btree::mutate::{
    build_interior_page, collapse_root_if_needed, interior_entries, max_interior_entries,
    split_interior_entries,
};
use pinax::btree::overflow::{overflow_chunk_cap, write_overflow_chain, Reassembly};
use pinax::btree::tree::NodeResult;
use pinax::buffer_pool::BufferPool;
use pinax::codec::{read_u32, write_u8};
use pinax::page;
use pinax::pager::{encode_meta_slot, MetaContent, Pager};
use pinax::{FatalError, IoAction, PageSize, PermanentError, PinaxError};

/// A database file in memory.
struct Disk {
    bytes: Vec<u8>,
}

impl Disk {
    fn perform(&mut self, actions: &[IoAction]) {
        for action in actions {
            if let IoAction::Write { offset, bytes } = action {
                let start = *offset as usize;
                let end = start + bytes.len();
                if self.bytes.len() < end {
                    self.bytes.resize(end, 0);
                }
                self.bytes[start..end].copy_from_slice(bytes);
            }
        }
    }

    fn read(&self, offset: u64, len: usize) -> Vec<u8> {
        self.bytes[offset as usize..offset as usize + len].to_vec()
    }

    fn open(&self) -> Result<Pager, PinaxError> {
        let slot_a = self.bytes.get(..4096).unwrap_or(&[]);
        let slot_b = self.bytes.get(4096..8192).unwrap_or(&[]);
        Pager::open(self.bytes.len() as u64, slot_a, slot_b)
    }
}

fn create() -> (Disk, Pager) {
    let (pager, actions) = Pager::create(PageSize::default()).expect("create");
    let mut disk = Disk { bytes: Vec::new() };
    disk.perform(&actions);
    (disk, pager)
}

fn commit(disk: &mut Disk, pager: &mut Pager, root: u32, count: u32) {
    let actions = pager.commit(root, count).expect("commit");
    disk.perform(&actions);
    pager.commit_done(root, count);
}

fn pool_with_capacity(capacity: usize) -> (Disk, BufferPool) {
    let (disk, pager) = create();
    (disk, BufferPool::new(pager, capacity).expect("valid capacity"))
}

fn flush(disk: &mut Disk, pool: &mut BufferPool) {
    let actions = pool.take_outbox();
    disk.perform(&actions);
}

/// A page of the pool, read from the file where it is not cached.
fn read_through(disk: &mut Disk, pool: &mut BufferPool, id: u32) -> Result<Vec<u8>, PinaxError> {
    flush(disk, pool);
    if let Some(buf) = pool.get(id) {
        return Ok(buf);
    }
    let bytes = disk.read(pool.file_offset(id), pool.page_size().bytes_usize());
    pool.supply(id, bytes)?;
    Ok(pool.get(id).expect("supplied"))
}

// ---- the pager ----

#[test]
fn create_then_open_round_trips_empty_state() {
    let (disk, pager) = create();
    assert_eq!(pager.root_page_id(), page::EMPTY_TREE_ROOT);
    assert_eq!(pager.page_count(), page::FIRST_DATA_PAGE_ID);
    let reopened = disk.open().expect("open");
    assert_eq!(reopened.page_size().bytes(), 4096);
    assert_eq!(reopened.root_page_id(), page::EMPTY_TREE_ROOT);
}

#[test]
fn commit_persists_new_root_and_survives_reopen() {
    let (mut disk, mut pager) = create();
    commit(
        &mut disk,
        &mut pager,
        page::FIRST_DATA_PAGE_ID,
        page::FIRST_DATA_PAGE_ID + 1,
    );
    assert_eq!(pager.root_page_id(), page::FIRST_DATA_PAGE_ID);
    let reopened = disk.open().expect("reopen");
    assert_eq!(reopened.root_page_id(), page::FIRST_DATA_PAGE_ID);
    assert_eq!(reopened.page_count(), page::FIRST_DATA_PAGE_ID + 1);
}

#[test]
fn commit_alternates_meta_slots() {
    let (mut disk, mut pager) = create();
    assert_eq!(pager.active_slot(), 0);
    commit(
        &mut disk,
        &mut pager,
        page::EMPTY_TREE_ROOT,
        page::FIRST_DATA_PAGE_ID,
    );
    assert_eq!(pager.active_slot(), 1);
    commit(
        &mut disk,
        &mut pager,
        page::EMPTY_TREE_ROOT,
        page::FIRST_DATA_PAGE_ID,
    );
    assert_eq!(pager.active_slot(), 0);
}

#[test]
fn crash_before_commit_leaves_prior_state_on_reopen() {
    let (mut disk, pager) = create();
    let mut orphan = vec![0xAA_u8; pager.page_size().bytes_usize()];
    let write = pager
        .write_data_page(page::FIRST_DATA_PAGE_ID, &mut orphan)
        .expect("write survives even without commit");
    disk.perform(&[write]);

    let reopened = disk.open().expect("reopen after simulated crash");
    assert_eq!(reopened.root_page_id(), page::EMPTY_TREE_ROOT);
    assert_eq!(reopened.page_count(), page::FIRST_DATA_PAGE_ID);
}

#[test]
fn corrupted_data_page_fails_checksum_on_read() {
    let (mut disk, mut pager) = create();
    let mut buf = vec![0x11_u8; pager.page_size().bytes_usize()];
    let write = pager
        .write_data_page(page::FIRST_DATA_PAGE_ID, &mut buf)
        .expect("write");
    disk.perform(&[write]);
    commit(
        &mut disk,
        &mut pager,
        page::FIRST_DATA_PAGE_ID,
        page::FIRST_DATA_PAGE_ID + 1,
    );

    let offset = pager.file_offset(page::FIRST_DATA_PAGE_ID);
    disk.bytes[offset as usize] ^= 0xFF;

    let err = pager
        .read_data_page(
            page::FIRST_DATA_PAGE_ID,
            disk.read(offset, pager.page_size().bytes_usize()),
        )
        .expect_err("checksum must catch the flipped byte");
    assert!(matches!(
        err,
        PinaxError::Fatal {
            source: FatalError::Corruption { .. }
        }
    ));
}

#[test]
fn corrupted_active_meta_slot_falls_back_to_prior_slot() {
    let (mut disk, mut pager) = create();
    commit(
        &mut disk,
        &mut pager,
        page::FIRST_DATA_PAGE_ID,
        page::FIRST_DATA_PAGE_ID + 1,
    );
    disk.bytes[4096] ^= 0xFF;

    let reopened = disk.open().expect("falls back to slot 0");
    assert_eq!(reopened.root_page_id(), page::EMPTY_TREE_ROOT);
    assert_eq!(reopened.txn_id(), 0);
}

#[test]
fn both_meta_slots_corrupted_is_fatal() {
    let (mut disk, _) = create();
    disk.bytes[..8192].fill(0);

    let err = match disk.open() {
        Ok(_) => panic!("neither slot verifies"),
        Err(err) => err,
    };
    assert!(matches!(
        err,
        PinaxError::Fatal {
            source: FatalError::NoValidMetaPage { .. }
        }
    ));
}

#[test]
fn expect_page_type_accepts_match_and_rejects_mismatch() {
    let mut buf = vec![0u8; 16];
    write_u8(&mut buf, 0, page::PAGE_TYPE_LEAF).expect("in bounds");
    Pager::expect_page_type(2, &buf, page::PAGE_TYPE_LEAF, "leaf").expect("matches");
    let err = Pager::expect_page_type(2, &buf, page::PAGE_TYPE_INTERIOR, "interior")
        .expect_err("byte is leaf, not interior");
    assert!(matches!(
        err,
        PinaxError::Fatal {
            source: FatalError::UnexpectedPageType { .. }
        }
    ));
}

#[test]
fn file_without_a_meta_region_is_too_small() {
    let disk = Disk {
        bytes: vec![0u8; 100],
    };
    assert_eq!(
        disk.open().map(|_| ()),
        Err(PinaxError::Fatal {
            source: FatalError::FileTooSmall {
                actual_len: 100,
                min_len: 8192
            }
        })
    );
}

#[test]
fn meta_slot_has_these_bytes() {
    let slot = encode_meta_slot(&MetaContent {
        page_size: PageSize::default(),
        txn_id: 7,
        root_page_id: 3,
        page_count: 5,
    })
    .expect("encodes");
    assert_eq!(slot.len(), 4096);
    assert_eq!(
        slot[..30],
        [
            b'P', b'N', b'X', b'1', // magic
            0, 1, // format version
            0, 0, 0x10, 0, // page size
            0, 0, 0, 0, 0, 0, 0, 7, // transaction number
            0, 0, 0, 3, // root
            0, 0, 0, 5, // page count
            0, 0, 0, 0, // free list
        ]
    );
    assert!(slot[30..4088].iter().all(|b| *b == 0));
    assert!(page::verify_checksum(&slot).is_ok());
}

#[test]
fn data_pages_stand_behind_the_meta_region() {
    let (_, pager) = create();
    assert_eq!(pager.file_offset(2), 8192);
    assert_eq!(pager.file_offset(3), 12288);
    assert_eq!(pager.file_offset(102), 8192 + 100 * 4096);
}

#[test]
fn written_page_reads_back() {
    let (mut disk, pager) = create();
    let mut buf = vec![0x5A_u8; 4096];
    let write = pager.write_data_page(9, &mut buf).expect("write");
    disk.perform(&[write]);
    let bytes = disk.read(pager.file_offset(9), 4096);
    assert_eq!(pager.read_data_page(9, bytes), Ok(buf));
}

#[test]
fn page_type_error_names_the_page() {
    let buf = vec![page::PAGE_TYPE_OVERFLOW; 16];
    assert_eq!(
        Pager::expect_page_type(77, &buf, page::PAGE_TYPE_LEAF, "leaf"),
        Err(PinaxError::Fatal {
            source: FatalError::UnexpectedPageType {
                page_id: 77,
                expected: "leaf",
                actual: page::PAGE_TYPE_OVERFLOW,
            }
        })
    );
}

// ---- the buffer pool ----

#[test]
fn zero_capacity_is_rejected() {
    let (_, pager) = create();
    let err = match BufferPool::new(pager, 0) {
        Ok(_) => panic!("capacity 0 is invalid"),
        Err(err) => err,
    };
    assert!(matches!(
        err,
        PinaxError::Permanent {
            source: PermanentError::InvalidBufferPoolCapacity { .. }
        }
    ));
}

#[test]
fn put_then_get_round_trips_without_touching_disk() {
    let (_, mut pool) = pool_with_capacity(4);
    let id = pool.allocate_page_id();
    let buf = vec![7u8; pool.page_size().bytes_usize()];
    pool.put_new(id, buf.clone()).expect("put");
    let got = pool.get(id).expect("get");
    assert_eq!(got.first(), buf.first());
    assert!(pool.take_outbox().is_empty());
}

#[test]
fn eviction_flushes_dirty_pages_to_disk() {
    let (mut disk, mut pool) = pool_with_capacity(2);
    let page_size = pool.page_size().bytes_usize();
    let ids: Vec<u32> = (0..5).map(|_| pool.allocate_page_id()).collect();
    for &id in &ids {
        let mut buf = vec![0u8; page_size];
        if let Some(b) = buf.first_mut() {
            *b = 1;
        }
        pool.put_new(id, buf).expect("put");
    }
    // Capacity 2 with 5 distinct ids forces 3 evictions; every evicted page
    // was written, not dropped.
    flush(&mut disk, &mut pool);
    let (_, pager) = create();
    for &id in &ids[..3] {
        let read_back = pager
            .read_data_page(id, disk.read(pool.file_offset(id), page_size))
            .expect("evicted pages are on disk");
        assert_eq!(read_back.first().copied(), Some(1));
    }
    // The two that stayed are written by a flush.
    pool.flush_all_dirty().expect("flush");
    flush(&mut disk, &mut pool);
    for &id in &ids {
        let read_back = pager
            .read_data_page(id, disk.read(pool.file_offset(id), page_size))
            .expect("flushed pages are on disk");
        assert_eq!(read_back.first().copied(), Some(1));
    }
}

#[test]
fn get_reads_through_on_cache_miss() {
    let (mut disk, mut pool) = pool_with_capacity(1);
    let id = pool.allocate_page_id();
    let mut buf = vec![0u8; pool.page_size().bytes_usize()];
    if let Some(b) = buf.first_mut() {
        *b = 9;
    }
    pool.put_new(id, buf).expect("put");
    let other = pool.allocate_page_id();
    pool.put_new(other, vec![0u8; pool.page_size().bytes_usize()])
        .expect("put forces eviction of the first page");
    assert_eq!(pool.get(id), None);
    let got = read_through(&mut disk, &mut pool, id).expect("read-through from disk");
    assert_eq!(got.first().copied(), Some(9));
}

#[test]
fn corrupted_page_surfaces_on_get() {
    let (mut disk, mut pool) = pool_with_capacity(1);
    let id = pool.allocate_page_id();
    pool.put_new(id, vec![0u8; pool.page_size().bytes_usize()])
        .expect("put");
    pool.flush_all_dirty().expect("flush to disk");
    let other = pool.allocate_page_id();
    pool.put_new(other, vec![0u8; pool.page_size().bytes_usize()])
        .expect("evicts id");
    flush(&mut disk, &mut pool);

    disk.bytes[pool.file_offset(id) as usize] ^= 0xFF;

    let err = read_through(&mut disk, &mut pool, id)
        .expect_err("checksum must catch the flipped byte");
    assert!(matches!(
        err,
        PinaxError::Fatal {
            source: FatalError::Corruption { .. }
        }
    ));
}

#[test]
fn allocate_page_id_is_monotonic_and_never_repeats() {
    let (_, mut pool) = pool_with_capacity(4);
    let a = pool.allocate_page_id();
    let b = pool.allocate_page_id();
    let c = pool.allocate_page_id();
    assert!(a < b && b < c);
}

#[test]
fn commit_persists_new_root_across_reopen() {
    let (mut disk, mut pool) = pool_with_capacity(4);
    let id = pool.allocate_page_id();
    pool.put_new(id, vec![5u8; pool.page_size().bytes_usize()])
        .expect("put");
    pool.commit(id).expect("commit");
    flush(&mut disk, &mut pool);

    let reopened = disk.open().expect("reopen");
    assert_eq!(reopened.root_page_id(), id);
}

#[test]
fn evict_one_on_empty_pool_is_reported_not_panicked() {
    let (_, mut pool) = pool_with_capacity(1);
    let err = pool.evict_one().expect_err("recency queue is empty");
    assert!(matches!(
        err,
        PinaxError::Fatal {
            source: FatalError::PoolInvariantViolated { .. }
        }
    ));
}

#[test]
fn least_recently_used_page_leaves_first() {
    let (_, mut pool) = pool_with_capacity(2);
    let a = pool.put_page(vec![1u8; 4096]).expect("put");
    let b = pool.put_page(vec![2u8; 4096]).expect("put");
    assert!(pool.get(a).is_some());
    let c = pool.put_page(vec![3u8; 4096]).expect("put");
    assert!(pool.get(b).is_none());
    assert!(pool.get(a).is_some());
    assert!(pool.get(c).is_some());
    let actions = pool.take_outbox();
    assert_eq!(actions.len(), 1);
    assert!(matches!(&actions[0], IoAction::Write { offset: 12288, bytes } if bytes[0] == 2));
}

#[test]
fn failed_commit_keeps_the_cached_pages() {
    let (_, mut pool) = pool_with_capacity(4);
    let a = pool.put_page(vec![1u8; 4096]).expect("put");
    let b = pool.put_page(vec![2u8; 4096]).expect("put");
    pool.commit(b).expect("commit");
    assert!(pool.has_pending());
    let next = pool.next_page_id();
    let actions = pool.take_outbox();
    assert_eq!(actions.len(), 6);
    // The write of the first page was performed, that of the second was not.
    pool.commit_failed(1);
    assert!(!pool.has_pending());
    assert_eq!(pool.root_page_id(), page::EMPTY_TREE_ROOT);
    assert_eq!(pool.next_page_id(), next);
    assert_eq!(pool.get(a).expect("cached")[..4088], [1u8; 4088]);
    assert_eq!(pool.get(b).expect("cached")[..4088], [2u8; 4088]);
    // The page that was not written is written with the next flush.
    pool.flush_all_dirty().expect("flush");
    let again = pool.take_outbox();
    assert_eq!(again.len(), 2);
    assert!(matches!(&again[0], IoAction::Write { offset: 12288, bytes } if bytes[0] == 2));
}

#[test]
fn failed_commit_counts_the_actions_before_its_own() {
    let (_, mut pool) = pool_with_capacity(1);
    let _ = pool.put_page(vec![1u8; 4096]).expect("put");
    let b = pool.put_page(vec![2u8; 4096]).expect("put");
    pool.commit(b).expect("commit");
    // The write of the evicted page, and then that of the cached one.
    pool.commit_failed(1);
    pool.flush_all_dirty().expect("flush");
    assert_eq!(pool.take_outbox().len(), 2);
    pool.commit(b).expect("commit");
    pool.commit_failed(3);
    pool.flush_all_dirty().expect("flush");
    assert_eq!(pool.take_outbox().len(), 1);
}

#[test]
fn put_over_a_dirty_page_replaces_it() {
    let (mut disk, mut pool) = pool_with_capacity(2);
    let a = pool.put_page(vec![1u8; 4096]).expect("put");
    let b = pool.put_page(vec![2u8; 4096]).expect("put");
    pool.put_new(a, vec![3u8; 4096]).expect("put over");
    assert!(pool.take_outbox().is_empty());
    assert_eq!(pool.get(a).expect("cached")[0], 3);
    // The page is the most recently used one: the other leaves first.
    let _ = pool.put_page(vec![4u8; 4096]).expect("put");
    assert!(pool.get(b).is_none());
    pool.flush_all_dirty().expect("flush");
    flush(&mut disk, &mut pool);
    assert_eq!(disk.bytes[8192], 3);
    assert_eq!(disk.bytes[12288], 2);
}

#[test]
fn put_over_a_written_page_writes_it_again() {
    let (mut disk, mut pool) = pool_with_capacity(1);
    let a = pool.put_page(vec![1u8; 4096]).expect("put");
    pool.commit(a).expect("commit");
    flush(&mut disk, &mut pool);
    pool.commit_done();
    assert_eq!(disk.bytes[8192], 1);
    // Over a clean cached page, and over one that has left the cache.
    pool.put_new(a, vec![2u8; 4096]).expect("put over");
    let _ = pool.put_page(vec![3u8; 4096]).expect("put");
    assert!(pool.get(a).is_none());
    flush(&mut disk, &mut pool);
    assert_eq!(disk.bytes[8192], 2);
    pool.put_new(a, vec![4u8; 4096]).expect("put over");
    pool.flush_all_dirty().expect("flush");
    flush(&mut disk, &mut pool);
    assert_eq!(disk.bytes[8192], 4);
    assert_eq!(disk.bytes[12288], 3);
}

#[test]
fn page_cached_over_a_dirty_one_stays_dirty() {
    let (_, mut pool) = pool_with_capacity(2);
    let a = pool.put_page(vec![1u8; 4096]).expect("put");
    pool.insert_cached(a, vec![2u8; 4096], false).expect("cache");
    pool.insert_cached(40, vec![3u8; 4096], false).expect("cache");
    pool.flush_all_dirty().expect("flush");
    let actions = pool.take_outbox();
    assert_eq!(actions.len(), 2);
    assert!(matches!(&actions[0], IoAction::Write { offset: 8192, bytes } if bytes[0] == 2));
}

#[test]
fn recalled_page_is_the_most_recently_used() {
    let (_, mut pool) = pool_with_capacity(2);
    let a = pool.put_page(vec![1u8; 4096]).expect("put");
    let b = pool.put_page(vec![2u8; 4096]).expect("put");
    // Cached: the cached bytes stay.
    pool.recall(a, &vec![9u8; 4096]).expect("recall");
    let c = pool.put_page(vec![3u8; 4096]).expect("put");
    assert!(pool.get(b).is_none());
    assert_eq!(pool.get(a).expect("cached")[0], 1);
    // Gone: the copy comes back, and is not dirty.
    pool.recall(b, &vec![2u8; 4096]).expect("recall");
    assert!(pool.get(c).is_none());
    assert_eq!(pool.get(b).expect("cached")[0], 2);
    pool.flush_all_dirty().expect("flush");
    let actions = pool.take_outbox();
    let writes = actions.iter().filter(|a| matches!(a, IoAction::Write { .. })).count();
    assert_eq!(writes, 3);
}

#[test]
fn buffer_without_room_for_a_checksum_is_not_written() {
    let (_, pager) = create();
    let mut short = vec![1u8; 7];
    assert!(matches!(
        pager.write_data_page(2, &mut short),
        Err(PinaxError::Fatal {
            source: FatalError::BufferBounds { at: 0, len: 8, buf_len: 7 }
        })
    ));
    assert_eq!(short, vec![1u8; 7]);
    let mut odd = vec![1u8; 100];
    let write = pager.write_data_page(3, &mut odd).expect("write");
    assert!(matches!(&write, IoAction::Write { offset: 12288, bytes } if *bytes == odd));
    assert_eq!(odd[..92], [1u8; 92]);
    assert_ne!(odd[92..], [1u8; 8]);
}

// ---- the page layout ----

#[test]
fn collapse_keeps_or_follows_the_root() {
    let (_, mut pool) = pool_with_capacity(16);
    let leaf_id = pool.allocate_page_id();
    let mut leaf_buf = vec![0u8; pool.page_size().bytes_usize()];
    init_leaf(&mut leaf_buf).expect("init leaf");
    pool.put_new(leaf_id, leaf_buf).expect("put leaf");
    let mut interior_buf = vec![0u8; pool.page_size().bytes_usize()];
    init_interior(&mut interior_buf, leaf_id).expect("init interior with zero keys");
    assert_eq!(collapse_root_if_needed(99, &interior_buf), Ok(leaf_id));
    let cell = build_interior_cell(5, 1);
    insert_cell_at(&mut interior_buf, 9, 0, &cell).expect("fits");
    assert_eq!(collapse_root_if_needed(99, &interior_buf), Ok(99));
}

#[test]
fn leaf_page_takes_finds_and_gives_up_cells() {
    let mut buf = vec![0u8; 4096];
    init_leaf(&mut buf).expect("init leaf");
    assert_eq!(free_space(&buf, 5), Ok(4083));
    for (index, key) in [10i64, 20, 30].into_iter().enumerate() {
        let cell = build_leaf_cell(key, 2, 0, &[key as u8, 7]);
        insert_cell_at(&mut buf, 5, index, &cell).expect("fits");
    }
    assert_eq!(num_cells(&buf), Ok(3));
    assert_eq!(free_space(&buf, 5), Ok(4083 - 3 * 20));
    assert_eq!(leaf_search(&buf, 20), Ok(Ok(1)));
    assert_eq!(leaf_search(&buf, 25), Ok(Err(2)));
    let cell = leaf_cell_at(&buf, 1, 4053).expect("readable");
    assert_eq!(cell.key, 20);
    assert_eq!(cell.payload_len, 2);
    assert_eq!(cell.local, vec![20, 7]);
    remove_cell_at(&mut buf, 5, 1).expect("there");
    assert_eq!(leaf_search(&buf, 20), Ok(Err(1)));
    assert_eq!(leaf_search(&buf, 30), Ok(Ok(1)));
    assert!(remove_cell_at(&mut buf, 5, 2).is_err());
}

#[test]
fn interior_page_routes_by_its_separators() {
    let mut buf = vec![0u8; 4096];
    init_interior(&mut buf, 40).expect("init interior");
    insert_cell_at(&mut buf, 9, 0, &build_interior_cell(10, 20)).expect("fits");
    insert_cell_at(&mut buf, 9, 1, &build_interior_cell(50, 30)).expect("fits");
    assert_eq!(interior_key_at(&buf, 1), Ok(50));
    assert_eq!(interior_child_at(&buf, 0), Ok(20));
    assert_eq!(interior_rightmost(&buf), Ok(40));
    assert_eq!(interior_find_child_for_key(&buf, 9), Ok(20));
    assert_eq!(interior_find_child_for_key(&buf, 10), Ok(30));
    assert_eq!(interior_find_child_for_key(&buf, 49), Ok(30));
    assert_eq!(interior_find_child_for_key(&buf, 50), Ok(40));
}

#[test]
fn page_capacities() {
    assert_eq!(overflow_chunk_cap(4096), 4083);
    assert_eq!(overflow_chunk_cap(65536), 65523);
    assert_eq!(max_interior_entries(4096), 291);
    assert_eq!(max_interior_entries(8192), 583);
}

#[test]
fn put_page_is_given_back_through_eviction() {
    let (mut disk, mut pool) = pool_with_capacity(2);
    let size = pool.page_size().bytes_usize();
    let ids: Vec<u32> = (0..7).map(|_| pool.allocate_page_id()).collect();
    for (i, id) in ids.iter().enumerate() {
        pool.put_new(*id, vec![i as u8 + 1; size]).expect("put");
    }
    for round in 0..2 {
        for (i, id) in ids.iter().enumerate() {
            let got = read_through(&mut disk, &mut pool, *id).expect("given back");
            assert_eq!(got.len(), size);
            assert!(got[..size - 8].iter().all(|b| *b == i as u8 + 1));
        }
        if round == 0 {
            pool.flush_all_dirty().expect("flush");
        }
    }
}

#[test]
fn interior_page_is_read_as_it_was_built() {
    let keys = vec![-5, 0, 9];
    let children = vec![11, 12, 13, 14];
    let buf = build_interior_page(4096, &keys, &children, 0, 3).expect("builds");
    assert_eq!(buf.len(), 4096);
    assert_eq!(buf[0], 2);
    assert_eq!(interior_entries(&buf), Ok((keys, children)));
}

#[test]
fn interior_entries_read_a_cell_from_its_key_on() {
    let mut buf = vec![0u8; 4096];
    init_interior(&mut buf, 40).expect("init interior");
    insert_cell_at(&mut buf, 9, 0, &build_interior_cell(10, 20)).expect("fits");
    buf[9..11].copy_from_slice(&4094u16.to_be_bytes());
    assert_eq!(
        interior_entries(&buf),
        Err(PinaxError::Fatal {
            source: FatalError::BufferBounds {
                at: 4094,
                len: 8,
                buf_len: 4096
            }
        })
    );
    buf[9..11].copy_from_slice(&4086u16.to_be_bytes());
    assert_eq!(
        interior_entries(&buf),
        Err(PinaxError::Fatal {
            source: FatalError::BufferBounds {
                at: 4094,
                len: 4,
                buf_len: 4096
            }
        })
    );
}

#[test]
fn as_many_separators_as_two_pages_hold_are_split() {
    let (_, mut pool) = pool_with_capacity(4);
    let most = 2 * max_interior_entries(4096) + 1;
    for n in [1, most, most + 1] {
        let keys: Vec<i64> = (0..n as i64).collect();
        let children: Vec<u32> = (0..=n as u32).map(|c| c + 100).collect();
        let made = split_interior_entries(&mut pool, 4096, &keys, &children);
        let mid = n / 2;
        if n > most {
            assert_eq!(
                made.err(),
                Some(PinaxError::Fatal {
                    source: FatalError::BufferBounds {
                        at: mid,
                        len: 1,
                        buf_len: n
                    }
                })
            );
            continue;
        }
        match made.expect("fits") {
            NodeResult::Split {
                left,
                right,
                separator_key,
            } => {
                assert_eq!(separator_key, keys[mid]);
                let a = interior_entries(&pool.get(left).expect("cached")).expect("reads");
                let b = interior_entries(&pool.get(right).expect("cached")).expect("reads");
                assert_eq!(a, (keys[..mid].to_vec(), children[..=mid].to_vec()));
                assert_eq!(b, (keys[mid + 1..].to_vec(), children[mid + 1..].to_vec()));
            }
            other => panic!("two pages, not {other:?}"),
        }
    }
}

#[test]
fn chain_gives_back_every_first_part_of_what_was_written() {
    let (_, mut pool) = pool_with_capacity(8);
    assert_eq!(write_overflow_chain(&mut pool, &[]), Ok(0));
    assert_eq!(pool.next_page_id(), 2);
    let cap = overflow_chunk_cap(4096);
    let tail: Vec<u8> = (0..2 * cap + 100).map(|i| (i % 251) as u8).collect();
    let first = write_overflow_chain(&mut pool, &tail).expect("writes");
    assert_eq!((first, pool.next_page_id()), (4, 5));
    let last = pool.get(2).expect("cached");
    assert_eq!(last[0], 3);
    assert_eq!(read_u32(&last, 1), Ok(0));
    for n in [0, 1, cap - 1, cap, cap + 1, 2 * cap, 2 * cap + 1, tail.len()] {
        let mut reading = Reassembly {
            full: Vec::new(),
            next: first,
            remaining: n,
        };
        while let Some(id) = reading.needs() {
            let buf = pool.get(id).expect("cached");
            reading.feed(id, &buf, cap).expect("an overflow page");
        }
        assert_eq!(reading.full, tail[..n].to_vec());
    }
}
