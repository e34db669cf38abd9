use pinax::lexis::Value;
use pinax::pager::{encode_meta_slot, MetaContent};
use pinax::{
    Database, FatalError, IoAction, PageSize, PermanentError, PinaxError, Progress, Row,
};

/// A database over a file in memory.
struct Store {
    db: Database,
    file: Vec<u8>,
}

fn perform(file: &mut Vec<u8>, actions: &[IoAction]) {
    for action in actions {
        if let IoAction::Write { offset, bytes } = action {
            let start = *offset as usize;
            let end = start + bytes.len();
            if file.len() < end {
                file.resize(end, 0);
            }
            file[start..end].copy_from_slice(bytes);
        }
    }
}

/// What an operation came to, before its commit was performed.
enum Outcome<T> {
    Done(T),
    Commit(Vec<IoAction>, T),
}

impl Store {
    fn create_with_capacity(capacity: usize) -> Store {
        let (actions, db) =
            Database::create_with_capacity(PageSize::default(), capacity).expect("create");
        let mut file = Vec::new();
        perform(&mut file, &actions);
        let db = match db {
            Ok(db) => db,
            Err(e) => panic!("create: {e:?}"),
        };
        Store { db, file }
    }

    fn create() -> Store {
        let (actions, db) = Database::create(PageSize::default()).expect("create");
        let mut file = Vec::new();
        perform(&mut file, &actions);
        let db = match db {
            Ok(db) => db,
            Err(e) => panic!("create: {e:?}"),
        };
        Store { db, file }
    }

    fn open_with_capacity(file: Vec<u8>, capacity: usize) -> Store {
        let opened = Database::open_with_capacity(
            file.len() as u64,
            &file[..4096],
            &file[4096..8192],
            capacity,
        );
        let db = match opened {
            Ok(db) => db,
            Err(e) => panic!("open: {e:?}"),
        };
        Store { db, file }
    }

    fn open(file: Vec<u8>) -> Store {
        let opened = Database::open(file.len() as u64, &file[..4096], &file[4096..8192]);
        let db = match opened {
            Ok(db) => db,
            Err(e) => panic!("open: {e:?}"),
        };
        Store { db, file }
    }

    /// Step an operation until it is over or hands out a commit.
    fn run<T>(
        &mut self,
        mut step: impl FnMut(&mut Database) -> Result<Progress<T>, PinaxError>,
    ) -> Result<Outcome<T>, PinaxError> {
        loop {
            match step(&mut self.db)? {
                Progress::Done(value) => return Ok(Outcome::Done(value)),
                Progress::Continue => {}
                Progress::Read {
                    page_id,
                    offset,
                    len,
                } => {
                    let start = offset as usize;
                    let bytes = self.file[start..start + len].to_vec();
                    self.db.supply(page_id, bytes)?;
                }
                Progress::Commit { actions, value } => return Ok(Outcome::Commit(actions, value)),
            }
        }
    }

    fn complete<T>(&mut self, outcome: Outcome<T>) -> T {
        match outcome {
            Outcome::Done(value) => value,
            Outcome::Commit(actions, value) => {
                perform(&mut self.file, &actions);
                self.db.commit_done();
                value
            }
        }
    }

    fn insert(&mut self, key: i64, row: &Row) -> Result<(), PinaxError> {
        let outcome = self.run(|db| db.insert(key, row))?;
        Ok(self.complete(outcome))
    }

    fn update(&mut self, key: i64, row: &Row) -> Result<(), PinaxError> {
        let outcome = self.run(|db| db.update(key, row))?;
        Ok(self.complete(outcome))
    }

    fn delete(&mut self, key: i64) -> Result<Row, PinaxError> {
        let outcome = self.run(|db| db.delete(key))?;
        Ok(self.complete(outcome))
    }

    fn get(&mut self, key: i64) -> Result<Option<Row>, PinaxError> {
        let outcome = self.run(|db| db.get(key))?;
        Ok(self.complete(outcome))
    }

    fn scan(&mut self) -> Result<Vec<(i64, Row)>, PinaxError> {
        let outcome = self.run(|db| db.scan())?;
        Ok(self.complete(outcome))
    }

    /// The actions of an insert, without performing them.
    fn hand_out_insert(&mut self, key: i64, row: &Row) -> Vec<IoAction> {
        match self.run(|db| db.insert(key, row)) {
            Ok(Outcome::Commit(actions, ())) => actions,
            _ => panic!("insert hands out a commit"),
        }
    }
}

fn row(n: i64) -> Row {
    Row::new(vec![Value::Integer(n)])
}

fn sample_row(n: i64) -> Row {
    Row::new(vec![
        Value::Integer(n),
        Value::Text(format!("acceptance-row-{n}")),
    ])
}

#[test]
fn full_crud_cycle() {
    let mut store = Store::create();

    store.insert(1, &row(1)).expect("insert");
    assert_eq!(store.get(1).expect("get").expect("present"), row(1));

    store.update(1, &row(2)).expect("update");
    assert_eq!(store.get(1).expect("get").expect("present"), row(2));

    let removed = store.delete(1).expect("delete");
    assert_eq!(removed, row(2));
    assert_eq!(store.get(1).expect("get"), None);
}

#[test]
fn create_then_open_reads_back_inserted_rows() {
    let mut store = Store::create();
    store.insert(1, &row(1)).expect("insert");
    store.insert(2, &row(2)).expect("insert");
    let mut reopened = Store::open(store.file);
    assert_eq!(reopened.get(1).expect("get").expect("present"), row(1));
    assert_eq!(reopened.get(2).expect("get").expect("present"), row(2));
}

#[test]
fn scan_returns_rows_in_ascending_key_order() {
    let mut store = Store::create();
    for k in [5, 1, 3, 2, 4] {
        store.insert(k, &row(k)).expect("insert");
    }
    let scanned: Vec<i64> = store
        .scan()
        .expect("scan")
        .into_iter()
        .map(|(k, _)| k)
        .collect();
    assert_eq!(scanned, vec![1, 2, 3, 4, 5]);
}

#[test]
fn open_a_file_and_crud_rows_by_integer_key() {
    let mut db = Store::create();

    db.insert(1, &sample_row(1)).expect("create row 1");
    db.insert(2, &sample_row(2)).expect("create row 2");

    assert_eq!(db.get(1).expect("read row 1"), Some(sample_row(1)));
    assert_eq!(db.get(2).expect("read row 2"), Some(sample_row(2)));
    assert_eq!(db.get(3).expect("read missing row"), None);

    db.update(1, &sample_row(100)).expect("update row 1");
    assert_eq!(
        db.get(1).expect("read updated row 1"),
        Some(sample_row(100))
    );

    let deleted = db.delete(2).expect("delete row 2");
    assert_eq!(deleted, sample_row(2));
    assert_eq!(db.get(2).expect("read deleted row"), None);

    assert_eq!(db.get(1).expect("read row 1 again"), Some(sample_row(100)));
}

#[test]
fn survives_crash_and_reopen() {
    let mut db = Store::create();
    for i in 0..50i64 {
        db.insert(i, &sample_row(i)).expect("insert before crash");
    }
    let mut reopened = Store::open(db.file);
    for i in 0..50i64 {
        assert_eq!(
            reopened.get(i).expect("read after reopen"),
            Some(sample_row(i)),
            "row {i} must survive crash-and-reopen"
        );
    }
}

#[test]
fn corruption_is_detected_via_checksum() {
    let mut db = Store::create();
    db.insert(1, &sample_row(1)).expect("insert");
    let mut file = db.file;
    file[8192] ^= 0xFF;

    let mut db = Store::open(file);
    let err = db.get(1).expect_err("checksum must catch the flipped byte");
    assert!(
        matches!(
            err,
            PinaxError::Fatal {
                source: FatalError::Corruption { page_id: 2, .. }
            }
        ),
        "expected a Corruption error, got {err:?}"
    );
}

#[test]
fn buffer_pool_handles_a_database_larger_than_its_capacity() {
    let capacity_pages: usize = 8;
    let row_count: i64 = 4000;

    let mut db = Store::create_with_capacity(capacity_pages);
    for i in 0..row_count {
        db.insert(i, &sample_row(i))
            .expect("insert under a small buffer pool");
    }

    let capacity_bytes = capacity_pages * PageSize::default().bytes_usize();
    assert!(db.file.len() > capacity_bytes * 4);

    let mut db = Store::open_with_capacity(db.file, capacity_pages);
    for i in 0..row_count {
        assert_eq!(
            db.get(i).expect("read back under a small buffer pool"),
            Some(sample_row(i)),
            "row {i} must survive eviction-and-reload cycles"
        );
    }
}

// ---- what the operations mean together ----

#[test]
fn fresh_database_has_no_rows() {
    let mut db = Store::create();
    assert_eq!(db.file.len(), 8192);
    assert_eq!(db.scan().expect("scan"), vec![]);
    assert_eq!(db.get(0).expect("get"), None);
    let mut reopened = Store::open(db.file);
    assert_eq!(reopened.scan().expect("scan"), vec![]);
}

#[test]
fn refused_writes_leave_the_rows_alone() {
    let mut db = Store::create();
    db.insert(1, &row(1)).expect("insert");
    assert_eq!(
        db.insert(1, &row(2)),
        Err(PinaxError::Permanent {
            source: PermanentError::KeyAlreadyExists { key: 1 }
        })
    );
    assert_eq!(
        db.update(2, &row(2)),
        Err(PinaxError::Permanent {
            source: PermanentError::KeyNotFound { key: 2 }
        })
    );
    assert_eq!(
        db.delete(2),
        Err(PinaxError::Permanent {
            source: PermanentError::KeyNotFound { key: 2 }
        })
    );
    assert_eq!(db.scan().expect("scan"), vec![(1, row(1))]);
}

#[test]
fn deleting_what_was_inserted_restores_the_rows() {
    let mut db = Store::create();
    for k in [1, 3, 5] {
        db.insert(k, &row(k)).expect("insert");
    }
    let before = db.scan().expect("scan");
    db.insert(4, &row(4)).expect("insert");
    assert_eq!(db.delete(4), Ok(row(4)));
    assert_eq!(db.scan().expect("scan"), before);
}

#[test]
fn last_update_is_the_one_that_is_read() {
    let mut db = Store::create();
    db.insert(1, &row(1)).expect("insert");
    db.update(1, &row(2)).expect("update");
    db.update(1, &row(3)).expect("update");
    assert_eq!(db.get(1), Ok(Some(row(3))));
}

#[test]
fn crash_before_the_meta_slot_keeps_the_old_rows() {
    let mut db = Store::create();
    for k in 0..200 {
        db.insert(k, &sample_row(k)).expect("insert");
    }
    let before = db.scan().expect("scan");
    let file = db.file.clone();
    let actions = db.hand_out_insert(1000, &sample_row(1000));
    // The meta slot is the last write, and a sync follows it.
    assert!(matches!(actions[actions.len() - 1], IoAction::SyncAll));
    assert!(matches!(
        &actions[actions.len() - 2],
        IoAction::Write { offset, bytes } if *offset < 8192 && bytes.len() == 4096
    ));
    for k in 0..actions.len() - 1 {
        let mut crashed = file.clone();
        perform(&mut crashed, &actions[..k]);
        let mut reopened = Store::open(crashed);
        assert_eq!(reopened.scan().expect("scan"), before);
    }
    // A torn meta slot.
    let mut torn = file.clone();
    perform(&mut torn, &actions[..actions.len() - 2]);
    if let IoAction::Write { offset, bytes } = &actions[actions.len() - 2] {
        let start = *offset as usize;
        torn[start..start + 20].copy_from_slice(&bytes[..20]);
    }
    let mut reopened = Store::open(torn);
    assert_eq!(reopened.scan().expect("scan"), before);
    // All of it.
    let mut done = file;
    perform(&mut done, &actions);
    let mut reopened = Store::open(done);
    assert_eq!(
        reopened.get(1000).expect("get"),
        Some(sample_row(1000))
    );
    assert_eq!(reopened.scan().expect("scan").len(), before.len() + 1);
}

#[test]
fn crash_anywhere_leaves_the_old_rows_or_the_new() {
    let mut db = Store::create_with_capacity(3);
    for k in 0..300 {
        db.insert(k, &sample_row(k)).expect("insert");
    }
    let before = db.scan().expect("scan");
    let file = db.file.clone();
    let actions = db.hand_out_insert(1000, &sample_row(1000));
    let mut after = before.clone();
    after.push((1000, sample_row(1000)));
    let mut done = 0;
    while done < actions.len() {
        // What is between two syncs, with one write at a time torn and the
        // others performed or not.
        let mut end = done;
        while matches!(&actions[end], IoAction::Write { .. }) {
            end += 1;
        }
        for torn in done..end {
            for others in [false, true] {
                let mut crashed = file.clone();
                perform(&mut crashed, &actions[..done]);
                if others {
                    perform(&mut crashed, &actions[done..end]);
                }
                if let IoAction::Write { offset, bytes } = &actions[torn] {
                    let mut part = bytes.clone();
                    let half = part.len() / 2;
                    part[half..].fill(0xA5);
                    perform(&mut crashed, &[IoAction::Write { offset: *offset, bytes: part }]);
                }
                let mut reopened = Store::open(crashed);
                assert_eq!(reopened.scan().expect("scan"), before);
            }
        }
        let mut crashed = file.clone();
        perform(&mut crashed, &actions[..end]);
        let slot = matches!(&actions[end - 1], IoAction::Write { offset, .. } if *offset < 8192);
        let mut reopened = Store::open(crashed);
        let rows = reopened.scan().expect("scan");
        assert_eq!(rows, if slot { after.clone() } else { before.clone() });
        done = end + 1;
    }
}

#[test]
fn failed_commit_whose_meta_slot_landed_is_whole() {
    let mut db = Store::create();
    for k in 0..50 {
        db.insert(k, &sample_row(k)).expect("insert");
    }
    let before = db.scan().expect("scan");
    let actions = db.hand_out_insert(77, &sample_row(77));
    // All but the last sync was performed.
    perform(&mut db.file, &actions);
    db.db.commit_failed(actions.len() - 1);
    let mut reopened = Store::open(db.file.clone());
    assert_eq!(reopened.get(77), Ok(Some(sample_row(77))));
    assert_eq!(reopened.scan().expect("scan").len(), before.len() + 1);
    // The database goes on from the state before, and its next commit is in
    // force.
    assert_eq!(db.scan().expect("scan"), before);
    db.insert(78, &sample_row(78)).expect("insert");
    let mut reopened = Store::open(db.file);
    assert_eq!(reopened.get(77), Ok(None));
    assert_eq!(reopened.get(78), Ok(Some(sample_row(78))));
    assert_eq!(reopened.scan().expect("scan").len(), before.len() + 1);
}

#[test]
fn commit_writes_no_committed_byte() {
    let mut db = Store::create();
    for k in 0..100 {
        db.insert(k, &sample_row(k)).expect("insert");
    }
    let before = db.file.clone();
    let actions = db.hand_out_insert(5000, &sample_row(5000));
    perform(&mut db.file, &actions);
    assert_eq!(before[8192..], db.file[8192..before.len()]);
    let changed_slots = [0, 4096]
        .iter()
        .filter(|at| before[**at..**at + 4096] != db.file[**at..**at + 4096])
        .count();
    assert_eq!(changed_slots, 1);
}

#[test]
fn database_goes_on_after_a_failed_commit() {
    let mut db = Store::create_with_capacity(4);
    for k in 0..50 {
        db.insert(k, &sample_row(k)).expect("insert");
    }
    let before = db.scan().expect("scan");
    let actions = db.hand_out_insert(77, &sample_row(77));
    // Only the first write reached the file.
    perform(&mut db.file, &actions[..1]);
    db.db.commit_failed(1);
    assert_eq!(db.scan().expect("scan"), before);
    db.insert(78, &sample_row(78)).expect("insert");
    assert_eq!(db.get(77), Ok(None));
    assert_eq!(db.get(78), Ok(Some(sample_row(78))));
    let mut reopened = Store::open(db.file);
    assert_eq!(reopened.scan().expect("scan").len(), before.len() + 1);
    assert_eq!(reopened.get(78), Ok(Some(sample_row(78))));
}

#[test]
fn unanswered_commit_counts_as_failed() {
    let mut db = Store::create();
    db.insert(1, &row(1)).expect("insert");
    let _ = db.hand_out_insert(2, &row(2));
    assert_eq!(db.scan().expect("scan"), vec![(1, row(1))]);
}

#[test]
fn operations_may_change_keys_midway() {
    let mut db = Store::create_with_capacity(2);
    for k in 0..300 {
        db.insert(k, &sample_row(k)).expect("insert");
    }
    let mut db = Store::open_with_capacity(db.file, 2);
    assert!(matches!(db.db.get(5), Ok(Progress::Read { .. })));
    assert_eq!(db.get(250), Ok(Some(sample_row(250))));
    assert!(!matches!(db.db.scan(), Ok(Progress::Done(_))));
    assert_eq!(db.delete(5), Ok(sample_row(5)));
    assert_eq!(db.scan().expect("scan").len(), 299);
}

// ---- errors ----

#[test]
fn zero_capacity_database_is_refused() {
    let (actions, made) = Database::create_with_capacity(PageSize::default(), 0).expect("create");
    assert_eq!(actions.len(), 2);
    let refused = PinaxError::Permanent {
        source: PermanentError::InvalidBufferPoolCapacity,
    };
    assert_eq!(made.err(), Some(refused));
}

#[test]
fn opening_what_is_no_database_fails() {
    assert_eq!(
        Database::open(8191, &[], &[]).err(),
        Some(PinaxError::Fatal {
            source: FatalError::FileTooSmall {
                actual_len: 8191,
                min_len: 8192
            }
        })
    );
    assert_eq!(
        Database::open(8192, &[0u8; 4096], &[1u8; 4096]).err(),
        Some(PinaxError::Fatal {
            source: FatalError::NoValidMetaPage
        })
    );
}

#[test]
fn exhausted_counters_refuse_a_write() {
    let meta = |txn_id: u64, page_count: u32| {
        let mut file = encode_meta_slot(&MetaContent {
            page_size: PageSize::default(),
            txn_id,
            root_page_id: 0,
            page_count,
        })
        .expect("encodes");
        file.resize(8192, 0);
        file
    };
    let exhausted = PinaxError::Fatal {
        source: FatalError::CounterExhausted,
    };
    let mut no_pages = Store::open(meta(1, u32::MAX));
    assert_eq!(no_pages.insert(1, &row(1)), Err(exhausted));
    let mut one_page = Store::open(meta(1, u32::MAX - 1));
    let last = 8192 + (u64::from(u32::MAX) - 3) * 4096;
    assert!(matches!(
        one_page.hand_out_insert(1, &row(1))[0],
        IoAction::Write { offset, .. } if offset == last
    ));
    let exhausted = PinaxError::Fatal {
        source: FatalError::CounterExhausted,
    };
    let mut one_page = Store::open(meta(1, u32::MAX - 1));
    assert_eq!(one_page.insert(1, &blob(5000)), Err(exhausted));
    let exhausted = PinaxError::Fatal {
        source: FatalError::CounterExhausted,
    };
    let mut no_txn = Store::open(meta(u64::MAX, 2));
    assert_eq!(no_txn.insert(1, &row(1)), Err(exhausted));
    let mut fine = Store::open(meta(u64::MAX - 1, 2));
    assert_eq!(fine.insert(1, &row(1)), Ok(()));
    assert_eq!(fine.get(1), Ok(Some(row(1))));
}

#[test]
fn page_of_the_wrong_type_is_reported() {
    let mut db = Store::create();
    db.insert(1, &row(1)).expect("insert");
    let mut page = db.file[8192..12288].to_vec();
    page[0] = 3;
    pinax::page::stamp_checksum(&mut page).expect("long enough");
    db.file[8192..12288].copy_from_slice(&page);
    let mut db = Store::open(db.file);
    assert!(matches!(
        db.get(1),
        Err(PinaxError::Fatal {
            source: FatalError::UnexpectedPageType { page_id: 2, .. }
        })
    ));
}

fn blob(n: usize) -> Row {
    Row::new(vec![Value::Blob(vec![7; n])])
}

#[test]
fn leaf_is_split_by_bytes_where_the_halves_do_not_fit() {
    let mut db = Store::create();
    db.insert(1, &blob(2000)).expect("insert");
    db.insert(2, &blob(2000)).expect("insert");
    db.insert(3, &blob(4000)).expect("insert");
    let rows = vec![(1, blob(2000)), (2, blob(2000)), (3, blob(4000))];
    assert_eq!(db.scan().expect("scan"), rows);
    // Two leaf pages and a root: the third insert put three pages on top of
    // the two that the first two inserts put.
    assert_eq!(db.file.len(), 8192 + 5 * 4096);
    let mut reopened = Store::open(db.file);
    assert_eq!(reopened.scan().expect("scan"), rows);
    assert_eq!(reopened.get(3), Ok(Some(blob(4000))));
}

#[test]
fn large_row_between_two_groups_gets_a_page_of_its_own() {
    let mut db = Store::create();
    for k in [1, 2, 4, 5] {
        db.insert(k, &blob(975)).expect("insert");
    }
    db.insert(3, &blob(4000)).expect("insert");
    let mut rows = vec![
        (1, blob(975)),
        (2, blob(975)),
        (3, blob(4000)),
        (4, blob(975)),
        (5, blob(975)),
    ];
    assert_eq!(db.scan().expect("scan"), rows);
    // Three leaf pages and a root on top of the four pages before.
    assert_eq!(db.file.len(), 8192 + 8 * 4096);
    for (k, row) in &rows {
        assert_eq!(db.get(*k), Ok(Some(row.clone())));
    }
    for k in [0, 6, 7] {
        db.insert(k, &blob(3000)).expect("insert");
        rows.push((k, blob(3000)));
    }
    rows.sort_by_key(|(k, _)| *k);
    assert_eq!(db.scan().expect("scan"), rows);
    assert_eq!(Store::open(db.file).scan().expect("scan"), rows);
}

#[test]
fn updated_row_that_grows_gets_a_page_of_its_own() {
    let mut db = Store::create();
    for k in 1..=4 {
        db.insert(k, &blob(975)).expect("insert");
    }
    db.update(4, &blob(3475)).expect("update");
    db.update(2, &blob(4000)).expect("update");
    assert_eq!(
        db.scan().expect("scan"),
        vec![(1, blob(975)), (2, blob(4000)), (3, blob(975)), (4, blob(3475))]
    );
}

#[test]
fn rows_of_many_sizes_are_all_stored() {
    let sizes = [0, 10, 500, 975, 1300, 2000, 2700, 3475, 4000, 4044, 4045, 9000];
    let mut db = Store::create();
    let mut rows = Vec::new();
    for step in 0..120i64 {
        let key = (step * 37) % 121;
        let size = sizes[(step as usize * 5) % sizes.len()];
        db.insert(key, &blob(size)).expect("insert");
        rows.push((key, blob(size)));
    }
    rows.sort_by_key(|(k, _)| *k);
    assert_eq!(db.scan().expect("scan"), rows);
    for step in 0..120i64 {
        let key = (step * 37) % 121;
        let size = sizes[(step as usize * 7 + 3) % sizes.len()];
        db.update(key, &blob(size)).expect("update");
        let at = rows.iter().position(|(k, _)| *k == key).expect("there");
        rows[at].1 = blob(size);
    }
    assert_eq!(db.scan().expect("scan"), rows);
    assert_eq!(Store::open(db.file).scan().expect("scan"), rows);
}

#[test]
fn refused_insert_takes_no_page_id() {
    let mut db = Store::create();
    db.insert(1, &row(1)).expect("insert");
    for _ in 0..3 {
        assert!(db.insert(1, &blob(9000)).is_err());
        assert!(db.update(2, &blob(9000)).is_err());
        assert!(db.delete(2).is_err());
    }
    db.insert(2, &row(2)).expect("insert");
    assert_eq!(db.file.len(), 8192 + 2 * 4096);
}
