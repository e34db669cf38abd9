use pinax::btree;
use pinax::btree::cursor::{Descent, Found, Lookup, Scan, Scanned};
use pinax::btree::layout::{init_interior, init_leaf};
use pinax::btree::mutate::collapse_root_if_needed;
use pinax::btree::path::PathNode;
use pinax::buffer_pool::BufferPool;
use pinax::lexis::Value;
use pinax::pager::Pager;
use pinax::{IoAction, PageSize, PermanentError, PinaxError, Row};

/// A buffer pool over a database file in memory.
struct Store {
    pool: BufferPool,
    file: Vec<u8>,
}

fn perform(file: &mut Vec<u8>, actions: &[IoAction]) {
    for action in actions {
        if let IoAction::Write { offset, bytes } = action {
            let start = *offset as usize;
            let end = start + bytes.len();
            if file.len() < end {
                file.resize(end, 0);
            }
            file[start..end].copy_from_slice(bytes);
        }
    }
}

impl Store {
    fn create(capacity: usize) -> Store {
        let (pager, actions) = Pager::create(PageSize::default()).expect("create");
        let mut file = Vec::new();
        perform(&mut file, &actions);
        Store {
            pool: BufferPool::new(pager, capacity).expect("valid capacity"),
            file,
        }
    }

    fn reopen(file: Vec<u8>, capacity: usize) -> Store {
        let pager =
            Pager::open(file.len() as u64, &file[..4096], &file[4096..8192]).expect("reopen");
        Store {
            pool: BufferPool::new(pager, capacity).expect("valid capacity"),
            file,
        }
    }

    fn supply(&mut self, id: u32) -> Result<(), PinaxError> {
        let start = self.pool.file_offset(id) as usize;
        let len = self.pool.page_size().bytes_usize();
        let bytes = self.file[start..start + len].to_vec();
        self.pool.supply(id, bytes)
    }

    fn descend(&mut self, key: i64) -> Result<Vec<PathNode>, PinaxError> {
        let mut descent = Descent::begin(&self.pool, key);
        while !descent.arrived {
            if let Some(id) = descent.step(&mut self.pool)? {
                self.supply(id)?;
            }
        }
        Ok(descent.path)
    }

    fn committed(&mut self, done: Result<u32, PinaxError>) -> Result<u32, PinaxError> {
        let root = done?;
        let actions = self.pool.take_outbox();
        perform(&mut self.file, &actions);
        self.pool.commit_done();
        Ok(root)
    }

    fn insert(&mut self, key: i64, row: &Row) -> Result<u32, PinaxError> {
        let path = self.descend(key)?;
        let done = btree::insert(&mut self.pool, &path, key, row);
        self.committed(done)
    }

    fn update(&mut self, key: i64, row: &Row) -> Result<u32, PinaxError> {
        let path = self.descend(key)?;
        let done = btree::update(&mut self.pool, &path, key, row);
        self.committed(done)
    }

    fn delete(&mut self, key: i64) -> Result<(u32, Row), PinaxError> {
        let removed = self.get(key)?;
        let path = self.descend(key)?;
        let done = btree::delete(&mut self.pool, &path, key);
        let root = self.committed(done)?;
        Ok((root, removed.expect("present")))
    }

    fn get(&mut self, key: i64) -> Result<Option<Row>, PinaxError> {
        let mut lookup = Lookup::begin(&self.pool, key);
        loop {
            match lookup.step(&mut self.pool)? {
                Found::Wait(None) => {}
                Found::Wait(Some(id)) => self.supply(id)?,
                Found::Absent => return Ok(None),
                Found::Row(row) => return Ok(Some(row)),
            }
        }
    }

    fn scan(&mut self) -> Result<Vec<(i64, Row)>, PinaxError> {
        let mut scan = Scan::begin(&self.pool);
        loop {
            match scan.step(&mut self.pool)? {
                Scanned::Wait(None) => {}
                Scanned::Wait(Some(id)) => self.supply(id)?,
                Scanned::Rows(rows) => return Ok(rows),
            }
        }
    }
}

fn row(n: i64) -> Row {
    Row::new(vec![Value::Integer(n), Value::Text(format!("row-{n}"))])
}

#[test]
fn btree_insert_then_get_round_trips() {
    let mut store = Store::create(64);
    store.insert(1, &row(1)).expect("insert");
    let got = store.get(1).expect("get").expect("present");
    assert_eq!(got, row(1));
}

#[test]
fn btree_get_missing_key_is_none() {
    let mut store = Store::create(64);
    assert_eq!(store.get(42).expect("get"), None);
}

#[test]
fn btree_insert_duplicate_key_errors() {
    let mut store = Store::create(64);
    store.insert(1, &row(1)).expect("first insert");
    let err = store.insert(1, &row(2)).expect_err("duplicate key");
    assert!(matches!(
        err,
        PinaxError::Permanent {
            source: PermanentError::KeyAlreadyExists { .. }
        }
    ));
}

#[test]
fn btree_update_replaces_row() {
    let mut store = Store::create(64);
    store.insert(1, &row(1)).expect("insert");
    store.update(1, &row(99)).expect("update");
    assert_eq!(store.get(1).expect("get").expect("present"), row(99));
}

#[test]
fn btree_update_missing_key_errors() {
    let mut store = Store::create(64);
    let err = store.update(1, &row(1)).expect_err("no such key");
    assert!(matches!(
        err,
        PinaxError::Permanent {
            source: PermanentError::KeyNotFound { .. }
        }
    ));
}

#[test]
fn btree_delete_removes_and_returns_row() {
    let mut store = Store::create(64);
    store.insert(1, &row(1)).expect("insert");
    let (_, removed) = store.delete(1).expect("delete");
    assert_eq!(removed, row(1));
    assert_eq!(store.get(1).expect("get"), None);
}

#[test]
fn btree_delete_missing_key_errors() {
    let mut store = Store::create(64);
    let err = store.delete(1).expect_err("no such key");
    assert!(matches!(
        err,
        PinaxError::Permanent {
            source: PermanentError::KeyNotFound { .. }
        }
    ));
}

#[test]
fn btree_many_inserts_force_splits_and_all_keys_remain_readable() {
    let mut store = Store::create(1024);
    for i in 0..500i64 {
        store.insert(i, &row(i)).expect("insert");
    }
    for i in 0..500i64 {
        assert_eq!(store.get(i).expect("get").expect("present"), row(i));
    }
}

#[test]
fn btree_insert_out_of_order_keys_stay_sorted_and_readable() {
    let mut store = Store::create(1024);
    let keys: Vec<i64> = vec![50, 10, 90, 30, 70, 20, 80, 40, 60, 0];
    for &k in &keys {
        store.insert(k, &row(k)).expect("insert");
    }
    for &k in &keys {
        assert_eq!(store.get(k).expect("get").expect("present"), row(k));
    }
    let scanned = store.scan().expect("scan");
    let scanned_keys: Vec<i64> = scanned.iter().map(|(k, _)| *k).collect();
    let mut sorted_keys = keys.clone();
    sorted_keys.sort_unstable();
    assert_eq!(scanned_keys, sorted_keys);
}

#[test]
fn btree_negative_and_extreme_keys_round_trip() {
    let mut store = Store::create(64);
    for &k in &[i64::MIN, -1, 0, 1, i64::MAX] {
        store.insert(k, &row(k)).expect("insert");
    }
    for &k in &[i64::MIN, -1, 0, 1, i64::MAX] {
        assert_eq!(store.get(k).expect("get").expect("present"), row(k));
    }
}

#[test]
fn btree_large_value_spills_to_overflow_and_round_trips() {
    let mut store = Store::create(64);
    let big_text = "x".repeat(20_000);
    let big_row = Row::new(vec![Value::Text(big_text.clone())]);
    store.insert(1, &big_row).expect("insert with overflow");
    let got = store.get(1).expect("get").expect("present");
    assert_eq!(got.values(), &[Value::Text(big_text)]);
}

#[test]
fn btree_delete_then_reinsert_same_key_works() {
    let mut store = Store::create(64);
    store.insert(1, &row(1)).expect("insert");
    store.delete(1).expect("delete");
    store.insert(1, &row(2)).expect("reinsert");
    assert_eq!(store.get(1).expect("get").expect("present"), row(2));
}

#[test]
fn btree_delete_most_of_a_multi_level_tree_leaves_remaining_keys_readable() {
    let mut store = Store::create(1024);
    for i in 0..300i64 {
        store.insert(i, &row(i)).expect("insert");
    }
    for i in 0..250i64 {
        store.delete(i).expect("delete");
    }
    for i in 0..250i64 {
        assert_eq!(store.get(i).expect("get"), None);
    }
    for i in 250..300i64 {
        assert_eq!(store.get(i).expect("get").expect("present"), row(i));
    }
}

#[test]
fn btree_insert_survives_reopen() {
    let mut store = Store::create(64);
    for i in 0..20i64 {
        store.insert(i, &row(i)).expect("insert");
    }
    let mut store = Store::reopen(store.file, 64);
    for i in 0..20i64 {
        assert_eq!(store.get(i).expect("get").expect("present"), row(i));
    }
}

#[test]
fn btree_collapse_root_if_needed_collapses_a_zero_key_interior_root() {
    let mut pool = Store::create(16).pool;

    let leaf_id = pool.allocate_page_id();
    let mut leaf_buf = vec![0u8; pool.page_size().bytes_usize()];
    init_leaf(&mut leaf_buf).expect("init leaf");
    pool.put_new(leaf_id, leaf_buf).expect("put leaf");

    let mut interior_buf = vec![0u8; pool.page_size().bytes_usize()];
    init_interior(&mut interior_buf, leaf_id).expect("init interior with zero keys");
    let interior_id = pool.allocate_page_id();
    pool.put_new(interior_id, interior_buf)
        .expect("put interior");

    let buf = pool.get(interior_id).expect("cached");
    let collapsed = collapse_root_if_needed(interior_id, &buf).expect("collapse");
    assert_eq!(collapsed, leaf_id);
}

#[test]
fn btree_collapse_root_if_needed_leaves_a_leaf_root_unchanged() {
    let mut pool = Store::create(16).pool;
    let leaf_id = pool.allocate_page_id();
    let mut leaf_buf = vec![0u8; pool.page_size().bytes_usize()];
    init_leaf(&mut leaf_buf).expect("init leaf");
    pool.put_new(leaf_id, leaf_buf).expect("put leaf");

    let buf = pool.get(leaf_id).expect("cached");
    let result = collapse_root_if_needed(leaf_id, &buf).expect("no-op on a leaf root");
    assert_eq!(result, leaf_id);
}

#[test]
fn operations_agree_with_a_sorted_map() {
    let mut store = Store::create(4);
    let mut model = std::collections::BTreeMap::new();
    let mut seed: u64 = 12345;
    for step in 0..600i64 {
        seed = seed
            .wrapping_mul(6_364_136_223_846_793_005)
            .wrapping_add(1_442_695_040_888_963_407);
        let key = ((seed >> 33) % 97) as i64 - 48;
        let text = "z".repeat(((seed >> 20) % 900) as usize);
        let new = Row::new(vec![Value::Integer(step), Value::Text(text)]);
        match (seed >> 60) % 4 {
            0 | 1 => {
                let done = store.insert(key, &new);
                assert_eq!(done.is_ok(), !model.contains_key(&key));
                model.entry(key).or_insert(new);
            }
            2 => {
                let done = store.update(key, &new);
                assert_eq!(done.is_ok(), model.contains_key(&key));
                if done.is_ok() {
                    model.insert(key, new);
                }
            }
            _ => {
                let done = store.delete(key).ok().map(|(_, row)| row);
                assert_eq!(done, model.remove(&key));
            }
        }
    }
    let rows: Vec<(i64, Row)> = model.into_iter().collect();
    assert!(rows.len() > 10);
    assert_eq!(store.scan().expect("scan"), rows);
}

#[test]
fn overflowing_row_is_replaced_and_removed() {
    let mut store = Store::create(3);
    let big = |c: &str| Row::new(vec![Value::Text(c.repeat(30_000))]);
    store.insert(5, &big("a")).expect("insert");
    store.insert(6, &row(6)).expect("insert");
    store.update(5, &big("b")).expect("update");
    assert_eq!(store.get(5).expect("get"), Some(big("b")));
    store.update(5, &row(5)).expect("update");
    assert_eq!(store.get(5).expect("get"), Some(row(5)));
    store.delete(5).expect("delete");
    assert_eq!(store.scan().expect("scan"), vec![(6, row(6))]);
}

#[test]
fn mod_insert_then_get_round_trips() {
    let mut store = Store::create(64);
    store.insert(1, &row(1)).expect("insert");
    let got = store.get(1).expect("get").expect("present");
    assert_eq!(got, row(1));
}

#[test]
fn mod_get_missing_key_is_none() {
    let mut store = Store::create(64);
    assert_eq!(store.get(42).expect("get"), None);
}

#[test]
fn mod_insert_duplicate_key_errors() {
    let mut store = Store::create(64);
    store.insert(1, &row(1)).expect("first insert");
    let err = store.insert(1, &row(2)).expect_err("duplicate key");
    assert!(matches!(
        err,
        PinaxError::Permanent {
            source: PermanentError::KeyAlreadyExists { .. }
        }
    ));
}

#[test]
fn mod_update_replaces_row() {
    let mut store = Store::create(64);
    store.insert(1, &row(1)).expect("insert");
    store.update(1, &row(99)).expect("update");
    assert_eq!(store.get(1).expect("get").expect("present"), row(99));
}

#[test]
fn mod_update_missing_key_errors() {
    let mut store = Store::create(64);
    let err = store.update(1, &row(1)).expect_err("no such key");
    assert!(matches!(
        err,
        PinaxError::Permanent {
            source: PermanentError::KeyNotFound { .. }
        }
    ));
}

#[test]
fn mod_delete_removes_and_returns_row() {
    let mut store = Store::create(64);
    store.insert(1, &row(1)).expect("insert");
    let (_, removed) = store.delete(1).expect("delete");
    assert_eq!(removed, row(1));
    assert_eq!(store.get(1).expect("get"), None);
}

#[test]
fn mod_delete_missing_key_errors() {
    let mut store = Store::create(64);
    let err = store.delete(1).expect_err("no such key");
    assert!(matches!(
        err,
        PinaxError::Permanent {
            source: PermanentError::KeyNotFound { .. }
        }
    ));
}

#[test]
fn mod_many_inserts_force_splits_and_all_keys_remain_readable() {
    let mut store = Store::create(1024);
    for i in 0..500i64 {
        store.insert(i, &row(i)).expect("insert");
    }
    for i in 0..500i64 {
        assert_eq!(store.get(i).expect("get").expect("present"), row(i));
    }
}

#[test]
fn mod_insert_out_of_order_keys_stay_sorted_and_readable() {
    let mut store = Store::create(1024);
    let keys: Vec<i64> = vec![50, 10, 90, 30, 70, 20, 80, 40, 60, 0];
    for &k in &keys {
        store.insert(k, &row(k)).expect("insert");
    }
    for &k in &keys {
        assert_eq!(store.get(k).expect("get").expect("present"), row(k));
    }
    let scanned = store.scan().expect("scan");
    let scanned_keys: Vec<i64> = scanned.iter().map(|(k, _)| *k).collect();
    let mut sorted_keys = keys.clone();
    sorted_keys.sort_unstable();
    assert_eq!(scanned_keys, sorted_keys);
}

#[test]
fn mod_negative_and_extreme_keys_round_trip() {
    let mut store = Store::create(64);
    for &k in &[i64::MIN, -1, 0, 1, i64::MAX] {
        store.insert(k, &row(k)).expect("insert");
    }
    for &k in &[i64::MIN, -1, 0, 1, i64::MAX] {
        assert_eq!(store.get(k).expect("get").expect("present"), row(k));
    }
}

#[test]
fn mod_large_value_spills_to_overflow_and_round_trips() {
    let mut store = Store::create(64);
    let big_text = "x".repeat(20_000);
    let big_row = Row::new(vec![Value::Text(big_text.clone())]);
    store.insert(1, &big_row).expect("insert with overflow");
    let got = store.get(1).expect("get").expect("present");
    assert_eq!(got.values(), &[Value::Text(big_text)]);
}

#[test]
fn mod_delete_then_reinsert_same_key_works() {
    let mut store = Store::create(64);
    store.insert(1, &row(1)).expect("insert");
    store.delete(1).expect("delete");
    store.insert(1, &row(2)).expect("reinsert");
    assert_eq!(store.get(1).expect("get").expect("present"), row(2));
}

#[test]
fn mod_delete_most_of_a_multi_level_tree_leaves_remaining_keys_readable() {
    let mut store = Store::create(1024);
    for i in 0..300i64 {
        store.insert(i, &row(i)).expect("insert");
    }
    for i in 0..250i64 {
        store.delete(i).expect("delete");
    }
    for i in 0..250i64 {
        assert_eq!(store.get(i).expect("get"), None);
    }
    for i in 250..300i64 {
        assert_eq!(store.get(i).expect("get").expect("present"), row(i));
    }
}

#[test]
fn mod_insert_survives_reopen() {
    let mut store = Store::create(64);
    for i in 0..20i64 {
        store.insert(i, &row(i)).expect("insert");
    }
    let mut store = Store::reopen(store.file, 64);
    for i in 0..20i64 {
        assert_eq!(store.get(i).expect("get").expect("present"), row(i));
    }
}

#[test]
fn mutate_collapse_root_if_needed_collapses_a_zero_key_interior_root() {
    let mut pool = Store::create(16).pool;

    let leaf_id = pool.allocate_page_id();
    let mut leaf_buf = vec![0u8; pool.page_size().bytes_usize()];
    init_leaf(&mut leaf_buf).expect("init leaf");
    pool.put_new(leaf_id, leaf_buf).expect("put leaf");

    let mut interior_buf = vec![0u8; pool.page_size().bytes_usize()];
    init_interior(&mut interior_buf, leaf_id).expect("init interior with zero keys");
    let interior_id = pool.allocate_page_id();
    pool.put_new(interior_id, interior_buf)
        .expect("put interior");

    let buf = pool.get(interior_id).expect("cached");
    let collapsed = collapse_root_if_needed(interior_id, &buf).expect("collapse");
    assert_eq!(collapsed, leaf_id);
}

#[test]
fn mutate_collapse_root_if_needed_leaves_a_leaf_root_unchanged() {
    let mut pool = Store::create(16).pool;
    let leaf_id = pool.allocate_page_id();
    let mut leaf_buf = vec![0u8; pool.page_size().bytes_usize()];
    init_leaf(&mut leaf_buf).expect("init leaf");
    pool.put_new(leaf_id, leaf_buf).expect("put leaf");

    let buf = pool.get(leaf_id).expect("cached");
    let result = collapse_root_if_needed(leaf_id, &buf).expect("no-op on a leaf root");
    assert_eq!(result, leaf_id);
}

#[test]
fn changes_put_the_whole_path_under_new_ids() {
    let mut store = Store::create(64);
    for k in 0..400 {
        store.insert(k, &row(k)).expect("insert");
    }
    let before = store.pool.next_page_id();
    let root = store.insert(1000, &row(1000)).expect("insert");
    assert!(root >= before && root < store.pool.next_page_id());
    for node in store.descend(1000).expect("descend") {
        assert!(node.id >= before);
    }
    let before = store.pool.next_page_id();
    store.update(7, &row(70)).expect("update");
    assert!(store.descend(7).expect("descend").iter().all(|n| n.id >= before));
    let before = store.pool.next_page_id();
    store.delete(300).expect("delete");
    assert!(store.descend(300).expect("descend").iter().all(|n| n.id >= before));
    let before = store.pool.next_page_id();
    assert!(store.insert(1, &row(1)).is_err());
    assert!(store.update(2000, &row(1)).is_err());
    assert_eq!(store.pool.next_page_id(), before);
}

#[test]
fn write_uses_the_pages_above_the_leaf_again() {
    let mut store = Store::create(64);
    for k in 0..300 {
        store.insert(k, &row(k)).expect("insert");
    }
    let mut store = Store::reopen(store.file, 3);
    let path = store.descend(150).expect("descend");
    assert_eq!(path.len(), 2);
    let (root, leaf) = (path[0].id, path[1].id);
    let next = store.pool.next_page_id();
    store.update(150, &row(151)).expect("update");
    // The leaf page's copy, the old root, and its copy were used last.
    assert!(store.pool.get(leaf).is_none());
    assert!(store.pool.get(next).is_some());
    assert!(store.pool.get(root).is_some());
    assert!(store.pool.get(next + 1).is_some());
}

#[test]
fn page_above_the_leaf_comes_back_when_it_has_left() {
    let mut store = Store::create(64);
    for k in 0..300 {
        store.insert(k, &row(k)).expect("insert");
    }
    let mut store = Store::reopen(store.file, 2);
    let path = store.descend(150).expect("descend");
    let (root, leaf) = (path[0].id, path[1].id);
    let next = store.pool.next_page_id();
    // With room for two, the root leaves when the leaf page's copy is put,
    // comes back in place of the leaf page, and stays beside its copy.
    store.update(150, &row(151)).expect("update");
    assert!(store.pool.get(leaf).is_none());
    assert!(store.pool.get(next).is_none());
    assert!(store.pool.get(root).is_some());
    assert!(store.pool.get(next + 1).is_some());
    assert_eq!(store.get(150).expect("get"), Some(row(151)));
}
