use lstore::bufferpool::BufferPool;
use lstore::error::DbError;
use lstore::iterator::BasicIterator;
use lstore::page_range::{Pid, PhysicalAddressIterator, WhichRange};
use lstore::query::Query;
use lstore::table::Table;

fn setup(num_columns: usize) -> Query {
    let table = Table::new(String::from("test"), num_columns, 0);
    Query::new(table)
}

#[test]
fn round_trip_all_columns() {
    let mut q = setup(4);
    let v = vec![Some(7), Some(-3), Some(0), Some(i64::MAX)];
    assert!(q.insert(v.clone()).unwrap());
    let mask = vec![1i64, 1, 1, 1];
    assert_eq!(q.select(7, 0, &mask).unwrap(), vec![v]);
}

#[test]
fn uniqueness_leaves_state_unchanged() {
    let mut q = setup(3);
    q.insert(vec![Some(1), Some(2), Some(3)]).unwrap();
    assert!(!q.insert(vec![Some(1), Some(99), Some(99)]).unwrap());
    // Row count and content unchanged: the original row is intact and sums
    // see exactly one row.
    let mask = vec![1i64, 1, 1];
    assert_eq!(q.select(1, 0, &mask).unwrap(), vec![vec![Some(1), Some(2), Some(3)]]);
    assert_eq!(q.sum(1, 100, 1).unwrap(), 2);
}

#[test]
fn update_visibility_subset_of_columns() {
    let mut q = setup(5);
    q.insert(vec![Some(9), Some(1), Some(2), Some(3), Some(4)]).unwrap();
    q.update(9, vec![None, None, Some(22), None, Some(44)]).unwrap();
    let mask = vec![1i64, 1, 1, 1, 1];
    assert_eq!(
        q.select(9, 0, &mask).unwrap(),
        vec![vec![Some(9), Some(1), Some(22), Some(3), Some(44)]]
    );
}

#[test]
fn multi_update_newest_wins() {
    let mut q = setup(4);
    q.insert(vec![Some(1), Some(10), Some(20), Some(30)]).unwrap();
    // Disjoint column sets: both apply.
    q.update(1, vec![None, Some(11), None, None]).unwrap();
    q.update(1, vec![None, None, None, Some(33)]).unwrap();
    let mask = vec![1i64, 1, 1, 1];
    assert_eq!(
        q.select(1, 0, &mask).unwrap(),
        vec![vec![Some(1), Some(11), Some(20), Some(33)]]
    );
    // Same column twice: the later update wins.
    q.update(1, vec![None, Some(12), None, None]).unwrap();
    q.update(1, vec![None, Some(13), None, None]).unwrap();
    assert_eq!(
        q.select(1, 0, &mask).unwrap(),
        vec![vec![Some(1), Some(13), Some(20), Some(33)]]
    );
}

#[test]
fn delete_semantics_not_idempotent() {
    let mut q = setup(3);
    q.insert(vec![Some(5), Some(6), Some(7)]).unwrap();
    q.delete(5).unwrap();
    let mask = vec![1i64, 1, 1];
    assert_eq!(q.select(5, 0, &mask), Err(DbError::KeyNotFound(5)));
    assert_eq!(q.delete(5), Err(DbError::KeyNotFound(5)));
    assert!(q.table.rid_for_unique_key(5).is_err());
    // The key is retired: it cannot be inserted again.
    assert!(!q.insert(vec![Some(5), Some(0), Some(0)]).unwrap());
}

#[test]
fn sum_skips_deleted_rows() {
    let mut q = setup(2);
    q.insert(vec![Some(1), Some(10)]).unwrap();
    q.insert(vec![Some(2), Some(20)]).unwrap();
    q.insert(vec![Some(3), Some(30)]).unwrap();
    q.delete(2).unwrap();
    assert_eq!(q.sum(1, 3, 1).unwrap(), 40);
}

#[test]
fn sum_empty_range_is_key_not_found() {
    let mut q = setup(2);
    q.insert(vec![Some(1), Some(10)]).unwrap();
    assert_eq!(q.sum(50, 60, 1), Err(DbError::KeyNotFound(50)));
}

#[test]
fn sum_null_cell_is_null_value() {
    let mut q = setup(3);
    q.insert(vec![Some(1), None, Some(3)]).unwrap();
    assert_eq!(q.sum(1, 1, 1), Err(DbError::NullValue(1)));
}

#[test]
fn version_zero_matches_current_state() {
    let mut q = setup(3);
    q.insert(vec![Some(1), Some(10), Some(100)]).unwrap();
    q.insert(vec![Some(2), Some(20), Some(200)]).unwrap();
    let mask = vec![1i64, 1, 1];
    assert_eq!(q.select_version(1, 0, &mask, 0).unwrap(), q.select(1, 0, &mask).unwrap());
    assert_eq!(q.sum_version(1, 2, 1, 0).unwrap(), q.sum(1, 2, 1).unwrap());
}

#[test]
fn select_version_rejects_deleted_on_negative_version() {
    let mut q = setup(3);
    q.insert(vec![Some(1), Some(2), Some(3)]).unwrap();
    // While the key is live, version lookups answer.
    let mask = vec![1i64, 1, 1];
    assert_eq!(
        q.select_version(1, 0, &mask, -1).unwrap(),
        vec![vec![Some(1), Some(2), Some(3)]]
    );
    q.delete(1).unwrap();
    // After deletion the key has left the index entirely.
    assert_eq!(q.select_version(1, 0, &mask, -1), Err(DbError::KeyNotFound(1)));
}

#[test]
fn insert_null_key_is_rejected() {
    let mut q = setup(3);
    assert_eq!(
        q.insert(vec![None, Some(2), Some(3)]),
        Err(DbError::NullValue(0))
    );
}

#[test]
fn update_of_key_column_is_duplicate_key() {
    let mut q = setup(3);
    q.insert(vec![Some(1), Some(2), Some(3)]).unwrap();
    assert_eq!(
        q.update(1, vec![Some(9), None, None]),
        Err(DbError::DuplicateKey(1))
    );
}

#[test]
fn update_missing_key_reports_false() {
    let mut q = setup(3);
    assert_eq!(q.update(42, vec![None, Some(1), None]), Ok(false));
}

#[test]
fn increment_null_cell_is_null_value() {
    let mut q = setup(3);
    q.insert(vec![Some(1), None, Some(3)]).unwrap();
    assert_eq!(q.increment(1, 1), Err(DbError::NullValue(1)));
}

#[test]
fn increment_missing_key_is_key_not_found() {
    let mut q = setup(3);
    assert_eq!(q.increment(7, 1), Err(DbError::KeyNotFound(7)));
}

#[test]
fn increment_out_of_range_column_is_rejected() {
    let mut q = setup(3);
    q.insert(vec![Some(1), Some(2), Some(3)]).unwrap();
    assert_eq!(q.increment(1, 3), Err(DbError::NullValue(3)));
    assert_eq!(q.increment(1, 99), Err(DbError::NullValue(99)));
    // The row is untouched.
    let mask = vec![1i64, 1, 1];
    assert_eq!(q.select(1, 0, &mask).unwrap(), vec![vec![Some(1), Some(2), Some(3)]]);
}

#[test]
fn update_history_shifts_one_version_back() {
    let mut q = setup(3);
    q.insert(vec![Some(1), Some(10), Some(100)]).unwrap();
    q.update(1, vec![None, Some(11), None]).unwrap();
    let rid = q.table.rid_for_unique_key(1).unwrap();
    let mask = vec![1i64, 1, 1];
    // One hop back shows exactly the pre-update row.
    assert_eq!(
        q.table.read_version_projected(&mask, rid, -1).unwrap(),
        vec![Some(1), Some(10), Some(100)]
    );
}

#[test]
fn read_missing_rid_is_record_not_found() {
    let mut q = setup(3);
    q.insert(vec![Some(1), Some(2), Some(3)]).unwrap();
    assert_eq!(q.table.read(999), Err(DbError::RecordNotFound(999)));
    assert_eq!(q.table.read_latest(-1), Err(DbError::RecordNotFound(-1)));
}

#[test]
fn concrete_scenario_three_columns() {
    let mut q = setup(3);
    assert!(q.insert(vec![Some(1), Some(10), Some(100)]).unwrap());
    assert!(q.insert(vec![Some(2), Some(20), Some(200)]).unwrap());
    assert!(q.insert(vec![Some(3), Some(30), Some(300)]).unwrap());
    assert_eq!(q.sum(1, 3, 1).unwrap(), 60);

    q.update(1, vec![None, Some(99), None]).unwrap();
    let mask = vec![1i64, 1, 1];
    assert_eq!(q.select(1, 0, &mask).unwrap(), vec![vec![Some(1), Some(99), Some(100)]]);

    q.delete(2).unwrap();
    assert_eq!(q.select(2, 0, &mask), Err(DbError::KeyNotFound(2)));
    assert_eq!(q.sum(1, 3, 1).unwrap(), 129);
}

#[test]
fn many_rows_roll_over_collections_and_evict() {
    // Enough rows to fill several page collections, so the buffer pool
    // evicts and reloads frames along the way.
    let mut q = setup(3);
    let n: i64 = 1200;
    for k in 1..=n {
        assert!(q.insert(vec![Some(k), Some(2 * k), Some(3 * k)]).unwrap());
    }
    let mask = vec![1i64, 1, 1];
    assert_eq!(q.select(1, 0, &mask).unwrap(), vec![vec![Some(1), Some(2), Some(3)]]);
    assert_eq!(
        q.select(n, 0, &mask).unwrap(),
        vec![vec![Some(n), Some(2 * n), Some(3 * n)]]
    );
    assert_eq!(q.sum(1, 10, 1).unwrap(), 2 * 55);
    q.update(600, vec![None, None, Some(-1)]).unwrap();
    assert_eq!(
        q.select(600, 0, &mask).unwrap(),
        vec![vec![Some(600), Some(1200), Some(-1)]]
    );
}

#[test]
fn wide_table_spills_through_the_pool() {
    // A 60-column table has more pages per collection than the pool has
    // frames, so a single record's append already exercises eviction.
    let mut q = setup(60);
    let mut row: Vec<Option<i64>> = Vec::new();
    for c in 0..60 {
        row.push(Some(1000 + c as i64));
    }
    assert!(q.insert(row.clone()).unwrap());
    let mask = vec![1i64; 60];
    assert_eq!(q.select(1000, 0, &mask).unwrap(), vec![row]);
}

#[test]
fn basic_iterator_counts_up() {
    let mut it = BasicIterator::new();
    assert_eq!(it.next(), 0);
    assert_eq!(it.next(), 1);
    assert_eq!(it.next(), 2);
}

#[test]
fn physical_address_iterator_rolls_over() {
    let mut it = PhysicalAddressIterator::new();
    let first = it.next();
    assert_eq!(first.offset, 0);
    assert_eq!(first.collection_num, 0);
    for _ in 1..512 {
        it.next();
    }
    let rolled = it.next();
    assert_eq!(rolled.offset, 0);
    assert_eq!(rolled.collection_num, 1);
}

#[test]
fn pid_sign_encodes_range() {
    let base = Pid::new(2, 7, 3, WhichRange::Base);
    let tail = Pid::new(2, 7, 3, WhichRange::Tail);
    assert_eq!(base.get(), 24);
    assert_eq!(tail.get(), -24);

    let mut p = Pid::new(0, 7, 0, WhichRange::Base);
    assert_eq!(p.get(), 1);
    assert_eq!(p.increment(3).unwrap(), 4);
    let mut t = Pid::new(0, 7, 0, WhichRange::Tail);
    assert_eq!(t.increment(3).unwrap(), -4);
}

#[test]
fn secondary_column_select_finds_rows() {
    let mut q = setup(3);
    q.insert(vec![Some(1), Some(7), Some(100)]).unwrap();
    q.insert(vec![Some(2), Some(7), Some(200)]).unwrap();
    q.insert(vec![Some(3), Some(8), Some(300)]).unwrap();
    let mask = vec![1i64, 1, 1];
    let rows = q.select(7, 1, &mask).unwrap();
    assert_eq!(rows.len(), 2);
    assert_eq!(rows[0], vec![Some(1), Some(7), Some(100)]);
    assert_eq!(rows[1], vec![Some(2), Some(7), Some(200)]);
    // After an update moves a row off the value, the lookup follows.
    q.update(2, vec![None, Some(9), None]).unwrap();
    let rows = q.select(7, 1, &mask).unwrap();
    assert_eq!(rows, vec![vec![Some(1), Some(7), Some(100)]]);
    let rows = q.select(9, 1, &mask).unwrap();
    assert_eq!(rows, vec![vec![Some(2), Some(9), Some(200)]]);
}

#[test]
fn flush_then_read_back() {
    let mut q = setup(3);
    for k in 1..=50 {
        assert!(q.insert(vec![Some(k), Some(k * 2), Some(k * 3)]).unwrap());
    }
    q.table.flush();
    let mask = vec![1i64, 1, 1];
    assert_eq!(q.select(17, 0, &mask).unwrap(), vec![vec![Some(17), Some(34), Some(51)]]);
    assert_eq!(q.sum(1, 50, 1).unwrap(), 2 * (50 * 51) / 2);
    // The table keeps working after a flush: updates land and are visible.
    q.update(17, vec![None, Some(0), None]).unwrap();
    q.table.flush();
    assert_eq!(q.select(17, 0, &mask).unwrap(), vec![vec![Some(17), Some(0), Some(51)]]);
}

#[test]
fn pool_seed_and_content_round_trip() {
    let mut pool = BufferPool::new();
    assert_eq!(pool.page_content(9), Vec::<Option<i64>>::new());
    pool.seed_page(9, vec![Some(5), None, Some(7)]);
    assert_eq!(pool.page_content(9), vec![Some(5), None, Some(7)]);
    assert_eq!(pool.page_content(10), Vec::<Option<i64>>::new());
    // Reseeding replaces the page's content.
    pool.seed_page(9, vec![Some(1)]);
    assert_eq!(pool.page_content(9), vec![Some(1)]);
}

#[test]
fn page_bytes_exports_persisted_format() {
    let mut q = setup(2);
    q.insert(vec![Some(3), Some(4)]).unwrap();
    q.insert(vec![Some(5), Some(6)]).unwrap();
    // Column 0 of the first base collection holds the two keys, big-endian.
    let bytes = q.table.page_bytes(0, 0, false).unwrap();
    assert_eq!(
        bytes,
        vec![0, 0, 0, 0, 0, 0, 0, 3, 0, 0, 0, 0, 0, 0, 0, 5]
    );
    // Flushing changes nothing about what the pages hold.
    q.table.flush();
    assert_eq!(q.table.page_bytes(0, 0, false).unwrap(), bytes);
    // No tail records were appended yet, and out-of-range pages are absent.
    assert_eq!(q.table.range_record_count(true), 0);
    assert!(q.table.page_bytes(99, 0, false).is_none());
    // The RID metadata column of the base collection holds 0 and 1.
    let rid_col = q.table.pages_per_collection() - 4;
    let rid_bytes = q.table.page_bytes(rid_col, 0, false).unwrap();
    assert_eq!(
        rid_bytes,
        vec![0, 0, 0, 0, 0, 0, 0, 0, 0, 0, 0, 0, 0, 0, 0, 1]
    );
}
