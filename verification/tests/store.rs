//! Scenario tests for the column store: allocation, fields, columns,
//! borrows, growth and destruction.

use bog::database::Database;
use bog::descriptor::TypeDescriptor;
use bog::StoreError;

const HEALTH: TypeDescriptor = TypeDescriptor { id: 1, size: 4, align: 4 };
const REGEN: TypeDescriptor = TypeDescriptor { id: 2, size: 4, align: 4 };
const ARMOR: TypeDescriptor = TypeDescriptor { id: 3, size: 4, align: 4 };

fn f32_bytes(x: f32) -> Vec<u8> {
    x.to_le_bytes().to_vec()
}

fn bytes_f32(b: &[u8]) -> f32 {
    f32::from_le_bytes([b[0], b[1], b[2], b[3]])
}

#[test]
fn health_and_regen_columns() {
    let mut db = Database::new();
    let r1 = db.allocate();
    db.add_field(r1, HEALTH, f32_bytes(100.0)).unwrap();
    db.add_field(r1, REGEN, f32_bytes(5.0)).unwrap();

    let health = db.column(HEALTH.id).unwrap();
    assert_eq!(health.records, vec![r1.id]);
    assert_eq!(health.values.len(), 1);
    assert_eq!(bytes_f32(&health.values[0]), 100.0);
    db.release_column(health);

    let regen = db.column(REGEN.id).unwrap();
    assert_eq!(regen.records, vec![r1.id]);
    assert_eq!(regen.values.len(), 1);
    assert_eq!(bytes_f32(&regen.values[0]), 5.0);
    db.release_column(regen);
}

#[test]
fn swap_remove_moves_last_record() {
    let mut db = Database::new();
    let r1 = db.allocate();
    let r2 = db.allocate();
    let r3 = db.allocate();
    db.add_field(r1, ARMOR, f32_bytes(10.0)).unwrap();
    db.add_field(r2, ARMOR, f32_bytes(20.0)).unwrap();
    db.add_field(r3, ARMOR, f32_bytes(30.0)).unwrap();

    let armor = db.column(ARMOR.id).unwrap();
    assert_eq!(armor.records, vec![r1.id, r2.id, r3.id]);
    assert_eq!(bytes_f32(&armor.values[0]), 10.0);
    assert_eq!(bytes_f32(&armor.values[1]), 20.0);
    assert_eq!(bytes_f32(&armor.values[2]), 30.0);
    db.release_column(armor);

    db.remove_field(r2, ARMOR.id).unwrap();
    assert_eq!(db.column_len(ARMOR.id), Some(2));

    let armor = db.column(ARMOR.id).unwrap();
    assert_eq!(armor.records, vec![r1.id, r3.id]);
    assert_eq!(bytes_f32(&armor.values[0]), 10.0);
    assert_eq!(bytes_f32(&armor.values[1]), 30.0);
    db.release_column(armor);

    // The swapped record's field is still reachable through its handle.
    let f3 = db.field(r3, ARMOR.id).unwrap();
    assert_eq!(bytes_f32(&f3.value), 30.0);
    db.release_field(f3);
}

#[test]
fn stale_handle_and_generation() {
    let mut db = Database::new();
    let r1 = db.allocate();
    assert_eq!(r1.generation, 1);
    db.free(r1).unwrap();

    match db.field(r1, HEALTH.id) {
        Err(StoreError::NoSuchRecord) => {}
        other => panic!("stale handle was not rejected: {:?}", other.is_ok()),
    }

    let r1b = db.allocate();
    assert_eq!(r1b.id, r1.id);
    assert_eq!(r1b.generation, 2);
    assert_ne!(r1b, r1);
}

#[test]
fn borrow_conflict_and_retry() {
    let mut db = Database::new();
    let r1 = db.allocate();
    db.add_field(r1, HEALTH, f32_bytes(1.0)).unwrap();

    let shared = db.column(HEALTH.id).unwrap();
    match db.column_mut(HEALTH.id) {
        Err(StoreError::BorrowConflict) => {}
        _ => panic!("unique acquisition succeeded under a shared borrow"),
    }
    db.release_column(shared);

    let unique = db.column_mut(HEALTH.id).unwrap();
    match db.column(HEALTH.id) {
        Err(StoreError::BorrowConflict) => {}
        _ => panic!("shared acquisition succeeded under a unique borrow"),
    }
    db.release_column_mut(unique);

    // After the releases, both kinds succeed again.
    let again = db.column(HEALTH.id).unwrap();
    db.release_column(again);
}

#[test]
fn mutation_blocked_while_borrowed() {
    let mut db = Database::new();
    let r1 = db.allocate();
    db.add_field(r1, HEALTH, f32_bytes(1.0)).unwrap();
    let r2 = db.allocate();

    let shared = db.column(HEALTH.id).unwrap();
    assert_eq!(db.add_field(r2, HEALTH, f32_bytes(2.0)), Err(StoreError::BorrowConflict));
    assert_eq!(db.remove_field(r1, HEALTH.id), Err(StoreError::BorrowConflict));
    assert_eq!(db.free(r1), Err(StoreError::BorrowConflict));
    db.release_column(shared);

    db.add_field(r2, HEALTH, f32_bytes(2.0)).unwrap();
    db.free(r1).unwrap();
}

#[test]
fn growth_doubles_from_sixty_four() {
    let mut db = Database::new();
    let mut records = Vec::new();
    for i in 0..100u32 {
        let r = db.allocate();
        db.add_field(r, ARMOR, f32_bytes(i as f32)).unwrap();
        records.push(r);
        let expected_cap = if i < 64 { 64 } else { 128 };
        assert_eq!(db.column_capacity(ARMOR.id), Some(expected_cap));
    }
    assert_eq!(db.column_len(ARMOR.id), Some(100));
    assert_eq!(db.column_capacity(ARMOR.id), Some(128));
    assert_eq!(db.column_destructor_runs(ARMOR.id), Some(0));

    let armor = db.column(ARMOR.id).unwrap();
    for i in 0..100usize {
        assert_eq!(armor.records[i], records[i].id);
        assert_eq!(bytes_f32(&armor.values[i]), i as f32);
    }
    db.release_column(armor);
}

#[test]
fn destruction_counts_every_value_once() {
    let mut db = Database::new();
    let r1 = db.allocate();
    let r2 = db.allocate();
    db.add_field(r1, HEALTH, f32_bytes(1.0)).unwrap();
    db.add_field(r2, HEALTH, f32_bytes(2.0)).unwrap();
    db.add_field(r1, ARMOR, f32_bytes(3.0)).unwrap();

    // One removal runs one destructor before the store is destroyed.
    db.remove_field(r2, HEALTH.id).unwrap();
    assert_eq!(db.column_destructor_runs(HEALTH.id), Some(1));
    assert_eq!(db.column_inserted(HEALTH.id), Some(2));

    let report = db.destroy();
    assert_eq!(report.len(), 2);
    for entry in &report {
        assert_eq!(entry.destructor_runs, entry.values_inserted);
    }
    assert_eq!(report[0].type_key, HEALTH.id);
    assert_eq!(report[0].values_inserted, 2);
    assert_eq!(report[1].type_key, ARMOR.id);
    assert_eq!(report[1].values_inserted, 1);
}

#[test]
fn round_trip_until_mutation() {
    let mut db = Database::new();
    let r = db.allocate();
    db.add_field(r, HEALTH, f32_bytes(42.5)).unwrap();

    let f = db.field(r, HEALTH.id).unwrap();
    assert_eq!(bytes_f32(&f.value), 42.5);
    db.release_field(f);

    let mut m = db.field_mut(r, HEALTH.id).unwrap();
    m.value = f32_bytes(7.25);
    db.release_field_mut(m);

    let f = db.field(r, HEALTH.id).unwrap();
    assert_eq!(bytes_f32(&f.value), 7.25);
    db.release_field(f);
}

#[test]
fn duplicate_and_missing_fields() {
    let mut db = Database::new();
    let r = db.allocate();
    db.add_field(r, HEALTH, f32_bytes(1.0)).unwrap();
    assert_eq!(db.add_field(r, HEALTH, f32_bytes(2.0)), Err(StoreError::DuplicateField));
    assert_eq!(db.remove_field(r, REGEN.id), Err(StoreError::MissingField));
    assert!(matches!(db.field(r, REGEN.id), Err(StoreError::MissingField)));
    assert!(matches!(db.column(REGEN.id), Err(StoreError::MissingField)));
}

#[test]
fn free_evicts_every_column() {
    let mut db = Database::new();
    let r1 = db.allocate();
    let r2 = db.allocate();
    db.add_field(r1, HEALTH, f32_bytes(1.0)).unwrap();
    db.add_field(r1, ARMOR, f32_bytes(2.0)).unwrap();
    db.add_field(r2, HEALTH, f32_bytes(3.0)).unwrap();

    db.free(r1).unwrap();
    assert_eq!(db.column_len(HEALTH.id), Some(1));
    assert_eq!(db.column_len(ARMOR.id), Some(0));
    assert!(!db.is_record_live(r1));
    assert!(db.is_record_live(r2));

    let f2 = db.field(r2, HEALTH.id).unwrap();
    assert_eq!(bytes_f32(&f2.value), 3.0);
    db.release_field(f2);
}

#[test]
fn column_mut_edits_are_stored() {
    let mut db = Database::new();
    let r1 = db.allocate();
    let r2 = db.allocate();
    db.add_field(r1, ARMOR, f32_bytes(1.0)).unwrap();
    db.add_field(r2, ARMOR, f32_bytes(2.0)).unwrap();

    let mut view = db.column_mut(ARMOR.id).unwrap();
    view.values[0] = f32_bytes(10.0);
    view.values[1] = f32_bytes(20.0);
    db.release_column_mut(view);

    let f1 = db.field(r1, ARMOR.id).unwrap();
    assert_eq!(bytes_f32(&f1.value), 10.0);
    db.release_field(f1);
    let f2 = db.field(r2, ARMOR.id).unwrap();
    assert_eq!(bytes_f32(&f2.value), 20.0);
    db.release_field(f2);
}

#[test]
fn live_record_count_follows_allocate_and_free() {
    let mut db = Database::new();
    assert_eq!(db.live_records(), 0);
    let r1 = db.allocate();
    let r2 = db.allocate();
    assert_eq!(db.live_records(), 2);
    db.free(r1).unwrap();
    assert_eq!(db.live_records(), 1);
    let r3 = db.allocate();
    assert_eq!(db.live_records(), 2);
    assert!(db.is_record_live(r2));
    assert!(db.is_record_live(r3));
}

#[test]
fn zero_sized_fields_count_without_bytes() {
    // A marker type of size zero: slots carry no bytes, but membership,
    // counters and removal behave like any other column.
    let marker = TypeDescriptor { id: 9, size: 0, align: 1 };
    let mut db = Database::new();
    let r1 = db.allocate();
    let r2 = db.allocate();
    db.add_field(r1, marker, Vec::new()).unwrap();
    db.add_field(r2, marker, Vec::new()).unwrap();
    assert!(db.has_column_now(marker.id));
    assert_eq!(db.column_len(marker.id), Some(2));
    assert_eq!(db.add_field(r1, marker, Vec::new()), Err(StoreError::DuplicateField));

    let f = db.field(r1, marker.id).unwrap();
    assert!(f.value.is_empty());
    db.release_field(f);

    db.remove_field(r1, marker.id).unwrap();
    assert_eq!(db.column_len(marker.id), Some(1));
    assert_eq!(db.column_inserted(marker.id), Some(2));
    assert_eq!(db.column_destructor_runs(marker.id), Some(1));
}
