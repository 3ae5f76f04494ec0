//! Unit tests for the store's parts: the borrow counter, the record
//! allocator with its reservation cursor, the descriptor ordering, the
//! type map, the erased objects and the run-time type definitions.

use bog::borrow::BorrowCounter;
use bog::define::{DefineType, FieldLayout};
use bog::descriptor::{canonicalize, schema_key, FieldSetDescriptor, TypeDescriptor};
use bog::object::{Callback, Is, Object};
use bog::records::{Record, RecordSet, RecordStatus, SENTINEL};
use bog::type_map::{TypeIdHasher, TypeMap};
use bog::StoreError;

#[test]
fn borrow_counter_shared_xor_unique() {
    let mut c = BorrowCounter::new();
    assert!(c.try_acquire_shared());
    assert!(c.try_acquire_shared());
    assert!(!c.try_acquire_unique());
    c.release_shared();
    assert!(!c.try_acquire_unique());
    c.release_shared();
    assert!(c.try_acquire_unique());
    assert!(!c.try_acquire_shared());
    assert!(!c.try_acquire_unique());
    c.release_unique();
    assert!(c.try_acquire_shared());
    c.release_shared();
}

#[test]
fn record_set_allocate_free_reuse() {
    let mut rs = RecordSet::new();
    let a = rs.allocate();
    let b = rs.allocate();
    assert_eq!(a.id, 0);
    assert_eq!(b.id, 1);
    assert_eq!(a.generation, 1);
    assert_eq!(rs.get(a), Ok(RecordStatus::Live));

    rs.free(a);
    assert_eq!(rs.get(a), Err(StoreError::NoSuchRecord));
    assert!(!rs.is_alive(a));

    let a2 = rs.allocate();
    assert_eq!(a2.id, 0);
    assert_eq!(a2.generation, 2);
    assert!(rs.is_alive(a2));
    assert!(rs.is_alive(b));
}

#[test]
fn record_reservation_fails_closed_until_flush() {
    let mut rs = RecordSet::new();
    let a = rs.allocate();
    rs.free(a);

    // The freed id is reserved first, with its stepped generation.
    let r1 = rs.reserve();
    assert_eq!(r1.id, a.id);
    assert_eq!(r1.generation, 2);
    assert!(!rs.is_alive(r1));
    assert_eq!(rs.get(r1), Ok(RecordStatus::Reserved));

    // The next reservation is a fresh id beyond the metadata.
    let r2 = rs.reserve();
    assert_eq!(r2.id, 1);
    assert_eq!(r2.generation, 1);
    assert_eq!(rs.get(r2), Ok(RecordStatus::Reserved));

    // A forged id beyond the reservation window is rejected.
    let forged = Record { id: 7, generation: 1 };
    assert_eq!(rs.get(forged), Err(StoreError::NoSuchRecord));

    rs.flush();
    assert!(rs.is_alive(r1));
    assert!(rs.is_alive(r2));
    assert_eq!(rs.get(r1), Ok(RecordStatus::Live));
    assert_eq!(rs.get(r2), Ok(RecordStatus::Live));
}

#[test]
fn record_set_clear_forgets_everything() {
    let mut rs = RecordSet::new();
    let a = rs.allocate();
    let _b = rs.allocate();
    assert_eq!(rs.live_count_now(), 2);
    rs.clear();
    assert_eq!(rs.live_count_now(), 0);
    assert!(!rs.is_alive(a));
}

#[test]
fn canonical_order_sorts_by_alignment_then_id() {
    let a = TypeDescriptor { id: 5, size: 4, align: 4 };
    let b = TypeDescriptor { id: 2, size: 8, align: 8 };
    let c = TypeDescriptor { id: 9, size: 1, align: 1 };
    let d = TypeDescriptor { id: 3, size: 2, align: 4 };

    let sorted = canonicalize(&vec![a, b, c, d]);
    // Descending alignment first, ascending identity inside one alignment.
    assert_eq!(sorted, vec![b, d, a, c]);
}

#[test]
fn permutations_share_one_key() {
    let a = TypeDescriptor { id: 5, size: 4, align: 4 };
    let b = TypeDescriptor { id: 2, size: 8, align: 8 };
    let c = TypeDescriptor { id: 9, size: 1, align: 1 };

    let k1 = schema_key(&vec![a, b, c]);
    let k2 = schema_key(&vec![c, a, b]);
    let k3 = schema_key(&vec![b, c, a]);
    assert_eq!(k1, k2);
    assert_eq!(k2, k3);
    assert_eq!(k1, vec![2u64, 5, 9]);

    // A set differing in one type has a different key.
    let e = TypeDescriptor { id: 6, size: 4, align: 4 };
    let k4 = schema_key(&vec![a, b, e]);
    assert_ne!(k1, k4);
}

#[test]
fn field_set_descriptor_canonicalizes() {
    let a = TypeDescriptor { id: 5, size: 4, align: 4 };
    let b = TypeDescriptor { id: 2, size: 8, align: 8 };
    let s1 = FieldSetDescriptor::new(&vec![a, b]);
    let s2 = FieldSetDescriptor::new(&vec![b, a]);
    assert_eq!(s1.descriptors(), s2.descriptors());
    assert_eq!(s1.key(), vec![2u64, 5]);
    assert_eq!(s1.key(), s2.key());
}

#[test]
fn type_map_resolves_keys() {
    let mut m = TypeMap::new();
    assert!(!m.has(1));
    assert_eq!(m.get(1), None);
    m.insert(1, 10);
    m.insert(2, 20);
    assert!(m.has(1));
    assert_eq!(m.get(1), Some(10));
    assert_eq!(m.get(2), Some(20));
    m.insert(1, 11);
    assert_eq!(m.get(1), Some(11));
    assert_eq!(m.get(3), None);
}

#[test]
fn type_id_hasher_keeps_the_written_value() {
    let mut h = TypeIdHasher::new();
    assert_eq!(h.finish(), 0);
    h.write_u64(0xDEAD_BEEF);
    assert_eq!(h.finish(), 0xDEAD_BEEF);

    let mut h2 = TypeIdHasher::new();
    h2.write_u128(0x1_0000_0000_0000_0042);
    assert_eq!(h2.finish(), 0x42);
}

#[test]
fn objects_give_bytes_back_to_the_right_type() {
    let desc = TypeDescriptor { id: 7, size: 3, align: 1 };
    let o = Object::new(desc, vec![1, 2, 3]);
    assert_eq!(o.descriptor(), desc);
    assert_eq!(o.typed_ref(7), Some(&vec![1u8, 2, 3]));
    assert_eq!(o.typed_ref(8), None);

    let r = o.as_ref();
    assert_eq!(r.descriptor(), desc);
    let tr = r.typed(7);
    assert_eq!(tr.type_key, 7);

    let viewed: &TypeDescriptor = o.as_view();
    assert_eq!(*viewed, desc);

    let t = o.typed(7);
    assert_eq!(t.type_key, 7);
    assert_eq!(t.object.typed_ref(7), Some(&vec![1u8, 2, 3]));
}

#[test]
fn callback_runs_later() {
    let cb = Callback::from_fn(|x: u64| x + 1);
    assert_eq!(cb.invoke(41), 42);
    assert_eq!(cb.invoke(0), 1);
}

#[test]
fn works() {
    // A composite type of two fields: a one-byte counter and a nine-byte
    // text, described once and then read and written through the erased
    // definition.
    let a_type = TypeDescriptor { id: 100, size: 10, align: 1 };
    let counter_field = FieldLayout { type_key: 1, offset: 0, size: 1 };
    let text_field = FieldLayout { type_key: 2, offset: 1, size: 9 };
    const RENDER: u64 = 50;

    let def = {
        let mut define = DefineType::new(a_type);
        define.field(counter_field);
        define.field(text_field);
        define.cast(RENDER);
        define.finish()
    };

    assert!(def.is(100));
    assert!(!def.is(101));

    let mut a: Vec<u8> = vec![0; 10];
    a[0] = 5;
    a[1..10].copy_from_slice(b"Something");

    assert_eq!(def.field(&a, 1), Some(vec![5u8]));
    assert_eq!(def.field(&a, 2), Some(b"Something".to_vec()));
    assert_eq!(def.field(&a, 3), None);
    assert_eq!(def.layout(1), Some(counter_field));
    assert_eq!(def.layout(3), None);

    assert!(def.field_mut(&mut a, 1, &vec![7]));
    assert!(def.field_mut(&mut a, 2, &b"Other\0\0\0\0".to_vec()));
    assert!(!def.field_mut(&mut a, 3, &vec![]));

    assert_eq!(def.field(&a, 1), Some(vec![7u8]));
    assert_eq!(def.field(&a, 2), Some(b"Other\0\0\0\0".to_vec()));
    assert_eq!(a[0], 7);

    assert!(def.cast(RENDER));
    assert!(!def.cast(51));
}

#[test]
fn sentinel_is_never_a_slot() {
    assert_eq!(SENTINEL, u32::MAX);
}

#[test]
fn later_field_registration_wins() {
    // Registering a second layout under one field-type key overrides the
    // first, as re-inserting a map entry would.
    let target = TypeDescriptor { id: 200, size: 8, align: 1 };
    let mut define = DefineType::new(target);
    define.field(FieldLayout { type_key: 4, offset: 0, size: 2 });
    define.field(FieldLayout { type_key: 4, offset: 4, size: 2 });
    let def = define.finish();

    assert_eq!(def.layout(4), Some(FieldLayout { type_key: 4, offset: 4, size: 2 }));

    let data: Vec<u8> = vec![1, 2, 3, 4, 5, 6, 7, 8];
    assert_eq!(def.field(&data, 4), Some(vec![5u8, 6]));
}
