//! The database: one record allocator, one column per field type, and an
//! index from field-type identity to column position.
//!
//! All mutation goes through the database, which keeps the global
//! invariant: every column is well formed, every record in a column is
//! live, and the index and the columns name each other exactly.

use vstd::prelude::*;
use crate::column::{grown_capacity, Column, MIN_GROWTH};
use crate::descriptor::TypeDescriptor;
use crate::records::{Record, RecordSet, SENTINEL};
use crate::type_map::{type_map_entries, TypeMap};
use crate::StoreError;

verus! {

/// What one eviction does to one column: if the record had a value there,
/// exactly that value left (its destructor ran once) and every other
/// record's value and slot survived; otherwise the column is untouched.
pub open spec fn column_after_eviction(oldc: Column, newc: Column, id: u32) -> bool {
    if oldc.contains_id(id) {
        &&& newc.spec_desc() == oldc.spec_desc()
        &&& newc.capacity() == oldc.capacity()
        &&& newc.borrow_state() == oldc.borrow_state()
        &&& newc.inserted_count() == oldc.inserted_count()
        &&& newc.drop_count() == oldc.drop_count() + 1
        &&& newc.len() == oldc.len() - 1
        &&& !newc.contains_id(id)
        &&& (forall|id2: u32| id2 != id ==> (newc.contains_id(id2) <==> oldc.contains_id(id2)))
        &&& (forall|id2: u32|
            id2 != id && oldc.contains_id(id2) ==> newc.value_at(#[trigger] newc.slot_of(id2) as int)
                == oldc.value_at(oldc.slot_of(id2) as int))
    } else {
        newc == oldc
    }
}

/// Swap-removing a record's slot from a well-formed column leaves exactly
/// the other records' values in place, as [`column_after_eviction`] states.
proof fn lemma_eviction_frame(oldc: Column, newc: Column, id: u32)
    requires
        oldc.wf(),
        newc.wf(),
        oldc.contains_id(id),
        newc.spec_desc() == oldc.spec_desc(),
        newc.capacity() == oldc.capacity(),
        newc.borrow_state() == oldc.borrow_state(),
        newc.inserted_count() == oldc.inserted_count(),
        newc.drop_count() == oldc.drop_count() + 1,
        newc.keys_view() == oldc.keys_view().update(
            oldc.slot_of(id) as int,
            oldc.keys_view().last(),
        ).drop_last(),
        !newc.contains_id(id),
        oldc.keys_view().last() != id ==> newc.slot_of(oldc.keys_view().last()) as int
            == oldc.slot_of(id) as int,
        forall|id2: u32|
            id2 != id && id2 != oldc.keys_view().last() ==> newc.slot_of(id2) == oldc.slot_of(id2),
        forall|j: int|
            0 <= j < oldc.len() - 1 ==> newc.value_at(j) == (if j == oldc.slot_of(id) as int {
                oldc.value_at(oldc.len() - 1)
            } else {
                oldc.value_at(j)
            }),
    ensures
        column_after_eviction(oldc, newc, id),
{
    oldc.lemma_keys_distinct();
    newc.lemma_keys_distinct();
    let slot = oldc.slot_of(id) as int;
    let n = oldc.len() as int;
    let last = oldc.keys_view().last();
    assert(oldc.keys_view()[slot] == id);
    assert(oldc.keys_view()[n - 1] == last);
    assert(oldc.slot_of(last) as int == n - 1);
    assert forall|id2: u32| id2 != id implies (newc.contains_id(id2) <==> oldc.contains_id(
        id2,
    )) by {
        if id2 == last {
            if last != id {
                assert(newc.slot_of(last) as int == slot);
                assert(slot < SENTINEL as int);
                assert(oldc.slot_of(last) as int == n - 1 && n - 1 < SENTINEL as int);
            }
        }
    }
    assert forall|id2: u32| id2 != id && oldc.contains_id(id2) implies newc.value_at(
        #[trigger] newc.slot_of(id2) as int,
    ) == oldc.value_at(oldc.slot_of(id2) as int) by {
        if id2 == last {
            assert(slot != n - 1);
            assert(newc.slot_of(id2) as int == slot);
            assert(newc.value_at(slot) == oldc.value_at(n - 1));
        } else {
            let s2 = oldc.slot_of(id2) as int;
            assert(oldc.keys_view()[s2] == id2);
            assert(s2 != slot);
            assert(s2 != n - 1);
            assert(newc.slot_of(id2) == oldc.slot_of(id2));
            assert(newc.value_at(s2) == oldc.value_at(s2));
        }
    }
}

/// The column store.
pub struct Database {
    records: RecordSet,
    columns: Vec<Column>,
    index: TypeMap,
}

impl Database {
    /// The record allocator.
    pub closed spec fn spec_records(self) -> RecordSet {
        self.records
    }

    /// The columns, in creation order.
    pub closed spec fn spec_columns(self) -> Seq<Column> {
        self.columns@
    }

    /// The index from field-type identity to column position.
    pub closed spec fn spec_index(self) -> Map<u64, usize> {
        type_map_entries(self.index)
    }

    /// Whether a column exists for a field-type identity.
    pub open spec fn has_column(self, tid: u64) -> bool {
        self.spec_index().dom().contains(tid)
    }

    /// The position of the column for a field-type identity.
    pub open spec fn column_at(self, tid: u64) -> int {
        self.spec_index()[tid] as int
    }

    /// Whether a record handle is live.
    pub open spec fn is_live(self, r: Record) -> bool {
        self.spec_records().is_live(r)
    }

    /// The bytes of the field of one type on one record id, if any.
    pub open spec fn field_of(self, id: u32, tid: u64) -> Option<Seq<u8>> {
        if self.has_column(tid) {
            let c = self.spec_columns()[self.column_at(tid)];
            if c.contains_id(id) {
                Some(c.value_at(c.slot_of(id) as int))
            } else {
                None
            }
        } else {
            None
        }
    }

    /// The structural invariant of the whole store.
    pub open spec fn wf(self) -> bool {
        &&& self.spec_records().wf()
        &&& self.spec_records().flushed()
        &&& (forall|t: u64| #[trigger]
            self.spec_index().dom().contains(t) ==> self.spec_index()[t]
                < self.spec_columns().len() && self.spec_columns()[self.spec_index()[t] as int].spec_desc().id
                == t)
        &&& (forall|c: int|
            0 <= c < self.spec_columns().len() ==> (#[trigger] self.spec_columns()[c]).wf())
        &&& (forall|c: int|
            0 <= c < self.spec_columns().len() ==> self.spec_index().dom().contains(
                (#[trigger] self.spec_columns()[c]).spec_desc().id,
            ) && self.spec_index()[self.spec_columns()[c].spec_desc().id] == c)
        &&& (forall|c: int, i: int|
            0 <= c < self.spec_columns().len() && 0 <= i < self.spec_columns()[c].len() ==> ((
            #[trigger] self.spec_columns()[c].keys_view()[i]) as int)
                < self.spec_records().num_ids()
                && self.spec_records().metas()[self.spec_columns()[c].keys_view()[i] as int].live)
    }

    /// A record that is not allocated has a value in no column.
    pub proof fn lemma_dead_not_member(self, id: u32)
        requires
            self.wf(),
            (id as int) < self.spec_records().num_ids() ==> !self.spec_records().metas()[
                id as int
            ].live,
        ensures
            forall|c: int|
                0 <= c < self.spec_columns().len() ==> !(
                #[trigger] self.spec_columns()[c]).contains_id(id),
            forall|t: u64| self.field_of(id, t) is None,
    {
        assert forall|c: int| 0 <= c < self.spec_columns().len() implies !(
        #[trigger] self.spec_columns()[c]).contains_id(id) by {
            let col = self.spec_columns()[c];
            if col.contains_id(id) {
                let s = col.slot_of(id) as int;
                assert(col.keys_view()[s] == id);
            }
        }
    }

    /// An empty store: no records, no columns.
    pub fn new() -> (db: Self)
        ensures
            db.wf(),
            db.spec_records().num_ids() == 0,
            db.spec_records().live_len() == 0,
            db.spec_records().free_list().len() == 0,
            db.spec_columns().len() == 0,
            forall|r: Record| !db.is_live(r),
            forall|t: u64| !db.has_column(t),
    {
        Database { records: RecordSet::new(), columns: Vec::new(), index: TypeMap::new() }
    }

    /// More record handles can be handed out.
    pub open spec fn can_allocate(self) -> bool {
        self.spec_records().can_allocate()
    }

    /// Allocate a record handle: live, fresh (it was not live before), with
    /// no fields, leaving every other handle and every column untouched.
    pub fn allocate(&mut self) -> (r: Record)
        requires
            old(self).wf(),
            old(self).can_allocate(),
        ensures
            final(self).wf(),
            final(self).is_live(r),
            r.generation >= 1,
            !old(self).is_live(r),
            forall|r2: Record| r2 != r ==> (final(self).is_live(r2) <==> old(self).is_live(r2)),
            final(self).spec_records().live_len() == old(self).spec_records().live_len() + 1,
            old(self).spec_records().free_list().len() == 0 ==> r.id as int == old(
                self).spec_records().num_ids() && r.generation == 1,
            old(self).spec_records().free_list().len() > 0 ==> r.id == old(
                self).spec_records().free_list().last() && r.generation == old(
                self).spec_records().metas()[r.id as int].generation && final(
                self).spec_records().num_ids() == old(self).spec_records().num_ids() && final(
                self).spec_records().free_list() == old(
                self).spec_records().free_list().drop_last(),
            old(self).spec_records().free_list().len() == 0 ==> final(self).spec_records().num_ids()
                == old(self).spec_records().num_ids() + 1 && final(self).spec_records().free_list()
                == old(self).spec_records().free_list(),
            final(self).spec_records().live_handles() == old(
                self).spec_records().live_handles().insert(r),
            final(self).spec_columns() == old(self).spec_columns(),
            final(self).spec_index() == old(self).spec_index(),
            forall|t: u64| final(self).field_of(r.id, t) is None,
            forall|id: u32, t: u64| final(self).field_of(id, t) == old(self).field_of(id, t),
    {
        let r = self.records.allocate();
        proof {
            if old(self).spec_records().free_list().len() > 0 {
                assert((r.id as int) < old(self).spec_records().num_ids());
                assert(!old(self).spec_records().metas()[r.id as int].live);
            } else {
                assert(r.id as int == old(self).spec_records().num_ids());
            }
            old(self).lemma_dead_not_member(r.id);
            assert forall|c: int, i: int|
                0 <= c < self.spec_columns().len() && 0 <= i
                    < self.spec_columns()[c].len() implies ((
            #[trigger] self.spec_columns()[c].keys_view()[i]) as int)
                < self.spec_records().num_ids() && self.spec_records().metas()[self.spec_columns()[
                c
            ].keys_view()[i] as int].live by {
                let id = self.spec_columns()[c].keys_view()[i];
                assert(old(self).spec_columns()[c].keys_view()[i] == id);
                assert(old(self).spec_records().metas()[id as int].live);
                assert(!old(self).spec_columns()[c].contains_id(r.id));
                assert(id != r.id) by {
                    if id == r.id {
                        assert(old(self).spec_columns()[c].slot_of(id) as int == i);
                    }
                }
                assert(self.spec_records().metas()[id as int] == old(self).spec_records().metas()[
                    id as int
                ]);
            }
            assert forall|t: u64| self.field_of(r.id, t) is None by {
                if self.has_column(t) {
                    assert(!old(self).spec_columns()[self.column_at(t)].contains_id(r.id));
                }
            }
        }
        r
    }

    /// Whether a record handle is live, as an executable test.
    pub fn is_record_live(&self, r: Record) -> (b: bool)
        ensures
            b == self.is_live(r),
    {
        self.records.is_alive(r)
    }

    /// Look a record handle up, as the allocator sees it.
    pub fn get_record(&self, r: Record) -> (res: Result<
        crate::records::RecordStatus,
        StoreError,
    >)
        requires
            self.wf(),
        ensures
            self.is_live(r) ==> res == Ok::<crate::records::RecordStatus, StoreError>(
                crate::records::RecordStatus::Live,
            ),
            !self.is_live(r) && self.spec_records().is_reserved(r) ==> res == Ok::<
                crate::records::RecordStatus,
                StoreError,
            >(crate::records::RecordStatus::Reserved),
            !self.is_live(r) && !self.spec_records().is_reserved(r) ==> res == Err::<
                crate::records::RecordStatus,
                StoreError,
            >(StoreError::NoSuchRecord),
    {
        self.records.get(r)
    }

    /// The number of live records.
    pub fn live_records(&self) -> (n: usize)
        ensures
            n as int == self.spec_records().live_len(),
    {
        self.records.live_count_now()
    }

    /// Add a field of one type to a live record.  The column for the type
    /// is resolved or created, the value's bytes move into the next slot,
    /// and the record's sparse entry records the slot.  A stale handle, a
    /// duplicate field, and a borrowed column are rejected, in that order,
    /// and leave the store untouched.
    pub fn add_field(&mut self, r: Record, desc: TypeDescriptor, value: Vec<u8>) -> (res: Result<
        (),
        StoreError,
    >)
        requires
            old(self).wf(),
            value@.len() == desc.size,
            old(self).has_column(desc.id) ==> old(self).spec_columns()[old(self).column_at(
                desc.id,
            )].spec_desc() == desc,
            old(self).has_column(desc.id) ==> old(self).spec_columns()[old(self).column_at(
                desc.id,
            )].inserted_count() < u64::MAX,
        ensures
            final(self).wf(),
            !old(self).is_live(r) ==> res == Err::<(), StoreError>(StoreError::NoSuchRecord)
                && *final(self) == *old(self),
            old(self).is_live(r) && old(self).field_of(r.id, desc.id) is Some ==> res == Err::<
                (),
                StoreError,
            >(StoreError::DuplicateField) && *final(self) == *old(self),
            old(self).is_live(r) && old(self).field_of(r.id, desc.id) is None && old(self).has_column(desc.id) && !old(self).spec_columns()[old(self).column_at(
                desc.id,
            )].borrow_state().is_free() ==> res == Err::<(), StoreError>(StoreError::BorrowConflict)
                && *final(self) == *old(self),
            old(self).is_live(r) && old(self).field_of(r.id, desc.id) is None && (!old(self).has_column(desc.id) || old(self).spec_columns()[old(self).column_at(
                desc.id,
            )].borrow_state().is_free()) ==> res == Ok::<(), StoreError>(()) && {
                &&& final(self).field_of(r.id, desc.id) == Some(value@)
                &&& final(self).has_column(desc.id)
                &&& final(self).spec_columns()[final(self).column_at(desc.id)].keys_view() == (if
                    old(self).has_column(desc.id) {
                    old(self).spec_columns()[old(self).column_at(desc.id)].keys_view()
                } else {
                    Seq::<u32>::empty()
                }).push(r.id)
                &&& final(self).spec_columns()[final(self).column_at(desc.id)].inserted_count()
                    == (if old(self).has_column(desc.id) {
                    old(self).spec_columns()[old(self).column_at(desc.id)].inserted_count()
                } else {
                    0
                }) + 1
                &&& final(self).spec_columns()[final(self).column_at(desc.id)].drop_count() == (if
                    old(self).has_column(desc.id) {
                    old(self).spec_columns()[old(self).column_at(desc.id)].drop_count()
                } else {
                    0
                })
                &&& final(self).spec_columns()[final(self).column_at(desc.id)].capacity() == {
                    let oldcap = (if old(self).has_column(desc.id) {
                        old(self).spec_columns()[old(self).column_at(desc.id)].capacity() as int
                    } else {
                        0int
                    });
                    let oldlen = (if old(self).has_column(desc.id) {
                        old(self).spec_columns()[old(self).column_at(desc.id)].len() as int
                    } else {
                        0int
                    });
                    if oldlen < oldcap {
                        oldcap
                    } else {
                        grown_capacity(oldcap, MIN_GROWTH as int)
                    }
                }
            },
            res is Ok ==> forall|id2: u32, t2: u64|
                !(id2 == r.id && t2 == desc.id) ==> final(self).field_of(id2, t2) == old(self).field_of(id2, t2),
            final(self).spec_records() == old(self).spec_records(),
            forall|t2: u64| final(self).has_column(t2) <==> (old(self).has_column(t2) || (res is Ok
                && t2 == desc.id)),
            res is Ok ==> final(self).spec_columns()[final(self).column_at(
                desc.id,
            )].spec_desc() == desc,
            res is Ok ==> final(self).spec_columns()[final(self).column_at(
                desc.id,
            )].borrow_state().is_free(),
            res is Ok && old(self).has_column(desc.id) ==> final(self).spec_index() == old(
                self).spec_index() && final(self).spec_columns().len() == old(
                self).spec_columns().len() && (forall|c: int|
                0 <= c < old(self).spec_columns().len() && c != old(self).column_at(desc.id)
                    ==> final(self).spec_columns()[c] == old(self).spec_columns()[c]),
            res is Ok && !old(self).has_column(desc.id) ==> final(self).spec_index() == old(
                self).spec_index().insert(desc.id, old(self).spec_columns().len() as usize)
                && final(self).spec_columns().len() == old(self).spec_columns().len() + 1 && (
            forall|c: int|
                0 <= c < old(self).spec_columns().len() ==> final(self).spec_columns()[c] == old(
                    self).spec_columns()[c]),
    {
        if !self.records.is_alive(r) {
            return Err(StoreError::NoSuchRecord);
        }
        let tid = desc.id;
        match self.index.get(tid) {
            Some(pos) => {
                if self.columns[pos].slot_lookup(r.id) != SENTINEL {
                    return Err(StoreError::DuplicateField);
                }
                if !self.columns[pos].borrow_is_free() {
                    return Err(StoreError::BorrowConflict);
                }
                let ghost oldcols = self.columns@;
                let cref = &mut self.columns[pos];
                let slot = cref.allocate(r.id);
                cref.put_raw(slot, value);
                proof {
                    assert(self.columns@ == oldcols.update(pos as int, self.columns@[pos as int]));
                    let newcol = self.columns@[pos as int];
                    let oldcol = oldcols[pos as int];
                    assert(newcol.value_at(slot as int) == value@);
                    assert(newcol.slot_of(r.id) as int == slot);
                    assert(self.field_of(r.id, tid) == Some(value@));
                    assert forall|id2: u32, t2: u64|
                        !(id2 == r.id && t2 == tid) implies self.field_of(id2, t2) == old(self).field_of(id2, t2) by {
                        if self.has_column(t2) {
                            if self.column_at(t2) == pos as int {
                                assert(t2 == tid);
                                if id2 != r.id {
                                    assert(newcol.slot_of(id2) == oldcol.slot_of(id2));
                                    if oldcol.contains_id(id2) {
                                        let s2 = oldcol.slot_of(id2) as int;
                                        assert(oldcol.keys_view()[s2] == id2);
                                        assert(s2 < slot as int);
                                        assert(newcol.value_at(s2) == oldcol.value_at(s2));
                                    }
                                }
                            } else {
                                assert(self.spec_columns()[self.column_at(t2)] == oldcols[
                                    self.column_at(t2)
                                ]);
                            }
                        }
                    }
                    assert forall|c: int, i: int|
                        0 <= c < self.spec_columns().len() && 0 <= i
                            < self.spec_columns()[c].len() implies ((
                    #[trigger] self.spec_columns()[c].keys_view()[i]) as int)
                        < self.spec_records().num_ids() && self.spec_records().metas()[
                        self.spec_columns()[c].keys_view()[i] as int
                    ].live by {
                        if c == pos as int && i == slot as int {
                            assert(self.spec_columns()[c].keys_view()[i] == r.id);
                        } else if c == pos as int {
                            assert(self.spec_columns()[c].keys_view()[i]
                                == oldcols[c].keys_view()[i]);
                        }
                    }
                }
                Ok(())
            },
            None => {
                let mut col = Column::new(desc);
                let slot = col.allocate(r.id);
                col.put_raw(slot, value);
                let pos = self.columns.len();
                let ghost oldcols = self.columns@;
                self.columns.push(col);
                self.index.insert(tid, pos);
                proof {
                    let newcol = self.columns@[pos as int];
                    assert(newcol.slot_of(r.id) as int == slot);
                    assert(self.field_of(r.id, tid) == Some(value@));
                    assert forall|id2: u32, t2: u64|
                        !(id2 == r.id && t2 == tid) implies self.field_of(id2, t2) == old(self).field_of(id2, t2) by {
                        if t2 == tid {
                            if id2 != r.id {
                                assert(newcol.slot_of(id2) == SENTINEL);
                            }
                        } else if self.has_column(t2) {
                            assert(self.column_at(t2) < pos as int);
                            assert(self.spec_columns()[self.column_at(t2)] == oldcols[self.column_at(
                                t2,
                            )]);
                        }
                    }
                    assert forall|c: int, i: int|
                        0 <= c < self.spec_columns().len() && 0 <= i
                            < self.spec_columns()[c].len() implies ((
                    #[trigger] self.spec_columns()[c].keys_view()[i]) as int)
                        < self.spec_records().num_ids() && self.spec_records().metas()[
                        self.spec_columns()[c].keys_view()[i] as int
                    ].live by {
                        if c == pos as int {
                            assert(self.spec_columns()[c].keys_view() == Seq::<u32>::empty().push(
                                r.id,
                            ));
                            assert(self.spec_columns()[c].keys_view()[i] == r.id);
                        }
                    }
                }
                Ok(())
            },
        }
    }

    /// Some column holding this record id has a live borrow, so the record
    /// cannot be evicted.
    pub open spec fn member_column_borrowed(self, id: u32) -> bool {
        exists|c: int|
            0 <= c < self.spec_columns().len() && (#[trigger] self.spec_columns()[c]).contains_id(
                id,
            ) && !self.spec_columns()[c].borrow_state().is_free()
    }

    /// Free a live record: its value leaves every column that holds one
    /// (each removed value's destructor runs), the id's generation steps
    /// forward so the handle and all its older handles are dead, and the id
    /// joins the free list.  A stale handle is rejected; so is the call
    /// while any column holding the record is borrowed; either rejection
    /// leaves the store untouched.
    pub fn free(&mut self, r: Record) -> (res: Result<(), StoreError>)
        requires
            old(self).wf(),
        ensures
            final(self).wf(),
            !old(self).is_live(r) ==> res == Err::<(), StoreError>(StoreError::NoSuchRecord)
                && *final(self) == *old(self),
            old(self).is_live(r) && old(self).member_column_borrowed(r.id) ==> res == Err::<
                (),
                StoreError,
            >(StoreError::BorrowConflict) && *final(self) == *old(self),
            old(self).is_live(r) && !old(self).member_column_borrowed(r.id) ==> res == Ok::<
                (),
                StoreError,
            >(()) && {
                &&& (forall|r2: Record| r2.id == r.id ==> !final(self).is_live(r2))
                &&& final(self).spec_records().live_len() == old(self).spec_records().live_len()
                    - 1
                &&& final(self).spec_records().metas()[r.id as int].generation == crate::records::next_generation(
                    r.generation,
                )
                &&& (r.generation < u32::MAX ==> final(self).spec_records().metas()[
                    r.id as int
                ].generation > r.generation)
                &&& final(self).spec_records().free_list() == old(
                    self).spec_records().free_list().push(r.id)
                &&& final(self).spec_records().live_handles() == old(
                    self).spec_records().live_handles().remove(r)
                &&& (forall|t: u64| final(self).field_of(r.id, t) is None)
                &&& (forall|c: int|
                    0 <= c < old(self).spec_columns().len() && (#[trigger] old(self).spec_columns()[c]).contains_id(r.id) ==> final(self).spec_columns()[c].len()
                        == old(self).spec_columns()[c].len() - 1 && final(self).spec_columns()[c].drop_count() == old(self).spec_columns()[c].drop_count()
                        + 1 && final(self).spec_columns()[c].inserted_count() == old(self).spec_columns()[c].inserted_count())
                &&& (forall|c: int|
                    0 <= c < old(self).spec_columns().len() && !(#[trigger] old(self).spec_columns()[c]).contains_id(r.id) ==> final(self).spec_columns()[c] == old(self).spec_columns()[c])
            },
            forall|r2: Record| r2.id != r.id ==> (final(self).is_live(r2) <==> old(self).is_live(
                r2,
            )),
            forall|id2: u32, t2: u64|
                id2 != r.id ==> final(self).field_of(id2, t2) == old(self).field_of(id2, t2),
            final(self).spec_index() == old(self).spec_index(),
            final(self).spec_columns().len() == old(self).spec_columns().len(),
    {
        if !self.records.is_alive(r) {
            return Err(StoreError::NoSuchRecord);
        }
        let n = self.columns.len();
        let mut k: usize = 0;
        while k < n
            invariant
                k <= n,
                n == self.columns@.len(),
                *self == *old(self),
                old(self).wf(),
                old(self).is_live(r),
                forall|c: int|
                    0 <= c < k && (#[trigger] self.columns@[c]).contains_id(r.id)
                        ==> self.columns@[c].borrow_state().is_free(),
            decreases n - k,
        {
            if self.columns[k].slot_lookup(r.id) != SENTINEL && !self.columns[k].borrow_is_free() {
                return Err(StoreError::BorrowConflict);
            }
            k = k + 1;
        }
        assert(!self.member_column_borrowed(r.id));
        let ghost pre = *self;
        let mut k2: usize = 0;
        while k2 < n
            invariant
                k2 <= n,
                n == self.columns@.len(),
                pre == *old(self),
                pre.wf(),
                pre.is_live(r),
                !pre.member_column_borrowed(r.id),
                self.records == pre.spec_records(),
                self.columns@.len() == pre.spec_columns().len(),
                type_map_entries(self.index) == pre.spec_index(),
                forall|c: int| k2 <= c < n ==> #[trigger] self.columns@[c] == pre.spec_columns()[c],
                forall|c: int|
                    0 <= c < k2 ==> column_after_eviction(
                        pre.spec_columns()[c],
                        #[trigger] self.columns@[c],
                        r.id,
                    ),
                forall|c: int| 0 <= c < n ==> (#[trigger] self.columns@[c]).wf(),
            decreases n - k2,
        {
            let slot = self.columns[k2].slot_lookup(r.id);
            if slot != SENTINEL {
                let ghost oldcol = self.columns@[k2 as int];
                proof {
                    oldcol.lemma_keys_distinct();
                    assert(oldcol.borrow_state().is_free());
                }
                let cref = &mut self.columns[k2];
                cref.remove_slot(slot as usize);
                proof {
                    let newcol = self.columns@[k2 as int];
                    lemma_eviction_frame(oldcol, newcol, r.id);
                }
            }
            k2 = k2 + 1;
        }
        self.records.free(r);
        proof {
            assert forall|c: int, i: int|
                0 <= c < self.spec_columns().len() && 0 <= i
                    < self.spec_columns()[c].len() implies ((
            #[trigger] self.spec_columns()[c].keys_view()[i]) as int)
                < self.spec_records().num_ids() && self.spec_records().metas()[self.spec_columns()[
                c
            ].keys_view()[i] as int].live by {
                let newc = self.spec_columns()[c];
                let id2 = newc.keys_view()[i];
                assert(column_after_eviction(pre.spec_columns()[c], newc, r.id));
                newc.lemma_keys_distinct();
                assert(newc.slot_of(id2) as int == i);
                assert(newc.contains_id(id2));
                assert(id2 != r.id);
                assert(pre.spec_columns()[c].contains_id(id2));
                let s2 = pre.spec_columns()[c].slot_of(id2) as int;
                assert(pre.spec_columns()[c].keys_view()[s2] == id2);
                assert(pre.spec_records().metas()[id2 as int].live);
            }
            assert forall|t: u64| self.field_of(r.id, t) is None by {
                if self.has_column(t) {
                    assert(column_after_eviction(
                        pre.spec_columns()[self.column_at(t)],
                        self.spec_columns()[self.column_at(t)],
                        r.id,
                    ));
                }
            }
            assert forall|id2: u32, t2: u64| id2 != r.id implies self.field_of(id2, t2)
                == old(self).field_of(id2, t2) by {
                if self.has_column(t2) {
                    let c = self.column_at(t2);
                    assert(column_after_eviction(
                        pre.spec_columns()[c],
                        self.spec_columns()[c],
                        r.id,
                    ));
                }
            }
        }
        Ok(())
    }

    /// Remove the field of one type from a live record, swapping the last
    /// slot of the column into the hole.  The removed value's destructor
    /// runs; every other record keeps its fields.  A stale handle, a
    /// missing field, and a borrowed column are rejected, in that order,
    /// and leave the store untouched.
    pub fn remove_field(&mut self, r: Record, tid: u64) -> (res: Result<(), StoreError>)
        requires
            old(self).wf(),
        ensures
            final(self).wf(),
            !old(self).is_live(r) ==> res == Err::<(), StoreError>(StoreError::NoSuchRecord)
                && *final(self) == *old(self),
            old(self).is_live(r) && old(self).field_of(r.id, tid) is None ==> res == Err::<
                (),
                StoreError,
            >(StoreError::MissingField) && *final(self) == *old(self),
            old(self).is_live(r) && old(self).field_of(r.id, tid) is Some && !old(self).spec_columns()[old(self).column_at(tid)].borrow_state().is_free() ==> res == Err::<
                (),
                StoreError,
            >(StoreError::BorrowConflict) && *final(self) == *old(self),
            old(self).is_live(r) && old(self).field_of(r.id, tid) is Some && old(self).spec_columns()[old(self).column_at(tid)].borrow_state().is_free() ==> res == Ok::<
                (),
                StoreError,
            >(()) && {
                let pos = old(self).column_at(tid);
                let oldcol = old(self).spec_columns()[pos];
                let slot = oldcol.slot_of(r.id) as int;
                &&& final(self).field_of(r.id, tid) is None
                &&& final(self).spec_columns()[pos].len() == oldcol.len() - 1
                &&& final(self).spec_columns()[pos].drop_count() == oldcol.drop_count() + 1
                &&& final(self).spec_columns()[pos].inserted_count() == oldcol.inserted_count()
                &&& final(self).spec_columns()[pos].keys_view() == oldcol.keys_view().update(
                    slot,
                    oldcol.keys_view().last(),
                ).drop_last()
                &&& final(self).spec_columns()[pos].borrow_state().is_free()
                &&& final(self).spec_columns()[pos].spec_desc() == oldcol.spec_desc()
                &&& final(self).spec_columns()[pos].capacity() == oldcol.capacity()
                &&& (forall|c: int|
                    0 <= c < old(self).spec_columns().len() && c != pos ==> final(
                        self).spec_columns()[c] == old(self).spec_columns()[c])
            },
            final(self).spec_columns().len() == old(self).spec_columns().len(),
            res is Ok ==> forall|id2: u32, t2: u64|
                !(id2 == r.id && t2 == tid) ==> final(self).field_of(id2, t2) == old(self).field_of(
                    id2,
                    t2,
                ),
            final(self).spec_records() == old(self).spec_records(),
            final(self).spec_index() == old(self).spec_index(),
    {
        if !self.records.is_alive(r) {
            return Err(StoreError::NoSuchRecord);
        }
        match self.index.get(tid) {
            None => Err(StoreError::MissingField),
            Some(pos) => {
                let slot = self.columns[pos].slot_lookup(r.id);
                if slot == SENTINEL {
                    return Err(StoreError::MissingField);
                }
                if !self.columns[pos].borrow_is_free() {
                    return Err(StoreError::BorrowConflict);
                }
                let ghost oldcols = self.columns@;
                let ghost oldcol = self.columns@[pos as int];
                proof {
                    oldcol.lemma_keys_distinct();
                }
                let cref = &mut self.columns[pos];
                cref.remove_slot(slot as usize);
                proof {
                    assert(self.columns@ == oldcols.update(pos as int, self.columns@[pos as int]));
                    let newcol = self.columns@[pos as int];
                    let n = oldcol.len() as int;
                    let moved = oldcol.keys_view().last();
                    assert(newcol.slot_of(r.id) == SENTINEL);
                    assert forall|id2: u32, t2: u64|
                        !(id2 == r.id && t2 == tid) implies self.field_of(id2, t2) == old(self).field_of(id2, t2) by {
                        if self.has_column(t2) {
                            if self.column_at(t2) == pos as int {
                                assert(t2 == tid);
                                if id2 != r.id {
                                    if id2 == moved && moved != r.id {
                                        assert(oldcol.slot_of(moved) as int == n - 1);
                                        assert(newcol.slot_of(moved) as int == slot as int);
                                        assert(newcol.value_at(slot as int) == oldcol.value_at(
                                            n - 1,
                                        ));
                                    } else if oldcol.contains_id(id2) {
                                        let s2 = oldcol.slot_of(id2) as int;
                                        assert(oldcol.keys_view()[s2] == id2);
                                        assert(s2 != slot as int);
                                        assert(s2 != n - 1);
                                        assert(newcol.slot_of(id2) == oldcol.slot_of(id2));
                                        assert(newcol.value_at(s2) == oldcol.value_at(s2));
                                    } else {
                                        assert(newcol.slot_of(id2) == oldcol.slot_of(id2));
                                    }
                                }
                            } else {
                                assert(self.spec_columns()[self.column_at(t2)] == oldcols[
                                    self.column_at(t2)
                                ]);
                            }
                        }
                    }
                    assert forall|c: int, i: int|
                        0 <= c < self.spec_columns().len() && 0 <= i
                            < self.spec_columns()[c].len() implies ((
                    #[trigger] self.spec_columns()[c].keys_view()[i]) as int)
                        < self.spec_records().num_ids() && self.spec_records().metas()[
                        self.spec_columns()[c].keys_view()[i] as int
                    ].live by {
                        if c == pos as int {
                            let kv = newcol.keys_view();
                            assert(kv[i] == oldcol.keys_view().update(
                                slot as int,
                                moved,
                            ).drop_last()[i]);
                            assert(kv[i] == oldcol.keys_view()[(if i == slot as int {
                                n - 1
                            } else {
                                i
                            })]);
                        }
                    }
                }
                Ok(())
            },
        }
    }
}

/// A scoped shared view of one column: the records and values of every
/// slot, in slot order, snapshotted while one shared borrow is held on the
/// column.  Give it back with [`Database::release_column`].
pub struct ColumnRef {
    /// The field-type identity the view was taken for.
    pub type_key: u64,
    /// The position of the column inside the store.
    pub position: usize,
    /// The owning record ids, in slot order.
    pub records: Vec<u32>,
    /// The value bytes of each slot, in slot order.
    pub values: Vec<Vec<u8>>,
}

/// A scoped unique view of one column, held while the unique borrow is
/// taken.  Edit `values` in place, then give the view back with
/// [`Database::release_column_mut`], which stores the edited values.
pub struct ColumnMut {
    /// The field-type identity the view was taken for.
    pub type_key: u64,
    /// The position of the column inside the store.
    pub position: usize,
    /// The owning record ids, in slot order.
    pub records: Vec<u32>,
    /// The value bytes of each slot, in slot order; edit them, keeping
    /// each value's size.
    pub values: Vec<Vec<u8>>,
}

/// A scoped shared view of one field of one record, snapshotted while one
/// shared borrow is held on the field's column.  Give it back with
/// [`Database::release_field`].
pub struct FieldRef {
    /// The field-type identity the view was taken for.
    pub type_key: u64,
    /// The position of the column inside the store.
    pub position: usize,
    /// The record whose field this is.
    pub record: Record,
    /// The field's bytes.
    pub value: Vec<u8>,
}

/// A scoped unique view of one field of one record, held while the unique
/// borrow is taken on the field's column.  Edit `value`, then give the
/// view back with [`Database::release_field_mut`], which stores it.
pub struct FieldMut {
    /// The field-type identity the view was taken for.
    pub type_key: u64,
    /// The position of the column inside the store.
    pub position: usize,
    /// The record whose field this is.
    pub record: Record,
    /// The slot the field occupies in its column.
    pub slot: u32,
    /// The field's bytes; edit them, keeping their size.
    pub value: Vec<u8>,
}

/// What ever was inserted into one column, and how often its destructor
/// ran, as the store's destruction reports it.
#[derive(Clone, Copy, Debug, PartialEq, Eq, Structural)]
pub struct DropReport {
    /// The field-type identity of the column.
    pub type_key: u64,
    /// How many values were ever moved into the column.
    pub values_inserted: u64,
    /// How many destructors ran, over the column's whole life.
    pub destructor_runs: u64,
}

impl Database {
    /// Take a scoped shared view of the column of one field type.  The
    /// column's borrow counter gains one shared borrow; a live unique
    /// borrow, or a saturated counter, refuses with a conflict.  An absent
    /// column reports a missing field.  A rejection leaves the store
    /// untouched.
    pub fn column(&mut self, tid: u64) -> (res: Result<ColumnRef, StoreError>)
        requires
            old(self).wf(),
        ensures
            final(self).wf(),
            !old(self).has_column(tid) ==> res == Err::<ColumnRef, StoreError>(
                StoreError::MissingField,
            ) && *final(self) == *old(self),
            old(self).has_column(tid) && !(!old(self).spec_columns()[old(self).column_at(
                tid,
            )].borrow_state().unique_held() && old(self).spec_columns()[old(self).column_at(
                tid,
            )].borrow_state().shared_count() < crate::borrow::UNIQUE - 1) ==> (res matches Err(e)
                && e == StoreError::BorrowConflict) && *final(self) == *old(self),
            old(self).has_column(tid) && !old(self).spec_columns()[old(self).column_at(
                tid,
            )].borrow_state().unique_held() && old(self).spec_columns()[old(self).column_at(
                tid,
            )].borrow_state().shared_count() < crate::borrow::UNIQUE - 1 ==> (res matches Ok(cref)
                && {
                let col = old(self).spec_columns()[old(self).column_at(tid)];
                &&& cref.type_key == tid
                &&& cref.position as int == old(self).column_at(tid)
                &&& cref.records@ == col.keys_view()
                &&& cref.values@.map_values(|v: Vec<u8>| v@) == col.values()
                &&& final(self).spec_columns()[old(self).column_at(
                    tid,
                )].borrow_state().shared_count() == col.borrow_state().shared_count() + 1
                &&& !final(self).spec_columns()[old(self).column_at(
                    tid,
                )].borrow_state().unique_held()
            }),
            final(self).spec_records() == old(self).spec_records(),
            final(self).spec_index() == old(self).spec_index(),
            final(self).spec_columns().len() == old(self).spec_columns().len(),
            forall|c: int|
                0 <= c < old(self).spec_columns().len() ==> crate::column::unchanged_but_borrow(
                    old(self).spec_columns()[c],
                    #[trigger] final(self).spec_columns()[c],
                ),
            old(self).has_column(tid) ==> (forall|c: int|
                0 <= c < old(self).spec_columns().len() && c != old(self).column_at(tid) ==> final(
                    self).spec_columns()[c] == old(self).spec_columns()[c]),
            forall|id2: u32, t2: u64| final(self).field_of(id2, t2) == old(self).field_of(id2, t2),
    {
        let pos = match self.index.get(tid) {
            None => {
                return Err(StoreError::MissingField);
            },
            Some(pos) => pos,
        };
        if !self.columns[pos].share_available() {
            return Err(StoreError::BorrowConflict);
        }
        let ghost oldcols = self.columns@;
        let col_ref = &mut self.columns[pos];
        let acquired = col_ref.acquire_shared();
        proof {
            assert(acquired);
            assert(self.columns@ == oldcols.update(pos as int, self.columns@[pos as int]));
            lemma_unchanged_field_of(*old(self), *self);
        }
        let cref = self.snapshot(pos, tid);
        Ok(cref)
    }

    /// Snapshot the records and values of one column.
    fn snapshot(&self, pos: usize, tid: u64) -> (cref: ColumnRef)
        requires
            self.wf(),
            (pos as int) < self.spec_columns().len(),
        ensures
            cref.type_key == tid,
            cref.position == pos,
            cref.records@ == self.spec_columns()[pos as int].keys_view(),
            cref.values@.map_values(|v: Vec<u8>| v@) == self.spec_columns()[pos as int].values(),
    {
        let ghost col = self.spec_columns()[pos as int];
        let n = self.columns[pos].length();
        let mut records: Vec<u32> = Vec::new();
        let mut values: Vec<Vec<u8>> = Vec::new();
        let mut i: usize = 0;
        proof {
            assert(values@.map_values(|v: Vec<u8>| v@) =~= col.values().subrange(0, 0));
            assert(records@ =~= col.keys_view().subrange(0, 0));
        }
        while i < n
            invariant
                i <= n,
                n as int == col.len(),
                self.wf(),
                (pos as int) < self.spec_columns().len(),
                col == self.spec_columns()[pos as int],
                records@ == col.keys_view().subrange(0, i as int),
                values@.map_values(|v: Vec<u8>| v@) == col.values().subrange(0, i as int),
            decreases n - i,
        {
            records.push(self.columns[pos].key_at(i));
            let v = self.columns[pos].get_raw(i);
            let ghost prev = values@;
            values.push(v);
            proof {
                assert(records@ =~= col.keys_view().subrange(0, i as int + 1));
                assert(values@.map_values(|v2: Vec<u8>| v2@) =~= prev.map_values(
                    |v2: Vec<u8>| v2@,
                ).push(v@));
                assert(values@.map_values(|v2: Vec<u8>| v2@) =~= col.values().subrange(
                    0,
                    i as int + 1,
                ));
            }
            i = i + 1;
        }
        proof {
            assert(records@ =~= col.keys_view());
            assert(values@.map_values(|v: Vec<u8>| v@) =~= col.values());
        }
        ColumnRef { type_key: tid, position: pos, records, values }
    }

    /// Give back a scoped shared view of a column: its shared borrow is
    /// released and nothing else changes.
    pub fn release_column(&mut self, cref: ColumnRef)
        requires
            old(self).wf(),
            (cref.position as int) < old(self).spec_columns().len(),
            !old(self).spec_columns()[cref.position as int].borrow_state().unique_held(),
            old(self).spec_columns()[cref.position as int].borrow_state().shared_count() >= 1,
        ensures
            final(self).wf(),
            final(self).spec_columns()[cref.position as int].borrow_state().shared_count() == old(
                self).spec_columns()[cref.position as int].borrow_state().shared_count() - 1,
            !final(self).spec_columns()[cref.position as int].borrow_state().unique_held(),
            final(self).spec_records() == old(self).spec_records(),
            final(self).spec_index() == old(self).spec_index(),
            final(self).spec_columns().len() == old(self).spec_columns().len(),
            forall|c: int|
                0 <= c < old(self).spec_columns().len() ==> crate::column::unchanged_but_borrow(
                    old(self).spec_columns()[c],
                    #[trigger] final(self).spec_columns()[c],
                ),
            forall|c: int|
                0 <= c < old(self).spec_columns().len() && c != cref.position as int ==> final(
                    self).spec_columns()[c] == old(self).spec_columns()[c],
            forall|id2: u32, t2: u64| final(self).field_of(id2, t2) == old(self).field_of(id2, t2),
    {
        let pos = cref.position;
        let ghost oldcols = self.columns@;
        let col_ref = &mut self.columns[pos];
        col_ref.release_shared();
        proof {
            assert(self.columns@ == oldcols.update(pos as int, self.columns@[pos as int]));
            lemma_unchanged_field_of(*old(self), *self);
        }
    }

    /// Take a scoped unique view of the column of one field type.  The
    /// unique borrow succeeds only while no borrow of either kind is live;
    /// otherwise the call refuses with a conflict and the store is
    /// untouched.
    pub fn column_mut(&mut self, tid: u64) -> (res: Result<ColumnMut, StoreError>)
        requires
            old(self).wf(),
        ensures
            final(self).wf(),
            !old(self).has_column(tid) ==> res == Err::<ColumnMut, StoreError>(
                StoreError::MissingField,
            ) && *final(self) == *old(self),
            old(self).has_column(tid) && !old(self).spec_columns()[old(self).column_at(
                tid,
            )].borrow_state().is_free() ==> (res matches Err(e) && e == StoreError::BorrowConflict)
                && *final(self) == *old(self),
            old(self).has_column(tid) && old(self).spec_columns()[old(self).column_at(
                tid,
            )].borrow_state().is_free() ==> (res matches Ok(cmut) && {
                let col = old(self).spec_columns()[old(self).column_at(tid)];
                &&& cmut.type_key == tid
                &&& cmut.position as int == old(self).column_at(tid)
                &&& cmut.records@ == col.keys_view()
                &&& cmut.values@.map_values(|v: Vec<u8>| v@) == col.values()
                &&& cmut.values@.len() == col.len()
                &&& final(self).spec_columns()[old(self).column_at(
                    tid,
                )].borrow_state().unique_held()
            }),
            final(self).spec_records() == old(self).spec_records(),
            final(self).spec_index() == old(self).spec_index(),
            final(self).spec_columns().len() == old(self).spec_columns().len(),
            forall|c: int|
                0 <= c < old(self).spec_columns().len() ==> crate::column::unchanged_but_borrow(
                    old(self).spec_columns()[c],
                    #[trigger] final(self).spec_columns()[c],
                ),
            old(self).has_column(tid) ==> (forall|c: int|
                0 <= c < old(self).spec_columns().len() && c != old(self).column_at(tid) ==> final(
                    self).spec_columns()[c] == old(self).spec_columns()[c]),
            forall|id2: u32, t2: u64| final(self).field_of(id2, t2) == old(self).field_of(id2, t2),
    {
        let pos = match self.index.get(tid) {
            None => {
                return Err(StoreError::MissingField);
            },
            Some(pos) => pos,
        };
        if !self.columns[pos].borrow_is_free() {
            return Err(StoreError::BorrowConflict);
        }
        let ghost oldcols = self.columns@;
        let col_ref = &mut self.columns[pos];
        let acquired = col_ref.acquire_unique();
        proof {
            assert(acquired);
            assert(self.columns@ == oldcols.update(pos as int, self.columns@[pos as int]));
            lemma_unchanged_field_of(*old(self), *self);
        }
        let cref = self.snapshot(pos, tid);
        proof {
            assert(cref.values@.map_values(|v: Vec<u8>| v@).len() == cref.values@.len());
        }
        Ok(ColumnMut { type_key: tid, position: pos, records: cref.records, values: cref.values })
    }

    /// Give back a scoped unique view of a column: the edited values are
    /// stored, slot for slot, and the unique borrow is released.  The
    /// edited values must keep the column's shape: one value per slot, of
    /// the column's size.
    pub fn release_column_mut(&mut self, cmut: ColumnMut)
        requires
            old(self).wf(),
            (cmut.position as int) < old(self).spec_columns().len(),
            old(self).spec_columns()[cmut.position as int].borrow_state().unique_held(),
            cmut.values@.len() == old(self).spec_columns()[cmut.position as int].len(),
            forall|i: int|
                0 <= i < cmut.values@.len() ==> (#[trigger] cmut.values@[i])@.len() == old(
                    self).spec_columns()[cmut.position as int].size(),
        ensures
            final(self).wf(),
            final(self).spec_columns()[cmut.position as int].borrow_state().is_free(),
            final(self).spec_columns()[cmut.position as int].values() == cmut.values@.map_values(
                |v: Vec<u8>| v@,
            ),
            final(self).spec_columns()[cmut.position as int].keys_view() == old(
                self).spec_columns()[cmut.position as int].keys_view(),
            final(self).spec_columns()[cmut.position as int].spec_desc() == old(
                self).spec_columns()[cmut.position as int].spec_desc(),
            final(self).spec_columns()[cmut.position as int].inserted_count() == old(
                self).spec_columns()[cmut.position as int].inserted_count(),
            final(self).spec_columns()[cmut.position as int].drop_count() == old(
                self).spec_columns()[cmut.position as int].drop_count(),
            final(self).spec_records() == old(self).spec_records(),
            final(self).spec_index() == old(self).spec_index(),
            final(self).spec_columns().len() == old(self).spec_columns().len(),
            forall|c: int|
                0 <= c < old(self).spec_columns().len() && c != cmut.position as int ==> final(
                    self).spec_columns()[c] == old(self).spec_columns()[c],
    {
        let pos = cmut.position;
        let ghost oldcols = self.columns@;
        let ghost oldcol = self.columns@[pos as int];
        let n = self.columns[pos].length();
        let mut i: usize = 0;
        while i < n
            invariant
                i <= n,
                (pos as int) < self.columns@.len(),
                self.columns@.len() == oldcols.len(),
                self.spec_records() == old(self).spec_records(),
                self.spec_index() == old(self).spec_index(),
                oldcols == old(self).spec_columns(),
                n as int == oldcol.len(),
                oldcol == oldcols[pos as int],
                oldcol.wf(),
                cmut.values@.len() == oldcol.len(),
                forall|j: int|
                    0 <= j < cmut.values@.len() ==> (#[trigger] cmut.values@[j])@.len()
                        == oldcol.size(),
                forall|c: int|
                    0 <= c < oldcols.len() && c != pos as int ==> #[trigger] self.columns@[c]
                        == oldcols[c],
                self.columns@[pos as int].wf(),
                self.columns@[pos as int].keys_view() == oldcol.keys_view(),
                self.columns@[pos as int].sparse_view() == oldcol.sparse_view(),
                self.columns@[pos as int].spec_desc() == oldcol.spec_desc(),
                self.columns@[pos as int].capacity() == oldcol.capacity(),
                self.columns@[pos as int].inserted_count() == oldcol.inserted_count(),
                self.columns@[pos as int].drop_count() == oldcol.drop_count(),
                self.columns@[pos as int].borrow_state() == oldcol.borrow_state(),
                forall|j: int|
                    0 <= j < i ==> #[trigger] self.columns@[pos as int].value_at(j)
                        == cmut.values@[j]@,
                forall|j: int|
                    i <= j < n ==> #[trigger] self.columns@[pos as int].value_at(j)
                        == oldcol.value_at(j),
            decreases n - i,
        {
            let ghost before = self.columns@;
            let col_ref = &mut self.columns[pos];
            col_ref.set_raw(i, &cmut.values[i]);
            proof {
                assert(self.columns@ == before.update(pos as int, self.columns@[pos as int]));
            }
            i = i + 1;
        }
        let ghost mid = *self;
        let col_ref = &mut self.columns[pos];
        col_ref.release_unique();
        proof {
            assert(self.columns@ == mid.spec_columns().update(
                pos as int,
                self.columns@[pos as int],
            ));
            assert forall|j: int| 0 <= j < n implies self.columns@[pos as int].value_at(j)
                == cmut.values@.map_values(|v: Vec<u8>| v@)[j] by {
                assert(self.columns@[pos as int].value_at(j) == mid.spec_columns()[
                    pos as int
                ].value_at(j));
                assert(mid.spec_columns()[pos as int].value_at(j) == cmut.values@[j]@);
            }
            assert(self.columns@[pos as int].values() =~= cmut.values@.map_values(
                |v: Vec<u8>| v@,
            ));
            assert forall|c: int, i2: int|
                0 <= c < self.spec_columns().len() && 0 <= i2
                    < self.spec_columns()[c].len() implies ((
            #[trigger] self.spec_columns()[c].keys_view()[i2]) as int)
                < self.spec_records().num_ids() && self.spec_records().metas()[self.spec_columns()[
                c
            ].keys_view()[i2] as int].live by {
                assert(self.spec_columns()[c].keys_view() == old(self).spec_columns()[
                    c
                ].keys_view());
            }
        }
    }

    /// Take a scoped shared view of one field of a live record.  The
    /// field's column gains one shared borrow.  A stale handle, a missing
    /// field, and an unavailable borrow are rejected, in that order, and
    /// leave the store untouched.
    pub fn field(&mut self, r: Record, tid: u64) -> (res: Result<FieldRef, StoreError>)
        requires
            old(self).wf(),
        ensures
            final(self).wf(),
            !old(self).is_live(r) ==> res == Err::<FieldRef, StoreError>(StoreError::NoSuchRecord)
                && *final(self) == *old(self),
            old(self).is_live(r) && old(self).field_of(r.id, tid) is None ==> res == Err::<
                FieldRef,
                StoreError,
            >(StoreError::MissingField) && *final(self) == *old(self),
            old(self).is_live(r) && old(self).field_of(r.id, tid) is Some && !(!old(
                self,
            ).spec_columns()[old(self).column_at(tid)].borrow_state().unique_held() && old(
                self,
            ).spec_columns()[old(self).column_at(tid)].borrow_state().shared_count()
                < crate::borrow::UNIQUE - 1) ==> (res matches Err(e) && e
                == StoreError::BorrowConflict) && *final(self) == *old(self),
            old(self).is_live(r) && old(self).field_of(r.id, tid) is Some && !old(
                self,
            ).spec_columns()[old(self).column_at(tid)].borrow_state().unique_held() && old(
                self,
            ).spec_columns()[old(self).column_at(tid)].borrow_state().shared_count()
                < crate::borrow::UNIQUE - 1 ==> (res matches Ok(fref) && {
                &&& fref.type_key == tid
                &&& fref.position as int == old(self).column_at(tid)
                &&& fref.record == r
                &&& Some(fref.value@) == old(self).field_of(r.id, tid)
                &&& final(self).spec_columns()[old(self).column_at(
                    tid,
                )].borrow_state().shared_count() == old(self).spec_columns()[old(self).column_at(
                    tid,
                )].borrow_state().shared_count() + 1
            }),
            final(self).spec_records() == old(self).spec_records(),
            final(self).spec_index() == old(self).spec_index(),
            final(self).spec_columns().len() == old(self).spec_columns().len(),
            forall|c: int|
                0 <= c < old(self).spec_columns().len() ==> crate::column::unchanged_but_borrow(
                    old(self).spec_columns()[c],
                    #[trigger] final(self).spec_columns()[c],
                ),
            old(self).has_column(tid) ==> (forall|c: int|
                0 <= c < old(self).spec_columns().len() && c != old(self).column_at(tid) ==> final(
                    self).spec_columns()[c] == old(self).spec_columns()[c]),
            forall|id2: u32, t2: u64| final(self).field_of(id2, t2) == old(self).field_of(id2, t2),
    {
        if !self.records.is_alive(r) {
            return Err(StoreError::NoSuchRecord);
        }
        let pos = match self.index.get(tid) {
            None => {
                return Err(StoreError::MissingField);
            },
            Some(pos) => pos,
        };
        let slot = self.columns[pos].slot_lookup(r.id);
        if slot == SENTINEL {
            return Err(StoreError::MissingField);
        }
        if !self.columns[pos].share_available() {
            return Err(StoreError::BorrowConflict);
        }
        let ghost oldcols = self.columns@;
        let col_ref = &mut self.columns[pos];
        let acquired = col_ref.acquire_shared();
        proof {
            assert(acquired);
            assert(self.columns@ == oldcols.update(pos as int, self.columns@[pos as int]));
            lemma_unchanged_field_of(*old(self), *self);
        }
        let value = self.columns[pos].get_raw(slot as usize);
        Ok(FieldRef { type_key: tid, position: pos, record: r, value })
    }

    /// Give back a scoped shared view of a field: its column's shared
    /// borrow is released and nothing else changes.
    pub fn release_field(&mut self, fref: FieldRef)
        requires
            old(self).wf(),
            (fref.position as int) < old(self).spec_columns().len(),
            !old(self).spec_columns()[fref.position as int].borrow_state().unique_held(),
            old(self).spec_columns()[fref.position as int].borrow_state().shared_count() >= 1,
        ensures
            final(self).wf(),
            final(self).spec_columns()[fref.position as int].borrow_state().shared_count() == old(
                self).spec_columns()[fref.position as int].borrow_state().shared_count() - 1,
            !final(self).spec_columns()[fref.position as int].borrow_state().unique_held(),
            final(self).spec_records() == old(self).spec_records(),
            final(self).spec_index() == old(self).spec_index(),
            final(self).spec_columns().len() == old(self).spec_columns().len(),
            forall|c: int|
                0 <= c < old(self).spec_columns().len() ==> crate::column::unchanged_but_borrow(
                    old(self).spec_columns()[c],
                    #[trigger] final(self).spec_columns()[c],
                ),
            forall|c: int|
                0 <= c < old(self).spec_columns().len() && c != fref.position as int ==> final(
                    self).spec_columns()[c] == old(self).spec_columns()[c],
            forall|id2: u32, t2: u64| final(self).field_of(id2, t2) == old(self).field_of(id2, t2),
    {
        let pos = fref.position;
        let ghost oldcols = self.columns@;
        let col_ref = &mut self.columns[pos];
        col_ref.release_shared();
        proof {
            assert(self.columns@ == oldcols.update(pos as int, self.columns@[pos as int]));
            lemma_unchanged_field_of(*old(self), *self);
        }
    }

    /// Take a scoped unique view of one field of a live record.  The
    /// field's column takes its unique borrow, so no other view may be
    /// live.  A stale handle, a missing field, and an unavailable borrow
    /// are rejected, in that order, and leave the store untouched.
    pub fn field_mut(&mut self, r: Record, tid: u64) -> (res: Result<FieldMut, StoreError>)
        requires
            old(self).wf(),
        ensures
            final(self).wf(),
            !old(self).is_live(r) ==> res == Err::<FieldMut, StoreError>(StoreError::NoSuchRecord)
                && *final(self) == *old(self),
            old(self).is_live(r) && old(self).field_of(r.id, tid) is None ==> res == Err::<
                FieldMut,
                StoreError,
            >(StoreError::MissingField) && *final(self) == *old(self),
            old(self).is_live(r) && old(self).field_of(r.id, tid) is Some && !old(
                self,
            ).spec_columns()[old(self).column_at(tid)].borrow_state().is_free() ==> (res matches Err(
                e,
            ) && e == StoreError::BorrowConflict) && *final(self) == *old(self),
            old(self).is_live(r) && old(self).field_of(r.id, tid) is Some && old(
                self,
            ).spec_columns()[old(self).column_at(tid)].borrow_state().is_free() ==> (res matches Ok(
                fmut,
            ) && {
                let col = old(self).spec_columns()[old(self).column_at(tid)];
                &&& fmut.type_key == tid
                &&& fmut.position as int == old(self).column_at(tid)
                &&& fmut.record == r
                &&& fmut.slot == col.slot_of(r.id)
                &&& (fmut.slot as int) < col.len()
                &&& fmut.value@.len() == col.size()
                &&& Some(fmut.value@) == old(self).field_of(r.id, tid)
                &&& final(self).spec_columns()[old(self).column_at(
                    tid,
                )].borrow_state().unique_held()
            }),
            final(self).spec_records() == old(self).spec_records(),
            final(self).spec_index() == old(self).spec_index(),
            final(self).spec_columns().len() == old(self).spec_columns().len(),
            forall|c: int|
                0 <= c < old(self).spec_columns().len() ==> crate::column::unchanged_but_borrow(
                    old(self).spec_columns()[c],
                    #[trigger] final(self).spec_columns()[c],
                ),
            old(self).has_column(tid) ==> (forall|c: int|
                0 <= c < old(self).spec_columns().len() && c != old(self).column_at(tid) ==> final(
                    self).spec_columns()[c] == old(self).spec_columns()[c]),
            forall|id2: u32, t2: u64| final(self).field_of(id2, t2) == old(self).field_of(id2, t2),
    {
        if !self.records.is_alive(r) {
            return Err(StoreError::NoSuchRecord);
        }
        let pos = match self.index.get(tid) {
            None => {
                return Err(StoreError::MissingField);
            },
            Some(pos) => pos,
        };
        let slot = self.columns[pos].slot_lookup(r.id);
        if slot == SENTINEL {
            return Err(StoreError::MissingField);
        }
        if !self.columns[pos].borrow_is_free() {
            return Err(StoreError::BorrowConflict);
        }
        let ghost oldcols = self.columns@;
        let col_ref = &mut self.columns[pos];
        let acquired = col_ref.acquire_unique();
        proof {
            assert(acquired);
            assert(self.columns@ == oldcols.update(pos as int, self.columns@[pos as int]));
            lemma_unchanged_field_of(*old(self), *self);
        }
        let value = self.columns[pos].get_raw(slot as usize);
        Ok(FieldMut { type_key: tid, position: pos, record: r, slot, value })
    }

    /// Give back a scoped unique view of a field: the edited bytes are
    /// stored in the field's slot and the unique borrow is released.  The
    /// edited value must keep the field's size.
    pub fn release_field_mut(&mut self, fmut: FieldMut)
        requires
            old(self).wf(),
            (fmut.position as int) < old(self).spec_columns().len(),
            old(self).spec_columns()[fmut.position as int].borrow_state().unique_held(),
            (fmut.slot as int) < old(self).spec_columns()[fmut.position as int].len(),
            fmut.value@.len() == old(self).spec_columns()[fmut.position as int].size(),
        ensures
            final(self).wf(),
            final(self).spec_columns()[fmut.position as int].borrow_state().is_free(),
            final(self).spec_columns()[fmut.position as int].value_at(fmut.slot as int)
                == fmut.value@,
            final(self).spec_columns()[fmut.position as int].keys_view() == old(
                self).spec_columns()[fmut.position as int].keys_view(),
            final(self).spec_columns()[fmut.position as int].sparse_view() == old(
                self).spec_columns()[fmut.position as int].sparse_view(),
            forall|j: int|
                0 <= j < old(self).spec_columns()[fmut.position as int].len() && j
                    != fmut.slot as int ==> final(self).spec_columns()[
                    fmut.position as int
                ].value_at(j) == old(self).spec_columns()[fmut.position as int].value_at(j),
            final(self).spec_records() == old(self).spec_records(),
            final(self).spec_index() == old(self).spec_index(),
            final(self).spec_columns().len() == old(self).spec_columns().len(),
            forall|c: int|
                0 <= c < old(self).spec_columns().len() && c != fmut.position as int ==> final(
                    self).spec_columns()[c] == old(self).spec_columns()[c],
    {
        let pos = fmut.position;
        let ghost oldcols = self.columns@;
        let col_ref = &mut self.columns[pos];
        col_ref.set_raw(fmut.slot as usize, &fmut.value);
        proof {
            assert(self.columns@ == oldcols.update(pos as int, self.columns@[pos as int]));
        }
        let ghost midcols = self.columns@;
        let col_ref = &mut self.columns[pos];
        col_ref.release_unique();
        proof {
            assert(self.columns@ == midcols.update(pos as int, self.columns@[pos as int]));
            assert forall|c: int, i2: int|
                0 <= c < self.spec_columns().len() && 0 <= i2
                    < self.spec_columns()[c].len() implies ((
            #[trigger] self.spec_columns()[c].keys_view()[i2]) as int)
                < self.spec_records().num_ids() && self.spec_records().metas()[self.spec_columns()[
                c
            ].keys_view()[i2] as int].live by {
                assert(self.spec_columns()[c].keys_view() == old(self).spec_columns()[
                    c
                ].keys_view());
            }
        }
    }

    /// Destroy the store: every live value's destructor runs, and the
    /// report names, for each column, everything ever inserted and every
    /// destructor run — the two counts are equal, and no destructor ran
    /// twice.
    pub fn destroy(self) -> (report: Vec<DropReport>)
        requires
            self.wf(),
        ensures
            report@.len() == self.spec_columns().len(),
            forall|c: int|
                0 <= c < report@.len() ==> {
                    let col = self.spec_columns()[c];
                    &&& (#[trigger] report@[c]).type_key == col.spec_desc().id
                    &&& report@[c].values_inserted == col.inserted_count()
                    &&& report@[c].destructor_runs == report@[c].values_inserted
                    &&& report@[c].destructor_runs == col.drop_count() + col.len()
                },
    {
        let mut db = self;
        let n = db.columns.len();
        let mut report: Vec<DropReport> = Vec::new();
        let mut c: usize = 0;
        while c < n
            invariant
                c <= n,
                n == db.columns@.len(),
                n == self.spec_columns().len(),
                report@.len() == c,
                forall|k: int| c <= k < n ==> #[trigger] db.columns@[k] == self.spec_columns()[k],
                forall|k: int| 0 <= k < n ==> (#[trigger] self.spec_columns()[k]).wf(),
                forall|k: int|
                    0 <= k < c ==> {
                        let col = self.spec_columns()[k];
                        &&& (#[trigger] report@[k]).type_key == col.spec_desc().id
                        &&& report@[k].values_inserted == col.inserted_count()
                        &&& report@[k].destructor_runs == report@[k].values_inserted
                        &&& report@[k].destructor_runs == col.drop_count() + col.len()
                    },
            decreases n - c,
        {
            let cref = &mut db.columns[c];
            cref.clear();
            let entry = DropReport {
                type_key: cref.descriptor().id,
                values_inserted: cref.inserted_total(),
                destructor_runs: cref.destructor_runs(),
            };
            report.push(entry);
            c = c + 1;
        }
        report
    }

    /// Whether a column exists for a field-type identity, as an
    /// executable test.
    pub fn has_column_now(&self, tid: u64) -> (b: bool)
        ensures
            b == self.has_column(tid),
    {
        self.index.has(tid)
    }

    /// The number of slots in the column of one field type.
    pub fn column_len(&self, tid: u64) -> (res: Option<usize>)
        requires
            self.wf(),
        ensures
            self.has_column(tid) ==> res == Some(
                self.spec_columns()[self.column_at(tid)].len() as usize,
            ),
            !self.has_column(tid) ==> res is None,
    {
        match self.index.get(tid) {
            None => None,
            Some(pos) => {
                proof {
                    assert(self.has_column(tid));
                }
                Some(self.columns[pos].length())
            },
        }
    }

    /// The capacity of the column of one field type under the growth
    /// protocol.
    pub fn column_capacity(&self, tid: u64) -> (res: Option<usize>)
        requires
            self.wf(),
        ensures
            self.has_column(tid) ==> res == Some(
                self.spec_columns()[self.column_at(tid)].capacity() as usize,
            ),
            !self.has_column(tid) ==> res is None,
    {
        match self.index.get(tid) {
            None => None,
            Some(pos) => {
                proof {
                    assert(self.has_column(tid));
                }
                Some(self.columns[pos].current_capacity())
            },
        }
    }

    /// How many values were ever inserted into the column of one field
    /// type.
    pub fn column_inserted(&self, tid: u64) -> (res: Option<u64>)
        requires
            self.wf(),
        ensures
            self.has_column(tid) ==> res == Some(
                self.spec_columns()[self.column_at(tid)].inserted_count() as u64,
            ),
            !self.has_column(tid) ==> res is None,
    {
        match self.index.get(tid) {
            None => None,
            Some(pos) => {
                proof {
                    assert(self.has_column(tid));
                }
                Some(self.columns[pos].inserted_total())
            },
        }
    }

    /// How many destructors the column of one field type has run.
    pub fn column_destructor_runs(&self, tid: u64) -> (res: Option<u64>)
        requires
            self.wf(),
        ensures
            self.has_column(tid) ==> res == Some(
                self.spec_columns()[self.column_at(tid)].drop_count() as u64,
            ),
            !self.has_column(tid) ==> res is None,
    {
        match self.index.get(tid) {
            None => None,
            Some(pos) => {
                proof {
                    assert(self.has_column(tid));
                }
                Some(self.columns[pos].destructor_runs())
            },
        }
    }
}

/// The column invariant: every slot's owning record points back at the
/// slot through the sparse table, is live, and owns no second slot in the
/// column.
pub proof fn lemma_column_invariant(db: Database, c: int, i: int)
    requires
        db.wf(),
        0 <= c < db.spec_columns().len(),
        0 <= i < db.spec_columns()[c].len(),
    ensures
        db.spec_columns()[c].slot_of(db.spec_columns()[c].keys_view()[i]) as int == i,
        (db.spec_columns()[c].keys_view()[i] as int) < db.spec_records().num_ids(),
        db.spec_records().metas()[db.spec_columns()[c].keys_view()[i] as int].live,
        db.spec_columns()[c].keys_view().no_duplicates(),
{
    db.spec_columns()[c].lemma_keys_distinct();
}

/// Two stores with the same records, the same index, and columns equal in
/// everything but their borrow counters agree on every field.
proof fn lemma_unchanged_field_of(a: Database, b: Database)
    requires
        forall|t: u64| #[trigger]
            a.spec_index().dom().contains(t) ==> a.spec_index()[t] < a.spec_columns().len(),
        b.spec_index() == a.spec_index(),
        b.spec_columns().len() == a.spec_columns().len(),
        forall|c: int|
            0 <= c < a.spec_columns().len() ==> crate::column::unchanged_but_borrow(
                a.spec_columns()[c],
                #[trigger] b.spec_columns()[c],
            ),
    ensures
        forall|id2: u32, t2: u64| b.field_of(id2, t2) == a.field_of(id2, t2),
{
    assert forall|id2: u32, t2: u64| b.field_of(id2, t2) == a.field_of(id2, t2) by {
        if a.has_column(t2) {
            assert(crate::column::unchanged_but_borrow(
                a.spec_columns()[a.column_at(t2)],
                b.spec_columns()[a.column_at(t2)],
            ));
        }
    }
}


} // verus!
