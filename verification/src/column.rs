//! A column: contiguous storage of one field type's values, a parallel
//! array of owning record ids, a sparse id-to-slot table, and a borrow
//! counter guarding views of the column.
//!
//! Values are stored as raw bytes, `size` bytes per slot, exactly as the
//! owning record handed them in.  For every live slot `i`,
//! `sparse[keys[i]] == i`: the sparse table names each contained record's
//! slot, and [`SENTINEL`] marks records that have no value here.

use vstd::prelude::*;
use vstd::pervasive::VecAdditionalExecFns;
use vstd::arithmetic::mul::{lemma_mul_inequality, lemma_mul_is_distributive_add_other_way};
use crate::borrow::BorrowCounter;
use crate::descriptor::TypeDescriptor;
use crate::records::{lemma_distinct_bounded, SENTINEL};

verus! {

/// The smallest step a column's capacity takes when it grows.
pub const MIN_GROWTH: usize = 64;

/// The capacity after one growth step: the old capacity plus the larger of
/// itself and the requested increment — so capacity at least doubles and
/// never grows by less than the increment — saturating at the address
/// space.
pub open spec fn grown_capacity(cap: int, min_increment: int) -> int {
    let inc = if cap >= min_increment {
        cap
    } else {
        min_increment
    };
    if cap + inc <= usize::MAX {
        cap + inc
    } else {
        usize::MAX as int
    }
}

/// A sequence of distinct ids below a bound, all avoiding one excluded id
/// in that range, has at most bound-minus-one entries.
proof fn lemma_distinct_bounded_excluding(s: Seq<u32>, n: int, excl: u32)
    requires
        s.no_duplicates(),
        forall|k: int| 0 <= k < s.len() ==> (#[trigger] s[k] as int) < n,
        forall|k: int| 0 <= k < s.len() ==> #[trigger] s[k] != excl,
        0 <= (excl as int) < n,
    ensures
        s.len() < n,
{
    broadcast use vstd::set::group_set_axioms;

    let f = |x: u32| x as int;
    assert(vstd::relations::injective(f));
    s.lemma_no_duplicates_injective(f);
    let t = s.map_values(f);
    t.unique_seq_to_set();
    let big = vstd::set_lib::set_int_range(0, n).remove(excl as int);
    assert forall|x: int| t.to_set().contains(x) implies big.contains(x) by {
        assert(t.contains(x));
        let k = choose|k: int| 0 <= k < t.len() && t[k] == x;
        assert(s[k] as int == x);
    }
    vstd::set_lib::lemma_int_range(0, n);
    assert(vstd::set_lib::set_int_range(0, n).contains(excl as int));
    assert(big.len() == n - 1);
    vstd::set_lib::lemma_len_subset(t.to_set(), big);
}

/// The byte window of one slot lies inside the buffer and meets the next
/// window exactly.
proof fn lemma_byte_window(len: int, size: int, slot: int)
    requires
        0 <= size,
        0 <= slot < len,
    ensures
        0 <= slot * size,
        slot * size + size == (slot + 1) * size,
        (slot + 1) * size <= len * size,
        0 <= len * size,
{
    vstd::arithmetic::mul::lemma_mul_nonnegative(slot, size);
    vstd::arithmetic::mul::lemma_mul_nonnegative(len, size);
    lemma_mul_is_distributive_add_other_way(size, slot, 1);
    vstd::arithmetic::mul::lemma_mul_basics(size);
    lemma_mul_inequality(slot + 1, len, size);
}

/// The byte windows of two distinct slots do not overlap.
proof fn lemma_byte_window_disjoint(size: int, a: int, b: int)
    requires
        0 <= size,
        0 <= a < b,
    ensures
        a * size + size <= b * size,
{
    lemma_mul_is_distributive_add_other_way(size, a, 1);
    vstd::arithmetic::mul::lemma_mul_basics(size);
    lemma_mul_inequality(a + 1, b, size);
}

/// One column of the store.
pub struct Column {
    desc: TypeDescriptor,
    data: Vec<u8>,
    keys: Vec<u32>,
    sparse: Vec<u32>,
    cap: usize,
    inserted: u64,
    drops: u64,
    borrow: BorrowCounter,
}

impl Column {
    /// The descriptor of the field type stored here.
    pub closed spec fn spec_desc(self) -> TypeDescriptor {
        self.desc
    }

    /// The raw value bytes: `len * size` bytes, slot after slot.
    pub closed spec fn data_view(self) -> Seq<u8> {
        self.data@
    }

    /// The owning record ids, one per slot, in slot order.
    pub closed spec fn keys_view(self) -> Seq<u32> {
        self.keys@
    }

    /// The sparse table from record id to slot.
    pub closed spec fn sparse_view(self) -> Seq<u32> {
        self.sparse@
    }

    /// The column's capacity under the growth protocol.
    pub closed spec fn capacity(self) -> nat {
        self.cap as nat
    }

    /// How many values were ever moved into the column.
    pub closed spec fn inserted_count(self) -> nat {
        self.inserted as nat
    }

    /// How many values had their destructor run.
    pub closed spec fn drop_count(self) -> nat {
        self.drops as nat
    }

    /// The borrow counter guarding views of the column.
    pub closed spec fn borrow_state(self) -> BorrowCounter {
        self.borrow
    }

    /// The number of live slots.
    pub open spec fn len(self) -> nat {
        self.keys_view().len()
    }

    /// The size in bytes of one value.
    pub open spec fn size(self) -> nat {
        self.spec_desc().size as nat
    }

    /// The slot a record's value occupies, or [`SENTINEL`] if the record
    /// has no value here.
    pub open spec fn slot_of(self, id: u32) -> u32 {
        if (id as int) < self.sparse_view().len() {
            self.sparse_view()[id as int]
        } else {
            SENTINEL
        }
    }

    /// Whether a record has a value in this column.
    pub open spec fn contains_id(self, id: u32) -> bool {
        self.slot_of(id) != SENTINEL
    }

    /// The bytes of the value at a slot.
    pub open spec fn value_at(self, i: int) -> Seq<u8> {
        self.data_view().subrange(i * self.size(), (i + 1) * self.size())
    }

    /// The values of all slots, in slot order.
    pub open spec fn values(self) -> Seq<Seq<u8>> {
        Seq::new(self.len(), |i: int| self.value_at(i))
    }

    /// The mutual link between the dense and sparse sides: each slot's
    /// owner points back at the slot, and each non-sentinel sparse entry is
    /// owned by the record it belongs to.
    pub open spec fn linked(self) -> bool {
        &&& (forall|i: int|
            0 <= i < self.keys_view().len() ==> (#[trigger] self.keys_view()[i] as int)
                < self.sparse_view().len() && self.sparse_view()[self.keys_view()[i] as int] as int
                == i)
        &&& (forall|id: int|
            0 <= id < self.sparse_view().len() && (#[trigger] self.sparse_view()[id]) != SENTINEL
                ==> (self.sparse_view()[id] as int) < self.keys_view().len()
                && self.keys_view()[self.sparse_view()[id] as int] as int == id)
    }

    /// The structural invariant of a column at rest.
    pub open spec fn wf(self) -> bool {
        &&& self.data_view().len() == self.len() * self.size()
        &&& self.len() <= self.capacity()
        &&& self.sparse_view().len() <= SENTINEL as nat
        &&& self.borrow_state().wf()
        &&& self.drop_count() + self.len() == self.inserted_count()
        &&& self.linked()
    }

    /// The state between [`Self::allocate`] and the exactly-one
    /// [`Self::put_raw`] that must follow it: the newest slot's key and
    /// sparse entry exist, but its value bytes do not yet.
    pub open spec fn mid_insert(self) -> bool {
        &&& self.len() >= 1
        &&& self.data_view().len() == (self.len() - 1) * self.size()
        &&& self.len() <= self.capacity()
        &&& self.sparse_view().len() <= SENTINEL as nat
        &&& self.borrow_state().wf()
        &&& self.drop_count() + self.len() - 1 == self.inserted_count()
        &&& self.linked()
    }

    /// The slots' owners are distinct: the sparse table inverts the key
    /// array, so no record owns two slots.
    pub proof fn lemma_keys_distinct(self)
        requires
            self.linked(),
        ensures
            self.keys_view().no_duplicates(),
            self.keys_view().len() <= self.sparse_view().len(),
    {
        assert forall|i: int, j: int|
            0 <= i < self.keys_view().len() && 0 <= j < self.keys_view().len() && i
                != j implies self.keys_view()[i] != self.keys_view()[j] by {
            if self.keys_view()[i] == self.keys_view()[j] {
                assert(self.sparse_view()[self.keys_view()[i] as int] as int == i);
                assert(self.sparse_view()[self.keys_view()[j] as int] as int == j);
            }
        }
        lemma_distinct_bounded(self.keys_view(), self.sparse_view().len() as int);
    }

    /// An empty column for one field type.
    pub fn new(desc: TypeDescriptor) -> (c: Self)
        ensures
            c.wf(),
            c.spec_desc() == desc,
            c.len() == 0,
            c.capacity() == 0,
            c.inserted_count() == 0,
            c.drop_count() == 0,
            c.borrow_state().is_free(),
            forall|id: u32| !c.contains_id(id),
    {
        let c = Column {
            desc,
            data: Vec::new(),
            keys: Vec::new(),
            sparse: Vec::new(),
            cap: 0,
            inserted: 0,
            drops: 0,
            borrow: BorrowCounter::new(),
        };
        proof {
            vstd::arithmetic::mul::lemma_mul_basics(c.size() as int);
        }
        c
    }

    /// Grow the capacity by at least `min_increment`, at least doubling it.
    /// Nothing else changes; the capacity never shrinks.
    pub fn grow(&mut self, min_increment: usize)
        ensures
            final(self).capacity() == grown_capacity(
                old(self).capacity() as int,
                min_increment as int,
            ),
            final(self).capacity() >= old(self).capacity(),
            final(self).spec_desc() == old(self).spec_desc(),
            final(self).data_view() == old(self).data_view(),
            final(self).keys_view() == old(self).keys_view(),
            final(self).sparse_view() == old(self).sparse_view(),
            final(self).inserted_count() == old(self).inserted_count(),
            final(self).drop_count() == old(self).drop_count(),
            final(self).borrow_state() == old(self).borrow_state(),
    {
        let inc = if self.cap >= min_increment {
            self.cap
        } else {
            min_increment
        };
        self.cap = if self.cap <= usize::MAX - inc {
            self.cap + inc
        } else {
            usize::MAX
        };
    }

    /// Open a slot for a record: grow if full, record the owner in the key
    /// and sparse tables, and return the slot index.  The value bytes are
    /// not written; exactly one [`Self::put_raw`] must follow.
    pub fn allocate(&mut self, record_id: u32) -> (slot: usize)
        requires
            old(self).wf(),
            record_id < SENTINEL,
            !old(self).contains_id(record_id),
        ensures
            final(self).mid_insert(),
            slot as int == old(self).len(),
            slot < SENTINEL as usize,
            final(self).contains_id(record_id),
            final(self).keys_view() == old(self).keys_view().push(record_id),
            final(self).data_view() == old(self).data_view(),
            final(self).spec_desc() == old(self).spec_desc(),
            final(self).slot_of(record_id) as int == slot,
            forall|id: u32| id != record_id ==> final(self).slot_of(id) == old(self).slot_of(id),
            final(self).inserted_count() == old(self).inserted_count(),
            final(self).drop_count() == old(self).drop_count(),
            final(self).borrow_state() == old(self).borrow_state(),
            old(self).len() < old(self).capacity() ==> final(self).capacity() == old(
                self,
            ).capacity(),
            old(self).len() == old(self).capacity() ==> final(self).capacity() == grown_capacity(
                old(self).capacity() as int,
                MIN_GROWTH as int,
            ),
    {
        proof {
            self.lemma_keys_distinct();
        }
        if self.keys.len() == self.cap {
            self.grow(MIN_GROWTH);
        }
        let ghost mid = *self;
        while self.sparse.len() <= record_id as usize
            invariant
                record_id < SENTINEL,
                self.sparse@.len() <= SENTINEL as int,
                self.desc == mid.desc,
                self.data@ == mid.data@,
                self.keys@ == mid.keys@,
                self.cap == mid.cap,
                self.inserted == mid.inserted,
                self.drops == mid.drops,
                self.borrow == mid.borrow,
                mid.sparse@.len() <= self.sparse@.len(),
                forall|id: int|
                    0 <= id < mid.sparse@.len() ==> #[trigger] self.sparse@[id] == mid.sparse@[id],
                forall|id: int|
                    mid.sparse@.len() <= id < self.sparse@.len() ==> #[trigger] self.sparse@[id]
                        == SENTINEL,
            decreases record_id as int + 1 - self.sparse@.len(),
        {
            self.sparse.push(SENTINEL);
        }
        let slot = self.keys.len();
        proof {
            let kv = self.keys@;
            let sv = self.sparse@;
            assert forall|k: int| 0 <= k < kv.len() implies #[trigger] kv[k] != record_id by {
                if kv[k] == record_id {
                    assert(old(self).sparse_view()[record_id as int] as int == k);
                }
            }
            assert forall|k: int| 0 <= k < kv.len() implies (#[trigger] kv[k] as int)
                < sv.len() by {}
            kv.lemma_no_duplicates_injective(|x: u32| x as int);
            self.lemma_keys_distinct();
            lemma_distinct_bounded_excluding(kv, sv.len() as int, record_id);
        }
        self.keys.push(record_id);
        self.sparse.set(record_id as usize, slot as u32);
        proof {
            assert(self.keys@ == old(self).keys_view().push(record_id));
            assert forall|i: int|
                0 <= i < self.keys@.len() implies (#[trigger] self.keys@[i] as int)
                < self.sparse@.len() && self.sparse@[self.keys@[i] as int] as int == i by {
                if i < self.keys@.len() - 1 {
                    assert(self.keys@[i] == old(self).keys_view()[i]);
                    assert(self.keys@[i] != record_id);
                }
            }
            assert forall|id: int|
                0 <= id < self.sparse@.len() && (#[trigger] self.sparse@[id])
                    != SENTINEL implies (self.sparse@[id] as int) < self.keys@.len()
                && self.keys@[self.sparse@[id] as int] as int == id by {
                if id != record_id as int {
                    assert(old(self).slot_of(id as u32) == self.sparse@[id]);
                }
            }
            assert((self.keys@.len() - 1) * self.size() == old(self).len() * old(self).size());
        }
        slot
    }

    /// Move a value's bytes into the slot that [`Self::allocate`] just
    /// opened.  Ownership of the value passes to the column.
    pub fn put_raw(&mut self, slot: usize, src: Vec<u8>)
        requires
            old(self).mid_insert(),
            slot as int == old(self).len() - 1,
            src@.len() == old(self).size(),
            old(self).inserted_count() < u64::MAX,
        ensures
            final(self).wf(),
            final(self).keys_view() == old(self).keys_view(),
            final(self).sparse_view() == old(self).sparse_view(),
            final(self).spec_desc() == old(self).spec_desc(),
            final(self).capacity() == old(self).capacity(),
            final(self).borrow_state() == old(self).borrow_state(),
            final(self).inserted_count() == old(self).inserted_count() + 1,
            final(self).drop_count() == old(self).drop_count(),
            final(self).value_at(slot as int) == src@,
            forall|j: int| 0 <= j < slot ==> final(self).value_at(j) == old(self).value_at(j),
            final(self).data_view() == old(self).data_view() + src@,
    {
        let mut moved = src;
        self.data.append(&mut moved);
        self.inserted = self.inserted + 1;
        proof {
            let n = self.keys@.len() as int;
            let sz = self.size() as int;
            lemma_byte_window(n, sz, n - 1);
            assert(self.data@.len() == n * sz);
            assert(self.value_at(slot as int) =~= src@);
            assert forall|j: int| 0 <= j < slot implies self.value_at(j) == old(self).value_at(
                j,
            ) by {
                lemma_byte_window(n - 1, sz, j);
                assert(self.data@.subrange(j * sz, (j + 1) * sz) =~= old(self).data_view().subrange(
                    j * sz,
                    (j + 1) * sz,
                ));
            }
        }
    }

    /// Read the bytes of the value at a slot.
    pub fn get_raw(&self, slot: usize) -> (v: Vec<u8>)
        requires
            self.wf(),
            (slot as int) < self.len(),
        ensures
            v@ == self.value_at(slot as int),
            v@.len() == self.size(),
    {
        let dlen = self.data.len();
        proof {
            lemma_byte_window(self.len() as int, self.size() as int, slot as int);
        }
        let size = self.desc.size;
        let base = slot * size;
        let mut v: Vec<u8> = Vec::new();
        let mut k: usize = 0;
        while k < size
            invariant
                k <= size,
                size == self.size(),
                base == slot as int * self.size(),
                base + size <= dlen,
                dlen == self.data@.len(),
                v@ == self.data@.subrange(base as int, base as int + k),
            decreases size - k,
        {
            v.push(self.data[base + k]);
            proof {
                assert(v@ =~= self.data@.subrange(base as int, base as int + k + 1));
            }
            k = k + 1;
        }
        proof {
            assert(v@ =~= self.value_at(slot as int));
        }
        v
    }

    /// Overwrite the bytes of the value at a slot.
    pub fn set_raw(&mut self, slot: usize, src: &Vec<u8>)
        requires
            old(self).wf(),
            (slot as int) < old(self).len(),
            src@.len() == old(self).size(),
        ensures
            final(self).wf(),
            final(self).keys_view() == old(self).keys_view(),
            final(self).sparse_view() == old(self).sparse_view(),
            final(self).spec_desc() == old(self).spec_desc(),
            final(self).capacity() == old(self).capacity(),
            final(self).borrow_state() == old(self).borrow_state(),
            final(self).inserted_count() == old(self).inserted_count(),
            final(self).drop_count() == old(self).drop_count(),
            final(self).value_at(slot as int) == src@,
            forall|j: int|
                0 <= j < old(self).len() && j != slot ==> final(self).value_at(j) == old(
                    self,
                ).value_at(j),
    {
        let dlen = self.data.len();
        proof {
            lemma_byte_window(self.len() as int, self.size() as int, slot as int);
        }
        let size = self.desc.size;
        let base = slot * size;
        let mut k: usize = 0;
        while k < size
            invariant
                k <= size,
                size == self.size(),
                self.desc == old(self).spec_desc(),
                self.keys@ == old(self).keys_view(),
                self.sparse@ == old(self).sparse_view(),
                self.cap == old(self).capacity(),
                self.inserted == old(self).inserted_count(),
                self.drops == old(self).drop_count(),
                self.borrow == old(self).borrow_state(),
                base == slot as int * self.size(),
                base + size <= dlen,
                dlen == self.data@.len(),
                self.data@.len() == old(self).data_view().len(),
                src@.len() == size,
                forall|m: int|
                    base <= m < base + k ==> #[trigger] self.data@[m] == src@[m - base],
                forall|m: int|
                    0 <= m < self.data@.len() && !(base <= m < base + k) ==> #[trigger] self.data@[m]
                        == old(self).data_view()[m],
            decreases size - k,
        {
            self.data.set(base + k, src[k]);
            k = k + 1;
        }
        proof {
            lemma_byte_window(self.len() as int, self.size() as int, slot as int);
            assert(self.value_at(slot as int) =~= src@);
            assert forall|j: int|
                0 <= j < old(self).len() && j != slot implies self.value_at(j) == old(
                self,
            ).value_at(j) by {
                lemma_byte_window(self.len() as int, self.size() as int, j);
                if j < slot {
                    lemma_byte_window_disjoint(self.size() as int, j, slot as int);
                } else {
                    lemma_byte_window_disjoint(self.size() as int, slot as int, j);
                }
                assert(self.value_at(j) =~= old(self).value_at(j));
            }
        }
    }

    /// Remove the value at a slot by swapping the last slot into its place:
    /// the removed value's destructor runs, the column shrinks by one, the
    /// moved record's sparse entry follows it, and the removed record's
    /// entry becomes the sentinel.
    pub fn remove_slot(&mut self, slot: usize)
        requires
            old(self).wf(),
            (slot as int) < old(self).len(),
        ensures
            final(self).wf(),
            final(self).spec_desc() == old(self).spec_desc(),
            final(self).capacity() == old(self).capacity(),
            final(self).borrow_state() == old(self).borrow_state(),
            final(self).inserted_count() == old(self).inserted_count(),
            final(self).drop_count() == old(self).drop_count() + 1,
            final(self).keys_view() == old(self).keys_view().update(
                slot as int,
                old(self).keys_view().last(),
            ).drop_last(),
            final(self).slot_of(old(self).keys_view()[slot as int]) == SENTINEL,
            old(self).keys_view().last() != old(self).keys_view()[slot as int] ==> final(
                self).slot_of(old(self).keys_view().last()) as int == slot,
            forall|id: u32|
                id != old(self).keys_view()[slot as int] && id != old(self).keys_view().last()
                    ==> final(self).slot_of(id) == old(self).slot_of(id),
            forall|j: int|
                0 <= j < old(self).len() - 1 ==> final(self).value_at(j) == (if j == slot {
                    old(self).value_at(old(self).len() - 1)
                } else {
                    old(self).value_at(j)
                }),
    {
        proof {
            self.lemma_keys_distinct();
            lemma_byte_window(self.len() as int, self.size() as int, slot as int);
            lemma_byte_window(self.len() as int, self.size() as int, self.len() as int - 1);
        }
        let dlen = self.data.len();
        let size = self.desc.size;
        let last = self.keys.len() - 1;
        let moved_id = self.keys[last];
        let removed_id = self.keys[slot];
        let base = slot * size;
        let top = last * size;
        proof {
            if (slot as int) < last as int {
                lemma_byte_window_disjoint(size as int, slot as int, last as int);
            }
        }
        let mut k: usize = 0;
        while k < size
            invariant
                k <= size,
                size == self.size(),
                self.desc == old(self).spec_desc(),
                self.keys@ == old(self).keys_view(),
                self.sparse@ == old(self).sparse_view(),
                self.cap == old(self).capacity(),
                self.inserted == old(self).inserted_count(),
                self.drops == old(self).drop_count(),
                self.borrow == old(self).borrow_state(),
                last == self.keys@.len() - 1,
                slot as int <= last as int,
                base == top || base + size <= top,
                base == slot as int * self.size(),
                top == last as int * self.size(),
                base + size <= dlen,
                top + size <= dlen,
                dlen == self.data@.len(),
                self.data@.len() == old(self).data_view().len(),
                forall|m: int|
                    base <= m < base + k ==> #[trigger] self.data@[m] == old(self).data_view()[top
                        + (m - base)],
                forall|m: int|
                    0 <= m < self.data@.len() && !(base <= m < base + k) ==> #[trigger] self.data@[m]
                        == old(self).data_view()[m],
            decreases size - k,
        {
            let b = self.data[top + k];
            self.data.set(base + k, b);
            k = k + 1;
        }
        self.data.truncate(top);
        self.keys.swap_remove(slot);
        self.sparse.set(removed_id as usize, SENTINEL);
        if moved_id != removed_id {
            self.sparse.set(moved_id as usize, slot as u32);
        }
        self.drops = self.drops + 1;
        proof {
            let pre = *old(self);
            let n = pre.len() as int;
            let sz = pre.size() as int;
            assert(self.keys@ == pre.keys_view().update(
                slot as int,
                pre.keys_view().last(),
            ).drop_last());
            if moved_id == removed_id {
                assert(slot as int == last as int) by {
                    assert(pre.sparse_view()[pre.keys_view()[slot as int] as int] as int
                        == slot as int);
                    assert(pre.sparse_view()[pre.keys_view()[last as int] as int] as int
                        == last as int);
                }
            }
            assert forall|i: int|
                0 <= i < self.keys@.len() implies (#[trigger] self.keys@[i] as int)
                < self.sparse@.len() && self.sparse@[self.keys@[i] as int] as int == i by {
                if i == slot as int {
                    assert(self.keys@[i] == moved_id);
                } else {
                    assert(self.keys@[i] == pre.keys_view()[i]);
                    assert(pre.keys_view()[i] != removed_id);
                    assert(pre.keys_view()[i] != moved_id);
                }
            }
            assert forall|id: int|
                0 <= id < self.sparse@.len() && (#[trigger] self.sparse@[id])
                    != SENTINEL implies (self.sparse@[id] as int) < self.keys@.len()
                && self.keys@[self.sparse@[id] as int] as int == id by {
                if id == moved_id as int && moved_id != removed_id {
                    assert(self.sparse@[id] as int == slot as int);
                } else {
                    assert(id != removed_id as int);
                    assert(self.sparse@[id] == pre.sparse_view()[id]);
                    let j = pre.sparse_view()[id] as int;
                    assert(pre.keys_view()[j] as int == id);
                    assert(j != last as int);
                    assert(j != slot as int);
                }
            }
            assert forall|j: int|
                0 <= j < n - 1 implies self.value_at(j) == (if j == slot as int {
                    pre.value_at(n - 1)
                } else {
                    pre.value_at(j)
                }) by {
                lemma_byte_window(n - 1, sz, j);
                lemma_byte_window(n, sz, n - 1);
                if j == slot as int {
                    assert(self.value_at(j) =~= pre.value_at(n - 1));
                } else {
                    if j < slot as int {
                        lemma_byte_window_disjoint(sz, j, slot as int);
                    } else {
                        lemma_byte_window_disjoint(sz, slot as int, j);
                    }
                    assert(self.value_at(j) =~= pre.value_at(j));
                }
            }
        }
    }

    /// Run the destructor of every live value and empty the column.  The
    /// sparse table forgets every record; capacity is kept.
    pub fn clear(&mut self)
        requires
            old(self).wf(),
        ensures
            final(self).wf(),
            final(self).len() == 0,
            final(self).spec_desc() == old(self).spec_desc(),
            final(self).capacity() == old(self).capacity(),
            final(self).borrow_state() == old(self).borrow_state(),
            final(self).inserted_count() == old(self).inserted_count(),
            final(self).drop_count() == old(self).inserted_count(),
            forall|id: u32| !final(self).contains_id(id),
    {
        let n = self.keys.len();
        let mut i: usize = 0;
        while i < n
            invariant
                i <= n,
                n == self.keys@.len(),
                self.desc == old(self).spec_desc(),
                self.keys@ == old(self).keys_view(),
                self.data@ == old(self).data_view(),
                self.cap == old(self).capacity(),
                self.inserted == old(self).inserted_count(),
                self.drops == old(self).drop_count(),
                self.borrow == old(self).borrow_state(),
                old(self).wf(),
                self.sparse@.len() == old(self).sparse_view().len(),
                forall|id: int|
                    0 <= id < self.sparse@.len() && (#[trigger] self.sparse@[id]) != SENTINEL ==> (
                    self.sparse@[id] == old(self).sparse_view()[id] && i <= old(
                        self,
                    ).sparse_view()[id] as int),
                forall|id: int|
                    0 <= id < self.sparse@.len() && old(self).sparse_view()[id] == SENTINEL
                        ==> #[trigger] self.sparse@[id] == SENTINEL,
            decreases n - i,
        {
            let id = self.keys[i];
            self.sparse.set(id as usize, SENTINEL);
            proof {
                assert forall|id2: int|
                    0 <= id2 < self.sparse@.len() && (#[trigger] self.sparse@[id2])
                        != SENTINEL implies (self.sparse@[id2] == old(self).sparse_view()[id2] && i
                        + 1 <= old(self).sparse_view()[id2] as int) by {
                    assert(id2 != id as int);
                    if old(self).sparse_view()[id2] as int == i {
                        assert(old(self).keys_view()[i as int] as int == id2);
                    }
                }
            }
            i = i + 1;
        }
        proof {
            assert forall|id2: int|
                0 <= id2 < self.sparse@.len() implies #[trigger] self.sparse@[id2] == SENTINEL by {
                if self.sparse@[id2] != SENTINEL {
                    assert(old(self).sparse_view()[id2] as int >= n);
                    assert((old(self).sparse_view()[id2] as int) < old(self).keys_view().len());
                }
            }
            vstd::arithmetic::mul::lemma_mul_basics(self.size() as int);
        }
        let dropped = self.keys.len() as u64;
        self.drops = self.drops + dropped;
        self.keys.clear();
        self.data.clear();
    }

    /// The number of live slots.
    pub fn length(&self) -> (n: usize)
        ensures
            n as int == self.len(),
    {
        self.keys.len()
    }

    /// The capacity under the growth protocol.
    pub fn current_capacity(&self) -> (n: usize)
        ensures
            n as int == self.capacity(),
    {
        self.cap
    }

    /// How many values were ever moved in.
    pub fn inserted_total(&self) -> (n: u64)
        ensures
            n as int == self.inserted_count(),
    {
        self.inserted
    }

    /// How many destructors have run.
    pub fn destructor_runs(&self) -> (n: u64)
        ensures
            n as int == self.drop_count(),
    {
        self.drops
    }

    /// The descriptor of the stored field type.
    pub fn descriptor(&self) -> (d: TypeDescriptor)
        ensures
            d == self.spec_desc(),
    {
        self.desc
    }

    /// The owner of a slot.
    pub fn key_at(&self, i: usize) -> (id: u32)
        requires
            (i as int) < self.len(),
        ensures
            id == self.keys_view()[i as int],
    {
        self.keys[i]
    }

    /// The slot a record's value occupies, or the sentinel.
    pub fn slot_lookup(&self, id: u32) -> (slot: u32)
        ensures
            slot == self.slot_of(id),
    {
        if (id as usize) < self.sparse.len() {
            self.sparse[id as usize]
        } else {
            SENTINEL
        }
    }

    /// Whether one more shared borrow could be taken on this column now.
    pub fn share_available(&self) -> (b: bool)
        requires
            self.wf(),
        ensures
            b == (!self.borrow_state().unique_held() && self.borrow_state().shared_count()
                < crate::borrow::UNIQUE - 1),
    {
        self.borrow.can_share()
    }

    /// Whether no borrow of either kind is live on this column.
    pub fn borrow_is_free(&self) -> (b: bool)
        requires
            self.wf(),
        ensures
            b == self.borrow_state().is_free(),
    {
        self.borrow.check_free()
    }

    /// Try to take one more shared borrow of the column.
    pub fn acquire_shared(&mut self) -> (ok: bool)
        requires
            old(self).wf(),
        ensures
            final(self).wf(),
            ok <==> !old(self).borrow_state().unique_held() && old(
                self,
            ).borrow_state().shared_count() < crate::borrow::UNIQUE - 1,
            ok ==> final(self).borrow_state().shared_count() == old(
                self,
            ).borrow_state().shared_count() + 1 && !final(self).borrow_state().unique_held(),
            !ok ==> *final(self) == *old(self),
            unchanged_but_borrow(*old(self), *final(self)),
    {
        self.borrow.try_acquire_shared()
    }

    /// Try to take the unique borrow of the column.
    pub fn acquire_unique(&mut self) -> (ok: bool)
        requires
            old(self).wf(),
        ensures
            final(self).wf(),
            ok <==> old(self).borrow_state().is_free(),
            ok ==> final(self).borrow_state().unique_held(),
            !ok ==> *final(self) == *old(self),
            unchanged_but_borrow(*old(self), *final(self)),
    {
        self.borrow.try_acquire_unique()
    }

    /// Give back one shared borrow.
    pub fn release_shared(&mut self)
        requires
            old(self).wf(),
            !old(self).borrow_state().unique_held(),
            old(self).borrow_state().shared_count() >= 1,
        ensures
            final(self).wf(),
            !final(self).borrow_state().unique_held(),
            final(self).borrow_state().shared_count() == old(self).borrow_state().shared_count()
                - 1,
            unchanged_but_borrow(*old(self), *final(self)),
    {
        self.borrow.release_shared()
    }

    /// Give back the unique borrow.
    pub fn release_unique(&mut self)
        requires
            old(self).wf(),
            old(self).borrow_state().unique_held(),
        ensures
            final(self).wf(),
            final(self).borrow_state().is_free(),
            unchanged_but_borrow(*old(self), *final(self)),
    {
        self.borrow.release_unique()
    }
}

/// Everything but the borrow counter is the same in the two column states.
pub open spec fn unchanged_but_borrow(a: Column, b: Column) -> bool {
    &&& b.spec_desc() == a.spec_desc()
    &&& b.data_view() == a.data_view()
    &&& b.keys_view() == a.keys_view()
    &&& b.sparse_view() == a.sparse_view()
    &&& b.capacity() == a.capacity()
    &&& b.inserted_count() == a.inserted_count()
    &&& b.drop_count() == a.drop_count()
}

/// Every value ever inserted is either still live or has had its
/// destructor run exactly once: the destructor count plus the live length
/// always equals the insertion count.
pub proof fn lemma_destruction_accounting(c: Column)
    requires
        c.wf(),
    ensures
        c.drop_count() + c.len() == c.inserted_count(),
{
}

} // verus!
