//! The allocator of stable record handles: dense ids, monotonic non-zero
//! generations, a free list, and a reservation cursor that hands out ids
//! ahead of their materialization.

use vstd::prelude::*;

verus! {

/// The slot value that means "no slot": a record id never takes this value,
/// and a sparse entry holding it marks an absent field.
pub const SENTINEL: u32 = u32::MAX;

/// A stable handle to one record: a dense id and the generation under which
/// the id was handed out.  A generation is never zero, so an all-zero
/// handle is never live.
#[derive(Clone, Copy, Debug, PartialEq, Eq, Hash, Structural)]
pub struct Record {
    /// Dense index into the record metadata.
    pub id: u32,
    /// Non-zero generation of the id at hand-out time.
    pub generation: u32,
}

/// Per-id metadata: the id's current generation, and whether a handle of
/// that generation is currently allocated.
#[derive(Clone, Copy, Debug)]
pub struct RecordMeta {
    /// Current generation of the id; increases on every free, wrapping to
    /// one, never zero.
    pub generation: u32,
    /// True between an allocation of the id and the matching free.
    pub live: bool,
}

/// What a handle presented to the store currently names.
#[derive(Clone, Copy, Debug, PartialEq, Eq, Structural)]
pub enum RecordStatus {
    /// The handle names an allocated record.
    Live,
    /// The handle was reserved but not yet committed; it fails closed.
    Reserved,
}

/// The generation an id carries after one more free: one more, wrapping to
/// one so that it never reaches zero.
pub open spec fn next_generation(g: u32) -> u32 {
    if g == u32::MAX {
        1u32
    } else {
        (g + 1) as u32
    }
}

/// Generation monotonicity, in one statement: stepping a generation never
/// yields zero, and strictly exceeds the stepped generation except at the
/// wrap, where it returns to one.  Every free steps the freed id's
/// generation this way, so a handle's generation strictly exceeds every
/// generation the id carried before, up to the wrap.
pub proof fn lemma_generation_monotonic(g: u32)
    ensures
        next_generation(g) != 0,
        g < u32::MAX ==> next_generation(g) > g,
        g == u32::MAX ==> next_generation(g) == 1,
{
}

/// The number of live entries in a metadata sequence.
pub open spec fn count_live(s: Seq<RecordMeta>) -> nat
    decreases s.len(),
{
    if s.len() == 0 {
        0
    } else {
        count_live(s.drop_last()) + (if s.last().live {
            1nat
        } else {
            0nat
        })
    }
}

proof fn lemma_count_live_le_len(s: Seq<RecordMeta>)
    ensures
        count_live(s) <= s.len(),
    decreases s.len(),
{
    if s.len() > 0 {
        lemma_count_live_le_len(s.drop_last());
    }
}

proof fn lemma_count_live_lt(s: Seq<RecordMeta>, i: int)
    requires
        0 <= i < s.len(),
        !s[i].live,
    ensures
        count_live(s) < s.len(),
    decreases s.len(),
{
    if i == s.len() - 1 {
        lemma_count_live_le_len(s.drop_last());
    } else {
        lemma_count_live_lt(s.drop_last(), i);
        assert(s.drop_last()[i] == s[i]);
    }
}

proof fn lemma_count_live_push(s: Seq<RecordMeta>, m: RecordMeta)
    ensures
        count_live(s.push(m)) == count_live(s) + (if m.live {
            1nat
        } else {
            0nat
        }),
{
    assert(s.push(m).drop_last() =~= s);
    assert(s.push(m).last() == m);
}

proof fn lemma_count_live_update(s: Seq<RecordMeta>, i: int, m: RecordMeta)
    requires
        0 <= i < s.len(),
    ensures
        count_live(s.update(i, m)) == count_live(s) - (if s[i].live {
            1int
        } else {
            0int
        }) + (if m.live {
            1int
        } else {
            0int
        }),
    decreases s.len(),
{
    let t = s.update(i, m);
    if i == s.len() - 1 {
        assert(t.drop_last() =~= s.drop_last());
        assert(t.last() == m);
        assert(s.last() == s[i]);
    } else {
        assert(t.drop_last() =~= s.drop_last().update(i, m));
        assert(t.last() == s.last());
        lemma_count_live_update(s.drop_last(), i, m);
        assert(s.drop_last()[i] == s[i]);
    }
}

/// A sequence of distinct ids below a bound has at most that many entries.
pub proof fn lemma_distinct_bounded(s: Seq<u32>, n: int)
    requires
        s.no_duplicates(),
        forall|k: int| 0 <= k < s.len() ==> (#[trigger] s[k] as int) < n,
        0 <= n,
    ensures
        s.len() <= n,
{
    let f = |x: u32| x as int;
    assert(vstd::relations::injective(f));
    s.lemma_no_duplicates_injective(f);
    let t = s.map_values(f);
    t.unique_seq_to_set();
    assert forall|x: int| t.to_set().contains(x) implies vstd::set_lib::set_int_range(
        0,
        n,
    ).contains(x) by {
        assert(t.contains(x));
        let k = choose|k: int| 0 <= k < t.len() && t[k] == x;
        assert(s[k] as int == x);
    }
    vstd::set_lib::lemma_int_range(0, n);
    vstd::set_lib::lemma_len_subset(t.to_set(), vstd::set_lib::set_int_range(0, n));
}

/// The allocator of record handles: per-id metadata, a free list of ids
/// available for reuse, a reservation cursor, and the count of live
/// records.
pub struct RecordSet {
    meta: Vec<RecordMeta>,
    pending: Vec<u32>,
    free_cursor: i64,
    live_count: usize,
}

impl RecordSet {
    /// The per-id metadata, as a sequence indexed by id.
    pub closed spec fn metas(self) -> Seq<RecordMeta> {
        self.meta@
    }

    /// The free list of ids available for reuse.
    pub closed spec fn free_list(self) -> Seq<u32> {
        self.pending@
    }

    /// The reservation cursor: it indexes into the free list, and once it
    /// has passed below zero, each further step reserves a fresh id beyond
    /// the metadata.
    pub closed spec fn cursor(self) -> int {
        self.free_cursor as int
    }

    /// The number of live records.
    pub closed spec fn live_len(self) -> nat {
        self.live_count as nat
    }

    /// The number of ids ever materialized.
    pub open spec fn num_ids(self) -> nat {
        self.metas().len()
    }

    /// The number of fresh ids reserved beyond the metadata.
    pub open spec fn fresh_reserved(self) -> nat {
        if self.cursor() < 0 {
            (-self.cursor()) as nat
        } else {
            0
        }
    }

    /// No reservation is outstanding.
    pub open spec fn flushed(self) -> bool {
        self.cursor() == self.free_list().len()
    }

    /// A handle is live iff its id is materialized, allocated, and carries
    /// the id's current generation.
    pub open spec fn is_live(self, r: Record) -> bool {
        &&& (r.id as int) < self.metas().len()
        &&& self.metas()[r.id as int].live
        &&& self.metas()[r.id as int].generation == r.generation
    }

    /// The set of all live handles.
    pub open spec fn live_handles(self) -> Set<Record> {
        Set::new(|r: Record| self.is_live(r))
    }

    /// A handle is reserved-but-uncommitted: either a reused id whose
    /// current generation it carries while the id is not allocated, or a
    /// fresh id inside the reservation window beyond the metadata.
    pub open spec fn is_reserved(self, r: Record) -> bool {
        ||| ((r.id as int) < self.metas().len() && !self.metas()[r.id as int].live
            && self.metas()[r.id as int].generation == r.generation)
        ||| (self.metas().len() <= (r.id as int) && (r.id as int) < self.metas().len()
            + self.fresh_reserved())
    }

    /// The structural invariant of the record set.
    pub open spec fn wf(self) -> bool {
        &&& self.num_ids() <= SENTINEL as nat
        &&& (forall|i: int| 0 <= i < self.metas().len() ==> #[trigger] self.metas()[i].generation >= 1)
        &&& self.free_list().no_duplicates()
        &&& (forall|k: int|
            0 <= k < self.free_list().len() ==> (#[trigger] self.free_list()[k] as int)
                < self.metas().len() && !self.metas()[self.free_list()[k] as int].live)
        &&& self.cursor() <= self.free_list().len()
        &&& self.live_len() == count_live(self.metas())
        &&& self.num_ids() + self.fresh_reserved() <= SENTINEL as nat
    }

    /// An empty record set: no ids, nothing live, nothing reserved.
    pub fn new() -> (s: Self)
        ensures
            s.wf(),
            s.flushed(),
            s.num_ids() == 0,
            s.live_len() == 0,
            s.free_list().len() == 0,
            forall|r: Record| !s.is_live(r),
    {
        let s = RecordSet { meta: Vec::new(), pending: Vec::new(), free_cursor: 0, live_count: 0 };
        proof {
            assert(count_live(s.meta@) == 0);
        }
        s
    }

    /// More handles can be handed out: an id waits on the free list, or a
    /// fresh id still fits.
    pub open spec fn can_allocate(self) -> bool {
        self.free_list().len() > 0 || self.num_ids() + 1 <= SENTINEL as nat
    }

    /// Allocate a record handle.  A freed id is reused with the generation
    /// it acquired when it was freed; otherwise a fresh id starts at
    /// generation one.  The returned handle is live, was not live before,
    /// and the liveness of every other handle is unchanged.
    pub fn allocate(&mut self) -> (r: Record)
        requires
            old(self).wf(),
            old(self).flushed(),
            old(self).can_allocate(),
        ensures
            final(self).wf(),
            final(self).flushed(),
            final(self).is_live(r),
            r.generation >= 1,
            !old(self).is_live(r),
            forall|r2: Record| r2 != r ==> (final(self).is_live(r2) <==> old(self).is_live(r2)),
            forall|id: int|
                0 <= id < old(self).metas().len() && id != r.id as int ==> final(self).metas()[id]
                    == old(self).metas()[id],
            final(self).live_len() == old(self).live_len() + 1,
            old(self).free_list().len() > 0 ==> final(self).num_ids() == old(self).num_ids()
                && r.generation == old(self).metas()[r.id as int].generation && r.id == old(
                self).free_list().last() && final(self).free_list() == old(
                self).free_list().drop_last(),
            old(self).free_list().len() == 0 ==> final(self).num_ids() == old(self).num_ids() + 1
                && (r.id as int) == old(self).num_ids() && r.generation == 1 && final(
                self).free_list() == old(self).free_list(),
            final(self).live_handles() == old(self).live_handles().insert(r),
    {
        if self.pending.len() > 0 {
            let id = self.pending.pop().unwrap();
            let g = self.meta[id as usize].generation;
            let ghost oldmeta = self.meta@;
            self.meta.set(id as usize, RecordMeta { generation: g, live: true });
            self.free_cursor = self.pending.len() as i64;
            proof {
                lemma_count_live_update(oldmeta, id as int, self.meta@[id as int]);
                lemma_count_live_lt(oldmeta, id as int);
            }
            self.live_count = self.live_count + 1;
            let r = Record { id, generation: g };
            proof {
                assert(self.live_handles() =~= old(self).live_handles().insert(r));
            }
            r
        } else {
            let id = self.meta.len() as u32;
            let ghost oldmeta = self.meta@;
            self.meta.push(RecordMeta { generation: 1, live: true });
            proof {
                lemma_count_live_push(oldmeta, RecordMeta { generation: 1, live: true });
                lemma_count_live_le_len(oldmeta);
            }
            self.live_count = self.live_count + 1;
            let r = Record { id, generation: 1 };
            proof {
                assert(self.live_handles() =~= old(self).live_handles().insert(r));
            }
            r
        }
    }

    /// Free a live record handle.  The id's generation steps forward
    /// (wrapping to one), so the freed handle and every older handle of the
    /// id are dead; the id joins the free list for reuse; the liveness of
    /// every other id is unchanged.
    pub fn free(&mut self, r: Record)
        requires
            old(self).wf(),
            old(self).flushed(),
            old(self).is_live(r),
        ensures
            final(self).wf(),
            final(self).flushed(),
            final(self).num_ids() == old(self).num_ids(),
            final(self).live_len() == old(self).live_len() - 1,
            forall|r2: Record| r2.id == r.id ==> !final(self).is_live(r2),
            forall|r2: Record|
                r2.id != r.id ==> (final(self).is_live(r2) <==> old(self).is_live(r2)),
            forall|id: int|
                0 <= id < old(self).metas().len() && id != r.id as int ==> final(self).metas()[id]
                    == old(self).metas()[id],
            final(self).metas()[r.id as int].generation == next_generation(r.generation),
            r.generation < u32::MAX ==> final(self).metas()[r.id as int].generation
                > r.generation,
            final(self).free_list() == old(self).free_list().push(r.id),
            final(self).live_handles() == old(self).live_handles().remove(r),
    {
        let g = self.meta[r.id as usize].generation;
        let new_g: u32 = if g == u32::MAX {
            1
        } else {
            g + 1
        };
        let ghost oldmeta = self.meta@;
        self.meta.set(r.id as usize, RecordMeta { generation: new_g, live: false });
        proof {
            lemma_count_live_update(oldmeta, r.id as int, self.meta@[r.id as int]);
            lemma_count_live_le_len(self.meta@);
        }
        self.pending.push(r.id);
        proof {
            assert forall|k: int| 0 <= k < self.pending@.len() implies (
            #[trigger] self.pending@[k] as int) < self.meta@.len()
                && !self.meta@[self.pending@[k] as int].live by {
                if k < self.pending@.len() - 1 {
                    assert(old(self).free_list()[k] == self.pending@[k]);
                }
            }
            assert(self.pending@.no_duplicates()) by {
                assert forall|i: int, j: int|
                    0 <= i < j < self.pending@.len() implies self.pending@[i]
                    != self.pending@[j] by {
                    if j == self.pending@.len() - 1 {
                        assert(!oldmeta[old(self).free_list()[i] as int].live);
                        assert(oldmeta[r.id as int].live);
                    }
                }
            }
            lemma_distinct_bounded(self.pending@, self.meta@.len() as int);
        }
        self.free_cursor = self.pending.len() as i64;
        self.live_count = self.live_count - 1;
        proof {
            assert forall|r2: Record| self.is_live(r2) implies old(self).is_live(r2) && r2
                != r by {}
            assert(self.live_handles() =~= old(self).live_handles().remove(r));
        }
    }

    /// Look a handle up.  A live handle reports `Live`; a reserved handle
    /// fails closed and reports `Reserved`; anything else is a stale or
    /// forged handle and is rejected.
    pub fn get(&self, r: Record) -> (res: Result<RecordStatus, crate::StoreError>)
        requires
            self.wf(),
        ensures
            self.is_live(r) ==> res == Ok::<RecordStatus, crate::StoreError>(RecordStatus::Live),
            !self.is_live(r) && self.is_reserved(r) ==> res == Ok::<
                RecordStatus,
                crate::StoreError,
            >(RecordStatus::Reserved),
            !self.is_live(r) && !self.is_reserved(r) ==> res == Err::<
                RecordStatus,
                crate::StoreError,
            >(crate::StoreError::NoSuchRecord),
    {
        if (r.id as usize) < self.meta.len() {
            let m = self.meta[r.id as usize];
            if m.generation != r.generation {
                Err(crate::StoreError::NoSuchRecord)
            } else if m.live {
                Ok(RecordStatus::Live)
            } else {
                Ok(RecordStatus::Reserved)
            }
        } else {
            let fresh: u64 = if self.free_cursor < 0 {
                (-self.free_cursor) as u64
            } else {
                0
            };
            if (r.id as u64) < self.meta.len() as u64 + fresh {
                Ok(RecordStatus::Reserved)
            } else {
                Err(crate::StoreError::NoSuchRecord)
            }
        }
    }

    /// The number of live records.
    pub fn live_count_now(&self) -> (n: usize)
        ensures
            n as int == self.live_len(),
    {
        self.live_count
    }

    /// Whether a handle is live, as an executable test.
    pub fn is_alive(&self, r: Record) -> (b: bool)
        ensures
            b == self.is_live(r),
    {
        (r.id as usize) < self.meta.len() && self.meta[r.id as usize].live
            && self.meta[r.id as usize].generation == r.generation
    }

    /// Reserve a record handle without committing it.  The handle is not
    /// live — it fails closed until [`Self::flush`] — and no other
    /// handle's state changes.  Reservations step the cursor down; ids
    /// taken from the free list keep their current generation, and fresh
    /// ids beyond the metadata carry generation one.
    pub fn reserve(&mut self) -> (r: Record)
        requires
            old(self).wf(),
            old(self).num_ids() + old(self).fresh_reserved() + 1 <= SENTINEL as nat,
        ensures
            final(self).wf(),
            final(self).metas() == old(self).metas(),
            final(self).free_list() == old(self).free_list(),
            final(self).live_len() == old(self).live_len(),
            final(self).cursor() == old(self).cursor() - 1,
            !final(self).is_live(r),
            final(self).is_reserved(r),
            forall|r2: Record| final(self).is_live(r2) <==> old(self).is_live(r2),
            old(self).cursor() > 0 ==> r.id == old(self).free_list()[old(self).cursor() - 1]
                && r.generation == old(self).metas()[r.id as int].generation,
            old(self).cursor() <= 0 ==> (r.id as int) == old(self).num_ids()
                + old(self).fresh_reserved() && r.generation == 1,
    {
        let c = self.free_cursor;
        if c > 0 {
            let plen = self.pending.len();
            assert(c as int <= plen as int);
            let idx = (c - 1) as usize;
            let id = self.pending[idx];
            self.free_cursor = c - 1;
            let g = self.meta[id as usize].generation;
            Record { id, generation: g }
        } else {
            let fresh: u64 = (-c) as u64;
            let id = (self.meta.len() as u64 + fresh) as u32;
            self.free_cursor = c - 1;
            Record { id, generation: 1 }
        }
    }

    /// Commit all outstanding reservations: every reserved id becomes a
    /// materialized, live record, and the cursor is reset.  Already-live
    /// records are untouched.
    pub fn flush(&mut self)
        requires
            old(self).wf(),
        ensures
            final(self).wf(),
            final(self).flushed(),
            final(self).num_ids() == old(self).num_ids() + old(self).fresh_reserved(),
            forall|r2: Record| old(self).is_live(r2) ==> final(self).is_live(r2),
            forall|r2: Record|
                old(self).is_reserved(r2) && ((exists|k: int|
                    (if old(self).cursor() > 0 {
                        old(self).cursor()
                    } else {
                        0int
                    }) <= k < old(self).free_list().len() && old(self).free_list()[k] == r2.id)
                    || (old(self).num_ids() <= (r2.id as int) && r2.generation == 1)) ==> final(
                    self).is_live(r2),
            forall|r2: Record|
                !old(self).is_live(r2) && !old(self).is_reserved(r2) ==> !final(self).is_live(r2),
            final(self).free_list() == old(self).free_list().subrange(
                0,
                if old(self).cursor() > 0 {
                    old(self).cursor()
                } else {
                    0int
                },
            ),
            forall|k: int|
                0 <= k < (if old(self).cursor() > 0 {
                    old(self).cursor()
                } else {
                    0int
                }) ==> !final(self).metas()[old(self).free_list()[k] as int].live,
            forall|i: int|
                0 <= i < old(self).metas().len() ==> final(self).metas()[i].generation == old(
                    self).metas()[i].generation,
    {
        let ghost pre = *self;
        let plen = self.pending.len();
        let start: usize = if self.free_cursor > 0 {
            assert(self.free_cursor as int <= plen as int);
            self.free_cursor as usize
        } else {
            0
        };
        assert(start as int == (if pre.cursor() > 0 {
            pre.cursor()
        } else {
            0int
        }));
        let mut k: usize = start;
        while k < self.pending.len()
            invariant
                start <= k <= self.pending@.len(),
                self.pending@ == pre.free_list(),
                self.free_cursor == pre.cursor(),
                self.meta@.len() == pre.metas().len(),
                pre.wf(),
                start == (if pre.cursor() > 0 {
                    pre.cursor()
                } else {
                    0
                }),
                forall|i: int|
                    0 <= i < self.meta@.len() ==> #[trigger] self.meta@[i].generation
                        == pre.metas()[i].generation,
                forall|i: int|
                    0 <= i < self.meta@.len() && !(exists|j: int|
                        start <= j < k && pre.free_list()[j] == i) ==> #[trigger] self.meta@[i].live
                        == pre.metas()[i].live,
                forall|j: int|
                    start <= j < k ==> #[trigger] self.meta@[pre.free_list()[j] as int].live,
                forall|j: int|
                    0 <= j < start ==> !(#[trigger] self.meta@[pre.free_list()[j] as int].live),
                self.live_count as int == pre.live_len() + (k - start),
                count_live(self.meta@) == self.live_count,
            decreases self.pending@.len() - k,
        {
            let id = self.pending[k];
            let g = self.meta[id as usize].generation;
            let ghost oldmeta = self.meta@;
            proof {
                assert(!oldmeta[id as int].live) by {
                    if exists|j: int| start <= j < k && pre.free_list()[j] == id as int {
                        let j = choose|j: int| start <= j < k && pre.free_list()[j] == id as int;
                        assert(pre.free_list()[j] == pre.free_list()[k as int]);
                    }
                }
            }
            self.meta.set(id as usize, RecordMeta { generation: g, live: true });
            proof {
                lemma_count_live_update(oldmeta, id as int, self.meta@[id as int]);
                lemma_count_live_lt(oldmeta, id as int);
                assert forall|j: int| 0 <= j < start implies !(
                #[trigger] self.meta@[pre.free_list()[j] as int].live) by {
                    assert(pre.free_list()[j] != pre.free_list()[k as int]);
                    assert((pre.free_list()[j] as int) < pre.metas().len());
                }
            }
            self.live_count = self.live_count + 1;
            k = k + 1;
        }
        self.pending.truncate(start);
        let mut fresh: u64 = if self.free_cursor < 0 {
            (-self.free_cursor) as u64
        } else {
            0
        };
        while fresh > 0
            invariant
                pre.wf(),
                self.meta@.len() + fresh == pre.metas().len() + pre.fresh_reserved(),
                fresh <= pre.fresh_reserved(),
                forall|i: int|
                    0 <= i < pre.metas().len() ==> #[trigger] self.meta@[i].generation
                        == pre.metas()[i].generation,
                forall|i: int|
                    pre.metas().len() <= i < self.meta@.len() ==> #[trigger] self.meta@[i].generation
                        == 1 && self.meta@[i].live,
                forall|i: int|
                    0 <= i < pre.metas().len() ==> (#[trigger] self.meta@[i].live
                        == pre.metas()[i].live || self.meta@[i].live),
                forall|r2: Record| pre.is_live(r2) ==> self.is_live(r2),
                forall|r2: Record|
                    !pre.is_live(r2) && !pre.is_reserved(r2) && (r2.id as int) < pre.metas().len()
                        ==> !self.is_live(r2),
                forall|j: int|
                    (if pre.cursor() > 0 {
                        pre.cursor()
                    } else {
                        0
                    }) <= j < pre.free_list().len()
                        ==> #[trigger] self.meta@[pre.free_list()[j] as int].live,
                forall|j: int|
                    0 <= j < start ==> !(#[trigger] self.meta@[pre.free_list()[j] as int].live),
                count_live(self.meta@) == self.live_count,
                self.live_count as int == pre.live_len() + (pre.free_list().len() - (if pre.cursor()
                    > 0 {
                    pre.cursor()
                } else {
                    0
                })) + (pre.fresh_reserved() - fresh),
                self.pending@.len() == start as int,
                forall|k2: int|
                    0 <= k2 < self.pending@.len() ==> #[trigger] self.pending@[k2]
                        == pre.free_list()[k2],
                start as int == (if pre.cursor() > 0 {
                    pre.cursor()
                } else {
                    0int
                }),
            decreases fresh,
        {
            let ghost oldmeta = self.meta@;
            self.meta.push(RecordMeta { generation: 1, live: true });
            proof {
                lemma_count_live_push(oldmeta, RecordMeta { generation: 1, live: true });
                lemma_count_live_le_len(oldmeta);
                assert(oldmeta.len() < pre.metas().len() + pre.fresh_reserved());
                assert(self.live_count < usize::MAX);
                assert forall|j: int| 0 <= j < start implies !(
                #[trigger] self.meta@[pre.free_list()[j] as int].live) by {
                    assert((pre.free_list()[j] as int) < pre.metas().len());
                    assert(self.meta@[pre.free_list()[j] as int] == oldmeta[pre.free_list()[
                        j
                    ] as int]);
                }
            }
            self.live_count = self.live_count + 1;
            fresh = fresh - 1;
        }
        proof {
            lemma_distinct_bounded(pre.free_list(), pre.metas().len() as int);
            assert forall|k2: int| 0 <= k2 < self.pending@.len() implies (
            #[trigger] self.pending@[k2] as int) < self.meta@.len()
                && !self.meta@[self.pending@[k2] as int].live by {
                assert(self.pending@[k2] == pre.free_list()[k2]);
                assert((pre.free_list()[k2] as int) < pre.metas().len());
            }
            assert forall|r2: Record|
                pre.is_reserved(r2) && ((exists|k2: int|
                    start as int <= k2 < pre.free_list().len() && pre.free_list()[k2] == r2.id)
                    || (pre.num_ids() <= (r2.id as int) && r2.generation == 1)) implies self.is_live(
                r2,
            ) by {
                if exists|k2: int|
                    start as int <= k2 < pre.free_list().len() && pre.free_list()[k2] == r2.id {
                    let k2 = choose|k2: int|
                        start as int <= k2 < pre.free_list().len() && pre.free_list()[k2]
                            == r2.id;
                    assert(self.meta@[pre.free_list()[k2] as int].live);
                    assert((r2.id as int) < pre.metas().len());
                    assert(self.meta@[r2.id as int].generation == pre.metas()[
                        r2.id as int
                    ].generation);
                    assert(pre.metas()[r2.id as int].generation == r2.generation);
                } else {
                    assert(pre.num_ids() <= (r2.id as int) && r2.generation == 1);
                    assert((r2.id as int) < pre.metas().len() + pre.fresh_reserved());
                    assert(self.meta@[r2.id as int].generation == 1 && self.meta@[
                        r2.id as int
                    ].live);
                }
            }
            assert(self.pending@.no_duplicates()) by {
                assert forall|i: int, j: int|
                    0 <= i < j < self.pending@.len() implies self.pending@[i]
                    != self.pending@[j] by {
                    assert(pre.free_list()[i] != pre.free_list()[j]);
                }
            }
        }
        self.free_cursor = self.pending.len() as i64;
    }

    /// Forget everything: all metadata, the free list, the cursor and the
    /// live count return to the empty state.
    pub fn clear(&mut self)
        ensures
            final(self).wf(),
            final(self).flushed(),
            final(self).num_ids() == 0,
            final(self).live_len() == 0,
            final(self).free_list().len() == 0,
            forall|r: Record| !final(self).is_live(r),
    {
        self.meta.clear();
        self.pending.clear();
        self.free_cursor = 0;
        self.live_count = 0;
        proof {
            assert(count_live(self.meta@) == 0);
        }
    }
}

} // verus!
