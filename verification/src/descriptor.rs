//! Run-time descriptions of field types, and the canonical ordering that
//! turns a set of field types into a stable schema key.
//!
//! A [`TypeDescriptor`] is the erased description of one field type: its
//! identity key, its size and its alignment.  A schema key is built from a
//! sequence of descriptors by sorting them into the canonical order
//! (descending alignment, then ascending identity), so that two
//! permutations of the same field set produce the same key.

use vstd::prelude::*;
use vstd::relations::{sorted_by, total_ordering};
use vstd::seq_lib::lemma_sorted_unique;

verus! {

/// The erased run-time description of one field type: identity, size and
/// alignment.  Two descriptors of the same type agree on every field, so
/// comparison by identity and comparison of whole descriptors coincide on
/// well-formed inputs.
#[derive(Clone, Copy, Debug, PartialEq, Eq, Structural)]
pub struct TypeDescriptor {
    /// The opaque identity of the field type.
    pub id: u64,
    /// The size in bytes of one value of the type.
    pub size: usize,
    /// The alignment in bytes of the type.
    pub align: usize,
}

/// The canonical order on descriptors: descending alignment, then ascending
/// identity.  The size is a final tie-break so that the relation is
/// antisymmetric on all descriptor values, not only on well-formed ones.
pub open spec fn desc_leq(a: TypeDescriptor, b: TypeDescriptor) -> bool {
    if a.align != b.align {
        a.align > b.align
    } else if a.id != b.id {
        a.id < b.id
    } else {
        a.size <= b.size
    }
}

/// The canonical order as a relation value, as the sorting lemmas expect it.
pub open spec fn desc_order() -> spec_fn(TypeDescriptor, TypeDescriptor) -> bool {
    |a: TypeDescriptor, b: TypeDescriptor| desc_leq(a, b)
}

/// The relation value and the named order agree pointwise.
pub proof fn lemma_desc_order_is_leq()
    ensures
        forall|x: TypeDescriptor, y: TypeDescriptor| #[trigger]
            (desc_order()(x, y)) == desc_leq(x, y),
{
}

/// The canonical order is a total order.
pub proof fn lemma_desc_order_total()
    ensures
        total_ordering(desc_order()),
{
    lemma_desc_order_is_leq();
    assert forall|x: TypeDescriptor| #[trigger] (desc_order()(x, x)) by {
        assert(desc_leq(x, x));
    }
    assert forall|x: TypeDescriptor, y: TypeDescriptor|
        #[trigger] (desc_order()(x, y)) && #[trigger] (desc_order()(y, x)) implies x == y by {
        assert(desc_leq(x, y) && desc_leq(y, x));
        assert(x.align == y.align && x.id == y.id && x.size == y.size);
    }
    assert forall|x: TypeDescriptor, y: TypeDescriptor, z: TypeDescriptor|
        #[trigger] (desc_order()(x, y)) && #[trigger] (desc_order()(y, z)) implies desc_order()(
        x,
        z,
    ) by {
        assert(desc_leq(x, y) && desc_leq(y, z));
        assert(desc_leq(x, z));
    }
    assert forall|x: TypeDescriptor, y: TypeDescriptor| #[trigger] (desc_order()(x, y))
        || #[trigger] (desc_order()(y, x)) by {
        assert(desc_leq(x, y) || desc_leq(y, x));
    }
}

/// The canonical form of a descriptor sequence: the same descriptors, in
/// the canonical order.
pub open spec fn canonical_spec(s: Seq<TypeDescriptor>) -> Seq<TypeDescriptor> {
    s.sort_by(desc_order())
}

/// The schema key derived from a descriptor sequence: the identities of the
/// canonical form, in order.
pub open spec fn key_spec(s: Seq<TypeDescriptor>) -> Seq<u64> {
    canonical_spec(s).map_values(|d: TypeDescriptor| d.id)
}

/// A descriptor sequence is consistent when equal identities carry equal
/// descriptions, as holds of descriptors drawn from real types.
pub open spec fn consistent(s: Seq<TypeDescriptor>) -> bool {
    forall|i: int, j: int|
        0 <= i < s.len() && 0 <= j < s.len() && s[i].id == s[j].id ==> s[i] == s[j]
}

/// Compare two descriptors in the canonical order.
pub fn desc_le(a: &TypeDescriptor, b: &TypeDescriptor) -> (r: bool)
    ensures
        r == desc_leq(*a, *b),
{
    if a.align != b.align {
        a.align > b.align
    } else if a.id != b.id {
        a.id < b.id
    } else {
        a.size <= b.size
    }
}

/// Inserting into a sequence at any position inserts into its multiset.
proof fn lemma_insert_to_multiset(s: Seq<TypeDescriptor>, i: int, a: TypeDescriptor)
    requires
        0 <= i <= s.len(),
    ensures
        s.insert(i, a).to_multiset() =~= s.to_multiset().insert(a),
{
    broadcast use vstd::seq_lib::group_to_multiset_ensures;
    broadcast use vstd::multiset::group_multiset_axioms;

    let t = s.insert(i, a);
    s.insert_ensures(i, a);
    assert(t[i] == a);
    assert(t.remove(i) =~= s);
    assert(s.to_multiset() =~= t.to_multiset().remove(a));
    assert(t.contains(a));
    assert(t.to_multiset().count(a) > 0);
    assert(t.to_multiset() =~= t.to_multiset().remove(a).insert(a));
}

/// Sort the descriptors into the canonical order.  The result is exactly
/// the canonical form of the input.
pub fn canonicalize(input: &Vec<TypeDescriptor>) -> (r: Vec<TypeDescriptor>)
    ensures
        r@ == canonical_spec(input@),
{
    let mut out: Vec<TypeDescriptor> = Vec::new();
    let n = input.len();
    let mut i: usize = 0;
    proof {
        assert(input@.subrange(0, 0) =~= out@);
    }
    while i < n
        invariant
            i <= n,
            n == input@.len(),
            sorted_by(out@, desc_order()),
            out@.to_multiset() == input@.subrange(0, i as int).to_multiset(),
        decreases n - i,
    {
        let d = input[i];
        let mut j: usize = 0;
        while j < out.len() && desc_le(&out[j], &d)
            invariant
                j <= out@.len(),
                forall|k: int| 0 <= k < j ==> desc_leq(out@[k], d),
            decreases out@.len() - j,
        {
            j = j + 1;
        }
        assert(j == out@.len() || !desc_leq(out@[j as int], d));
        let ghost prev = out@;
        out.insert(j, d);
        proof {
            lemma_desc_order_is_leq();
            lemma_desc_order_total();
            prev.insert_ensures(j as int, d);
            assert(out@ == prev.insert(j as int, d));
            assert(out@[j as int] == d);
            assert forall|p: int, q: int| 0 <= p < q < out@.len() implies #[trigger] desc_order()(
                out@[p],
                out@[q],
            ) by {
                if q < j {
                    assert(out@[p] == prev[p]);
                    assert(out@[q] == prev[q]);
                    assert(desc_order()(prev[p], prev[q]));
                } else if q == j {
                    assert(out@[p] == prev[p]);
                    assert(desc_leq(prev[p], d));
                } else {
                    assert(out@[q] == prev[q - 1]);
                    if p < j {
                        assert(out@[p] == prev[p]);
                        if p < q - 1 {
                            assert(desc_order()(prev[p], prev[q - 1]));
                        }
                    } else if p == j {
                        assert(j < prev.len());
                        assert(!desc_leq(prev[j as int], d));
                        assert(desc_leq(d, prev[j as int]) || desc_leq(prev[j as int], d));
                        if j < q - 1 {
                            assert(desc_order()(prev[j as int], prev[q - 1]));
                            assert(desc_leq(prev[j as int], prev[q - 1]));
                        }
                    } else {
                        assert(out@[p] == prev[p - 1]);
                        if p - 1 < q - 1 {
                            assert(desc_order()(prev[p - 1], prev[q - 1]));
                        }
                    }
                }
            }
            lemma_insert_to_multiset(prev, j as int, d);
            broadcast use vstd::seq_lib::group_to_multiset_ensures;

            assert(input@.subrange(0, i as int).push(d) =~= input@.subrange(0, i as int + 1));
            assert(out@.to_multiset() =~= input@.subrange(0, i as int + 1).to_multiset());
        }
        i = i + 1;
    }
    proof {
        lemma_desc_order_total();
        assert(input@.subrange(0, n as int) =~= input@);
        input@.lemma_sort_by_ensures(desc_order());
        lemma_sorted_unique(out@, canonical_spec(input@), desc_order());
    }
    out
}

/// Build the schema key of a descriptor sequence: the identities of its
/// canonical form.
pub fn schema_key(input: &Vec<TypeDescriptor>) -> (r: Vec<u64>)
    ensures
        r@ == key_spec(input@),
{
    let sorted = canonicalize(input);
    let mut r: Vec<u64> = Vec::new();
    let mut i: usize = 0;
    while i < sorted.len()
        invariant
            i <= sorted@.len(),
            sorted@ == canonical_spec(input@),
            r@ == sorted@.subrange(0, i as int).map_values(|d: TypeDescriptor| d.id),
        decreases sorted@.len() - i,
    {
        let ghost prevr = r@;
        r.push(sorted[i].id);
        proof {
            assert(sorted@.subrange(0, i as int + 1) =~= sorted@.subrange(0, i as int).push(
                sorted@[i as int],
            ));
            assert(sorted@.subrange(0, i as int + 1).map_values(|d: TypeDescriptor| d.id)
                =~= sorted@.subrange(0, i as int).map_values(|d: TypeDescriptor| d.id).push(
                sorted@[i as int].id,
            ));
        }
        i = i + 1;
    }
    proof {
        assert(sorted@.subrange(0, sorted@.len() as int) =~= sorted@);
    }
    r
}

/// An ordered field set: the canonicalized sequence of the descriptors of
/// a set of field types.  Two permutations of one set build equal values,
/// so the derived key identifies the set, not the order it was written in.
pub struct FieldSetDescriptor {
    descriptors: Vec<TypeDescriptor>,
}

impl FieldSetDescriptor {
    /// The canonicalized descriptors.
    pub closed spec fn descriptors_view(self) -> Seq<TypeDescriptor> {
        self.descriptors@
    }

    /// Canonicalize a set of field types.
    pub fn new(input: &Vec<TypeDescriptor>) -> (d: Self)
        ensures
            d.descriptors_view() == canonical_spec(input@),
    {
        FieldSetDescriptor { descriptors: canonicalize(input) }
    }

    /// The schema key: the identities of the canonical form, in order.
    pub fn key(&self) -> (r: Vec<u64>)
        ensures
            r@ == self.descriptors_view().map_values(|d: TypeDescriptor| d.id),
    {
        let n = self.descriptors.len();
        let mut r: Vec<u64> = Vec::new();
        let mut i: usize = 0;
        while i < n
            invariant
                i <= n,
                n == self.descriptors@.len(),
                r@ == self.descriptors@.subrange(0, i as int).map_values(
                    |d: TypeDescriptor| d.id,
                ),
            decreases n - i,
        {
            r.push(self.descriptors[i].id);
            proof {
                assert(self.descriptors@.subrange(0, i as int + 1)
                    =~= self.descriptors@.subrange(0, i as int).push(self.descriptors@[i as int]));
                assert(self.descriptors@.subrange(0, i as int + 1).map_values(
                    |d: TypeDescriptor| d.id,
                ) =~= self.descriptors@.subrange(0, i as int).map_values(
                    |d: TypeDescriptor| d.id,
                ).push(self.descriptors@[i as int].id));
            }
            i = i + 1;
        }
        proof {
            assert(self.descriptors@.subrange(0, n as int) =~= self.descriptors@);
        }
        r
    }

    /// The canonicalized descriptors, in canonical order.
    pub fn descriptors(&self) -> (r: &Vec<TypeDescriptor>)
        ensures
            r@ == self.descriptors_view(),
    {
        &self.descriptors
    }
}

/// Canonicalization keeps exactly the descriptors it was given: the
/// canonical form is sorted and is a permutation of the input.
pub proof fn lemma_canonical_permutes(a: Seq<TypeDescriptor>)
    ensures
        canonical_spec(a).to_multiset() == a.to_multiset(),
        sorted_by(canonical_spec(a), desc_order()),
        canonical_spec(a).len() == a.len(),
{
    broadcast use vstd::seq_lib::group_to_multiset_ensures;

    a.lemma_sort_by_ensures(desc_order());
    assert(canonical_spec(a).to_multiset() =~= a.to_multiset());
    assert(canonical_spec(a).to_multiset().len() == a.to_multiset().len());
}

/// Two permutations of the same field set produce the same canonical form,
/// and therefore the same schema key.
pub proof fn lemma_same_set_same_key(a: Seq<TypeDescriptor>, b: Seq<TypeDescriptor>)
    requires
        a.to_multiset() == b.to_multiset(),
    ensures
        canonical_spec(a) == canonical_spec(b),
        key_spec(a) == key_spec(b),
{
    lemma_desc_order_total();
    lemma_canonical_permutes(a);
    lemma_canonical_permutes(b);
    lemma_sorted_unique(canonical_spec(a), canonical_spec(b), desc_order());
    assert(canonical_spec(a) =~= canonical_spec(b));
}

/// Two field sets that differ in any type produce distinct canonical forms.
pub proof fn lemma_distinct_sets_distinct_canonical(a: Seq<TypeDescriptor>, b: Seq<TypeDescriptor>)
    requires
        a.to_multiset() != b.to_multiset(),
    ensures
        canonical_spec(a) != canonical_spec(b),
{
    lemma_canonical_permutes(a);
    lemma_canonical_permutes(b);
}

/// On consistent descriptor sets, the schema key determines the field set:
/// equal keys mean the same multiset of descriptors.  Read the other way,
/// two consistent field sets that differ in any type produce distinct keys.
pub proof fn lemma_key_determines_set(a: Seq<TypeDescriptor>, b: Seq<TypeDescriptor>)
    requires
        consistent(a + b),
        key_spec(a) == key_spec(b),
    ensures
        canonical_spec(a) == canonical_spec(b),
        a.to_multiset() == b.to_multiset(),
{
    broadcast use vstd::seq_lib::group_to_multiset_ensures;

    let ca = canonical_spec(a);
    let cb = canonical_spec(b);
    lemma_canonical_permutes(a);
    lemma_canonical_permutes(b);
    assert(ca.map_values(|d: TypeDescriptor| d.id).len() == cb.map_values(
        |d: TypeDescriptor| d.id,
    ).len());
    assert(ca.len() == cb.len());
    assert forall|i: int| 0 <= i < ca.len() implies ca[i] == cb[i] by {
        assert(ca.map_values(|d: TypeDescriptor| d.id)[i] == cb.map_values(
            |d: TypeDescriptor| d.id,
        )[i]);
        assert(ca[i].id == cb[i].id);
        assert(ca.to_multiset().count(ca[i]) > 0);
        assert(cb.to_multiset().count(cb[i]) > 0);
        assert(a.contains(ca[i]));
        assert(b.contains(cb[i]));
        let p = choose|p: int| 0 <= p < a.len() && a[p] == ca[i];
        let q = choose|q: int| 0 <= q < b.len() && b[q] == cb[i];
        assert((a + b)[p] == ca[i]);
        assert((a + b)[a.len() + q] == cb[i]);
    }
    assert(ca =~= cb);
}

} // verus!
