//! Run-time type definitions: a recorded layout of a composite type's
//! fields and capabilities, built once per type and consulted to reach a
//! field inside a type-erased value.
//!
//! Dynamic dispatch is avoided: a capability is a plain key in the
//! definition's table, and a field is a byte window inside the value,
//! named by the field type's identity.

use vstd::prelude::*;
use vstd::pervasive::VecAdditionalExecFns;
use crate::descriptor::TypeDescriptor;

verus! {

/// One field of a composite type: the field type's identity, and the byte
/// window the field occupies inside a value of the composite type.
#[derive(Clone, Copy, Debug, PartialEq, Eq, Structural)]
pub struct FieldLayout {
    /// The identity of the field's type.
    pub type_key: u64,
    /// The offset in bytes of the field inside the composite value.
    pub offset: usize,
    /// The size in bytes of the field.
    pub size: usize,
}

/// The position of the latest layout entry for a field type, or the
/// sequence's length when the type has no entry.  A later registration of
/// the same field type overrides an earlier one, as re-inserting a map
/// entry would.
pub open spec fn field_index(s: Seq<FieldLayout>, type_key: u64) -> int
    decreases s.len(),
{
    if s.len() == 0 {
        0
    } else if s.last().type_key == type_key {
        s.len() - 1
    } else if field_index(s.drop_last(), type_key) == s.len() - 1 {
        s.len() as int
    } else {
        field_index(s.drop_last(), type_key)
    }
}

proof fn lemma_field_index(s: Seq<FieldLayout>, type_key: u64)
    ensures
        0 <= field_index(s, type_key) <= s.len(),
        field_index(s, type_key) < s.len() ==> s[field_index(s, type_key)].type_key == type_key,
        forall|k: int|
            field_index(s, type_key) < k < s.len() ==> (#[trigger] s[k]).type_key != type_key,
        field_index(s, type_key) == s.len() ==> forall|k: int|
            0 <= k < s.len() ==> (#[trigger] s[k]).type_key != type_key,
    decreases s.len(),
{
    if s.len() > 0 && s.last().type_key != type_key {
        lemma_field_index(s.drop_last(), type_key);
        assert forall|k: int|
            field_index(s, type_key) < k < s.len() implies (#[trigger] s[k]).type_key
            != type_key by {
            if k < s.len() - 1 {
                assert(s.drop_last()[k] == s[k]);
            }
        }
        if field_index(s, type_key) == s.len() {
            assert forall|k: int| 0 <= k < s.len() implies (#[trigger] s[k]).type_key
                != type_key by {
                if k < s.len() - 1 {
                    assert(s.drop_last()[k] == s[k]);
                }
            }
        }
    }
}

/// A builder of a [`TypeDefinition`]: the composite type's descriptor, the
/// fields recorded so far, and the capability keys recorded so far.
pub struct DefineType {
    target: TypeDescriptor,
    fields: Vec<FieldLayout>,
    capabilities: Vec<u64>,
}

/// The fields all lie inside the composite value.
pub open spec fn layouts_fit(s: Seq<FieldLayout>, target: TypeDescriptor) -> bool {
    forall|k: int|
        0 <= k < s.len() ==> (#[trigger] s[k]).offset + s[k].size <= target.size
}

impl DefineType {
    /// The descriptor of the composite type being defined.
    pub closed spec fn spec_target(self) -> TypeDescriptor {
        self.target
    }

    /// The fields recorded so far.
    pub closed spec fn fields_view(self) -> Seq<FieldLayout> {
        self.fields@
    }

    /// The capability keys recorded so far.
    pub closed spec fn capabilities_view(self) -> Seq<u64> {
        self.capabilities@
    }

    /// The recorded fields all lie inside the composite value.
    pub open spec fn wf(self) -> bool {
        layouts_fit(self.fields_view(), self.spec_target())
    }

    /// Start defining a composite type.
    pub fn new(target: TypeDescriptor) -> (d: Self)
        ensures
            d.wf(),
            d.spec_target() == target,
            d.fields_view() == Seq::<FieldLayout>::empty(),
            d.capabilities_view() == Seq::<u64>::empty(),
    {
        DefineType { target, fields: Vec::new(), capabilities: Vec::new() }
    }

    /// Record one field: its type's identity and the byte window it
    /// occupies, which must lie inside the composite value.  Recording a
    /// second field of one type overrides the earlier entry on lookup.
    pub fn field(&mut self, layout: FieldLayout)
        requires
            old(self).wf(),
            layout.offset + layout.size <= old(self).spec_target().size,
        ensures
            final(self).wf(),
            final(self).spec_target() == old(self).spec_target(),
            final(self).fields_view() == old(self).fields_view().push(layout),
            final(self).capabilities_view() == old(self).capabilities_view(),
    {
        self.fields.push(layout);
    }

    /// Record one capability the composite type offers.
    pub fn cast(&mut self, capability: u64)
        requires
            old(self).wf(),
        ensures
            final(self).wf(),
            final(self).spec_target() == old(self).spec_target(),
            final(self).fields_view() == old(self).fields_view(),
            final(self).capabilities_view() == old(self).capabilities_view().push(capability),
    {
        self.capabilities.push(capability);
    }

    /// Seal the definition.
    pub fn finish(self) -> (t: TypeDefinition)
        requires
            self.wf(),
        ensures
            t.wf(),
            t.spec_target() == self.spec_target(),
            t.fields_view() == self.fields_view(),
            t.capabilities_view() == self.capabilities_view(),
    {
        TypeDefinition {
            target: self.target,
            fields: self.fields,
            capabilities: self.capabilities,
        }
    }
}

/// A sealed run-time definition of a composite type: its descriptor, its
/// field layout, and its capability keys.
pub struct TypeDefinition {
    target: TypeDescriptor,
    fields: Vec<FieldLayout>,
    capabilities: Vec<u64>,
}

impl TypeDefinition {
    /// The descriptor of the defined composite type.
    pub closed spec fn spec_target(self) -> TypeDescriptor {
        self.target
    }

    /// The recorded fields.
    pub closed spec fn fields_view(self) -> Seq<FieldLayout> {
        self.fields@
    }

    /// The recorded capability keys.
    pub closed spec fn capabilities_view(self) -> Seq<u64> {
        self.capabilities@
    }

    /// The recorded fields all lie inside the composite value.
    pub open spec fn wf(self) -> bool {
        layouts_fit(self.fields_view(), self.spec_target())
    }

    /// Whether some field of the named type is recorded.
    pub open spec fn spec_has_field(self, type_key: u64) -> bool {
        field_index(self.fields_view(), type_key) < self.fields_view().len()
    }

    /// The latest recorded layout for the named field type: a later
    /// registration of the same type overrides an earlier one.
    pub open spec fn spec_field(self, type_key: u64) -> FieldLayout {
        self.fields_view()[field_index(self.fields_view(), type_key)]
    }

    /// Whether the definition describes the named type.
    pub fn is(&self, type_key: u64) -> (b: bool)
        ensures
            b == (self.spec_target().id == type_key),
    {
        self.target.id == type_key
    }

    /// The layout of the latest recorded field of the named type, if one
    /// is recorded.
    pub fn layout(&self, type_key: u64) -> (r: Option<FieldLayout>)
        ensures
            self.spec_has_field(type_key) ==> r == Some(self.spec_field(type_key)),
            !self.spec_has_field(type_key) ==> r is None,
    {
        let n = self.fields.len();
        let mut k: usize = n;
        while k > 0
            invariant
                k <= n,
                n == self.fields@.len(),
                forall|j: int| k <= j < n ==> (#[trigger] self.fields@[j]).type_key != type_key,
            decreases k,
        {
            k = k - 1;
            if self.fields[k].type_key == type_key {
                proof {
                    lemma_field_index(self.fields@, type_key);
                    assert(field_index(self.fields@, type_key) == k) by {
                        lemma_field_index_pins(self.fields@, type_key, k as int);
                    }
                }
                return Some(self.fields[k]);
            }
        }
        proof {
            lemma_field_index(self.fields@, type_key);
            if field_index(self.fields@, type_key) < self.fields@.len() {
                assert(self.fields@[field_index(self.fields@, type_key)].type_key == type_key);
            }
        }
        None
    }

    /// Read the bytes of the latest recorded field of the named type out
    /// of a type-erased value of the defined type.
    pub fn field(&self, data: &Vec<u8>, type_key: u64) -> (r: Option<Vec<u8>>)
        requires
            self.wf(),
            data@.len() == self.spec_target().size,
        ensures
            self.spec_has_field(type_key) ==> (r matches Some(b) && b@ == data@.subrange(
                self.spec_field(type_key).offset as int,
                self.spec_field(type_key).offset + self.spec_field(type_key).size,
            )),
            !self.spec_has_field(type_key) ==> r is None,
    {
        let layout = match self.layout(type_key) {
            None => {
                return None;
            },
            Some(layout) => layout,
        };
        proof {
            lemma_field_index(self.fields@, type_key);
        }
        let dlen = data.len();
        let mut out: Vec<u8> = Vec::new();
        let mut k: usize = 0;
        while k < layout.size
            invariant
                k <= layout.size,
                layout.offset + layout.size <= dlen,
                dlen == data@.len(),
                out@ == data@.subrange(layout.offset as int, layout.offset + k),
            decreases layout.size - k,
        {
            out.push(data[layout.offset + k]);
            proof {
                assert(out@ =~= data@.subrange(layout.offset as int, layout.offset + k + 1));
            }
            k = k + 1;
        }
        Some(out)
    }

    /// Write bytes into the latest recorded field of the named type
    /// inside a type-erased value of the defined type.  Reports whether a field of
    /// that type exists; the value is untouched otherwise.
    pub fn field_mut(&self, data: &mut Vec<u8>, type_key: u64, value: &Vec<u8>) -> (b: bool)
        requires
            self.wf(),
            old(data)@.len() == self.spec_target().size,
            self.spec_has_field(type_key) ==> value@.len() == self.spec_field(type_key).size,
        ensures
            b == self.spec_has_field(type_key),
            !b ==> final(data)@ == old(data)@,
            b ==> {
                let layout = self.spec_field(type_key);
                &&& final(data)@.len() == old(data)@.len()
                &&& final(data)@.subrange(layout.offset as int, layout.offset + layout.size)
                    == value@
                &&& (forall|m: int|
                    0 <= m < old(data)@.len() && !(layout.offset <= m < layout.offset + layout.size)
                        ==> final(data)@[m] == old(data)@[m])
            },
    {
        let layout = match self.layout(type_key) {
            None => {
                return false;
            },
            Some(layout) => layout,
        };
        proof {
            lemma_field_index(self.fields@, type_key);
        }
        let dlen = data.len();
        let mut k: usize = 0;
        while k < layout.size
            invariant
                k <= layout.size,
                layout.offset + layout.size <= dlen,
                dlen == data@.len(),
                data@.len() == old(data)@.len(),
                value@.len() == layout.size,
                forall|m: int|
                    layout.offset <= m < layout.offset + k ==> #[trigger] data@[m] == value@[m
                        - layout.offset],
                forall|m: int|
                    0 <= m < data@.len() && !(layout.offset <= m < layout.offset + k)
                        ==> #[trigger] data@[m] == old(data)@[m],
            decreases layout.size - k,
        {
            data.set(layout.offset + k, value[k]);
            k = k + 1;
        }
        proof {
            assert(data@.subrange(layout.offset as int, layout.offset + layout.size) =~= value@);
        }
        true
    }

    /// Whether the named capability was recorded for the type.
    pub fn cast(&self, capability: u64) -> (b: bool)
        ensures
            b == self.capabilities_view().contains(capability),
    {
        let n = self.capabilities.len();
        let mut k: usize = 0;
        while k < n
            invariant
                k <= n,
                n == self.capabilities@.len(),
                forall|j: int| 0 <= j < k ==> self.capabilities@[j] != capability,
            decreases n - k,
        {
            if self.capabilities[k] == capability {
                return true;
            }
            k = k + 1;
        }
        proof {
            assert forall|j: int|
                0 <= j < self.capabilities@.len() implies self.capabilities@[j] != capability by {}
        }
        false
    }
}

/// If entry `k` hits the key and every later entry misses it, then `k`
/// is the latest hit.
proof fn lemma_field_index_pins(s: Seq<FieldLayout>, type_key: u64, k: int)
    requires
        0 <= k < s.len(),
        s[k].type_key == type_key,
        forall|j: int| k < j < s.len() ==> (#[trigger] s[j]).type_key != type_key,
    ensures
        field_index(s, type_key) == k,
    decreases s.len(),
{
    if k < s.len() - 1 {
        assert(s.last().type_key != type_key);
        lemma_field_index_pins(s.drop_last(), type_key, k);
        assert forall|j: int| k < j < s.len() - 1 implies (#[trigger] s.drop_last()[j]).type_key
            != type_key by {
            assert(s.drop_last()[j] == s[j]);
        }
        assert(s.drop_last()[k] == s[k]);
    }
}

} // verus!
