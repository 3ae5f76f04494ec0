//! Type-erased single values: an [`Object`] carries one value's bytes
//! beside the descriptor of its type, and gives them back only to a caller
//! who names the right type.
//!
//! These are the store's loose ends: a field value that travels outside a
//! column keeps its descriptor with it, the same way a column keeps one
//! descriptor for all its slots.

use vstd::prelude::*;
use crate::descriptor::TypeDescriptor;

verus! {

/// A type-erased owned value: the descriptor of its type, and its bytes.
pub struct Object {
    desc: TypeDescriptor,
    bytes: Vec<u8>,
}

/// A non-owning handle to an [`Object`]: it remembers the type, not the
/// value.
pub struct ObjectRef {
    desc: TypeDescriptor,
}

/// An [`Object`] tagged with the type identity its holder expects it to
/// have.
pub struct TypedObject {
    /// The carried object.
    pub object: Object,
    /// The type identity the holder tagged it with.
    pub type_key: u64,
}

/// An [`ObjectRef`] tagged with the type identity its holder expects.
pub struct TypedObjectRef {
    /// The carried handle.
    pub object: ObjectRef,
    /// The type identity the holder tagged it with.
    pub type_key: u64,
}

/// A value that can be viewed as a `T`.
pub trait Is<T> {
    /// The `T` this value presents itself as.
    spec fn spec_as(&self) -> T;

    /// View the value as a `T`.
    fn as_view(&self) -> (t: &T)
        ensures
            *t == self.spec_as(),
    ;
}

impl Object {
    /// The descriptor of the erased value's type.
    pub closed spec fn spec_desc(self) -> TypeDescriptor {
        self.desc
    }

    /// The erased value's bytes.
    pub closed spec fn bytes_view(self) -> Seq<u8> {
        self.bytes@
    }

    /// The bytes fill the type exactly.
    pub open spec fn wf(self) -> bool {
        self.bytes_view().len() == self.spec_desc().size
    }

    /// Erase a value: keep its bytes next to its type's descriptor.
    pub fn new(desc: TypeDescriptor, bytes: Vec<u8>) -> (o: Self)
        requires
            bytes@.len() == desc.size,
        ensures
            o.wf(),
            o.spec_desc() == desc,
            o.bytes_view() == bytes@,
    {
        Object { desc, bytes }
    }

    /// A non-owning handle that remembers the value's type.
    pub fn as_ref(&self) -> (r: ObjectRef)
        ensures
            r.spec_desc() == self.spec_desc(),
    {
        ObjectRef { desc: self.desc }
    }

    /// Tag the object with the type identity the holder expects.  The tag
    /// is a claim, not a check: reading the value back still compares the
    /// descriptor.
    pub fn typed(self, type_key: u64) -> (t: TypedObject)
        ensures
            t.object == self,
            t.type_key == type_key,
    {
        TypedObject { object: self, type_key }
    }

    /// The value's bytes, if the value is of the named type; nothing
    /// otherwise.
    pub fn typed_ref(&self, type_key: u64) -> (r: Option<&Vec<u8>>)
        ensures
            self.spec_desc().id == type_key ==> (r matches Some(b) && b@ == self.bytes_view()),
            self.spec_desc().id != type_key ==> r is None,
    {
        if self.desc.id == type_key {
            Some(&self.bytes)
        } else {
            None
        }
    }

    /// The descriptor of the erased value's type.
    pub fn descriptor(&self) -> (d: TypeDescriptor)
        ensures
            d == self.spec_desc(),
    {
        self.desc
    }
}

impl ObjectRef {
    /// The descriptor the handle remembers.
    pub closed spec fn spec_desc(self) -> TypeDescriptor {
        self.desc
    }

    /// The descriptor the handle remembers.
    pub fn descriptor(&self) -> (d: TypeDescriptor)
        ensures
            d == self.spec_desc(),
    {
        self.desc
    }

    /// Tag the handle with the type identity the holder expects.
    pub fn typed(self, type_key: u64) -> (t: TypedObjectRef)
        ensures
            t.object == self,
            t.type_key == type_key,
    {
        TypedObjectRef { object: self, type_key }
    }
}

impl Is<TypeDescriptor> for Object {
    closed spec fn spec_as(&self) -> TypeDescriptor {
        self.desc
    }

    fn as_view(&self) -> (t: &TypeDescriptor) {
        &self.desc
    }
}

impl Is<TypeDescriptor> for ObjectRef {
    closed spec fn spec_as(&self) -> TypeDescriptor {
        self.desc
    }

    fn as_view(&self) -> (t: &TypeDescriptor) {
        &self.desc
    }
}

/// A stored behavior: a function value kept to be run later on a piece of
/// data, returning the reworked data.
pub struct Callback<F> {
    /// The stored function.
    pub call: F,
}

impl<F> Callback<F> {
    /// Store a function to run later.
    pub fn from_fn(call: F) -> (c: Self)
        ensures
            c.call == call,
    {
        Callback { call }
    }

    /// Run the stored function on a piece of data.
    pub fn invoke<D>(&self, data: D) -> (out: D) where F: Fn(D) -> D
        requires
            self.call.requires((data,)),
        ensures
            self.call.ensures((data,), out),
    {
        (self.call)(data)
    }
}

} // verus!
