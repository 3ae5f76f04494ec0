//! A map from a field type's identity key to its column position, backed by
//! hashbrown's hash map, and the single-shot hasher built for type
//! identities.
//!
//! The map is the store's index: resolving the column of a type is one hash
//! lookup.  Verus does not read hashbrown, so the map sits behind trusted
//! wrappers whose contracts state ordinary map semantics over
//! [`type_map_entries`].

use vstd::prelude::*;

verus! {

/// A map from type identity key to column position.  The backing store is
/// `hashbrown::HashMap`, hidden from verification; [`type_map_entries`]
/// names its contents.
#[verifier::external_body]
pub struct TypeMap {
    map: hashbrown::HashMap<u64, usize>,
}

/// What a [`TypeMap`] holds: its entries as a mathematical map from type
/// identity key to column position.
pub uninterp spec fn type_map_entries(m: TypeMap) -> Map<u64, usize>;

impl TypeMap {
    /// An empty map.
    ///
    /// Relies on `hashbrown::HashMap::new`, which creates a map with no
    /// entries.
    #[verifier::external_body]
    pub fn new() -> (m: Self)
        ensures
            type_map_entries(m).dom() == Set::<u64>::empty(),
    {
        TypeMap { map: hashbrown::HashMap::new() }
    }

    /// Whether a key has an entry.
    ///
    /// Relies on `hashbrown::HashMap::contains_key`, which reports whether
    /// the key is present.
    #[verifier::external_body]
    pub fn has(&self, key: u64) -> (r: bool)
        ensures
            r == type_map_entries(*self).dom().contains(key),
    {
        self.map.contains_key(&key)
    }

    /// The value stored under a key, if any.
    ///
    /// Relies on `hashbrown::HashMap::get`, which returns the value the key
    /// maps to, or nothing when the key is absent.
    #[verifier::external_body]
    pub fn get(&self, key: u64) -> (r: Option<usize>)
        ensures
            match r {
                Some(v) => type_map_entries(*self).dom().contains(key) && type_map_entries(
                    *self,
                )[key] == v,
                None => !type_map_entries(*self).dom().contains(key),
            },
    {
        self.map.get(&key).copied()
    }

    /// Store a value under a key, replacing any previous entry.
    ///
    /// Relies on `hashbrown::HashMap::insert`, which maps the key to the
    /// value and displaces the key's previous value.
    #[verifier::external_body]
    pub fn insert(&mut self, key: u64, value: usize)
        ensures
            type_map_entries(*final(self)) == type_map_entries(*old(self)).insert(key, value),
    {
        let _ = self.map.insert(key, value);
    }
}

/// The hasher for type identity keys: a type identity is already a
/// well-distributed value, so hashing it is writing it down once.  The
/// state starts at zero, takes exactly one write, and finishes with the
/// written value.
#[derive(Clone, Copy, Debug)]
pub struct TypeIdHasher {
    hash: u64,
}

impl TypeIdHasher {
    /// A hasher that has absorbed nothing.
    pub fn new() -> (h: Self)
        ensures
            h.spec_hash() == 0,
    {
        TypeIdHasher { hash: 0 }
    }

    /// The absorbed value.
    pub closed spec fn spec_hash(self) -> u64 {
        self.hash
    }

    /// Absorb a 64-bit identity.  Only a single value may ever be hashed,
    /// so the state must still be empty.
    pub fn write_u64(&mut self, n: u64)
        requires
            old(self).spec_hash() == 0,
        ensures
            final(self).spec_hash() == n,
    {
        self.hash = n;
    }

    /// Absorb a 128-bit identity, keeping its low 64 bits.  Only a single
    /// value may ever be hashed, so the state must still be empty.
    pub fn write_u128(&mut self, n: u128)
        requires
            old(self).spec_hash() == 0,
        ensures
            final(self).spec_hash() == n as u64,
    {
        self.hash = n as u64;
    }

    /// The finished hash: exactly the value written.
    pub fn finish(&self) -> (h: u64)
        ensures
            h == self.spec_hash(),
    {
        self.hash
    }
}

} // verus!
