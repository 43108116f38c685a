//! Name-keyed storage for macro definitions, backed by hashbrown's hash map.
//!
//! The map type itself is opaque to the verifier (its allocator type
//! parameter cannot be declared), so it lives in a private field of
//! `MacroTable`; `macros_of` names the table's contents and every trusted
//! method below states, over that name, how one hashbrown call changes them.

use crate::pmacros::Macro;
use vstd::prelude::*;

verus! {

/// A table of macro definitions keyed by the macro's name bytes.
#[verifier::external_body]
pub struct MacroTable {
    map: hashbrown::HashMap<Vec<u8>, Macro>,
}

/// The contents of a `MacroTable`: a map from name bytes to definitions.
pub uninterp spec fn macros_of(t: MacroTable) -> Map<Seq<u8>, Macro>;

/// The contents of a table with nothing in it.
pub open spec fn no_defs() -> Map<Seq<u8>, Macro> {
    Map::empty()
}

impl MacroTable {
    /// Relies on hashbrown::HashMap::new: a newly created map is empty.
    #[verifier::external_body]
    pub fn new() -> (r: MacroTable)
        ensures
            macros_of(r) == no_defs(),
    {
        MacroTable { map: hashbrown::HashMap::new() }
    }

    /// Relies on hashbrown::HashMap::insert: afterwards the map holds `v`
    /// under `k` and is otherwise unchanged.
    #[verifier::external_body]
    pub fn insert(&mut self, k: Vec<u8>, v: Macro)
        ensures
            macros_of(*final(self)) == macros_of(*old(self)).insert(k@, v),
    {
        self.map.insert(k, v);
    }

    /// Relies on hashbrown::HashMap::remove: returns the value stored under
    /// `k`, which the map afterwards no longer holds.
    #[verifier::external_body]
    pub fn remove(&mut self, k: &Vec<u8>) -> (r: Option<Macro>)
        ensures
            macros_of(*final(self)) == macros_of(*old(self)).remove(k@),
            r == if macros_of(*old(self)).dom().contains(k@) {
                Some(macros_of(*old(self))[k@])
            } else {
                Option::<Macro>::None
            },
    {
        self.map.remove(k)
    }

    /// Relies on hashbrown::HashMap::get: returns a reference to the value
    /// stored under `k`, if any.
    #[verifier::external_body]
    pub fn get(&self, k: &Vec<u8>) -> (r: Option<&Macro>)
        ensures
            match r {
                Some(m) => macros_of(*self).dom().contains(k@) && *m == macros_of(*self)[k@],
                None => !macros_of(*self).dom().contains(k@),
            },
    {
        self.map.get(k)
    }

    /// Relies on hashbrown::HashMap::contains_key.
    #[verifier::external_body]
    pub fn contains_key(&self, k: &Vec<u8>) -> (r: bool)
        ensures
            r == macros_of(*self).dom().contains(k@),
    {
        self.map.contains_key(k)
    }

}

} // verus!
