//! The catalog of activities: maps an activity name to a stable numeric
//! identifier, creating an entry the first time a name is seen.
//!
//! Identifiers are indices into the list of names, so an identifier is
//! valid exactly when it is below the catalog's length. Names are unique;
//! nothing but a full rebuild ever removes one.

use vstd::prelude::*;
use crate::bytes::bytes_eq;
use crate::bytes::bytes_copy;

verus! {

/// The activity catalog. Its view is the sequence of names, where the
/// identifier of an activity is its position.
pub struct Catalog {
    names: Vec<Vec<u8>>,
}

/// Whether `name` occurs in `names`.
pub open spec fn has_name(names: Seq<Seq<u8>>, name: Seq<u8>) -> bool {
    exists|i: int| 0 <= i < names.len() && names[i] == name
}

/// The position of `name` in `names` (meaningful only when present).
pub open spec fn id_of(names: Seq<Seq<u8>>, name: Seq<u8>) -> int {
    choose|i: int| 0 <= i < names.len() && names[i] == name
}

/// No two positions of `names` hold the same name.
pub open spec fn unique_names(names: Seq<Seq<u8>>) -> bool {
    forall|i: int, j: int| 0 <= i < j < names.len() ==> names[i] != names[j]
}

/// In a catalog without duplicates, different activities have different
/// names.
pub proof fn lemma_names_differ(names: Seq<Seq<u8>>, a: int, b: int)
    requires
        unique_names(names),
        0 <= a < names.len(),
        0 <= b < names.len(),
        a != b,
    ensures
        names[a] != names[b],
{
}

impl Catalog {
    pub closed spec fn view(&self) -> Seq<Seq<u8>> {
        self.names@.map(|i: int, n: Vec<u8>| n@)
    }

    /// Well-formed: no two activities share a name.
    pub open spec fn wf(&self) -> bool {
        unique_names(self@)
    }

    /// An empty catalog.
    pub fn new() -> (r: Catalog)
        ensures
            r@ == Seq::<Seq<u8>>::empty(),
            r.wf(),
    {
        let r = Catalog { names: Vec::new() };
        proof {
            assert(r@ =~= Seq::<Seq<u8>>::empty());
        }
        r
    }

    /// How many activities have been registered.
    pub fn len(&self) -> (r: usize)
        ensures
            r == self@.len(),
    {
        self.names.len()
    }

    /// The identifier of `name`, if the activity is already known.
    pub fn lookup(&self, name: &Vec<u8>) -> (r: Option<usize>)
        ensures
            match r {
                Some(id) => id < self@.len() && self@[id as int] == name@,
                None => !has_name(self@, name@),
            },
    {
        let mut i: usize = 0;
        while i < self.names.len()
            invariant
                i <= self@.len(),
                forall|j: int| 0 <= j < i ==> self@[j] != name@,
            decreases self@.len() - i,
        {
            if bytes_eq(&self.names[i], name) {
                return Some(i);
            }
            i += 1;
        }
        None
    }

    /// The name of the activity with identifier `id`.
    pub fn name_of(&self, id: usize) -> (r: Vec<u8>)
        requires
            id < self@.len(),
        ensures
            r@ == self@[id as int],
    {
        bytes_copy(&self.names[id])
    }

    /// Whether the name of activity `i` comes no later than the name of
    /// activity `j` in dictionary order.
    pub fn names_le(&self, i: usize, j: usize) -> (r: bool)
        requires
            i < self@.len(),
            j < self@.len(),
        ensures
            r == crate::bytes::lex_le(self@[i as int], self@[j as int]),
    {
        crate::bytes::bytes_le(&self.names[i], &self.names[j])
    }

    /// Returns the identifier of the activity called `name`, registering
    /// the name first if it was unknown. A known name leaves the catalog
    /// unchanged; a new one is appended and gets the next identifier.
    pub fn ensure_activity(&mut self, name: &Vec<u8>) -> (id: usize)
        requires
            old(self).wf(),
            old(self)@.len() < usize::MAX,
        ensures
            final(self).wf(),
            id < final(self)@.len(),
            final(self)@[id as int] == name@,
            has_name(old(self)@, name@) ==> final(self)@ == old(self)@,
            !has_name(old(self)@, name@) ==> final(self)@ == old(self)@.push(name@)
                && id == old(self)@.len(),
    {
        match self.lookup(name) {
            Some(id) => id,
            None => {
                let id = self.names.len();
                self.names.push(bytes_copy(name));
                proof {
                    assert(self@ =~= old(self)@.push(name@));
                }
                id
            },
        }
    }
}

} // verus!
