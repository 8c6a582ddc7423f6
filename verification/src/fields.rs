//! A small map from names to values, both byte strings, that remembers the
//! order in which its names were first entered.
//!
//! Headers, query parameters and path variables are all held in a `Fields`.

use vstd::prelude::*;
use crate::assoc::{
    as_map, has_key, keys_distinct, lemma_put, lemma_size, lemma_slot, put, slot,
};
use crate::bytes::{equal, to_vec};

verus! {

/// A name together with the value entered under it.
pub type Entry = (Seq<u8>, Seq<u8>);

/// One name with its value.
#[derive(Debug)]
pub struct Field {
    pub name: Vec<u8>,
    pub value: Vec<u8>,
}

impl Clone for Field {
    fn clone(&self) -> (copy: Field)
        ensures
            copy.name@ == self.name@,
            copy.value@ == self.value@,
    {
        Field { name: to_vec(self.name.as_slice()), value: to_vec(self.value.as_slice()) }
    }
}

/// The names and values of `v`, in order.
pub open spec fn entries_of(v: Seq<Field>) -> Seq<Entry> {
    Seq::new(v.len(), |i: int| (v[i].name@, v[i].value@))
}

/// A map from names to values that keeps its names in the order of their
/// first entry. Names are compared byte for byte.
#[derive(Debug)]
pub struct Fields {
    entries: Vec<Field>,
}

impl Clone for Fields {
    fn clone(&self) -> (copy: Fields)
        ensures
            copy.entries() == self.entries(),
            copy@ == self@,
    {
        proof {
            use_type_invariant(self);
        }
        let mut entries: Vec<Field> = Vec::new();
        let mut i: usize = 0;
        while i < self.entries.len()
            invariant
                i <= self.entries.len(),
                entries@.len() == i,
                entries_of(entries@) == entries_of(self.entries@).take(i as int),
            decreases self.entries.len() - i,
        {
            let ghost before = entries@;
            let field = self.entries[i].clone();
            entries.push(field);
            proof {
                let target = entries_of(self.entries@).take(i + 1);
                assert forall|j: int| 0 <= j < i + 1 implies entries_of(entries@)[j]
                    == target[j] by {
                    if j < i {
                        assert(entries_of(before)[j] == entries_of(self.entries@).take(
                            i as int,
                        )[j]);
                    }
                }
                assert(entries_of(entries@) =~= target);
            }
            i += 1;
        }
        proof {
            assert(entries_of(entries@) =~= entries_of(self.entries@));
        }
        Fields { entries }
    }
}

impl View for Fields {
    type V = Map<Seq<u8>, Seq<u8>>;

    open spec fn view(&self) -> Map<Seq<u8>, Seq<u8>> {
        as_map(self.entries())
    }
}

impl Fields {
    /// The names with their values, in the order in which the names were first entered.
    pub closed spec fn entries(&self) -> Seq<Entry> {
        entries_of(self.entries@)
    }

    /// No name is held twice.
    #[verifier::type_invariant]
    pub closed spec fn well_formed(&self) -> bool {
        keys_distinct(self.entries())
    }

    /// A map without entries.
    pub fn new() -> (fields: Fields)
        ensures
            fields.entries() == Seq::<Entry>::empty(),
            fields@ == Map::<Seq<u8>, Seq<u8>>::empty(),
    {
        let fields = Fields { entries: Vec::new() };
        proof {
            assert(fields.entries() =~= Seq::<Entry>::empty());
            assert(fields@ =~= Map::<Seq<u8>, Seq<u8>>::empty());
        }
        fields
    }

    /// How many names the map holds.
    pub fn len(&self) -> (n: usize)
        ensures
            n == self.entries().len(),
            self@.dom().finite(),
            n == self@.dom().len(),
    {
        proof {
            use_type_invariant(self);
            lemma_size(self.entries());
        }
        self.entries.len()
    }

    /// Whether the map holds no name.
    pub fn is_empty(&self) -> (empty: bool)
        ensures
            empty == (self.entries().len() == 0),
            empty == (self@ == Map::<Seq<u8>, Seq<u8>>::empty()),
    {
        proof {
            if self.entries().len() == 0 {
                assert(self@ =~= Map::<Seq<u8>, Seq<u8>>::empty());
            } else {
                assert(self.entries()[0].0 == self.entries()[0].0);
                assert(has_key(self.entries(), self.entries()[0].0));
                assert(self@.contains_key(self.entries()[0].0));
            }
        }
        self.entries.len() == 0
    }

    /// The name and value at position `i` in the order of first entry.
    pub fn entry(&self, i: usize) -> (field: &Field)
        requires
            i < self.entries().len(),
        ensures
            (field.name@, field.value@) == self.entries()[i as int],
    {
        &self.entries[i]
    }

    /// Where `name` stands among the entries, if it is there.
    fn find(&self, name: &[u8]) -> (at: Option<usize>)
        ensures
            match at {
                Some(i) => i < self.entries().len() && self.entries()[i as int].0 == name@
                    && has_key(self.entries(), name@) && slot(self.entries(), name@) == i,
                None => !has_key(self.entries(), name@),
            },
    {
        proof {
            use_type_invariant(self);
        }
        let mut i: usize = 0;
        while i < self.entries.len()
            invariant
                i <= self.entries.len(),
                keys_distinct(self.entries()),
                forall|j: int| 0 <= j < i ==> (#[trigger] self.entries()[j]).0 != name@,
            decreases self.entries.len() - i,
        {
            if equal(self.entries[i].name.as_slice(), name) {
                proof {
                    assert(self.entries()[i as int].0 == name@);
                    lemma_slot(self.entries(), i as int);
                }
                return Some(i);
            }
            i += 1;
        }
        None
    }

    /// The value entered under `name`, if there is one.
    pub fn get(&self, name: &[u8]) -> (value: Option<&Vec<u8>>)
        ensures
            match value {
                Some(v) => self@.contains_key(name@) && v@ == self@[name@],
                None => !self@.contains_key(name@),
            },
    {
        match self.find(name) {
            Some(i) => Some(&self.entries[i].value),
            None => None,
        }
    }

    /// Whether a value was entered under `name`.
    pub fn contains_key(&self, name: &[u8]) -> (held: bool)
        ensures
            held == self@.contains_key(name@),
    {
        self.find(name).is_some()
    }

    /// Enters `value` under `name`. A value entered earlier under the same
    /// name is replaced, and the name keeps its place in the order.
    pub fn insert(&mut self, name: Vec<u8>, value: Vec<u8>)
        ensures
            final(self).entries() == put(old(self).entries(), name@, value@),
            final(self)@ == old(self)@.insert(name@, value@),
    {
        proof {
            use_type_invariant(&*self);
            lemma_put(self.entries(), name@, value@);
        }
        let at = self.find(name.as_slice());
        let ghost before = self.entries();
        let mut entries: Vec<Field> = Vec::new();
        std::mem::swap(&mut entries, &mut self.entries);
        match at {
            Some(i) => {
                entries.set(i, Field { name, value });
                proof {
                    assert(entries_of(entries@) =~= before.update(i as int, (name@, value@)));
                }
            },
            None => {
                entries.push(Field { name, value });
                proof {
                    assert(entries_of(entries@) =~= before.push((name@, value@)));
                }
            },
        }
        self.entries = entries;
    }
}

} // verus!
