//! The name table: a map from way identifier to display name, kept beside the
//! segment list so that a name shared by many segments is stored once.

use std::collections::HashMap;
use vstd::prelude::*;

verus! {

broadcast use vstd::std_specs::hash::group_hash_axioms;

/// Way-identifier-to-name mapping. Besides the map itself it keeps the list
/// of distinct identifiers ever inserted, so that the table can be walked in
/// a definite order when it is serialized.
pub struct NameTable {
    ids: Vec<u64>,
    map: HashMap<u64, String>,
}

impl View for NameTable {
    type V = Map<u64, Seq<char>>;

    closed spec fn view(&self) -> Map<u64, Seq<char>> {
        self.map@.map_values(|s: String| s@)
    }
}

impl NameTable {
    /// The identifier list holds each key of the map exactly once.
    pub closed spec fn wf(&self) -> bool {
        &&& self.ids@.no_duplicates()
        &&& self.ids@.to_set() == self.map@.dom()
    }

    /// The identifiers in insertion order; same domain as the view.
    pub closed spec fn id_list(&self) -> Seq<u64> {
        self.ids@
    }

    /// An empty table.
    pub fn new() -> (t: NameTable)
        ensures
            t.wf(),
            t@ == Map::<u64, Seq<char>>::empty(),
            t.id_list() == Seq::<u64>::empty(),
    {
        let t = NameTable { ids: Vec::new(), map: HashMap::new() };
        proof {
            assert(t.ids@.to_set() =~= t.map@.dom());
            assert(t@ =~= Map::<u64, Seq<char>>::empty());
        }
        t
    }

    /// Insert or overwrite the name of a way.
    pub fn set(&mut self, id: u64, name: String)
        requires
            old(self).wf(),
        ensures
            final(self).wf(),
            final(self)@ == old(self)@.insert(id, name@),
            final(self).id_list() == if old(self)@.contains_key(id) {
                old(self).id_list()
            } else {
                old(self).id_list().push(id)
            },
    {
        if !self.map.contains_key(&id) {
            self.ids.push(id);
            proof {
                assert(self.ids@.drop_last() == old(self).ids@);
                assert forall|y: u64| self.ids@.contains(y) <==> (old(self).ids@.contains(y) || y
                    == id) by {
                    if old(self).ids@.contains(y) {
                        let k = choose|k: int| 0 <= k < old(self).ids@.len() && old(self).ids@[k]
                            == y;
                        assert(self.ids@[k] == y);
                    }
                    if y == id {
                        assert(self.ids@[self.ids@.len() - 1] == y);
                    }
                    if self.ids@.contains(y) {
                        let k = choose|k: int| 0 <= k < self.ids@.len() && self.ids@[k] == y;
                        if k < self.ids@.len() - 1 {
                            assert(old(self).ids@[k] == y);
                        }
                    }
                }
                assert(self.ids@.to_set() =~= old(self).ids@.to_set().insert(id));
                assert(!old(self).ids@.to_set().contains(id));
                assert forall|i: int, j: int|
                    0 <= i < self.ids@.len() && 0 <= j < self.ids@.len() && i != j implies
                    self.ids@[i] != self.ids@[j] by {
                    if i < self.ids@.len() - 1 && j < self.ids@.len() - 1 {
                        assert(old(self).ids@[i] == self.ids@[i]);
                        assert(old(self).ids@[j] == self.ids@[j]);
                    } else if i == self.ids@.len() - 1 {
                        assert(old(self).ids@.contains(old(self).ids@[j]));
                    } else {
                        assert(old(self).ids@.contains(old(self).ids@[i]));
                    }
                }
            }
        }
        self.map.insert(id, name);
        proof {
            assert(self.ids@.to_set() =~= self.map@.dom());
            assert(final(self)@ =~= old(self)@.insert(id, name@));
        }
    }

    /// Resolve a way identifier to its name, if one was inserted.
    pub fn get(&self, id: u64) -> (r: Option<&String>)
        ensures
            r is Some <==> self@.contains_key(id),
            r matches Some(s) ==> s@ == self@[id],
    {
        self.map.get(&id)
    }

    /// The number of named ways in the table.
    pub fn len(&self) -> (n: usize)
        requires
            self.wf(),
        ensures
            n == self.id_list().len(),
    {
        self.ids.len()
    }

    /// The way identifier at a position of the insertion order.
    pub fn id_at(&self, i: usize) -> (id: u64)
        requires
            i < self.id_list().len(),
        ensures
            id == self.id_list()[i as int],
    {
        self.ids[i]
    }

    /// The identifier list enumerates the table's domain exactly.
    pub proof fn lemma_ids_in_dom(&self)
        requires
            self.wf(),
        ensures
            forall|i: int|
                0 <= i < self.id_list().len() ==> #[trigger] self@.contains_key(self.id_list()[i]),
            forall|id: u64| #[trigger] self@.contains_key(id) <==> self.id_list().contains(id),
            self.id_list().no_duplicates(),
    {
        assert(self@.dom() =~= self.map@.dom());
        assert forall|i: int|
            0 <= i < self.id_list().len() implies #[trigger] self@.contains_key(
            self.id_list()[i],
        ) by {
            assert(self.ids@.to_set().contains(self.ids@[i]));
        }
        assert forall|id: u64| #[trigger] self@.contains_key(id) <==> self.id_list().contains(
            id,
        ) by {
            if self@.contains_key(id) {
                assert(self.ids@.to_set().contains(id));
            }
            if self.id_list().contains(id) {
                assert(self.ids@.to_set().contains(id));
            }
        }
    }
}

} // verus!
