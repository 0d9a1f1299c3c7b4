//! The schema store: an in-memory map from identifier to schema value.

use vstd::prelude::*;

use crate::id::{IdView, SchemaId};
use crate::schema::AnyType;

verus! {

/// Identifier-keyed map of schemas, represented as a vector with unique
/// identifiers.  Later insertions of an existing identifier replace the
/// stored schema.
#[derive(Debug)]
pub struct SchemaStore {
    items: Vec<AnyType>,
}

/// The map a sequence of schemas stands for; on duplicate identifiers the
/// later entry wins.
pub open spec fn store_map(s: Seq<AnyType>) -> Map<IdView, AnyType>
    decreases s.len(),
{
    if s.len() == 0 {
        Map::empty()
    } else {
        store_map(s.drop_last()).insert(s.last().spec_id(), s.last())
    }
}

/// In a store with unique identifiers, the map agrees with the vector
/// entry by entry.
pub proof fn lemma_store_map_index(s: Seq<AnyType>)
    requires
        forall|i: int, j: int|
            0 <= i < j < s.len() ==> (#[trigger] s[i]).spec_id() != (#[trigger] s[j]).spec_id(),
    ensures
        forall|id: IdView|
            #[trigger] store_map(s).dom().contains(id) <==> exists|i: int|
                0 <= i < s.len() && (#[trigger] s[i]).spec_id() == id,
        forall|i: int|
            0 <= i < s.len() ==> store_map(s)[(#[trigger] s[i]).spec_id()] == s[i],
    decreases s.len(),
{
    if s.len() > 0 {
        let d = s.drop_last();
        assert forall|i: int, j: int|
            0 <= i < j < d.len() implies (#[trigger] d[i]).spec_id() != (
        #[trigger] d[j]).spec_id() by {
            assert(d[i] == s[i] && d[j] == s[j]);
        }
        lemma_store_map_index(d);
        assert forall|id: IdView| #[trigger] store_map(s).dom().contains(id) implies exists|i: int|
            0 <= i < s.len() && (#[trigger] s[i]).spec_id() == id by {
            if id == s.last().spec_id() {
                assert(s[s.len() - 1].spec_id() == id);
            } else {
                assert(store_map(d).dom().contains(id));
                let i = choose|i: int| 0 <= i < d.len() && (#[trigger] d[i]).spec_id() == id;
                assert(d[i] == s[i]);
                assert(s[i].spec_id() == id);
            }
        }
        assert forall|id: IdView|
            (exists|i: int| 0 <= i < s.len() && (#[trigger] s[i]).spec_id() == id) implies #[trigger] store_map(
            s,
        ).dom().contains(id) by {
            let i = choose|i: int| 0 <= i < s.len() && (#[trigger] s[i]).spec_id() == id;
            if i < s.len() - 1 {
                assert(d[i] == s[i]);
                assert(d[i].spec_id() == id);
                assert(store_map(d).dom().contains(id));
            }
        }
        assert forall|i: int| 0 <= i < s.len() implies store_map(s)[(#[trigger] s[i]).spec_id()]
            == s[i] by {
            if i < s.len() - 1 {
                assert(d[i] == s[i]);
                assert(store_map(d)[d[i].spec_id()] == d[i]);
                assert(s[i].spec_id() != s[s.len() - 1].spec_id());
            }
        }
    }
}

impl View for SchemaStore {
    type V = Map<IdView, AnyType>;

    closed spec fn view(&self) -> Map<IdView, AnyType> {
        store_map(self.items@)
    }
}

impl SchemaStore {
    /// Identifiers are unique in the backing vector.
    pub closed spec fn wf(&self) -> bool {
        forall|i: int, j: int|
            0 <= i < j < self.items@.len() ==> (#[trigger] self.items@[i]).spec_id() != (
            #[trigger] self.items@[j]).spec_id()
    }

    /// The schemas in the store, in insertion order.
    pub closed spec fn spec_items(&self) -> Seq<AnyType> {
        self.items@
    }

    pub fn new() -> (r: Self)
        ensures
            r.wf(),
            r@ == Map::<IdView, AnyType>::empty(),
            r.spec_items().len() == 0,
    {
        SchemaStore { items: Vec::new() }
    }

    pub fn len(&self) -> (r: usize)
        ensures
            r == self.spec_items().len(),
    {
        self.items.len()
    }

    /// The position of the schema with the given identifier.
    fn index_of(&self, id: &SchemaId) -> (r: Option<usize>)
        ensures
            match r {
                Some(i) => i < self.spec_items().len() && self.spec_items()[i as int].spec_id()
                    == id@,
                None => forall|i: int|
                    0 <= i < self.spec_items().len() ==> (#[trigger] self.spec_items()[i]).spec_id()
                        != id@,
            },
    {
        let mut i: usize = 0;
        while i < self.items.len()
            invariant
                i <= self.items@.len(),
                forall|k: int| 0 <= k < i ==> (#[trigger] self.items@[k]).spec_id() != id@,
            decreases self.items@.len() - i,
        {
            if self.items[i].id() == id {
                return Some(i);
            }
            i = i + 1;
        }
        None
    }

    /// Look a schema up by identifier.
    pub fn get(&self, id: &SchemaId) -> (r: Option<&AnyType>)
        requires
            self.wf(),
        ensures
            match r {
                Some(t) => self@.dom().contains(id@) && *t == self@[id@] && t.spec_id() == id@,
                None => !self@.dom().contains(id@),
            },
    {
        proof {
            lemma_store_map_index(self.items@);
        }
        match self.index_of(id) {
            Some(i) => Some(&self.items[i]),
            None => {
                proof {
                    if self@.dom().contains(id@) {
                        assert(store_map(self.items@).dom().contains(id@));
                        let i = choose|i: int|
                            0 <= i < self.items@.len() && (#[trigger] self.items@[i]).spec_id()
                                == id@;
                        assert(self.spec_items()[i].spec_id() == id@);
                        assert(false);
                    }
                }
                None
            },
        }
    }

    pub fn contains(&self, id: &SchemaId) -> (r: bool)
        requires
            self.wf(),
        ensures
            r == self@.dom().contains(id@),
    {
        self.get(id).is_some()
    }

    /// Insert a schema; an existing schema with the same identifier is
    /// replaced.
    pub fn insert(&mut self, value: AnyType)
        requires
            old(self).wf(),
        ensures
            final (self).wf(),
            final (self)@ == old(self)@.insert(value.spec_id(), value),
    {
        proof {
            lemma_store_map_index(self.items@);
        }
        let ghost pre = self.items@;
        match self.index_of(value.id()) {
            Some(i) => {
                self.items.set(i, value);
                proof {
                    assert forall|a: int, b: int|
                        0 <= a < b < self.items@.len() implies (#[trigger] self.items@[a]).spec_id()
                        != (#[trigger] self.items@[b]).spec_id() by {
                        assert(pre[a].spec_id() == self.items@[a].spec_id());
                        assert(pre[b].spec_id() == self.items@[b].spec_id());
                    }
                    lemma_store_map_index(self.items@);
                    lemma_store_map_index(pre);
                    assert forall|id: IdView| #[trigger] self@.dom().contains(id) implies old(
                        self,
                    )@.insert(value.spec_id(), value).dom().contains(id) by {
                        let w = choose|w: int|
                            0 <= w < self.items@.len() && (#[trigger] self.items@[w]).spec_id()
                                == id;
                        if w != i {
                            assert(pre[w].spec_id() == id);
                        }
                    }
                    assert forall|id: IdView|
                        old(self)@.insert(value.spec_id(), value).dom().contains(id)
                            implies #[trigger] self@.dom().contains(id) by {
                        if id == value.spec_id() {
                            assert(self.items@[i as int].spec_id() == id);
                        } else {
                            let w = choose|w: int|
                                0 <= w < pre.len() && (#[trigger] pre[w]).spec_id() == id;
                            assert(w != i);
                            assert(self.items@[w].spec_id() == id);
                        }
                    }
                    assert forall|id: IdView| #[trigger] self@.dom().contains(id) implies self@[id]
                        == old(self)@.insert(value.spec_id(), value)[id] by {
                        let w = choose|w: int|
                            0 <= w < self.items@.len() && (#[trigger] self.items@[w]).spec_id()
                                == id;
                        assert(self@[id] == self.items@[w]);
                        if w != i {
                            assert(pre[w].spec_id() == id);
                            assert(old(self)@[id] == pre[w]);
                        }
                    }
                    assert(self@ =~= old(self)@.insert(value.spec_id(), value));
                }
            },
            None => {
                self.items.push(value);
                proof {
                    assert(self.items@.drop_last() =~= pre);
                    assert forall|a: int, b: int|
                        0 <= a < b < self.items@.len() implies (#[trigger] self.items@[a]).spec_id()
                        != (#[trigger] self.items@[b]).spec_id() by {
                        if b < self.items@.len() - 1 {
                            assert(self.items@[a] == pre[a] && self.items@[b] == pre[b]);
                        } else {
                            assert(self.items@[a] == pre[a]);
                            assert(self.items@[b] == value);
                            assert(old(self).spec_items()[a].spec_id() != value.spec_id());
                        }
                    }
                }
            },
        }
    }

    /// Give the schemas back, in insertion order.
    pub fn into_items(self) -> (r: Vec<AnyType>)
        ensures
            r@ == self.spec_items(),
    {
        self.items
    }

    /// The backing vector, for iteration.
    pub fn items(&self) -> (r: &Vec<AnyType>)
        ensures
            r@ == self.spec_items(),
    {
        &self.items
    }

    /// The store's map and its backing vector agree entry by entry.
    pub proof fn lemma_view_items(&self)
        requires
            self.wf(),
        ensures
            forall|id: IdView|
                #[trigger] self@.dom().contains(id) <==> exists|i: int|
                    0 <= i < self.spec_items().len() && (#[trigger] self.spec_items()[i]).spec_id()
                        == id,
            forall|i: int|
                0 <= i < self.spec_items().len() ==> self@[(
                #[trigger] self.spec_items()[i]).spec_id()] == self.spec_items()[i],
            forall|i: int, j: int|
                0 <= i < j < self.spec_items().len() ==> (#[trigger] self.spec_items()[i]).spec_id()
                    != (#[trigger] self.spec_items()[j]).spec_id(),
    {
        lemma_store_map_index(self.items@);
        assert(self@ == store_map(self.items@));
        assert forall|id: IdView|
            #[trigger] self@.dom().contains(id) <==> exists|i: int|
                0 <= i < self.spec_items().len() && (#[trigger] self.spec_items()[i]).spec_id()
                    == id by {
            if self@.dom().contains(id) {
                assert(store_map(self.items@).dom().contains(id));
                let i = choose|i: int|
                    0 <= i < self.items@.len() && (#[trigger] self.items@[i]).spec_id() == id;
                assert(self.spec_items()[i].spec_id() == id);
            }
            if exists|i: int|
                0 <= i < self.spec_items().len() && (#[trigger] self.spec_items()[i]).spec_id()
                    == id {
                let i = choose|i: int|
                    0 <= i < self.spec_items().len() && (
                    #[trigger] self.spec_items()[i]).spec_id() == id;
                assert(self.items@[i].spec_id() == id);
                assert(store_map(self.items@).dom().contains(id));
            }
        }
    }

    /// Build a store from a sequence of schemas; later duplicates replace
    /// earlier ones.
    pub fn from_vec(values: Vec<AnyType>) -> (r: SchemaStore)
        ensures
            r.wf(),
            r@ == store_map(values@),
    {
        let ghost orig = values@;
        let mut store = SchemaStore::new();
        let mut rest = values;
        while rest.len() > 0
            invariant
                store.wf(),
                rest@.len() <= orig.len(),
                rest@ == orig.skip(orig.len() - rest@.len()),
                store@ == store_map(orig.take(orig.len() - rest@.len())),
            decreases rest@.len(),
        {
            let ghost k = orig.len() - rest@.len();
            let v = rest.remove(0);
            proof {
                assert(v == orig[k]);
                assert(rest@ =~= orig.skip(k + 1));
            }
            store.insert(v);
            proof {
                assert(orig.take(k + 1).drop_last() =~= orig.take(k));
                assert(orig.take(k + 1).last() == orig[k]);
            }
        }
        proof {
            assert(orig.take(orig.len() as int) =~= orig);
        }
        store
    }
}

} // verus!
