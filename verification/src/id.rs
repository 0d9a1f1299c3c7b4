//! Versioned schema identifiers.
//!
//! A [`SchemaId`] is the universal key of the analysis pipeline: a base
//! identifier (the un-versioned URL of a schema) together with an integer
//! version.  Identifiers are plain comparable values; every component of
//! the pipeline copies them freely instead of borrowing into a store.

use vstd::multiset::Multiset;
use vstd::prelude::*;

use crate::strings::{
    lemma_lex_antisym, lemma_lex_refl, lemma_lex_total, lemma_lex_trans, lex_leq, str_lex_leq,
};

verus! {

/// Mathematical value of a [`SchemaId`]: the base identifier as a sequence
/// of characters, and the version number.
#[verifier::ext_equal]
pub ghost struct IdView {
    pub base: Seq<char>,
    pub version: int,
}

/// A versioned identifier: base identifier (a URL without the version
/// suffix) plus an integer version.
#[derive(Debug)]
pub struct SchemaId {
    base: String,
    version: u32,
}

impl View for SchemaId {
    type V = IdView;

    closed spec fn view(&self) -> IdView {
        IdView { base: self.base@, version: self.version as int }
    }
}

impl SchemaId {
    pub fn new(base: String, version: u32) -> (r: Self)
        ensures
            r@.base == base@,
            r@.version == version as int,
    {
        SchemaId { base, version }
    }

    pub fn base(&self) -> (r: &str)
        ensures
            r@ == self@.base,
    {
        self.base.as_str()
    }

    pub fn version(&self) -> (r: u32)
        ensures
            r as int == self@.version,
    {
        self.version
    }

    /// Two identifiers share a base exactly when their base strings agree.
    pub fn same_base(&self, other: &Self) -> (r: bool)
        ensures
            r == (self@.base == other@.base),
    {
        self.base == other.base
    }
}

impl Clone for SchemaId {
    fn clone(&self) -> (r: Self)
        ensures
            r@ == self@,
    {
        SchemaId { base: self.base.clone(), version: self.version }
    }
}

impl PartialEq for SchemaId {
    fn eq(&self, other: &Self) -> (r: bool) {
        self.base == other.base && self.version == other.version
    }
}

impl Eq for SchemaId {}

impl vstd::std_specs::cmp::PartialEqSpecImpl for SchemaId {
    open spec fn obeys_eq_spec() -> bool {
        true
    }

    open spec fn eq_spec(&self, other: &Self) -> bool {
        self@ == other@
    }
}

/// Total order over identifier values: by base identifier, then version.
pub open spec fn id_leq(x: IdView, y: IdView) -> bool {
    lex_leq(x.base, y.base) && (x.base == y.base ==> x.version <= y.version)
}

/// The identifier order as a function value, for sorting.
pub open spec fn id_order() -> spec_fn(IdView, IdView) -> bool {
    |a: IdView, b: IdView| id_leq(a, b)
}

/// `id_leq` is a total order, so a sorted sequence of identifiers is the
/// unique sorted arrangement of its elements.
pub proof fn lemma_id_leq_total_ordering()
    ensures
        vstd::relations::total_ordering(|x: IdView, y: IdView| id_leq(x, y)),
{
    let r = |x: IdView, y: IdView| id_leq(x, y);
    assert forall|x: IdView| #[trigger] r(x, x) by {
        lemma_lex_refl(x.base);
    }
    assert forall|x: IdView, y: IdView| #[trigger] r(x, y) && #[trigger] r(y, x) implies x == y by {
        lemma_lex_antisym(x.base, y.base);
        assert(x =~= y);
    }
    assert forall|x: IdView, y: IdView, z: IdView| #[trigger] r(x, y) && #[trigger] r(y, z)
        implies r(x, z) by {
        lemma_lex_trans(x.base, y.base, z.base);
        if x.base == z.base {
            lemma_lex_antisym(x.base, y.base);
        }
    }
    assert forall|x: IdView, y: IdView| #[trigger] r(x, y) || #[trigger] r(y, x) by {
        lemma_lex_total(x.base, y.base);
    }
}

impl SchemaId {
    /// Order two identifiers: by base, then version.
    pub fn le(&self, other: &Self) -> (r: bool)
        ensures
            r == id_leq(self@, other@),
    {
        if self.base == other.base {
            proof {
                lemma_lex_refl(self@.base);
            }
            self.version <= other.version
        } else {
            str_lex_leq(self.base.as_str(), other.base.as_str())
        }
    }
}

/// The identifier values of a vector of identifiers.
pub open spec fn ids_view(s: Seq<SchemaId>) -> Seq<IdView> {
    s.map_values(|x: SchemaId| x@)
}

/// Sort identifiers by `id_leq` (insertion sort).  The result is the
/// unique `id_leq`-sorted arrangement of the input's elements.
pub fn sort_ids(ids: Vec<SchemaId>) -> (r: Vec<SchemaId>)
    ensures
        ids_view(r@).to_multiset() == ids_view(ids@).to_multiset(),
        vstd::relations::sorted_by(ids_view(r@), |x: IdView, y: IdView| id_leq(x, y)),
{
    broadcast use vstd::seq_lib::group_to_multiset_ensures;

    let ghost orig = ids_view(ids@).to_multiset();
    let mut out: Vec<SchemaId> = Vec::new();
    let mut rest = ids;
    while rest.len() > 0
        invariant
            ids_view(out@).to_multiset().add(ids_view(rest@).to_multiset()) == orig,
            vstd::relations::sorted_by(ids_view(out@), |x: IdView, y: IdView| id_leq(x, y)),
        decreases rest.len(),
    {
        let ghost rest_before = rest@;
        let x = rest.pop().unwrap();
        proof {
            assert(rest@ =~= rest_before.drop_last());
            assert(ids_view(rest_before) =~= ids_view(rest@).push(x@));
            vstd::seq_lib::to_multiset_build(ids_view(rest@), x@);
        }
        insert_sorted(&mut out, x);
    }
    assert(ids_view(rest@).to_multiset() =~= Multiset::empty());
    assert(ids_view(out@).to_multiset() =~= orig);
    out
}

fn insert_sorted(out: &mut Vec<SchemaId>, x: SchemaId)
    requires
        vstd::relations::sorted_by(ids_view(old(out)@), |a: IdView, b: IdView| id_leq(a, b)),
    ensures
        ids_view(final(out)@).to_multiset() == ids_view(old(out)@).to_multiset().insert(x@),
        vstd::relations::sorted_by(ids_view(final(out)@), |a: IdView, b: IdView| id_leq(a, b)),
{
    broadcast use vstd::seq_lib::group_to_multiset_ensures;

    let mut i: usize = out.len();
    proof {
        lemma_id_leq_total_ordering();
    }
    while i > 0 && !out[i - 1].le(&x)
        invariant
            i <= out@.len(),
            out@ == old(out)@,
            forall|k: int| i <= k < out@.len() ==> id_leq(x@, #[trigger] ids_view(out@)[k]),
            vstd::relations::sorted_by(ids_view(out@), |a: IdView, b: IdView| id_leq(a, b)),
            vstd::relations::total_ordering(|a: IdView, b: IdView| id_leq(a, b)),
        decreases i,
    {
        proof {
            let r = |a: IdView, b: IdView| id_leq(a, b);
            let m = ids_view(out@);
            assert(r(m[i - 1], x@) || r(x@, m[i - 1]));
        }
        i = i - 1;
    }
    out.insert(i, x);
    proof {
        let m = ids_view(out@);
        let before = ids_view(old(out)@);
        assert(m =~= before.insert(i as int, x@));
        lemma_map_insert_multiset(before, i as int, x@);
        let r = |a: IdView, b: IdView| id_leq(a, b);
        assert forall|p: int, q: int| 0 <= p < q < m.len() implies r(m[p], m[q]) by {
            if q < i {
                assert(r(before[p], before[q]));
            } else if p < i && q == i {
                if p < i - 1 {
                    assert(r(before[p], before[i - 1]));
                }
                assert(r(before[i - 1], x@));
            } else if p == i && q > i {
                assert(id_leq(x@, before[q - 1]));
            } else if p < i && q > i {
                assert(r(before[p], before[q - 1]));
            } else {
                assert(r(before[p - 1], before[q - 1]));
            }
        }
    }
}

/// Inserting an element into a sequence adds it to the multiset of values.
proof fn lemma_map_insert_multiset(s: Seq<IdView>, i: int, x: IdView)
    requires
        0 <= i <= s.len(),
    ensures
        s.insert(i, x).to_multiset() == s.to_multiset().insert(x),
{
    broadcast use vstd::seq_lib::group_to_multiset_ensures;

    let t = s.insert(i, x);
    assert(t =~= s.take(i).push(x) + s.skip(i));
    assert(s =~= s.take(i) + s.skip(i));
    vstd::seq_lib::lemma_multiset_commutative(s.take(i).push(x), s.skip(i));
    vstd::seq_lib::lemma_multiset_commutative(s.take(i), s.skip(i));
    assert(s.take(i).push(x).to_multiset() == s.take(i).to_multiset().insert(x));
    assert(t.to_multiset() =~= s.to_multiset().insert(x));
}

} // verus!
