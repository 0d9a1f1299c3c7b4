//! Entity-type unification: merging inherited property sets.
//!
//! For every entity type the resolver walks its declared parents, merges
//! ancestor properties into the entity's own ("closest wins": a more
//! specific level is never overwritten), joins the required sets, and
//! records whether the type transitively inherits from the built-in Link
//! entity type.  The Link identifier is a sentinel: it sets the flag and
//! is never merged.  Missing parents are reported and skipped; a cycle in
//! the inheritance declarations is reported per affected identifier
//! instead of looping.
//!
//! Fetching is driven by the caller: [`UnificationAnalyzer::next_missing`]
//! names a parent identifier that is not yet loaded, and
//! [`UnificationAnalyzer::supply`] hands back what the caller's fetch
//! returned.  [`UnificationAnalyzer::run`] then resolves with what is
//! there, treating anything still absent as missing.

use vstd::prelude::*;

use crate::id::{IdView, SchemaId};
use crate::schema::{clone_properties, clone_strings, AnyType, EntityProperty, EntitySchema, EntityView, PropEntry};
use crate::store::SchemaStore;

verus! {

/// What a merged property records: its target and whether it is
/// array-valued.
#[verifier::ext_equal]
pub ghost struct PropRef {
    pub target: IdView,
    pub array: bool,
}

/// Mathematical value of a unified entity.
#[verifier::ext_equal]
pub ghost struct UnifiedView {
    pub id: IdView,
    pub props: Map<Seq<char>, PropRef>,
    pub required: Set<Seq<char>>,
    pub is_link: bool,
}

/// A fully-merged entity type: own properties plus all ancestor
/// properties, ancestors losing to descendants on key collisions.
#[derive(Debug)]
pub struct UnifiedEntity {
    pub id: SchemaId,
    pub properties: Vec<EntityProperty>,
    pub required: Vec<String>,
    pub is_link: bool,
}

/// The property map a list of entries stands for; on duplicate keys the
/// earlier ("closer") entry wins.
pub open spec fn props_map(s: Seq<PropEntry>) -> Map<Seq<char>, PropRef>
    decreases s.len(),
{
    if s.len() == 0 {
        Map::empty()
    } else {
        props_map(s.drop_first()).insert(
            s[0].key,
            PropRef { target: s[0].target, array: s[0].array },
        )
    }
}

/// The set of names a list of required-property names stands for.
pub open spec fn req_set(s: Seq<Seq<char>>) -> Set<Seq<char>>
    decreases s.len(),
{
    if s.len() == 0 {
        Set::empty()
    } else {
        req_set(s.drop_last()).insert(s.last())
    }
}

impl View for UnifiedEntity {
    type V = UnifiedView;

    open spec fn view(&self) -> UnifiedView {
        UnifiedView {
            id: self.id@,
            props: props_map(self.properties@.map_values(|p: EntityProperty| p@)),
            required: req_set(self.required@.map_values(|s: String| s@)),
            is_link: self.is_link,
        }
    }
}

/// Errors accumulated during an analysis run.
#[derive(Debug)]
pub enum AnalysisError {
    /// A referenced schema could not be found locally or by fetching.
    IncompleteGraph(SchemaId),
    /// A genuine cycle in the declared inheritance: reported for every
    /// identifier whose resolution the cycle blocks.
    UnificationCycle(SchemaId),
    /// A parent reference resolves to a schema that is not an entity
    /// type.
    UnsupportedUnification(SchemaId),
}

/// The base identifier of the built-in Link entity type.
pub open spec fn link_base() -> Seq<char> {
    "https://blockprotocol.org/@blockprotocol/types/entity-type/link/"@
}

/// The identifier of the built-in Link entity type.
pub open spec fn link_id() -> IdView {
    IdView { base: link_base(), version: 1 }
}

/// The well-known Link entity type identifier.
pub fn link_schema_id() -> (r: SchemaId)
    ensures
        r@ == link_id(),
{
    let base: &str = "https://blockprotocol.org/@blockprotocol/types/entity-type/link/";
    SchemaId::new(base.to_owned(), 1)
}

/// The entity types among the stored schemas.
pub open spec fn entities_of(m: Map<IdView, AnyType>) -> Map<IdView, EntityView> {
    Map::new(|id: IdView| m.dom().contains(id) && m[id] is Entity, |id: IdView| m[id]->Entity_0@)
}

/// The entity's own contribution, before any ancestor is merged.
pub open spec fn base_of(e: EntityView) -> UnifiedView {
    UnifiedView { id: e.id, props: props_map(e.props), required: req_set(e.required), is_link: false }
}

/// Merge one fully-unified ancestor into an accumulator: the accumulator
/// wins on property keys, required sets join, link flags join.
pub open spec fn merge_step(acc: UnifiedView, parent: UnifiedView) -> UnifiedView {
    UnifiedView {
        id: acc.id,
        props: parent.props.union_prefer_right(acc.props),
        required: acc.required.union(parent.required),
        is_link: acc.is_link || parent.is_link,
    }
}

/// Fold an entity's declared parents, in order, over an accumulator:
/// the Link sentinel only sets the flag, resolved parents merge, anything
/// else contributes nothing (the branch stops there).
pub open spec fn unify_fold(
    out: Map<IdView, UnifiedView>,
    base: UnifiedView,
    parents: Seq<IdView>,
) -> UnifiedView
    decreases parents.len(),
{
    if parents.len() == 0 {
        base
    } else {
        let acc = unify_fold(out, base, parents.drop_last());
        let p = parents.last();
        if p == link_id() {
            UnifiedView { is_link: true, ..acc }
        } else if out.dom().contains(p) {
            merge_step(acc, out[p])
        } else {
            acc
        }
    }
}

/// What resolution owes an entity: its own contribution folded with every
/// declared parent.
pub open spec fn unified_spec(
    ents: Map<IdView, EntityView>,
    out: Map<IdView, UnifiedView>,
    id: IdView,
) -> UnifiedView {
    unify_fold(out, base_of(ents[id]), ents[id].parents)
}

/// The map a list of unified entities stands for.
pub open spec fn unified_map(s: Seq<(SchemaId, UnifiedEntity)>) -> Map<IdView, UnifiedView>
    decreases s.len(),
{
    if s.len() == 0 {
        Map::empty()
    } else {
        unified_map(s.drop_last()).insert(s.last().0@, s.last().1@)
    }
}

/// An `IncompleteGraph` error for the given identifier is present.
pub open spec fn has_incomplete(errors: Seq<AnalysisError>, p: IdView) -> bool {
    exists|k: int|
        0 <= k < errors.len() && ((#[trigger] errors[k]) matches AnalysisError::IncompleteGraph(x)
            && x@ == p)
}

/// An `UnsupportedUnification` error for the given identifier is present.
pub open spec fn has_unsupported(errors: Seq<AnalysisError>, p: IdView) -> bool {
    exists|k: int|
        0 <= k < errors.len() && ((
        #[trigger] errors[k]) matches AnalysisError::UnsupportedUnification(x) && x@ == p)
}

/// A `UnificationCycle` error for the given identifier is present.
pub open spec fn has_cycle_error(errors: Seq<AnalysisError>, id: IdView) -> bool {
    exists|k: int|
        0 <= k < errors.len() && ((#[trigger] errors[k]) matches AnalysisError::UnificationCycle(x)
            && x@ == id)
}

/// In a list with unique identifiers, the unified map agrees with the
/// list entry by entry.
pub proof fn lemma_unified_map_index(s: Seq<(SchemaId, UnifiedEntity)>)
    requires
        forall|i: int, j: int| 0 <= i < j < s.len() ==> (#[trigger] s[i]).0@ != (#[trigger] s[j]).0@,
    ensures
        forall|id: IdView|
            #[trigger] unified_map(s).dom().contains(id) <==> exists|i: int|
                0 <= i < s.len() && (#[trigger] s[i]).0@ == id,
        forall|i: int| 0 <= i < s.len() ==> unified_map(s)[(#[trigger] s[i]).0@] == s[i].1@,
    decreases s.len(),
{
    if s.len() > 0 {
        let d = s.drop_last();
        assert forall|i: int, j: int| 0 <= i < j < d.len() implies (#[trigger] d[i]).0@ != (
        #[trigger] d[j]).0@ by {
            assert(d[i] == s[i] && d[j] == s[j]);
        }
        lemma_unified_map_index(d);
        assert forall|id: IdView| #[trigger] unified_map(s).dom().contains(id) implies exists|i: int|
            0 <= i < s.len() && (#[trigger] s[i]).0@ == id by {
            if id == s.last().0@ {
                assert(s[s.len() - 1].0@ == id);
            } else {
                assert(unified_map(d).dom().contains(id));
                let i = choose|i: int| 0 <= i < d.len() && (#[trigger] d[i]).0@ == id;
                assert(d[i] == s[i]);
                assert(s[i].0@ == id);
            }
        }
        assert forall|id: IdView|
            (exists|i: int| 0 <= i < s.len() && (#[trigger] s[i]).0@ == id)
                implies #[trigger] unified_map(s).dom().contains(id) by {
            let i = choose|i: int| 0 <= i < s.len() && (#[trigger] s[i]).0@ == id;
            if i < s.len() - 1 {
                assert(d[i] == s[i]);
                assert(d[i].0@ == id);
                assert(unified_map(d).dom().contains(id));
            }
        }
        assert forall|i: int| 0 <= i < s.len() implies unified_map(s)[(#[trigger] s[i]).0@]
            == s[i].1@ by {
            if i < s.len() - 1 {
                assert(d[i] == s[i]);
                assert(unified_map(d)[d[i].0@] == d[i].1@);
                assert(s[i].0@ != s[s.len() - 1].0@);
            }
        }
    }
}

/// A key is in the property map exactly when some entry carries it.
pub proof fn lemma_props_map_dom(s: Seq<PropEntry>)
    ensures
        forall|k: Seq<char>|
            #[trigger] props_map(s).dom().contains(k) <==> exists|i: int|
                0 <= i < s.len() && (#[trigger] s[i]).key == k,
    decreases s.len(),
{
    if s.len() > 0 {
        let d = s.drop_first();
        lemma_props_map_dom(d);
        assert forall|k: Seq<char>| #[trigger] props_map(s).dom().contains(k) implies exists|i: int|
            0 <= i < s.len() && (#[trigger] s[i]).key == k by {
            if k == s[0].key {
                assert(s[0].key == k);
            } else {
                assert(props_map(d).dom().contains(k));
                let i = choose|i: int| 0 <= i < d.len() && (#[trigger] d[i]).key == k;
                assert(d[i] == s[i + 1]);
                assert(s[i + 1].key == k);
            }
        }
        assert forall|k: Seq<char>|
            (exists|i: int| 0 <= i < s.len() && (#[trigger] s[i]).key == k)
                implies #[trigger] props_map(s).dom().contains(k) by {
            let i = choose|i: int| 0 <= i < s.len() && (#[trigger] s[i]).key == k;
            if i > 0 {
                assert(d[i - 1] == s[i]);
                assert(d[i - 1].key == k);
                assert(props_map(d).dom().contains(k));
            }
        }
    }
}

/// A name is in the required set exactly when the list carries it.
pub proof fn lemma_req_set_contains(s: Seq<Seq<char>>)
    ensures
        forall|k: Seq<char>|
            #[trigger] req_set(s).contains(k) <==> exists|i: int|
                0 <= i < s.len() && (#[trigger] s[i]) == k,
    decreases s.len(),
{
    if s.len() > 0 {
        let d = s.drop_last();
        lemma_req_set_contains(d);
        assert forall|k: Seq<char>| #[trigger] req_set(s).contains(k) implies exists|i: int|
            0 <= i < s.len() && (#[trigger] s[i]) == k by {
            if k == s.last() {
                assert(s[s.len() - 1] == k);
            } else {
                assert(req_set(d).contains(k));
                let i = choose|i: int| 0 <= i < d.len() && (#[trigger] d[i]) == k;
                assert(d[i] == s[i]);
                assert(s[i] == k);
            }
        }
        assert forall|k: Seq<char>|
            (exists|i: int| 0 <= i < s.len() && (#[trigger] s[i]) == k) implies #[trigger] req_set(
            s,
        ).contains(k) by {
            let i = choose|i: int| 0 <= i < s.len() && (#[trigger] s[i]) == k;
            if i < s.len() - 1 {
                assert(d[i] == s[i]);
                assert(req_set(d).contains(k));
            }
        }
    }
}


/// Pushing an entry extends the property map; a key already present keeps
/// its earlier ("closer") binding.
proof fn lemma_props_map_push(s: Seq<PropEntry>, e: PropEntry)
    ensures
        props_map(s.push(e)) == if props_map(s).dom().contains(e.key) {
            props_map(s)
        } else {
            props_map(s).insert(e.key, PropRef { target: e.target, array: e.array })
        },
    decreases s.len(),
{
    lemma_props_map_dom(s);
    if s.len() == 0 {
        assert(s.push(e).drop_first() =~= Seq::<PropEntry>::empty());
        assert(props_map(Seq::<PropEntry>::empty()) == Map::<Seq<char>, PropRef>::empty());
        assert(s.push(e)[0] == e);
        assert(props_map(s.push(e)) =~= Map::<Seq<char>, PropRef>::empty().insert(
            e.key,
            PropRef { target: e.target, array: e.array },
        ));
        assert(props_map(s).insert(e.key, PropRef { target: e.target, array: e.array })
            =~= props_map(s.push(e)));
    } else {
        assert(s.push(e).drop_first() =~= s.drop_first().push(e));
        lemma_props_map_push(s.drop_first(), e);
        lemma_props_map_dom(s.drop_first());
        assert(s.push(e)[0] == s[0]);
        if props_map(s).dom().contains(e.key) {
            if e.key == s[0].key {
                if props_map(s.drop_first()).dom().contains(e.key) {
                    assert(props_map(s.push(e)) =~= props_map(s));
                } else {
                    assert(props_map(s.push(e)) =~= props_map(s));
                }
            } else {
                assert(props_map(s.drop_first()).dom().contains(e.key));
                assert(props_map(s.push(e)) =~= props_map(s));
            }
        } else {
            assert(!props_map(s.drop_first()).dom().contains(e.key));
            assert(e.key != s[0].key);
            assert(props_map(s.push(e)) =~= props_map(s).insert(
                e.key,
                PropRef { target: e.target, array: e.array },
            ));
        }
    }
}

/// Is a property key already bound?
fn contains_prop_key(props: &Vec<EntityProperty>, key: &String) -> (r: bool)
    ensures
        r == props_map(props@.map_values(|p: EntityProperty| p@)).dom().contains(key@),
{
    proof {
        lemma_props_map_dom(props@.map_values(|p: EntityProperty| p@));
    }
    let mut i: usize = 0;
    while i < props.len()
        invariant
            i <= props@.len(),
            forall|k: int| 0 <= k < i ==> (#[trigger] props@[k])@.key != key@,
        decreases props@.len() - i,
    {
        if props[i].key == *key {
            proof {
                lemma_props_map_dom(props@.map_values(|p: EntityProperty| p@));
                assert(props@.map_values(|p: EntityProperty| p@)[i as int].key == key@);
            }
            return true;
        }
        i = i + 1;
    }
    proof {
        let pm = props@.map_values(|p: EntityProperty| p@);
        lemma_props_map_dom(pm);
        if props_map(pm).dom().contains(key@) {
            let w = choose|w: int| 0 <= w < pm.len() && (#[trigger] pm[w]).key == key@;
            assert(props@[w]@.key == key@);
            assert(false);
        }
    }
    false
}

/// Is a required-property name already recorded?
fn contains_name(names: &Vec<String>, name: &String) -> (r: bool)
    ensures
        r == req_set(names@.map_values(|s: String| s@)).contains(name@),
{
    let mut i: usize = 0;
    while i < names.len()
        invariant
            i <= names@.len(),
            forall|k: int| 0 <= k < i ==> (#[trigger] names@[k])@ != name@,
        decreases names@.len() - i,
    {
        if names[i] == *name {
            proof {
                lemma_req_set_contains(names@.map_values(|s: String| s@));
                assert(names@.map_values(|s: String| s@)[i as int] == name@);
            }
            return true;
        }
        i = i + 1;
    }
    proof {
        let nv = names@.map_values(|s: String| s@);
        lemma_req_set_contains(nv);
        if req_set(nv).contains(name@) {
            let w = choose|w: int| 0 <= w < nv.len() && (#[trigger] nv[w]) == name@;
            assert(names@[w]@ == name@);
            assert(false);
        }
    }
    false
}

/// Merge one fully-unified parent into the accumulator: the accumulator's
/// own bindings always win, required sets and link flags join.
fn merge_parent(acc: &mut UnifiedEntity, parent: &UnifiedEntity)
    ensures
        final (acc)@ == merge_step(old(acc)@, parent@),
{
    let ghost accv0 = old(acc)@;
    let ghost ppv = parent.properties@.map_values(|p: EntityProperty| p@);
    let mut i: usize = 0;
    while i < parent.properties.len()
        invariant
            i <= parent.properties@.len(),
            ppv == parent.properties@.map_values(|p: EntityProperty| p@),
            acc.id@ == accv0.id,
            acc.required@ == old(acc).required@,
            acc.is_link == accv0.is_link,
            props_map(acc.properties@.map_values(|p: EntityProperty| p@)) =~= props_map(
                ppv.take(i as int),
            ).union_prefer_right(accv0.props),
        decreases parent.properties@.len() - i,
    {
        let ghost accl = acc.properties@.map_values(|p: EntityProperty| p@);
        let p = &parent.properties[i];
        let present = contains_prop_key(&acc.properties, &p.key);
        if !present {
            acc.properties.push(p.clone());
        }
        proof {
            assert(ppv.take(i + 1).drop_last() =~= ppv.take(i as int));
            assert(ppv.take(i + 1).last() == ppv[i as int]);
            assert(ppv[i as int] == p@);
            let prefix = ppv.take(i as int);
            let e = p@;
            lemma_props_map_push(prefix, e);
            assert(prefix.push(e) =~= ppv.take(i + 1));
            lemma_props_map_dom(prefix);
            if present {
                assert(props_map(ppv.take(i + 1)).union_prefer_right(accv0.props) =~= props_map(
                    prefix,
                ).union_prefer_right(accv0.props));
            } else {
                assert(acc.properties@.map_values(|q: EntityProperty| q@) =~= accl.push(e));
                lemma_props_map_push(accl, e);
                assert(props_map(accl.push(e)) =~= props_map(ppv.take(i + 1)).union_prefer_right(
                    accv0.props,
                ));
            }
        }
        i = i + 1;
    }
    proof {
        assert(ppv.take(ppv.len() as int) =~= ppv);
    }
    let ghost reqv0 = old(acc).required@.map_values(|s: String| s@);
    let ghost prv = parent.required@.map_values(|s: String| s@);
    let mut j: usize = 0;
    while j < parent.required.len()
        invariant
            j <= parent.required@.len(),
            prv == parent.required@.map_values(|s: String| s@),
            acc.id@ == accv0.id,
            acc.is_link == accv0.is_link,
            props_map(acc.properties@.map_values(|p: EntityProperty| p@)) == parent@.props.union_prefer_right(
                accv0.props,
            ),
            req_set(acc.required@.map_values(|s: String| s@)) =~= req_set(reqv0).union(
                req_set(prv.take(j as int)),
            ),
        decreases parent.required@.len() - j,
    {
        let ghost reql = acc.required@.map_values(|s: String| s@);
        let nm = &parent.required[j];
        let present = contains_name(&acc.required, nm);
        if !present {
            acc.required.push(nm.clone());
        }
        proof {
            assert(prv.take(j + 1).drop_last() =~= prv.take(j as int));
            assert(prv.take(j + 1).last() == prv[j as int]);
            assert(prv[j as int] == nm@);
            if present {
                assert(req_set(reql) =~= req_set(reqv0).union(req_set(prv.take(j + 1))));
            } else {
                assert(acc.required@.map_values(|s: String| s@) =~= reql.push(nm@));
                assert(reql.push(nm@).drop_last() =~= reql);
                assert(req_set(reql.push(nm@)) =~= req_set(reql).insert(nm@));
                assert(req_set(reql.push(nm@)) =~= req_set(reqv0).union(req_set(prv.take(j + 1))));
            }
        }
        j = j + 1;
    }
    proof {
        assert(prv.take(prv.len() as int) =~= prv);
    }
    acc.is_link = acc.is_link || parent.is_link;
    proof {
        assert(final (acc)@ =~= merge_step(accv0, parent@));
    }
}


/// Start an entity's unification from its own declarations.
fn seed(ent: &EntitySchema) -> (u: UnifiedEntity)
    ensures
        u@ == base_of(ent@),
{
    let u = UnifiedEntity {
        id: ent.id.clone(),
        properties: clone_properties(&ent.properties),
        required: clone_strings(&ent.required),
        is_link: false,
    };
    proof {
        assert(u@ =~= base_of(ent@));
    }
    u
}

/// Position of an already-unified entity, by identifier.
fn find_done(done: &Vec<(SchemaId, UnifiedEntity)>, id: &SchemaId) -> (r: Option<usize>)
    ensures
        match r {
            Some(i) => i < done@.len() && done@[i as int].0@ == id@,
            None => forall|i: int| 0 <= i < done@.len() ==> (#[trigger] done@[i]).0@ != id@,
        },
{
    let mut i: usize = 0;
    while i < done.len()
        invariant
            i <= done@.len(),
            forall|k: int| 0 <= k < i ==> (#[trigger] done@[k]).0@ != id@,
        decreases done@.len() - i,
    {
        if done[i].0 == *id {
            return Some(i);
        }
        i = i + 1;
    }
    None
}

/// Some stored entity with this identifier is not yet unified.
pub open spec fn blocked(items: Seq<AnyType>, processed: Seq<bool>, p: IdView) -> bool {
    exists|j: int|
        0 <= j < items.len() && (#[trigger] items[j]).spec_id() == p && items[j] is Entity
            && !processed[j]
}

/// Every parent is the Link sentinel or is not blocked by an
/// un-unified stored entity.
pub open spec fn ready(items: Seq<AnyType>, processed: Seq<bool>, e: EntityView) -> bool {
    forall|k: int|
        0 <= k < e.parents.len() ==> (#[trigger] e.parents[k]) == link_id() || !blocked(
            items,
            processed,
            e.parents[k],
        )
}

/// Does an un-unified stored entity carry this identifier?
fn parent_blocked(store: &SchemaStore, processed: &Vec<bool>, p: &SchemaId) -> (r: bool)
    requires
        processed@.len() == store.spec_items().len(),
    ensures
        r == blocked(store.spec_items(), processed@, p@),
{
    let items = store.items();
    let mut j: usize = 0;
    while j < items.len()
        invariant
            j <= items@.len(),
            items@ == store.spec_items(),
            processed@.len() == items@.len(),
            forall|k: int|
                0 <= k < j ==> !((#[trigger] items@[k]).spec_id() == p@ && items@[k] is Entity
                    && !processed@[k]),
        decreases items@.len() - j,
    {
        let is_entity = match &items[j] {
            AnyType::Entity(_) => true,
            _ => false,
        };
        if is_entity && !processed[j] && *items[j].id() == *p {
            return true;
        }
        j = j + 1;
    }
    false
}

/// All parents of this entity are settled: each is the Link sentinel,
/// already unified, or absent from the stored entities.
fn entity_ready(store: &SchemaStore, processed: &Vec<bool>, ent: &EntitySchema) -> (r: bool)
    requires
        processed@.len() == store.spec_items().len(),
    ensures
        r == ready(store.spec_items(), processed@, ent@),
{
    let mut k: usize = 0;
    let linkid = link_schema_id();
    while k < ent.inherits_from.len()
        invariant
            k <= ent.inherits_from@.len(),
            processed@.len() == store.spec_items().len(),
            linkid@ == link_id(),
            forall|i: int|
                0 <= i < k ==> ((#[trigger] ent@.parents[i]) == link_id() || !blocked(
                    store.spec_items(),
                    processed@,
                    ent@.parents[i],
                )),
        decreases ent.inherits_from@.len() - k,
    {
        let p = &ent.inherits_from[k];
        if !(*p == linkid) {
            if parent_blocked(store, processed, p) {
                proof {
                    assert(ent@.parents[k as int] == p@);
                }
                return false;
            }
        }
        proof {
            assert(ent@.parents[k as int] == p@);
        }
        k = k + 1;
    }
    true
}

/// Every error is true of the store it was reported against.
pub open spec fn error_sound(m: Map<IdView, AnyType>, e: AnalysisError) -> bool {
    match e {
        AnalysisError::IncompleteGraph(x) => !m.dom().contains(x@) && x@ != link_id(),
        AnalysisError::UnsupportedUnification(x) => m.dom().contains(x@) && !(m[x@] is Entity),
        AnalysisError::UnificationCycle(x) => m.dom().contains(x@) && m[x@] is Entity,
    }
}

/// Unify one entity whose parents are all settled: fold the declared
/// parents over the entity's own declarations, reporting missing and
/// non-entity parents.
fn unify_entity(
    store: &SchemaStore,
    done: &Vec<(SchemaId, UnifiedEntity)>,
    ent: &EntitySchema,
    errors: &mut Vec<AnalysisError>,
) -> (u: UnifiedEntity)
    requires
        store.wf(),
        forall|i: int, j: int|
            0 <= i < j < done@.len() ==> (#[trigger] done@[i]).0@ != (#[trigger] done@[j]).0@,
        forall|k: int|
            0 <= k < ent@.parents.len() ==> ((#[trigger] ent@.parents[k]) == link_id()
                || unified_map(done@).dom().contains(ent@.parents[k]) || !entities_of(
                store@,
            ).dom().contains(ent@.parents[k])),
    ensures
        u@ == unify_fold(unified_map(done@), base_of(ent@), ent@.parents),
        final (errors)@.len() >= old(errors)@.len(),
        forall|k: int| 0 <= k < old(errors)@.len() ==> final (errors)@[k] == old(errors)@[k],
        forall|k: int|
            old(errors)@.len() <= k < final (errors)@.len() ==> error_sound(
                store@,
                #[trigger] final (errors)@[k],
            ) && !(final (errors)@[k] is UnificationCycle),
        forall|k: int|
            0 <= k < ent@.parents.len() && (#[trigger] ent@.parents[k]) != link_id()
                && !unified_map(done@).dom().contains(ent@.parents[k])
                && !store@.dom().contains(ent@.parents[k]) ==> has_incomplete(
                final (errors)@,
                ent@.parents[k],
            ),
        forall|k: int|
            0 <= k < ent@.parents.len() && (#[trigger] ent@.parents[k]) != link_id()
                && !unified_map(done@).dom().contains(ent@.parents[k]) && store@.dom().contains(
                ent@.parents[k],
            ) && !(store@[ent@.parents[k]] is Entity) ==> has_unsupported(
                final (errors)@,
                ent@.parents[k],
            ),
{
    let mut u = seed(ent);
    let linkid = link_schema_id();
    let ghost umap = unified_map(done@);
    let mut k: usize = 0;
    while k < ent.inherits_from.len()
        invariant
            store.wf(),
            linkid@ == link_id(),
            umap == unified_map(done@),
            forall|i: int, j: int|
                0 <= i < j < done@.len() ==> (#[trigger] done@[i]).0@ != (#[trigger] done@[j]).0@,
            forall|i: int|
                0 <= i < ent@.parents.len() ==> ((#[trigger] ent@.parents[i]) == link_id()
                    || unified_map(done@).dom().contains(ent@.parents[i]) || !entities_of(
                    store@,
                ).dom().contains(ent@.parents[i])),
            k <= ent@.parents.len(),
            u@ == unify_fold(umap, base_of(ent@), ent@.parents.take(k as int)),
            errors@.len() >= old(errors)@.len(),
            forall|i: int| 0 <= i < old(errors)@.len() ==> errors@[i] == old(errors)@[i],
            forall|i: int|
                old(errors)@.len() <= i < errors@.len() ==> error_sound(
                    store@,
                    #[trigger] errors@[i],
                ) && !(errors@[i] is UnificationCycle),
            forall|i: int|
                0 <= i < k && (#[trigger] ent@.parents[i]) != link_id()
                    && !umap.dom().contains(ent@.parents[i]) && !store@.dom().contains(
                    ent@.parents[i],
                ) ==> has_incomplete(errors@, ent@.parents[i]),
            forall|i: int|
                0 <= i < k && (#[trigger] ent@.parents[i]) != link_id()
                    && !umap.dom().contains(ent@.parents[i]) && store@.dom().contains(
                    ent@.parents[i],
                ) && !(store@[ent@.parents[i]] is Entity) ==> has_unsupported(
                    errors@,
                    ent@.parents[i],
                ),
        decreases ent.inherits_from@.len() - k,
    {
        let ghost uview = u@;
        let ghost errs_before = errors@;
        let p = &ent.inherits_from[k];
        proof {
            assert(ent@.parents[k as int] == p@);
            assert(ent@.parents.take(k + 1).drop_last() =~= ent@.parents.take(k as int));
            assert(ent@.parents.take(k + 1).last() == p@);
        }
        if *p == linkid {
            u.is_link = true;
            proof {
                assert(p@ == link_id());
                assert(u@ =~= unify_fold(umap, base_of(ent@), ent@.parents.take(k + 1)));
            }
        } else {
            match find_done(done, p) {
                Some(i) => {
                    proof {
                        lemma_unified_map_index(done@);
                        assert(umap.dom().contains(p@));
                        assert(umap[p@] == done@[i as int].1@);
                    }
                    let entry = &done[i];
                    merge_parent(&mut u, &entry.1);
                    proof {
                        assert(u@ == merge_step(uview, umap[p@]));
                        assert(u@ =~= unify_fold(umap, base_of(ent@), ent@.parents.take(k + 1)));
                    }
                },
                None => {
                    proof {
                        lemma_unified_map_index(done@);
                        if umap.dom().contains(p@) {
                            let w = choose|w: int|
                                0 <= w < done@.len() && (#[trigger] done@[w]).0@ == p@;
                            assert(false);
                        }
                        assert(u@ =~= unify_fold(umap, base_of(ent@), ent@.parents.take(k + 1)));
                    }
                    match store.get(p) {
                        None => {
                            errors.push(AnalysisError::IncompleteGraph(p.clone()));
                            proof {
                                let w = errs_before.len() as int;
                                assert(errors@[w] matches AnalysisError::IncompleteGraph(x)
                                    && x@ == p@);
                                assert(has_incomplete(errors@, p@));
                            }
                        },
                        Some(t) => {
                            let is_entity = match t {
                                AnyType::Entity(_) => true,
                                _ => false,
                            };
                            proof {
                                if is_entity {
                                    assert(entities_of(store@).dom().contains(p@));
                                    assert(false);
                                }
                            }
                            errors.push(AnalysisError::UnsupportedUnification(p.clone()));
                            proof {
                                let w = errs_before.len() as int;
                                assert(errors@[w]
                                    matches AnalysisError::UnsupportedUnification(x) && x@ == p@);
                                assert(has_unsupported(errors@, p@));
                            }
                        },
                    }
                },
            }
        }
        proof {
            assert forall|i: int|
                0 <= i < k + 1 && (#[trigger] ent@.parents[i]) != link_id()
                    && !umap.dom().contains(ent@.parents[i]) && !store@.dom().contains(
                    ent@.parents[i],
                ) implies has_incomplete(errors@, ent@.parents[i]) by {
                if i < k {
                    assert(has_incomplete(errs_before, ent@.parents[i]));
                    let w = choose|w: int|
                        0 <= w < errs_before.len() && ((#[trigger] errs_before[w]) matches AnalysisError::IncompleteGraph(x)
                            && x@ == ent@.parents[i]);
                    assert(errors@[w] == errs_before[w]);
                }
            }
            assert forall|i: int|
                0 <= i < k + 1 && (#[trigger] ent@.parents[i]) != link_id()
                    && !umap.dom().contains(ent@.parents[i]) && store@.dom().contains(
                    ent@.parents[i],
                ) && !(store@[ent@.parents[i]] is Entity) implies has_unsupported(
                errors@,
                ent@.parents[i],
            ) by {
                if i < k {
                    assert(has_unsupported(errs_before, ent@.parents[i]));
                    let w = choose|w: int|
                        0 <= w < errs_before.len() && ((#[trigger] errs_before[w]) matches AnalysisError::UnsupportedUnification(x)
                            && x@ == ent@.parents[i]);
                    assert(errors@[w] == errs_before[w]);
                }
            }
        }
        k = k + 1;
    }
    proof {
        assert(ent@.parents.take(ent@.parents.len() as int) =~= ent@.parents);
    }
    u
}


/// The fold does not change when the resolved map grows by identifiers
/// that are not among the parents.
proof fn lemma_fold_stable(
    out1: Map<IdView, UnifiedView>,
    out2: Map<IdView, UnifiedView>,
    base: UnifiedView,
    parents: Seq<IdView>,
)
    requires
        forall|p: IdView|
            #[trigger] out1.dom().contains(p) ==> out2.dom().contains(p) && out2[p] == out1[p],
        forall|k: int|
            0 <= k < parents.len() && (#[trigger] parents[k]) != link_id() ==> (out2.dom().contains(
                parents[k],
            ) ==> out1.dom().contains(parents[k])),
    ensures
        unify_fold(out1, base, parents) == unify_fold(out2, base, parents),
    decreases parents.len(),
{
    if parents.len() > 0 {
        let d = parents.drop_last();
        assert forall|k: int|
            0 <= k < d.len() && (#[trigger] d[k]) != link_id() implies (out2.dom().contains(d[k])
            ==> out1.dom().contains(d[k])) by {
            assert(d[k] == parents[k]);
        }
        lemma_fold_stable(out1, out2, base, d);
        assert(parents[parents.len() - 1] == parents.last());
    }
}

/// Incrementally resolved unification over a schema store.
///
/// The caller drives fetching: while [`Self::next_missing`] names an
/// identifier, the caller may look it up and hand the outcome to
/// [`Self::supply`]; [`Self::run`] then resolves with what is loaded.
#[derive(Debug)]
pub struct UnificationAnalyzer {
    cache: SchemaStore,
    missing: Vec<SchemaId>,
}

impl View for UnificationAnalyzer {
    type V = Map<IdView, AnyType>;

    closed spec fn view(&self) -> Map<IdView, AnyType> {
        self.cache@
    }
}

impl UnificationAnalyzer {
    pub closed spec fn wf(&self) -> bool {
        self.cache.wf()
    }

    /// The stored schemas, in insertion order.
    pub closed spec fn spec_items(&self) -> Seq<AnyType> {
        self.cache.spec_items()
    }

    /// Identifiers the caller's fetch already failed on.
    pub closed spec fn marked_missing(&self) -> Seq<IdView> {
        self.missing@.map_values(|p: SchemaId| p@)
    }

    pub fn new(store: SchemaStore) -> (r: Self)
        requires
            store.wf(),
        ensures
            r.wf(),
            r@ == store@,
            r.spec_items() == store.spec_items(),
            r.marked_missing().len() == 0,
    {
        let r = UnificationAnalyzer { cache: store, missing: Vec::new() };
        proof {
            assert(r.marked_missing() =~= Seq::<IdView>::empty());
        }
        r
    }

    /// The parent identifier `p` is the Link sentinel, loaded, or already
    /// marked missing: nothing is left to fetch for it.
    pub open spec fn parent_settled(&self, p: IdView) -> bool {
        p == link_id() || self@.dom().contains(p) || self.marked_missing().contains(p)
    }

    /// Every parent of every stored entity is settled: no fetch is owed.
    pub open spec fn nothing_to_fetch(&self) -> bool {
        forall|i: int, k: int|
            #![trigger self.spec_items()[i]->Entity_0@.parents[k]]
            0 <= i < self.spec_items().len() && self.spec_items()[i] is Entity && 0 <= k
                < self.spec_items()[i]->Entity_0@.parents.len() ==> self.parent_settled(
                self.spec_items()[i]->Entity_0@.parents[k],
            )
    }

    /// A parent identifier of some stored entity that is neither loaded,
    /// nor marked missing, nor the Link sentinel; `None` exactly when no
    /// such parent is left, so a caller looping fetch-and-supply asks for
    /// every missing identifier.
    pub fn next_missing(&self) -> (r: Option<SchemaId>)
        requires
            self.wf(),
        ensures
            match r {
                Some(p) => !self@.dom().contains(p@) && !self.marked_missing().contains(p@) && p@
                    != link_id() && exists|i: int, k: int|
                    #![trigger self.spec_items()[i]->Entity_0@.parents[k]]
                    0 <= i < self.spec_items().len() && self.spec_items()[i] is Entity && 0 <= k
                        < self.spec_items()[i]->Entity_0@.parents.len()
                        && self.spec_items()[i]->Entity_0@.parents[k] == p@,
                None => self.nothing_to_fetch(),
            },
    {
        let items = self.cache.items();
        let linkid = link_schema_id();
        let mut i: usize = 0;
        while i < items.len()
            invariant
                self.wf(),
                items@ == self.cache.spec_items(),
                linkid@ == link_id(),
                i <= items@.len(),
                forall|i2: int, k2: int|
                    #![trigger self.spec_items()[i2]->Entity_0@.parents[k2]]
                    0 <= i2 < i && self.spec_items()[i2] is Entity && 0 <= k2
                        < self.spec_items()[i2]->Entity_0@.parents.len() ==> self.parent_settled(
                        self.spec_items()[i2]->Entity_0@.parents[k2],
                    ),
            decreases items@.len() - i,
        {
            if let AnyType::Entity(ent) = &items[i] {
                proof {
                    assert(items@[i as int]->Entity_0 == *ent);
                }
                let mut k: usize = 0;
                while k < ent.inherits_from.len()
                    invariant
                        self.wf(),
                        linkid@ == link_id(),
                        i < items@.len(),
                        items@ == self.cache.spec_items(),
                        items@[i as int] is Entity,
                        items@[i as int]->Entity_0 == *ent,
                        k <= ent.inherits_from@.len(),
                        forall|k2: int|
                            0 <= k2 < k ==> self.parent_settled(
                                (#[trigger] ent.inherits_from@[k2])@,
                            ),
                    decreases ent.inherits_from@.len() - k,
                {
                    let p = &ent.inherits_from[k];
                    if !(*p == linkid) && !self.cache.contains(p) && !self.is_marked(p) {
                        proof {
                            assert(self.spec_items()[i as int]->Entity_0@.parents[k as int] == p@);
                        }
                        return Some(p.clone());
                    }
                    k = k + 1;
                }
                proof {
                    assert forall|i2: int, k2: int|
                        #![trigger self.spec_items()[i2]->Entity_0@.parents[k2]]
                        0 <= i2 < i + 1 && self.spec_items()[i2] is Entity && 0 <= k2
                            < self.spec_items()[i2]->Entity_0@.parents.len() implies self.parent_settled(
                        self.spec_items()[i2]->Entity_0@.parents[k2],
                    ) by {
                        if i2 == i as int {
                            assert(self.spec_items()[i2]->Entity_0@.parents[k2]
                                == ent.inherits_from@[k2]@);
                        }
                    }
                }
            } else {
                proof {
                    assert forall|i2: int, k2: int|
                        #![trigger self.spec_items()[i2]->Entity_0@.parents[k2]]
                        0 <= i2 < i + 1 && self.spec_items()[i2] is Entity && 0 <= k2
                            < self.spec_items()[i2]->Entity_0@.parents.len() implies self.parent_settled(
                        self.spec_items()[i2]->Entity_0@.parents[k2],
                    ) by {
                        assert(i2 < i as int);
                    }
                }
            }
            i = i + 1;
        }
        None
    }

    /// Has the caller's fetch already failed on this identifier?
    fn is_marked(&self, p: &SchemaId) -> (r: bool)
        ensures
            r == self.marked_missing().contains(p@),
    {
        let mut i: usize = 0;
        while i < self.missing.len()
            invariant
                i <= self.missing@.len(),
                forall|k: int| 0 <= k < i ==> (#[trigger] self.missing@[k])@ != p@,
            decreases self.missing@.len() - i,
        {
            if self.missing[i] == *p {
                proof {
                    assert(self.marked_missing()[i as int] == p@);
                }
                return true;
            }
            i = i + 1;
        }
        proof {
            if self.marked_missing().contains(p@) {
                let w = choose|w: int|
                    0 <= w < self.marked_missing().len() && (#[trigger] self.marked_missing()[w])
                        == p@;
                assert(self.missing@[w]@ == p@);
                assert(false);
            }
        }
        false
    }

    /// Record what the caller's fetch returned: a schema is stored under
    /// its own identifier, a miss is marked so it is not asked for again.
    pub fn supply(&mut self, id: SchemaId, fetched: Option<AnyType>)
        requires
            old(self).wf(),
        ensures
            final (self).wf(),
            match fetched {
                Some(t) => final (self)@ == old(self)@.insert(t.spec_id(), t)
                    && final (self).marked_missing() == old(self).marked_missing(),
                None => final (self)@ == old(self)@
                    && final (self).marked_missing() == old(self).marked_missing().push(id@),
            },
    {
        match fetched {
            Some(t) => {
                self.cache.insert(t);
            },
            None => {
                let ghost idv = id@;
                self.missing.push(id);
                proof {
                    assert(self.missing@.drop_last() =~= old(self).missing@);
                    assert(self.marked_missing() =~= old(self).marked_missing().push(idv));
                }
            },
        }
    }

    /// Give the store back, with everything the caller supplied loaded.
    pub fn into_store(self) -> (r: SchemaStore)
        requires
            self.wf(),
        ensures
            r.wf(),
            r@ == self@,
            r.spec_items() == self.spec_items(),
    {
        let UnificationAnalyzer { cache, missing: _ } = self;
        cache
    }

    /// Resolve every entity type that can be resolved with what is
    /// loaded, in store order; report missing parents, non-entity
    /// parents, and inheritance cycles.
    #[verifier::rlimit(100)]
    pub fn run(self) -> (r: (SchemaStore, Vec<(SchemaId, UnifiedEntity)>, Vec<AnalysisError>))
        requires
            self.wf(),
        ensures
            r.0.wf(),
            r.0@ == self@,
            r.0.spec_items() == self.spec_items(),
            forall|i: int, j: int|
                0 <= i < j < r.1@.len() ==> (#[trigger] r.1@[i]).0@ != (#[trigger] r.1@[j]).0@,
            run_post(r.0@, unified_map(r.1@), r.2@),
    {
        let UnificationAnalyzer { cache: store, missing: _ } = self;
        let ghost m = store@;
        let ghost ents = entities_of(m);
        let n = store.len();
        let mut processed: Vec<bool> = Vec::new();
        while processed.len() < n
            invariant
                processed@.len() <= n,
                forall|i: int| 0 <= i < processed@.len() ==> !(#[trigger] processed@[i]),
            decreases n - processed@.len(),
        {
            processed.push(false);
        }
        let mut done: Vec<(SchemaId, UnifiedEntity)> = Vec::new();
        let mut errors: Vec<AnalysisError> = Vec::new();
        let mut progress = true;
        while progress
            invariant
                store.wf(),
                m == store@,
                ents == entities_of(m),
                n == store.spec_items().len(),
                processed@.len() == n,
                forall|i: int|
                    0 <= i < n && (#[trigger] processed@[i]) ==> store.spec_items()[i] is Entity,
                forall|i: int, j: int|
                    0 <= i < j < done@.len() ==> (#[trigger] done@[i]).0@ != (
                    #[trigger] done@[j]).0@,
                forall|i: int|
                    0 <= i < n && (#[trigger] processed@[i]) ==> unified_map(done@).dom().contains(
                        store.spec_items()[i].spec_id(),
                    ),
                forall|id: IdView|
                    #[trigger] unified_map(done@).dom().contains(id) ==> exists|i: int|
                        0 <= i < n && (#[trigger] processed@[i]) && store.spec_items()[i].spec_id()
                            == id,
                forall|id: IdView|
                    #[trigger] unified_map(done@).dom().contains(id) ==> ents.dom().contains(id)
                        && unified_map(done@)[id] == unified_spec(ents, unified_map(done@), id)
                        && unified_map(done@)[id].id == id,
                forall|id: IdView|
                    #[trigger] unified_map(done@).dom().contains(id) ==> settled_parents(
                        ents,
                        unified_map(done@),
                        id,
                    ),
                forall|k: int|
                    0 <= k < errors@.len() ==> error_sound(m, #[trigger] errors@[k]) && !(
                    errors@[k] is UnificationCycle),
                forall|id: IdView|
                    #[trigger] unified_map(done@).dom().contains(id) ==> gaps_reported(
                        m,
                        ents,
                        errors@,
                        id,
                    ),
                order_respects_parents(ents, done@),
                !progress ==> no_ready(store.spec_items(), processed@),
            decreases count_unproc(processed@), (if progress {
                1int
            } else {
                0int
            }),
        {
            let found = find_ready_index(&store, &processed);
            match found {
                None => {
                    progress = false;
                },
                Some(i) => {
                    let ghost done_pre = done@;
                    let ghost errs_pre = errors@;
                    let ghost processed_pre = processed@;
                    let ghost umap = unified_map(done@);
                    let items = store.items();
                    match &items[i] {
                        AnyType::Entity(ent) => {
                            proof {
                                store.lemma_view_items();
                                assert(store.spec_items()[i as int].spec_id() == ent.id@);
                                assert(m[ent.id@] == store.spec_items()[i as int]);
                                assert(ents.dom().contains(ent.id@));
                                assert(ents[ent.id@] == ent@);
                                // from readiness: every parent is settled
                                assert forall|k: int|
                                    0 <= k < ent@.parents.len() implies ((
                                #[trigger] ent@.parents[k]) == link_id() || umap.dom().contains(
                                    ent@.parents[k],
                                ) || !ents.dom().contains(ent@.parents[k])) by {
                                    let p = ent@.parents[k];
                                    if p != link_id() && ents.dom().contains(p) {
                                        assert(!blocked(store.spec_items(), processed@, p));
                                        assert(m.dom().contains(p) && m[p] is Entity);
                                        let j = choose|j: int|
                                            0 <= j < store.spec_items().len() && (
                                            #[trigger] store.spec_items()[j]).spec_id() == p;
                                        assert(m[p] == store.spec_items()[j]);
                                        assert(store.spec_items()[j] is Entity);
                                        assert(processed@[j]);
                                        assert(umap.dom().contains(p));
                                    }
                                }
                                // and no parent is the entity itself
                                assert forall|k: int|
                                    0 <= k < ent@.parents.len() && (#[trigger] ent@.parents[k])
                                        != link_id() implies ent@.parents[k] != ent.id@ by {
                                    let p = ent@.parents[k];
                                    if p == ent.id@ {
                                        assert(store.spec_items()[i as int].spec_id() == p);
                                        assert(blocked(store.spec_items(), processed@, p));
                                    }
                                }
                            }
                            let u = unify_entity(&store, &done, ent, &mut errors);
                            let sid = ent.id.clone();
                            let ghost uv = u@;
                            done.push((sid, u));
                            processed.set(i, true);
                            proof {
                                lemma_unproc_set(processed_pre, i as int);
                                let eid = ent.id@;
                                let umap2 = unified_map(done@);
                                assert(done@.drop_last() =~= done_pre);
                                assert(done@.last().0@ == eid && done@.last().1@ == uv);
                                assert(umap2 == umap.insert(eid, uv));
                                assert(!umap.dom().contains(eid)) by {
                                    if umap.dom().contains(eid) {
                                        let w = choose|w: int|
                                            0 <= w < n && (#[trigger] processed_pre[w])
                                                && store.spec_items()[w].spec_id() == eid;
                                        assert(w != i as int);
                                        store.lemma_view_items();
                                        assert(false);
                                    }
                                }
                                assert forall|a: int, b: int|
                                    0 <= a < b < done@.len() implies (#[trigger] done@[a]).0@ != (
                                #[trigger] done@[b]).0@ by {
                                    if b < done@.len() - 1 {
                                        assert(done@[a] == done_pre[a] && done@[b] == done_pre[b]);
                                    } else {
                                        assert(done@[a] == done_pre[a]);
                                        lemma_unified_map_index(done_pre);
                                        assert(umap.dom().contains(done_pre[a].0@));
                                    }
                                }
                                assert forall|id: IdView|
                                    #[trigger] umap2.dom().contains(id) implies exists|w: int|
                                    0 <= w < n && (#[trigger] processed@[w])
                                        && store.spec_items()[w].spec_id() == id by {
                                    if id == eid {
                                        assert(processed@[i as int]
                                            && store.spec_items()[i as int].spec_id() == eid);
                                    } else {
                                        assert(umap.dom().contains(id));
                                        let w = choose|w: int|
                                            0 <= w < n && (#[trigger] processed_pre[w])
                                                && store.spec_items()[w].spec_id() == id;
                                        assert(processed@[w]);
                                    }
                                }
                                // the new entry changes no already-recorded fold
                                assert forall|id: IdView|
                                    #[trigger] umap.dom().contains(id) implies umap2[id]
                                    == unified_spec(ents, umap2, id) && settled_parents(
                                    ents,
                                    umap2,
                                    id,
                                ) by {
                                    assert(settled_parents(ents, umap, id));
                                    assert forall|k: int|
                                        0 <= k < ents[id].parents.len() && (
                                        #[trigger] ents[id].parents[k]) != link_id() implies (
                                    umap2.dom().contains(ents[id].parents[k])
                                        ==> umap.dom().contains(ents[id].parents[k])) by {
                                        let p = ents[id].parents[k];
                                        if p == eid {
                                            assert(ents.dom().contains(p));
                                            assert(umap.dom().contains(p) || !ents.dom().contains(
                                                p,
                                            ));
                                        }
                                    }
                                    lemma_fold_stable(
                                        umap,
                                        umap2,
                                        base_of(ents[id]),
                                        ents[id].parents,
                                    );
                                    assert(umap2[id] == umap[id]);
                                }
                                // the new entity's own fold is stable too
                                assert(uv == unify_fold(umap, base_of(ent@), ent@.parents));
                                assert forall|k: int|
                                    0 <= k < ent@.parents.len() && (#[trigger] ent@.parents[k])
                                        != link_id() implies (umap2.dom().contains(
                                    ent@.parents[k]) ==> umap.dom().contains(ent@.parents[k])) by {
                                    let p = ent@.parents[k];
                                    assert(p != eid);
                                }
                                lemma_fold_stable(umap, umap2, base_of(ent@), ent@.parents);
                                lemma_fold_id(umap, base_of(ent@), ent@.parents);
                                assert(umap2[eid] == unified_spec(ents, umap2, eid));
                                assert(umap2[eid].id == eid);
                                // defective-parent reports carry over and cover the
                                // new entity
                                assert forall|id: IdView|
                                    #[trigger] umap2.dom().contains(id) implies gaps_reported(
                                    m,
                                    ents,
                                    errors@,
                                    id,
                                ) by {
                                    if id == eid {
                                        assert forall|k: int|
                                            0 <= k < ents[id].parents.len() && (
                                            #[trigger] ents[id].parents[k]) != link_id()
                                                && !m.dom().contains(ents[id].parents[k]) implies has_incomplete(
                                            errors@,
                                            ents[id].parents[k],
                                        ) by {
                                            let p = ents[id].parents[k];
                                            if umap.dom().contains(p) {
                                                assert(ents.dom().contains(p));
                                                assert(m.dom().contains(p));
                                            }
                                        }
                                        assert forall|k: int|
                                            0 <= k < ents[id].parents.len() && (
                                            #[trigger] ents[id].parents[k]) != link_id()
                                                && m.dom().contains(ents[id].parents[k]) && !(
                                            m[ents[id].parents[k]] is Entity) implies has_unsupported(
                                            errors@,
                                            ents[id].parents[k],
                                        ) by {
                                            let p = ents[id].parents[k];
                                            if umap.dom().contains(p) {
                                                assert(ents.dom().contains(p));
                                                assert(m[p] is Entity);
                                            }
                                        }
                                    } else {
                                        assert(gaps_reported(m, ents, errs_pre, id));
                                        assert forall|k: int|
                                            0 <= k < ents[id].parents.len() && (
                                            #[trigger] ents[id].parents[k]) != link_id()
                                                && !m.dom().contains(ents[id].parents[k]) implies has_incomplete(
                                            errors@,
                                            ents[id].parents[k],
                                        ) by {
                                            lemma_incomplete_extend(
                                                errs_pre,
                                                errors@,
                                                ents[id].parents[k],
                                            );
                                        }
                                        assert forall|k: int|
                                            0 <= k < ents[id].parents.len() && (
                                            #[trigger] ents[id].parents[k]) != link_id()
                                                && m.dom().contains(ents[id].parents[k]) && !(
                                            m[ents[id].parents[k]] is Entity) implies has_unsupported(
                                            errors@,
                                            ents[id].parents[k],
                                        ) by {
                                            lemma_unsupported_extend(
                                                errs_pre,
                                                errors@,
                                                ents[id].parents[k],
                                            );
                                        }
                                    }
                                }
                                // resolution keeps parents before children
                                assert forall|i: int, k: int|
                                    #![trigger ents[done@[i].0@].parents[k]]
                                    0 <= i < done@.len() && ents.dom().contains(done@[i].0@) && 0
                                        <= k < ents[done@[i].0@].parents.len()
                                        && ents[done@[i].0@].parents[k] != link_id()
                                        && umap2.dom().contains(ents[done@[i].0@].parents[k])
                                        implies exists|j: int|
                                        0 <= j < i && (#[trigger] done@[j]).0@ == ents[done@[
                                        i].0@].parents[k] by {
                                    let rid = done@[i].0@;
                                    let p = ents[rid].parents[k];
                                    if i < done@.len() - 1 {
                                        assert(done@[i] == done_pre[i]);
                                        lemma_unified_map_index(done_pre);
                                        assert(umap.dom().contains(rid));
                                        assert(settled_parents(ents, umap, rid));
                                        if !umap.dom().contains(p) {
                                            assert(p == eid);
                                            assert(false);
                                        }
                                        let j = choose|j: int|
                                            0 <= j < i && (#[trigger] done_pre[j]).0@ == p;
                                        assert(done@[j].0@ == p);
                                    } else {
                                        assert(rid == eid);
                                        assert(ents[rid] == ent@);
                                        assert(p != eid);
                                        assert(umap.dom().contains(p));
                                        lemma_unified_map_index(done_pre);
                                        let j = choose|j: int|
                                            0 <= j < done_pre.len() && (#[trigger] done_pre[j]).0@
                                                == p;
                                        assert(done@[j].0@ == p);
                                    }
                                }
                            }
                        },
                        _ => {
                            proof {
                                assert(false);
                            }
                        },
                    }
                },
            }
        }
        // anything still unresolved waits on a cycle: report it
        let ghost umap_f = unified_map(done@);
        let ghost errs1 = errors@;
        let items = store.items();
        let mut i2: usize = 0;
        while i2 < n
            invariant
                store.wf(),
                m == store@,
                ents == entities_of(m),
                n == store.spec_items().len(),
                items@ == store.spec_items(),
                processed@.len() == n,
                umap_f == unified_map(done@),
                i2 <= n,
                forall|i: int|
                    0 <= i < n && (#[trigger] processed@[i]) ==> store.spec_items()[i] is Entity
                        && umap_f.dom().contains(store.spec_items()[i].spec_id()),
                forall|id: IdView|
                    #[trigger] umap_f.dom().contains(id) ==> exists|w: int|
                        0 <= w < n && (#[trigger] processed@[w]) && store.spec_items()[w].spec_id()
                            == id,
                no_ready(store.spec_items(), processed@),
                errors@.len() >= errs1.len(),
                forall|k: int| 0 <= k < errs1.len() ==> errors@[k] == errs1[k],
                forall|k: int|
                    errs1.len() <= k < errors@.len() ==> (((#[trigger] errors@[k])
                        matches AnalysisError::UnificationCycle(x) && ents.dom().contains(x@)
                        && !umap_f.dom().contains(x@)) || (error_sound(m, errors@[k]) && !(
                    errors@[k] is UnificationCycle))),
                forall|i: int|
                    0 <= i < i2 && !(#[trigger] processed@[i]) && store.spec_items()[i] is Entity
                        ==> has_cycle_error(errors@, store.spec_items()[i].spec_id())
                        && gaps_reported(m, ents, errors@, store.spec_items()[i].spec_id()),
            decreases n - i2,
        {
            let ghost errs_b = errors@;
            if !processed[i2] {
                match &items[i2] {
                    AnyType::Entity(ent) => {
                        proof {
                            store.lemma_view_items();
                            assert(store.spec_items()[i2 as int].spec_id() == ent.id@);
                            assert(m[ent.id@] == store.spec_items()[i2 as int]);
                            assert(ents.dom().contains(ent.id@));
                            assert(ents[ent.id@] == ent@);
                            assert(!umap_f.dom().contains(ent.id@)) by {
                                if umap_f.dom().contains(ent.id@) {
                                    let w = choose|w: int|
                                        0 <= w < n && (#[trigger] processed@[w])
                                            && store.spec_items()[w].spec_id() == ent.id@;
                                    assert(w != i2 as int);
                                    assert(false);
                                }
                            }
                        }
                        report_parent_gaps(&store, ent, &mut errors);
                        let ghost after_report = errors@;
                        errors.push(AnalysisError::UnificationCycle(ent.id.clone()));
                        proof {
                            assert(errors@[errors@.len() - 1]
                                matches AnalysisError::UnificationCycle(x) && x@ == ent.id@);
                            assert(has_cycle_error(errors@, store.spec_items()[i2 as int].spec_id()));
                            assert(gaps_reported(
                                m,
                                ents,
                                errors@,
                                store.spec_items()[i2 as int].spec_id(),
                            )) by {
                                assert forall|k: int|
                                    0 <= k < ent@.parents.len() && (#[trigger] ent@.parents[k])
                                        != link_id() && !m.dom().contains(ent@.parents[k])
                                        implies has_incomplete(errors@, ent@.parents[k]) by {
                                    lemma_incomplete_extend(after_report, errors@, ent@.parents[k]);
                                }
                                assert forall|k: int|
                                    0 <= k < ent@.parents.len() && (#[trigger] ent@.parents[k])
                                        != link_id() && m.dom().contains(ent@.parents[k]) && !(
                                m[ent@.parents[k]] is Entity) implies has_unsupported(
                                    errors@,
                                    ent@.parents[k],
                                ) by {
                                    lemma_unsupported_extend(after_report, errors@, ent@.parents[k]);
                                }
                            }
                            // the appended entries keep the soundness shape
                            assert forall|k: int|
                                errs1.len() <= k < errors@.len() implies (((#[trigger] errors@[k])
                                matches AnalysisError::UnificationCycle(x) && ents.dom().contains(
                                x@,
                            ) && !umap_f.dom().contains(x@)) || (error_sound(m, errors@[k]) && !(
                            errors@[k] is UnificationCycle))) by {
                                if k < errs_b.len() {
                                    assert(errors@[k] == errs_b[k]);
                                } else if k < after_report.len() {
                                    assert(errors@[k] == after_report[k]);
                                    assert(error_sound(m, after_report[k]) && !(after_report[k]
                                        is UnificationCycle));
                                } else {
                                    assert(errors@[k]
                                        matches AnalysisError::UnificationCycle(x) && x@
                                        == ent.id@);
                                }
                            }
                        }
                    },
                    _ => {},
                }
            }
            proof {
                assert forall|i: int|
                    0 <= i < i2 + 1 && !(#[trigger] processed@[i]) && store.spec_items()[i] is Entity
                        implies has_cycle_error(errors@, store.spec_items()[i].spec_id())
                    && gaps_reported(m, ents, errors@, store.spec_items()[i].spec_id()) by {
                    if i < i2 as int {
                        lemma_cycle_extend(errs_b, errors@, store.spec_items()[i].spec_id());
                        let id = store.spec_items()[i].spec_id();
                        assert(gaps_reported(m, ents, errs_b, id));
                        assert forall|k: int|
                            0 <= k < ents[id].parents.len() && (#[trigger] ents[id].parents[k])
                                != link_id() && !m.dom().contains(ents[id].parents[k])
                                implies has_incomplete(errors@, ents[id].parents[k]) by {
                            lemma_incomplete_extend(errs_b, errors@, ents[id].parents[k]);
                        }
                        assert forall|k: int|
                            0 <= k < ents[id].parents.len() && (#[trigger] ents[id].parents[k])
                                != link_id() && m.dom().contains(ents[id].parents[k]) && !(
                        m[ents[id].parents[k]] is Entity) implies has_unsupported(
                            errors@,
                            ents[id].parents[k],
                        ) by {
                            lemma_unsupported_extend(errs_b, errors@, ents[id].parents[k]);
                        }
                    }
                }
            }
            i2 = i2 + 1;
        }
        proof {
            store.lemma_view_items();
            let umap2 = unified_map(done@);
            assert(umap2 == umap_f);
            assert forall|id: IdView|
                ents.dom().contains(id) && !umap2.dom().contains(id) implies (#[trigger] stuck(
                ents,
                umap2,
                id,
            )) && has_cycle_error(errors@, id) by {
                assert(m.dom().contains(id) && m[id] is Entity);
                let i = choose|i: int|
                    0 <= i < store.spec_items().len() && (#[trigger] store.spec_items()[i]).spec_id()
                        == id;
                assert(m[id] == store.spec_items()[i]);
                assert(store.spec_items()[i] is Entity);
                assert(!processed@[i]);
                assert(has_cycle_error(errors@, id));
                assert(!ready(store.spec_items(), processed@, store.spec_items()[i]->Entity_0@));
                let e = store.spec_items()[i]->Entity_0@;
                assert(ents[id] == e);
                let k = choose|k: int|
                    !(0 <= k < e.parents.len() ==> ((#[trigger] e.parents[k]) == link_id()
                        || !blocked(store.spec_items(), processed@, e.parents[k])));
                let p = e.parents[k];
                assert(blocked(store.spec_items(), processed@, p));
                let j = choose|j: int|
                    0 <= j < store.spec_items().len() && (#[trigger] store.spec_items()[j]).spec_id()
                        == p && store.spec_items()[j] is Entity && !processed@[j];
                assert(m.dom().contains(p));
                assert(m[p] == store.spec_items()[j]);
                assert(ents.dom().contains(p));
                assert(!umap2.dom().contains(p)) by {
                    if umap2.dom().contains(p) {
                        let w = choose|w: int|
                            0 <= w < n && (#[trigger] processed@[w])
                                && store.spec_items()[w].spec_id() == p;
                        assert(w != j);
                        assert(false);
                    }
                }
                assert(stuck(ents, umap2, id));
            }
            // loop-reported errors stay sound with the final map
            assert forall|k: int| 0 <= k < errors@.len() implies error_sound_post(
                m,
                umap2,
                #[trigger] errors@[k],
            ) by {
                if k < errs1.len() {
                    assert(errors@[k] == errs1[k]);
                    assert(error_sound(m, errs1[k]) && !(errs1[k] is UnificationCycle));
                }
            }
            // defective-parent reports survive the cycle reports and
            // cover every stored entity, resolved or not
            assert forall|id: IdView| #[trigger] ents.dom().contains(id) implies gaps_reported(
                m,
                ents,
                errors@,
                id,
            ) by {
                if umap2.dom().contains(id) {
                    assert(gaps_reported(m, ents, errs1, id));
                    assert forall|k: int|
                        0 <= k < ents[id].parents.len() && (#[trigger] ents[id].parents[k])
                            != link_id() && !m.dom().contains(ents[id].parents[k])
                            implies has_incomplete(errors@, ents[id].parents[k]) by {
                        lemma_incomplete_extend(errs1, errors@, ents[id].parents[k]);
                    }
                    assert forall|k: int|
                        0 <= k < ents[id].parents.len() && (#[trigger] ents[id].parents[k])
                            != link_id() && m.dom().contains(ents[id].parents[k]) && !(
                    m[ents[id].parents[k]] is Entity) implies has_unsupported(
                        errors@,
                        ents[id].parents[k],
                    ) by {
                        lemma_unsupported_extend(errs1, errors@, ents[id].parents[k]);
                    }
                } else {
                    assert(m.dom().contains(id) && m[id] is Entity);
                    let i = choose|i: int|
                        0 <= i < store.spec_items().len() && (
                        #[trigger] store.spec_items()[i]).spec_id() == id;
                    assert(m[id] == store.spec_items()[i]);
                    assert(store.spec_items()[i] is Entity);
                    assert(!processed@[i]);
                    assert(gaps_reported(m, ents, errors@, store.spec_items()[i].spec_id()));
                }
            }
            // resolution visited parents before children
            let order = done@.map_values(|e: (SchemaId, UnifiedEntity)| e.0@);
            assert(resolved_in_order(ents, umap2, order)) by {
                lemma_unified_map_index(done@);
                assert forall|id: IdView| #[trigger] umap2.dom().contains(id) <==> order.contains(
                    id,
                ) by {
                    if umap2.dom().contains(id) {
                        let w = choose|w: int| 0 <= w < done@.len() && (#[trigger] done@[w]).0@ == id;
                        assert(order[w] == id);
                    }
                    if order.contains(id) {
                        let w = choose|w: int| 0 <= w < order.len() && order[w] == id;
                        assert(done@[w].0@ == id);
                    }
                }
                assert forall|a: int, b: int| 0 <= a < b < order.len() implies order[a]
                    != order[b] by {
                    assert(done@[a].0@ != done@[b].0@);
                }
                assert forall|i: int, k: int|
                    #![trigger ents[order[i]].parents[k]]
                    0 <= i < order.len() && ents.dom().contains(order[i]) && 0 <= k
                        < ents[order[i]].parents.len() && ents[order[i]].parents[k] != link_id()
                        && umap2.dom().contains(ents[order[i]].parents[k]) implies exists|j: int|
                    0 <= j < i && order[j] == ents[order[i]].parents[k] by {
                    assert(order[i] == done@[i].0@);
                    assert(ents[done@[i].0@].parents[k] == ents[order[i]].parents[k]);
                    let j = choose|j: int|
                        0 <= j < i && (#[trigger] done@[j]).0@ == ents[done@[i].0@].parents[k];
                    assert(order[j] == ents[order[i]].parents[k]);
                }
            }
        }
        (store, done, errors)
    }
}

/// Every defective parent of the entity has been reported: an
/// `IncompleteGraph` error for each parent that is not stored, an
/// `UnsupportedUnification` error for each stored parent that is not an
/// entity type.
pub open spec fn gaps_reported(
    m: Map<IdView, AnyType>,
    ents: Map<IdView, EntityView>,
    errors: Seq<AnalysisError>,
    id: IdView,
) -> bool {
    &&& forall|k: int|
        0 <= k < ents[id].parents.len() && (#[trigger] ents[id].parents[k]) != link_id()
            && !m.dom().contains(ents[id].parents[k]) ==> has_incomplete(
            errors,
            ents[id].parents[k],
        )
    &&& forall|k: int|
        0 <= k < ents[id].parents.len() && (#[trigger] ents[id].parents[k]) != link_id()
            && m.dom().contains(ents[id].parents[k]) && !(m[ents[id].parents[k]] is Entity)
            ==> has_unsupported(errors, ents[id].parents[k])
}

/// An `UnsupportedUnification` report survives appending further errors.
proof fn lemma_unsupported_extend(e1: Seq<AnalysisError>, e2: Seq<AnalysisError>, p: IdView)
    requires
        e1.len() <= e2.len(),
        forall|k: int| 0 <= k < e1.len() ==> e2[k] == e1[k],
        has_unsupported(e1, p),
    ensures
        has_unsupported(e2, p),
{
    let w = choose|w: int|
        0 <= w < e1.len() && ((#[trigger] e1[w]) matches AnalysisError::UnsupportedUnification(x)
            && x@ == p);
    assert(e2[w] == e1[w]);
}

/// Report the defective parents of one entity: `IncompleteGraph` for each
/// parent not stored, `UnsupportedUnification` for each stored non-entity
/// parent.
fn report_parent_gaps(store: &SchemaStore, ent: &EntitySchema, errors: &mut Vec<AnalysisError>)
    requires
        store.wf(),
    ensures
        final (errors)@.len() >= old(errors)@.len(),
        forall|k: int| 0 <= k < old(errors)@.len() ==> final (errors)@[k] == old(errors)@[k],
        forall|k: int|
            old(errors)@.len() <= k < final (errors)@.len() ==> error_sound(
                store@,
                #[trigger] final (errors)@[k],
            ) && !(final (errors)@[k] is UnificationCycle),
        forall|k: int|
            0 <= k < ent@.parents.len() && (#[trigger] ent@.parents[k]) != link_id()
                && !store@.dom().contains(ent@.parents[k]) ==> has_incomplete(
                final (errors)@,
                ent@.parents[k],
            ),
        forall|k: int|
            0 <= k < ent@.parents.len() && (#[trigger] ent@.parents[k]) != link_id()
                && store@.dom().contains(ent@.parents[k]) && !(store@[ent@.parents[k]] is Entity)
                ==> has_unsupported(final (errors)@, ent@.parents[k]),
{
    let linkid = link_schema_id();
    let mut k: usize = 0;
    while k < ent.inherits_from.len()
        invariant
            store.wf(),
            linkid@ == link_id(),
            k <= ent@.parents.len(),
            errors@.len() >= old(errors)@.len(),
            forall|i: int| 0 <= i < old(errors)@.len() ==> errors@[i] == old(errors)@[i],
            forall|i: int|
                old(errors)@.len() <= i < errors@.len() ==> error_sound(
                    store@,
                    #[trigger] errors@[i],
                ) && !(errors@[i] is UnificationCycle),
            forall|i: int|
                0 <= i < k && (#[trigger] ent@.parents[i]) != link_id() && !store@.dom().contains(
                    ent@.parents[i],
                ) ==> has_incomplete(errors@, ent@.parents[i]),
            forall|i: int|
                0 <= i < k && (#[trigger] ent@.parents[i]) != link_id() && store@.dom().contains(
                    ent@.parents[i],
                ) && !(store@[ent@.parents[i]] is Entity) ==> has_unsupported(
                    errors@,
                    ent@.parents[i],
                ),
        decreases ent.inherits_from@.len() - k,
    {
        let ghost errs_before = errors@;
        let p = &ent.inherits_from[k];
        proof {
            assert(ent@.parents[k as int] == p@);
        }
        if !(*p == linkid) {
            match store.get(p) {
                None => {
                    errors.push(AnalysisError::IncompleteGraph(p.clone()));
                    proof {
                        let w = errs_before.len() as int;
                        assert(errors@[w] matches AnalysisError::IncompleteGraph(x) && x@ == p@);
                        assert(has_incomplete(errors@, p@));
                    }
                },
                Some(t) => {
                    let is_entity = match t {
                        AnyType::Entity(_) => true,
                        _ => false,
                    };
                    if !is_entity {
                        errors.push(AnalysisError::UnsupportedUnification(p.clone()));
                        proof {
                            let w = errs_before.len() as int;
                            assert(errors@[w]
                                matches AnalysisError::UnsupportedUnification(x) && x@ == p@);
                            assert(has_unsupported(errors@, p@));
                        }
                    }
                },
            }
        }
        proof {
            assert forall|i: int|
                0 <= i < k + 1 && (#[trigger] ent@.parents[i]) != link_id()
                    && !store@.dom().contains(ent@.parents[i]) implies has_incomplete(
                errors@,
                ent@.parents[i],
            ) by {
                if i < k {
                    lemma_incomplete_extend(errs_before, errors@, ent@.parents[i]);
                }
            }
            assert forall|i: int|
                0 <= i < k + 1 && (#[trigger] ent@.parents[i]) != link_id()
                    && store@.dom().contains(ent@.parents[i]) && !(store@[ent@.parents[i]]
                    is Entity) implies has_unsupported(errors@, ent@.parents[i]) by {
                if i < k {
                    lemma_unsupported_extend(errs_before, errors@, ent@.parents[i]);
                }
            }
        }
        k = k + 1;
    }
}

/// No entity is ready: every un-unified stored entity waits on another.
pub open spec fn no_ready(items: Seq<AnyType>, processed: Seq<bool>) -> bool {
    forall|i: int|
        0 <= i < items.len() && !processed[i] && (#[trigger] items[i]) is Entity ==> !ready(
            items,
            processed,
            items[i]->Entity_0@,
        )
}

/// The number of not-yet-unified positions.
pub open spec fn count_unproc(s: Seq<bool>) -> nat
    decreases s.len(),
{
    if s.len() == 0 {
        0
    } else {
        count_unproc(s.drop_last()) + if s.last() {
            0nat
        } else {
            1nat
        }
    }
}

proof fn lemma_unproc_set(s: Seq<bool>, i: int)
    requires
        0 <= i < s.len(),
        !s[i],
    ensures
        count_unproc(s.update(i, true)) + 1 == count_unproc(s),
    decreases s.len(),
{
    let t = s.update(i, true);
    if i == s.len() - 1 {
        assert(t.drop_last() =~= s.drop_last());
        assert(t.last());
    } else {
        assert(t.drop_last() =~= s.drop_last().update(i, true));
        assert(t.last() == s.last());
        lemma_unproc_set(s.drop_last(), i);
    }
}

/// The fold keeps the accumulator's identifier.
proof fn lemma_fold_id(out: Map<IdView, UnifiedView>, base: UnifiedView, parents: Seq<IdView>)
    ensures
        unify_fold(out, base, parents).id == base.id,
    decreases parents.len(),
{
    if parents.len() > 0 {
        lemma_fold_id(out, base, parents.drop_last());
    }
}

/// An `IncompleteGraph` report survives appending further errors.
proof fn lemma_incomplete_extend(e1: Seq<AnalysisError>, e2: Seq<AnalysisError>, p: IdView)
    requires
        e1.len() <= e2.len(),
        forall|k: int| 0 <= k < e1.len() ==> e2[k] == e1[k],
        has_incomplete(e1, p),
    ensures
        has_incomplete(e2, p),
{
    let w = choose|w: int|
        0 <= w < e1.len() && ((#[trigger] e1[w]) matches AnalysisError::IncompleteGraph(x) && x@
            == p);
    assert(e2[w] == e1[w]);
}

/// A `UnificationCycle` report survives appending further errors.
proof fn lemma_cycle_extend(e1: Seq<AnalysisError>, e2: Seq<AnalysisError>, id: IdView)
    requires
        e1.len() <= e2.len(),
        forall|k: int| 0 <= k < e1.len() ==> e2[k] == e1[k],
        has_cycle_error(e1, id),
    ensures
        has_cycle_error(e2, id),
{
    let w = choose|w: int|
        0 <= w < e1.len() && ((#[trigger] e1[w]) matches AnalysisError::UnificationCycle(x) && x@
            == id);
    assert(e2[w] == e1[w]);
}

/// Position of the first un-unified entity whose parents are all
/// settled, in store order.
fn find_ready_index(store: &SchemaStore, processed: &Vec<bool>) -> (r: Option<usize>)
    requires
        store.wf(),
        processed@.len() == store.spec_items().len(),
    ensures
        match r {
            Some(i) => i < store.spec_items().len() && !processed@[i as int]
                && store.spec_items()[i as int] is Entity && ready(
                store.spec_items(),
                processed@,
                store.spec_items()[i as int]->Entity_0@,
            ),
            None => no_ready(store.spec_items(), processed@),
        },
{
    let items = store.items();
    let mut i: usize = 0;
    while i < items.len()
        invariant
            store.wf(),
            items@ == store.spec_items(),
            processed@.len() == items@.len(),
            i <= items@.len(),
            forall|k: int|
                0 <= k < i && !processed@[k] && (#[trigger] items@[k]) is Entity ==> !ready(
                    items@,
                    processed@,
                    items@[k]->Entity_0@,
                ),
        decreases items@.len() - i,
    {
        if !processed[i] {
            match &items[i] {
                AnyType::Entity(ent) => {
                    if entity_ready(store, processed, ent) {
                        return Some(i);
                    }
                },
                _ => {},
            }
        }
        i = i + 1;
    }
    None
}

/// What a resolution run guarantees, over the final store map `m`, the
/// unified map `u`, and the reported errors.
pub open spec fn run_post(
    m: Map<IdView, AnyType>,
    u: Map<IdView, UnifiedView>,
    errors: Seq<AnalysisError>,
) -> bool {
    let ents = entities_of(m);
    &&& forall|id: IdView|
        #[trigger] u.dom().contains(id) ==> ents.dom().contains(id) && u[id] == unified_spec(
            ents,
            u,
            id,
        ) && u[id].id == id
    &&& forall|id: IdView| #[trigger] u.dom().contains(id) ==> settled_parents(ents, u, id)
    &&& forall|id: IdView|
        ents.dom().contains(id) && !u.dom().contains(id) ==> (#[trigger] stuck(ents, u, id))
            && has_cycle_error(errors, id)
    &&& forall|id: IdView| #[trigger] ents.dom().contains(id) ==> gaps_reported(m, ents, errors, id)
    &&& forall|k: int| 0 <= k < errors.len() ==> error_sound_post(m, u, #[trigger] errors[k])
    &&& exists|order: Seq<IdView>| resolved_in_order(ents, u, order)
}

/// Resolution happened in some order in which every resolved non-Link
/// parent precedes its child: the inheritance relation over the resolved
/// entities is well-founded, so no genuine inheritance cycle can ever be
/// resolved, and the resolved values are determined level by level.
pub open spec fn resolved_in_order(
    ents: Map<IdView, EntityView>,
    u: Map<IdView, UnifiedView>,
    order: Seq<IdView>,
) -> bool {
    &&& forall|id: IdView| #[trigger] u.dom().contains(id) <==> order.contains(id)
    &&& forall|a: int, b: int| 0 <= a < b < order.len() ==> order[a] != order[b]
    &&& forall|i: int, k: int|
        #![trigger ents[order[i]].parents[k]]
        0 <= i < order.len() && ents.dom().contains(order[i]) && 0 <= k
            < ents[order[i]].parents.len() && ents[order[i]].parents[k] != link_id()
            && u.dom().contains(ents[order[i]].parents[k]) ==> exists|j: int|
            0 <= j < i && order[j] == ents[order[i]].parents[k]
}

/// Already-unified rows keep every resolved non-Link parent at an earlier
/// position.
pub open spec fn order_respects_parents(
    ents: Map<IdView, EntityView>,
    s: Seq<(SchemaId, UnifiedEntity)>,
) -> bool {
    forall|i: int, k: int|
        #![trigger ents[s[i].0@].parents[k]]
        0 <= i < s.len() && ents.dom().contains(s[i].0@) && 0 <= k < ents[s[i].0@].parents.len()
            && ents[s[i].0@].parents[k] != link_id() && unified_map(s).dom().contains(
            ents[s[i].0@].parents[k],
        ) ==> exists|j: int| 0 <= j < i && (#[trigger] s[j]).0@ == ents[s[i].0@].parents[k]
}

/// Every parent of a resolved entity is the Link sentinel, resolved
/// itself, or not a stored entity.
pub open spec fn settled_parents(
    ents: Map<IdView, EntityView>,
    u: Map<IdView, UnifiedView>,
    id: IdView,
) -> bool {
    forall|k: int|
        0 <= k < ents[id].parents.len() ==> ((#[trigger] ents[id].parents[k]) == link_id()
            || u.dom().contains(ents[id].parents[k]) || !ents.dom().contains(ents[id].parents[k]))
}

/// An unresolved entity waits on another unresolved stored entity: only
/// a cycle in the inheritance declarations leaves entities unresolved.
pub open spec fn stuck(
    ents: Map<IdView, EntityView>,
    u: Map<IdView, UnifiedView>,
    id: IdView,
) -> bool {
    exists|k: int|
        0 <= k < ents[id].parents.len() && (#[trigger] ents[id].parents[k]) != link_id()
            && ents.dom().contains(ents[id].parents[k]) && !u.dom().contains(ents[id].parents[k])
}

/// Every reported error is true of the run it came from.
pub open spec fn error_sound_post(
    m: Map<IdView, AnyType>,
    u: Map<IdView, UnifiedView>,
    e: AnalysisError,
) -> bool {
    match e {
        AnalysisError::IncompleteGraph(x) => !m.dom().contains(x@) && x@ != link_id(),
        AnalysisError::UnsupportedUnification(x) => m.dom().contains(x@) && !(m[x@] is Entity),
        AnalysisError::UnificationCycle(x) => entities_of(m).dom().contains(x@)
            && !u.dom().contains(x@),
    }
}


/// The fold's link flag is set whenever some parent is the Link sentinel.
proof fn lemma_fold_link(out: Map<IdView, UnifiedView>, base: UnifiedView, parents: Seq<IdView>)
    requires
        exists|k: int| 0 <= k < parents.len() && (#[trigger] parents[k]) == link_id(),
    ensures
        unify_fold(out, base, parents).is_link,
    decreases parents.len(),
{
    let k = choose|k: int| 0 <= k < parents.len() && (#[trigger] parents[k]) == link_id();
    if k == parents.len() - 1 {
        assert(parents.last() == link_id());
    } else {
        assert(parents.drop_last()[k] == link_id());
        lemma_fold_link(out, base, parents.drop_last());
    }
}

/// Unification merge correctness: with a single parent that has no
/// parents of its own, the merged properties are the parent's overridden
/// by the entity's own declarations, so own values always win, and the
/// required sets join.
pub proof fn lemma_merge_correct(
    m: Map<IdView, AnyType>,
    u: Map<IdView, UnifiedView>,
    errors: Seq<AnalysisError>,
    e: IdView,
    p: IdView,
)
    requires
        run_post(m, u, errors),
        u.dom().contains(e),
        u.dom().contains(p),
        entities_of(m)[e].parents == seq![p],
        entities_of(m)[p].parents.len() == 0,
        p != link_id(),
    ensures
        u[e].props == props_map(entities_of(m)[p].props).union_prefer_right(
            props_map(entities_of(m)[e].props),
        ),
        u[e].required == req_set(entities_of(m)[e].required).union(
            req_set(entities_of(m)[p].required),
        ),
        !u[e].is_link,
        forall|k: Seq<char>|
            #[trigger] props_map(entities_of(m)[e].props).dom().contains(k) ==> u[e].props.dom().contains(
                k,
            ) && u[e].props[k] == props_map(entities_of(m)[e].props)[k],
        forall|k: Seq<char>|
            #[trigger] props_map(entities_of(m)[p].props).dom().contains(k) && !props_map(
                entities_of(m)[e].props,
            ).dom().contains(k) ==> u[e].props.dom().contains(k) && u[e].props[k] == props_map(
                entities_of(m)[p].props,
            )[k],
{
    let ents = entities_of(m);
    assert(u[p] == unified_spec(ents, u, p));
    assert(u[p] == base_of(ents[p]));
    assert(u[e] == unified_spec(ents, u, e));
    let parents = ents[e].parents;
    assert(parents.drop_last() =~= Seq::<IdView>::empty());
    assert(parents.last() == p);
    assert(unify_fold(u, base_of(ents[e]), parents.drop_last()) == base_of(ents[e]));
    assert(u[e] == merge_step(base_of(ents[e]), u[p]));
}

/// Transitive inheritance: along a chain of single parents the merged
/// property keys are the union of every level's own keys, and a key keeps
/// the closest level's value.
pub proof fn lemma_transitive_inheritance(
    m: Map<IdView, AnyType>,
    u: Map<IdView, UnifiedView>,
    errors: Seq<AnalysisError>,
    e: IdView,
    p1: IdView,
    p2: IdView,
)
    requires
        run_post(m, u, errors),
        u.dom().contains(e),
        u.dom().contains(p1),
        u.dom().contains(p2),
        entities_of(m)[e].parents == seq![p1],
        entities_of(m)[p1].parents == seq![p2],
        entities_of(m)[p2].parents.len() == 0,
        p1 != link_id(),
        p2 != link_id(),
    ensures
        u[e].props == props_map(entities_of(m)[p2].props).union_prefer_right(
            props_map(entities_of(m)[p1].props),
        ).union_prefer_right(props_map(entities_of(m)[e].props)),
        forall|k: Seq<char>|
            #[trigger] u[e].props.dom().contains(k) <==> (props_map(
                entities_of(m)[e].props,
            ).dom().contains(k) || props_map(entities_of(m)[p1].props).dom().contains(k)
                || props_map(entities_of(m)[p2].props).dom().contains(k)),
{
    let ents = entities_of(m);
    assert(u[p2] == unified_spec(ents, u, p2));
    assert(u[p2] == base_of(ents[p2]));
    let parents1 = ents[p1].parents;
    assert(parents1.drop_last() =~= Seq::<IdView>::empty());
    assert(parents1.last() == p2);
    assert(u[p1] == unified_spec(ents, u, p1));
    assert(unify_fold(u, base_of(ents[p1]), parents1.drop_last()) == base_of(ents[p1]));
    assert(u[p1] == merge_step(base_of(ents[p1]), u[p2]));
    let parents = ents[e].parents;
    assert(parents.drop_last() =~= Seq::<IdView>::empty());
    assert(parents.last() == p1);
    assert(u[e] == unified_spec(ents, u, e));
    assert(unify_fold(u, base_of(ents[e]), parents.drop_last()) == base_of(ents[e]));
    assert(u[e] == merge_step(base_of(ents[e]), u[p1]));
    assert(u[e].props == props_map(ents[p2].props).union_prefer_right(
        props_map(ents[p1].props),
    ).union_prefer_right(props_map(ents[e].props)));
    lemma_props_map_dom(ents[e].props);
    lemma_props_map_dom(ents[p1].props);
    lemma_props_map_dom(ents[p2].props);
}

/// Link detection: an entity that declares the well-known Link identifier
/// among its parents is marked as a link, and the sentinel itself is
/// never merged: with no other parent, the merged properties are exactly
/// the entity's own.
pub proof fn lemma_link_detection(
    m: Map<IdView, AnyType>,
    u: Map<IdView, UnifiedView>,
    errors: Seq<AnalysisError>,
    e: IdView,
)
    requires
        run_post(m, u, errors),
        u.dom().contains(e),
        entities_of(m)[e].parents.contains(link_id()),
    ensures
        u[e].is_link,
        entities_of(m)[e].parents == seq![link_id()] ==> u[e].props == props_map(
            entities_of(m)[e].props,
        ) && u[e].required == req_set(entities_of(m)[e].required),
{
    let ents = entities_of(m);
    assert(u[e] == unified_spec(ents, u, e));
    let parents = ents[e].parents;
    lemma_fold_link(u, base_of(ents[e]), parents);
    if parents == seq![link_id()] {
        assert(parents.drop_last() =~= Seq::<IdView>::empty());
        assert(parents.last() == link_id());
        assert(unify_fold(u, base_of(ents[e]), parents.drop_last()) == base_of(ents[e]));
        assert(u[e] == UnifiedView { is_link: true, ..base_of(ents[e]) });
    }
}

/// The fold's link flag is set exactly when the accumulator already was,
/// some parent is the Link sentinel, or some resolved parent is marked.
proof fn lemma_fold_is_link_exact(
    out: Map<IdView, UnifiedView>,
    base: UnifiedView,
    parents: Seq<IdView>,
)
    ensures
        unify_fold(out, base, parents).is_link <==> (base.is_link || exists|k: int|
            0 <= k < parents.len() && ((#[trigger] parents[k]) == link_id() || (out.dom().contains(
                parents[k],
            ) && out[parents[k]].is_link))),
    decreases parents.len(),
{
    if parents.len() > 0 {
        let d = parents.drop_last();
        lemma_fold_is_link_exact(out, base, d);
        let p = parents.last();
        let acc = unify_fold(out, base, d);
        if unify_fold(out, base, parents).is_link {
            if p == link_id() || (p != link_id() && out.dom().contains(p) && out[p].is_link
                && !acc.is_link) {
                assert(parents[parents.len() - 1] == p);
            } else {
                assert(acc.is_link);
                if !base.is_link {
                    let k = choose|k: int|
                        0 <= k < d.len() && ((#[trigger] d[k]) == link_id() || (out.dom().contains(
                            d[k],
                        ) && out[d[k]].is_link));
                    assert(parents[k] == d[k]);
                }
            }
        }
        if base.is_link || exists|k: int|
            0 <= k < parents.len() && ((#[trigger] parents[k]) == link_id() || (out.dom().contains(
                parents[k],
            ) && out[parents[k]].is_link)) {
            if !base.is_link {
                let k = choose|k: int|
                    0 <= k < parents.len() && ((#[trigger] parents[k]) == link_id() || (
                    out.dom().contains(parents[k]) && out[parents[k]].is_link));
                if k < parents.len() - 1 {
                    assert(d[k] == parents[k]);
                }
            }
        }
    }
}

/// The link flag is exact, level by level: a resolved entity is marked as
/// a link precisely when it declares the Link sentinel among its parents
/// or declares a resolved parent that is itself marked.  Together with the
/// resolution order of `run_post` this determines the flag: it reaches
/// exactly the transitive Link inheritors among the resolved entities.
pub proof fn lemma_link_flag_exact(
    m: Map<IdView, AnyType>,
    u: Map<IdView, UnifiedView>,
    errors: Seq<AnalysisError>,
    e: IdView,
)
    requires
        run_post(m, u, errors),
        u.dom().contains(e),
    ensures
        u[e].is_link <==> exists|k: int|
            0 <= k < entities_of(m)[e].parents.len() && ((#[trigger] entities_of(m)[e].parents[k])
                == link_id() || (u.dom().contains(entities_of(m)[e].parents[k]) && u[entities_of(
                m,
            )[e].parents[k]].is_link)),
{
    let ents = entities_of(m);
    assert(u[e] == unified_spec(ents, u, e));
    lemma_fold_is_link_exact(u, base_of(ents[e]), ents[e].parents);
}

/// Missing-parent reporting: any stored entity with a parent that is
/// neither loaded nor the Link sentinel has an `IncompleteGraph` error
/// naming that parent, whether or not the entity itself resolved.
pub proof fn lemma_missing_parent_reported(
    m: Map<IdView, AnyType>,
    u: Map<IdView, UnifiedView>,
    errors: Seq<AnalysisError>,
    e: IdView,
    k: int,
)
    requires
        run_post(m, u, errors),
        entities_of(m).dom().contains(e),
        0 <= k < entities_of(m)[e].parents.len(),
        entities_of(m)[e].parents[k] != link_id(),
        !m.dom().contains(entities_of(m)[e].parents[k]),
    ensures
        has_incomplete(errors, entities_of(m)[e].parents[k]),
{
}

/// A stored parent that is not an entity type is reported as unsupported,
/// for any stored entity that declares it.
pub proof fn lemma_unsupported_parent_reported(
    m: Map<IdView, AnyType>,
    u: Map<IdView, UnifiedView>,
    errors: Seq<AnalysisError>,
    e: IdView,
    k: int,
)
    requires
        run_post(m, u, errors),
        entities_of(m).dom().contains(e),
        0 <= k < entities_of(m)[e].parents.len(),
        entities_of(m)[e].parents[k] != link_id(),
        m.dom().contains(entities_of(m)[e].parents[k]),
        !(m[entities_of(m)[e].parents[k]] is Entity),
    ensures
        has_unsupported(errors, entities_of(m)[e].parents[k]),
{
}

/// An inheritance cycle is never silently resolved: two entities that
/// declare each other as parents cannot both be in the resolved map.
pub proof fn lemma_cycle_never_resolved(
    m: Map<IdView, AnyType>,
    u: Map<IdView, UnifiedView>,
    errors: Seq<AnalysisError>,
    a: IdView,
    b: IdView,
    ka: int,
    kb: int,
)
    requires
        run_post(m, u, errors),
        entities_of(m).dom().contains(a),
        entities_of(m).dom().contains(b),
        a != link_id(),
        b != link_id(),
        0 <= ka < entities_of(m)[a].parents.len(),
        entities_of(m)[a].parents[ka] == b,
        0 <= kb < entities_of(m)[b].parents.len(),
        entities_of(m)[b].parents[kb] == a,
    ensures
        !(u.dom().contains(a) && u.dom().contains(b)),
{
    if u.dom().contains(a) && u.dom().contains(b) {
        let ents = entities_of(m);
        let order = choose|order: Seq<IdView>| resolved_in_order(ents, u, order);
        let ia = choose|ia: int| 0 <= ia < order.len() && order[ia] == a;
        let ib = choose|ib: int| 0 <= ib < order.len() && order[ib] == b;
        lemma_order_positions(ents, u, order, a, b, ia, ib, ka);
        lemma_order_positions(ents, u, order, b, a, ib, ia, kb);
    }
}

/// Along a resolution order a resolved parent sits strictly earlier than
/// its child.
proof fn lemma_order_positions(
    ents: Map<IdView, EntityView>,
    u: Map<IdView, UnifiedView>,
    order: Seq<IdView>,
    child: IdView,
    parent: IdView,
    ic: int,
    ip: int,
    k: int,
)
    requires
        resolved_in_order(ents, u, order),
        0 <= ic < order.len(),
        order[ic] == child,
        0 <= ip < order.len(),
        order[ip] == parent,
        ents.dom().contains(child),
        0 <= k < ents[child].parents.len(),
        ents[child].parents[k] == parent,
        parent != link_id(),
        u.dom().contains(parent),
    ensures
        ip < ic,
{
    assert(ents[order[ic]].parents[k] == parent);
    let j = choose|j: int| 0 <= j < ic && order[j] == ents[order[ic]].parents[k];
    if j != ip {
        assert(order[j] != order[ip] || j == ip);
    }
}

/// Error isolation: an entity whose parents are each the Link sentinel,
/// resolved, or absent from the stored entities is itself resolved; a
/// missing parent elsewhere never blocks it.
pub proof fn lemma_error_isolation(
    m: Map<IdView, AnyType>,
    u: Map<IdView, UnifiedView>,
    errors: Seq<AnalysisError>,
    e: IdView,
)
    requires
        run_post(m, u, errors),
        entities_of(m).dom().contains(e),
        forall|k: int|
            0 <= k < entities_of(m)[e].parents.len() ==> ((#[trigger] entities_of(
                m,
            )[e].parents[k]) == link_id() || u.dom().contains(entities_of(m)[e].parents[k])
                || !entities_of(m).dom().contains(entities_of(m)[e].parents[k])),
    ensures
        u.dom().contains(e),
{
    if !u.dom().contains(e) {
        assert(stuck(entities_of(m), u, e));
    }
}

} // verus!
