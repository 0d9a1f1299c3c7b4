//! Analysis pipeline for a versioned ontology of schemas.
//!
//! The library builds a typed reference graph over a set of schemas
//! (data types, property types, entity types), breaks reference cycles
//! by re-classifying edges as boxed, merges inherited entity properties
//! (unification), and assigns deterministic, collision-free names and
//! file locations to every schema.

pub mod ast;
pub mod cli;
pub mod cycle;
pub mod data;
pub mod entity;
pub mod graph;
pub mod id;
pub mod name;
pub mod output;
pub mod path;
pub mod schema;
pub mod select;
pub mod skeletor;
pub mod store;
pub mod strings;
pub mod unify;
pub mod urls;

use vstd::prelude::*;

use crate::graph::{edges_declared, plain_acyclic, schema_node, DependencyAnalyzer};
use crate::id::{ids_view, IdView, SchemaId};
use crate::name::{loc_view, Location, NameResolver};
use crate::schema::AnyType;
use crate::store::{store_map, SchemaStore};
use crate::unify::{run_post, unified_map, AnalysisError, UnificationAnalyzer, UnifiedEntity};

verus! {

/// Everything one analysis run hands to the emitter: the resolved
/// reference graph and its dangling targets, the unified entity types with
/// the accumulated errors, and a name resolver plus batch locations over
/// the same store.
pub struct AnalysisOutput {
    pub analyzer: DependencyAnalyzer,
    pub dangling: Vec<SchemaId>,
    pub resolver: NameResolver,
    pub unified: Vec<(SchemaId, UnifiedEntity)>,
    pub errors: Vec<AnalysisError>,
    pub locations: Vec<(SchemaId, Location)>,
}

/// The identifiers of a batch of schemas.
pub open spec fn schema_ids(items: Seq<AnyType>) -> Seq<IdView> {
    items.map_values(|t: AnyType| t.spec_id())
}

/// Run the whole pipeline over a batch of schemas: build the typed
/// reference graph and break its cycles, merge inherited entity
/// properties, and assign deterministic names and output locations.
pub fn process(values: Vec<AnyType>) -> (r: AnalysisOutput)
    ensures
        r.resolver.wf(),
        r.resolver.lookup@ == store_map(values@),
        r.analyzer.graph.wf(),
        plain_acyclic(&r.analyzer.graph),
        forall|x: int|
            0 <= x < r.resolver.lookup.spec_items().len() ==> schema_node(
                &r.analyzer.graph,
                r.resolver.lookup.spec_items(),
                x,
            ),
        edges_declared(&r.analyzer.graph, r.resolver.lookup.spec_items(), true),
        run_post(r.resolver.lookup@, unified_map(r.unified@), r.errors@),
        forall|d: int, x: int|
            0 <= d < r.dangling@.len() && 0 <= x < r.resolver.lookup.spec_items().len() ==> (
            #[trigger] r.dangling@[d])@ != (#[trigger] r.resolver.lookup.spec_items()[x]).spec_id(),
        forall|s: int|
            0 <= s < r.analyzer.graph.nodes@.len() && (
            #[trigger] r.analyzer.graph.nodes@[s]).kind is None ==> exists|d: int|
                0 <= d < r.dangling@.len() && (#[trigger] r.dangling@[d])@
                    == r.analyzer.graph.nodes@[s].id@,
        ids_view(r.locations@.map_values(|e: (SchemaId, Location)| e.0))
            == NameResolver::spec_batch_ids(schema_ids(r.resolver.lookup.spec_items())),
        forall|k: int|
            0 <= k < r.locations@.len() ==> loc_view((#[trigger] r.locations@[k]).1)
                == r.resolver.spec_batch_entry(
                NameResolver::spec_batch_ids(schema_ids(r.resolver.lookup.spec_items())),
                k,
            ),
{
    let store = SchemaStore::from_vec(values);
    proof {
        store.lemma_view_items();
    }
    let (analyzer, dangling) = DependencyAnalyzer::new(store.items());
    let ua = UnificationAnalyzer::new(store);
    let (store, unified, errors) = ua.run();
    let mut ids: Vec<SchemaId> = Vec::new();
    let items = store.items();
    let mut i: usize = 0;
    while i < items.len()
        invariant
            items@ == store.spec_items(),
            i <= items@.len(),
            ids@.len() == i,
            forall|k: int| 0 <= k < i ==> (#[trigger] ids@[k])@ == items@[k].spec_id(),
        decreases items@.len() - i,
    {
        ids.push(items[i].id().clone());
        i = i + 1;
    }
    proof {
        store.lemma_view_items();
        assert(ids_view(ids@) =~= schema_ids(store.spec_items()));
        assert forall|k: int| 0 <= k < ids@.len() implies store@.dom().contains(
            (#[trigger] ids@[k])@,
        ) by {
            assert(store.spec_items()[k].spec_id() == ids@[k]@);
        }
    }
    let resolver = NameResolver::new(store);
    let locations = resolver.locations(&ids);
    let r = AnalysisOutput { analyzer, dangling, resolver, unified, errors, locations };
    proof {
        assert forall|s: int|
            0 <= s < r.analyzer.graph.nodes@.len() && (
            #[trigger] r.analyzer.graph.nodes@[s]).kind is None implies exists|d: int|
                0 <= d < r.dangling@.len() && (#[trigger] r.dangling@[d])@
                    == r.analyzer.graph.nodes@[s].id@ by {
            let d = choose|d: int|
                0 <= d < r.dangling@.len() && (#[trigger] r.dangling@[d])@
                    == r.analyzer.graph.nodes@[s].id@;
            assert(0 <= d < r.dangling@.len() && r.dangling@[d]@ == r.analyzer.graph.nodes@[s].id@);
        }
    }
    r
}

} // verus!
