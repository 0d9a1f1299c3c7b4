//! The typed reference graph.
//!
//! Nodes are schema identifiers (copies, never references into a store);
//! edges are directed and classified by how the reference is materialized
//! in generated code: inline value (`Plain`), sequence (`Array`), or heap
//! indirection (`Boxed`).  Between any ordered pair of nodes at most one
//! edge exists; re-adding an edge updates its kind.

use vstd::prelude::*;

use crate::id::{IdView, SchemaId};
use crate::schema::{AnyType, EntitySchema, PropertySchema, PropertyValues};

verus! {

/// The kind of schema a node stands for.
#[derive(Debug, Copy, Clone, PartialEq, Eq, Structural)]
pub enum NodeKind {
    DataType,
    PropertyType,
    EntityType,
}

/// How a reference is materialized in generated code.
#[derive(Debug, Copy, Clone, PartialEq, Eq, Structural)]
pub enum EdgeKind {
    /// Target embedded by value.
    Plain,
    /// Target embedded behind a heap indirection.
    Boxed,
    /// Target embedded as a homogeneous sequence; sequences never force
    /// infinite size, so such edges never take part in cycle breaking.
    Array,
}

/// A graph node: a schema identifier, and the schema's kind where the
/// schema is known.  A dangling reference target keeps a node with no
/// schema attached (`kind` is `None`).
#[derive(Debug)]
pub struct Node {
    pub id: SchemaId,
    pub kind: Option<NodeKind>,
}

/// A directed edge between node indices, classified by kind.
#[derive(Debug, Copy, Clone, PartialEq, Eq, Structural)]
pub struct Edge {
    pub source: usize,
    pub target: usize,
    pub kind: EdgeKind,
}

/// Directed reference graph over schema identifiers.
#[derive(Debug)]
pub struct ReferenceGraph {
    pub nodes: Vec<Node>,
    pub edges: Vec<Edge>,
}

impl ReferenceGraph {
    /// Well-formed: edges stay inside the node table, node identifiers are
    /// unique, and between any ordered pair of nodes at most one edge
    /// exists.
    pub open spec fn wf(&self) -> bool {
        &&& forall|e: int|
            0 <= e < self.edges@.len() ==> (#[trigger] self.edges@[e]).source
                < self.nodes@.len() && self.edges@[e].target < self.nodes@.len()
        &&& forall|i: int, j: int|
            0 <= i < j < self.edges@.len() ==> !((#[trigger] self.edges@[i]).source
                == (#[trigger] self.edges@[j]).source && self.edges@[i].target
                == self.edges@[j].target)
        &&& forall|i: int, j: int|
            0 <= i < j < self.nodes@.len() ==> (#[trigger] self.nodes@[i]).id@
                != (#[trigger] self.nodes@[j]).id@
    }

    pub fn new() -> (r: Self)
        ensures
            r.wf(),
            r.nodes@.len() == 0,
            r.edges@.len() == 0,
    {
        ReferenceGraph { nodes: Vec::new(), edges: Vec::new() }
    }

    /// The index of the node carrying the given identifier.
    pub fn node_index(&self, id: &SchemaId) -> (r: Option<usize>)
        requires
            self.wf(),
        ensures
            match r {
                Some(i) => i < self.nodes@.len() && self.nodes@[i as int].id@ == id@,
                None => forall|i: int|
                    0 <= i < self.nodes@.len() ==> (#[trigger] self.nodes@[i]).id@ != id@,
            },
    {
        let mut i: usize = 0;
        while i < self.nodes.len()
            invariant
                i <= self.nodes@.len(),
                forall|k: int| 0 <= k < i ==> (#[trigger] self.nodes@[k]).id@ != id@,
            decreases self.nodes@.len() - i,
        {
            if self.nodes[i].id == *id {
                return Some(i);
            }
            i = i + 1;
        }
        None
    }

    /// Add a node for an identifier not yet present.
    pub fn add_node(&mut self, id: SchemaId, kind: Option<NodeKind>) -> (r: usize)
        requires
            old(self).wf(),
            forall|i: int|
                0 <= i < old(self).nodes@.len() ==> (#[trigger] old(self).nodes@[i]).id@ != id@,
        ensures
            final (self).wf(),
            final (self).nodes@ == old(self).nodes@.push(Node { id, kind }),
            final (self).edges@ == old(self).edges@,
            r == old(self).nodes@.len(),
    {
        let r = self.nodes.len();
        self.nodes.push(Node { id, kind });
        r
    }

    /// Attach a schema kind to an existing node (a node first seen as a
    /// reference target may later turn out to have a schema).
    pub fn set_node_kind(&mut self, i: usize, kind: NodeKind)
        requires
            old(self).wf(),
            i < old(self).nodes@.len(),
        ensures
            final (self).wf(),
            final (self).nodes@.len() == old(self).nodes@.len(),
            forall|k: int|
                0 <= k < old(self).nodes@.len() ==> (#[trigger] final (self).nodes@[k]).id@ == old(
                    self,
                ).nodes@[k].id@,
            final (self).nodes@[i as int].kind == Some(kind),
            forall|k: int|
                0 <= k < old(self).nodes@.len() && k != i as int
                    ==> (#[trigger] final (self).nodes@[k]).kind == old(self).nodes@[k].kind,
            final (self).edges@ == old(self).edges@,
    {
        let id = self.nodes[i].id.clone();
        self.nodes.set(i, Node { id, kind: Some(kind) });
    }

    /// There is an edge of the given kind between the two node indices.
    pub open spec fn spec_edge(&self, s: int, t: int, kind: EdgeKind) -> bool {
        exists|e: int|
            0 <= e < self.edges@.len() && (#[trigger] self.edges@[e]).source == s
                && self.edges@[e].target == t && self.edges@[e].kind == kind
    }

    /// There is an edge between the two node indices, of any kind.
    pub open spec fn spec_connected(&self, s: int, t: int) -> bool {
        exists|e: int|
            0 <= e < self.edges@.len() && (#[trigger] self.edges@[e]).source == s
                && self.edges@[e].target == t
    }

    /// Add an edge, or update its kind when the ordered pair is already
    /// connected.
    pub fn update_edge(&mut self, source: usize, target: usize, kind: EdgeKind)
        requires
            old(self).wf(),
            source < old(self).nodes@.len(),
            target < old(self).nodes@.len(),
        ensures
            final (self).wf(),
            final (self).nodes@ == old(self).nodes@,
            final (self).spec_edge(source as int, target as int, kind),
            // every other ordered pair keeps exactly the edges it had
            forall|s: int, t: int, k: EdgeKind|
                !(s == source as int && t == target as int) ==> (final (self).spec_edge(s, t, k)
                    == old(self).spec_edge(s, t, k)),
            forall|k: EdgeKind|
                k != kind ==> !final (self).spec_edge(source as int, target as int, k),
    {
        let mut e: usize = 0;
        while e < self.edges.len()
            invariant
                old(self).wf(),
                source < old(self).nodes@.len(),
                target < old(self).nodes@.len(),
                self.edges@ == old(self).edges@,
                self.nodes@ == old(self).nodes@,
                e <= self.edges@.len(),
                forall|i: int|
                    0 <= i < e ==> !((#[trigger] old(self).edges@[i]).source == source as int
                        && old(self).edges@[i].target == target as int),
            decreases self.edges@.len() - e,
        {
            let cur = self.edges[e];
            if cur.source == source && cur.target == target {
                let ne = Edge { source, target, kind };
                self.edges.set(e, ne);
                proof {
                    assert(self.edges@ == old(self).edges@.update(e as int, ne));
                    assert(old(self).edges@[e as int].source == source as int && old(
                        self,
                    ).edges@[e as int].target == target as int);
                    assert(self.edges@[e as int] == ne);
                    assert(self.spec_edge(source as int, target as int, kind));
                    assert forall|s: int, t: int, k: EdgeKind|
                        !(s == source as int && t == target as int) implies (self.spec_edge(s, t, k)
                        == old(self).spec_edge(s, t, k)) by {
                        if old(self).spec_edge(s, t, k) {
                            let w = choose|w: int|
                                0 <= w < old(self).edges@.len() && (#[trigger] old(
                                    self,
                                ).edges@[w]).source == s && old(self).edges@[w].target == t && old(
                                    self,
                                ).edges@[w].kind == k;
                            assert(w != e as int);
                            assert(self.edges@[w] == old(self).edges@[w]);
                            assert(self.spec_edge(s, t, k));
                        }
                        if self.spec_edge(s, t, k) {
                            let w = choose|w: int|
                                0 <= w < self.edges@.len() && (#[trigger] self.edges@[w]).source
                                    == s && self.edges@[w].target == t && self.edges@[w].kind == k;
                            assert(w != e as int);
                            assert(old(self).edges@[w] == self.edges@[w]);
                            assert(old(self).spec_edge(s, t, k));
                        }
                    }
                    assert forall|k: EdgeKind| k != kind implies !self.spec_edge(
                        source as int,
                        target as int,
                        k,
                    ) by {
                        if self.spec_edge(source as int, target as int, k) {
                            let w = choose|w: int|
                                0 <= w < self.edges@.len() && (#[trigger] self.edges@[w]).source
                                    == source as int && self.edges@[w].target == target as int
                                    && self.edges@[w].kind == k;
                            if w != e as int {
                                assert(self.edges@[w] == old(self).edges@[w]);
                                assert(false);
                            } else {
                                assert(self.edges@[w] == ne);
                                assert(false);
                            }
                        }
                    }
                    assert forall|i: int, j: int|
                        0 <= i < j < self.edges@.len() implies !((#[trigger] self.edges@[i]).source
                        == (#[trigger] self.edges@[j]).source && self.edges@[i].target
                        == self.edges@[j].target) by {
                        assert(old(self).edges@[i].source == self.edges@[i].source || i == e as int);
                        assert(old(self).edges@[j].source == self.edges@[j].source || j == e as int);
                    }
                }
                return ;
            }
            e = e + 1;
        }
        let ne = Edge { source, target, kind };
        self.edges.push(ne);
        proof {
            let ghost n = old(self).edges@.len() as int;
            assert(self.edges@ == old(self).edges@.push(ne));
            assert(self.edges@[n] == ne);
            assert(self.spec_edge(source as int, target as int, kind));
            assert forall|s: int, t: int, k: EdgeKind|
                !(s == source as int && t == target as int) implies (self.spec_edge(s, t, k) == old(
                self,
            ).spec_edge(s, t, k)) by {
                if old(self).spec_edge(s, t, k) {
                    let w = choose|w: int|
                        0 <= w < old(self).edges@.len() && (#[trigger] old(self).edges@[w]).source
                            == s && old(self).edges@[w].target == t && old(self).edges@[w].kind
                            == k;
                    assert(self.edges@[w] == old(self).edges@[w]);
                    assert(self.spec_edge(s, t, k));
                }
                if self.spec_edge(s, t, k) {
                    let w = choose|w: int|
                        0 <= w < self.edges@.len() && (#[trigger] self.edges@[w]).source == s
                            && self.edges@[w].target == t && self.edges@[w].kind == k;
                    assert(w < n);
                    assert(old(self).edges@[w] == self.edges@[w]);
                    assert(old(self).spec_edge(s, t, k));
                }
            }
            assert forall|k: EdgeKind| k != kind implies !self.spec_edge(
                source as int,
                target as int,
                k,
            ) by {
                if self.spec_edge(source as int, target as int, k) {
                    let w = choose|w: int|
                        0 <= w < self.edges@.len() && (#[trigger] self.edges@[w]).source
                            == source as int && self.edges@[w].target == target as int
                            && self.edges@[w].kind == k;
                    if w < n {
                        assert(old(self).edges@[w] == self.edges@[w]);
                        assert(false);
                    } else {
                        assert(self.edges@[w] == ne);
                        assert(false);
                    }
                }
            }
            assert forall|i: int, j: int|
                0 <= i < j < self.edges@.len() implies !((#[trigger] self.edges@[i]).source
                == (#[trigger] self.edges@[j]).source && self.edges@[i].target
                == self.edges@[j].target) by {
                if j < n {
                    assert(old(self).edges@[i] == self.edges@[i] && old(self).edges@[j]
                        == self.edges@[j]);
                } else {
                    assert(self.edges@[j] == ne);
                    assert(old(self).edges@[i] == self.edges@[i]);
                }
            }
        }
    }
}

impl ReferenceGraph {
    /// Re-classify one edge in place, keeping its endpoints.
    pub fn set_edge_kind(&mut self, e: usize, kind: EdgeKind)
        requires
            old(self).wf(),
            e < old(self).edges@.len(),
        ensures
            final (self).wf(),
            final (self).nodes@ == old(self).nodes@,
            final (self).edges@ == old(self).edges@.update(
                e as int,
                Edge {
                    source: old(self).edges@[e as int].source,
                    target: old(self).edges@[e as int].target,
                    kind,
                },
            ),
    {
        let ed = self.edges[e];
        self.edges.set(e, Edge { source: ed.source, target: ed.target, kind });
        proof {
            assert forall|i: int, j: int|
                0 <= i < j < self.edges@.len() implies !((#[trigger] self.edges@[i]).source
                == (#[trigger] self.edges@[j]).source && self.edges@[i].target
                == self.edges@[j].target) by {
                assert(self.edges@[i].source == old(self).edges@[i].source && self.edges@[i].target
                    == old(self).edges@[i].target);
                assert(self.edges@[j].source == old(self).edges@[j].source && self.edges@[j].target
                    == old(self).edges@[j].target);
            }
        }
    }
}

/// There is a `Plain` edge between the two node indices.
pub open spec fn plain_edge(g: &ReferenceGraph, s: int, t: int) -> bool {
    g.spec_edge(s, t, EdgeKind::Plain)
}

/// A directed cycle whose edges are all `Plain`: a node sequence that
/// starts and ends at the same node, each step following a `Plain` edge.
pub open spec fn is_plain_cycle(g: &ReferenceGraph, p: Seq<int>) -> bool {
    &&& p.len() >= 2
    &&& p[0] == p[p.len() - 1]
    &&& forall|i: int| 0 <= i < p.len() - 1 ==> plain_edge(g, #[trigger] p[i], p[i + 1])
}

/// The subgraph restricted to `Plain` edges contains no directed cycle.
pub open spec fn plain_acyclic(g: &ReferenceGraph) -> bool {
    forall|p: Seq<int>| !is_plain_cycle(g, p)
}


broadcast use vstd::std_specs::vec::group_vec_axioms;

/// The references one value shape declares: each target paired with how
/// it is materialized.  A shape nested inside an array contributes an
/// `Array` edge to the ultimate referenced type, at any nesting depth.
pub open spec fn value_refs(v: PropertyValues, arr: bool) -> Seq<(IdView, EdgeKind)>
    decreases v, 0int,
{
    match v {
        PropertyValues::DataTypeReference(id) => seq![
            (id@, if arr {
                EdgeKind::Array
            } else {
                EdgeKind::Plain
            }),
        ],
        PropertyValues::PropertyTypeObject(entries) => entries@.map_values(
            |o: crate::schema::ObjectProperty|
                (o.target@, if arr || o.array {
                    EdgeKind::Array
                } else {
                    EdgeKind::Plain
                }),
        ),
        PropertyValues::ArrayOfPropertyValues(vs) => list_refs_from(vs@, 0, true),
    }
}

/// The references of a list of value shapes, from the given position on.
pub open spec fn list_refs_from(vs: Seq<PropertyValues>, i: int, arr: bool) -> Seq<
    (IdView, EdgeKind),
>
    decreases vs, vs.len() - i,
{
    if i < 0 || i >= vs.len() {
        Seq::empty()
    } else {
        value_refs(vs[i], arr) + list_refs_from(vs, i + 1, arr)
    }
}

/// The references a property type declares: every alternative of its
/// disjunction, flattened.
pub open spec fn property_refs(t: PropertySchema) -> Seq<(IdView, EdgeKind)> {
    list_refs_from(t.one_of@, 0, false)
}

/// The references an entity type declares: one per named property, and
/// none for inheritance, which the unification resolver handles instead.
pub open spec fn entity_refs(t: EntitySchema) -> Seq<(IdView, EdgeKind)> {
    t.properties@.map_values(
        |p: crate::schema::EntityProperty|
            (p.target@, if p.array {
                EdgeKind::Array
            } else {
                EdgeKind::Plain
            }),
    )
}

/// The references a schema declares.
pub open spec fn schema_refs(t: AnyType) -> Seq<(IdView, EdgeKind)> {
    match t {
        AnyType::Data(_) => Seq::empty(),
        AnyType::Property(p) => property_refs(p),
        AnyType::Entity(e) => entity_refs(e),
    }
}

/// Old nodes keep their position, identifier and kind.
pub open spec fn nodes_extended(pre: Seq<Node>, post: Seq<Node>) -> bool {
    &&& pre.len() <= post.len()
    &&& forall|k: int|
        0 <= k < pre.len() ==> (#[trigger] post[k]).id@ == pre[k].id@ && post[k].kind
            == pre[k].kind
}

/// Every edge out of `src` that is not in `pre` points at a node whose
/// identifier is among `refs`, with the declared kind; edges out of other
/// nodes are exactly those of `pre`.
pub open spec fn edges_extended_by(
    pre: &ReferenceGraph,
    post: &ReferenceGraph,
    src: int,
    refs: Seq<(IdView, EdgeKind)>,
) -> bool {
    &&& forall|s: int, t: int, k: EdgeKind|
        s != src ==> (#[trigger] post.spec_edge(s, t, k)) == pre.spec_edge(s, t, k)
    &&& forall|t: int, k: EdgeKind|
        #[trigger] post.spec_edge(src, t, k) ==> pre.spec_edge(src, t, k) || (0 <= t
            < post.nodes@.len() && refs.contains((post.nodes@[t].id@, k)))
}

/// Some node carries the target identifier and an edge of some kind goes
/// from `src` to it.
pub open spec fn ref_connected(g: &ReferenceGraph, src: int, tid: IdView) -> bool {
    exists|t: int|
        0 <= t < g.nodes@.len() && (#[trigger] g.nodes@[t]).id@ == tid && g.spec_connected(src, t)
}

/// Every reference in `refs` has a node carrying its target and an edge
/// of some kind from `src` to it.
pub open spec fn refs_connected(g: &ReferenceGraph, src: int, refs: Seq<(IdView, EdgeKind)>) -> bool {
    forall|r: int| #![trigger refs[r]] 0 <= r < refs.len() ==> ref_connected(g, src, refs[r].0)
}

/// A connected reference stays connected as the graph grows.
proof fn lemma_ref_connected_monotone(
    g1: &ReferenceGraph,
    g2: &ReferenceGraph,
    src: int,
    tid: IdView,
)
    requires
        ref_connected(g1, src, tid),
        g1.nodes@.len() <= g2.nodes@.len(),
        forall|k: int| 0 <= k < g1.nodes@.len() ==> (#[trigger] g2.nodes@[k]).id@ == g1.nodes@[k].id@,
        forall|s: int, t: int| #[trigger] g1.spec_connected(s, t) ==> g2.spec_connected(s, t),
    ensures
        ref_connected(g2, src, tid),
{
    let t = choose|t: int|
        0 <= t < g1.nodes@.len() && (#[trigger] g1.nodes@[t]).id@ == tid && g1.spec_connected(
            src,
            t,
        );
    assert(g2.nodes@[t].id@ == tid);
    assert(g2.spec_connected(src, t));
}

/// The graph builder: walks every schema's declared references and
/// produces the typed reference graph, then breaks its cycles.
pub struct DependencyAnalyzer {
    pub graph: ReferenceGraph,
}

/// Find the node for an identifier, adding a dangling node (no schema
/// kind attached) when the identifier is new; then add or update the
/// edge.
fn add_link(graph: &mut ReferenceGraph, source: usize, target: &SchemaId, kind: EdgeKind) -> (r:
    usize)
    requires
        old(graph).wf(),
        source < old(graph).nodes@.len(),
    ensures
        final (graph).wf(),
        nodes_extended(old(graph).nodes@, final (graph).nodes@),
        source < final (graph).nodes@.len(),
        r < final (graph).nodes@.len(),
        final (graph).nodes@[r as int].id@ == target@,
        final (graph).spec_edge(source as int, r as int, kind),
        forall|s: int, t: int, k: EdgeKind|
            s != source as int ==> (#[trigger] final (graph).spec_edge(s, t, k)) == old(
                graph,
            ).spec_edge(s, t, k),
        forall|t: int, k: EdgeKind|
            #[trigger] final (graph).spec_edge(source as int, t, k) ==> old(graph).spec_edge(
                source as int,
                t,
                k,
            ) || (0 <= t < final (graph).nodes@.len() && final (graph).nodes@[t].id@ == target@
                && k == kind),
        forall|s: int, t: int|
            #[trigger] old(graph).spec_connected(s, t) ==> final (graph).spec_connected(s, t),
{
    let ti = match graph.node_index(target) {
        Some(i) => i,
        None => graph.add_node(target.clone(), None),
    };
    let ghost mid = *graph;
    graph.update_edge(source, ti, kind);
    proof {
        assert forall|s: int, t: int, k: EdgeKind|
            s != source as int implies (#[trigger] graph.spec_edge(s, t, k)) == old(
            graph,
        ).spec_edge(s, t, k) by {
            assert(graph.spec_edge(s, t, k) == mid.spec_edge(s, t, k));
            if old(graph).spec_edge(s, t, k) {
                let w = choose|w: int|
                    0 <= w < old(graph).edges@.len() && (#[trigger] old(graph).edges@[w]).source
                        == s && old(graph).edges@[w].target == t && old(graph).edges@[w].kind == k;
                assert(mid.edges@[w] == old(graph).edges@[w]);
                assert(mid.spec_edge(s, t, k));
            }
            if mid.spec_edge(s, t, k) {
                let w = choose|w: int|
                    0 <= w < mid.edges@.len() && (#[trigger] mid.edges@[w]).source == s
                        && mid.edges@[w].target == t && mid.edges@[w].kind == k;
                assert(old(graph).edges@[w] == mid.edges@[w]);
                assert(old(graph).spec_edge(s, t, k));
            }
        }
        assert forall|s: int, t: int| #[trigger] old(graph).spec_connected(s, t) implies graph.spec_connected(
            s,
            t,
        ) by {
            let w = choose|w: int|
                0 <= w < old(graph).edges@.len() && (#[trigger] old(graph).edges@[w]).source == s
                    && old(graph).edges@[w].target == t;
            assert(mid.edges@[w] == old(graph).edges@[w]);
            assert(mid.spec_connected(s, t));
            if !(s == source as int && t == ti as int) {
                let w2 = choose|w2: int|
                    0 <= w2 < mid.edges@.len() && (#[trigger] mid.edges@[w2]).source == s
                        && mid.edges@[w2].target == t;
                assert(mid.spec_edge(s, t, mid.edges@[w2].kind));
                assert(graph.spec_edge(s, t, mid.edges@[w2].kind));
                let w3 = choose|w3: int|
                    0 <= w3 < graph.edges@.len() && (#[trigger] graph.edges@[w3]).source == s
                        && graph.edges@[w3].target == t && graph.edges@[w3].kind == mid.edges@[
                    w2].kind;
                assert(graph.spec_connected(s, t));
            } else {
                let w4 = choose|w4: int|
                    0 <= w4 < graph.edges@.len() && (#[trigger] graph.edges@[w4]).source == s
                        && graph.edges@[w4].target == t && graph.edges@[w4].kind == kind;
                assert(graph.spec_connected(s, t));
            }
        }
        assert forall|t: int, k: EdgeKind|
            #[trigger] graph.spec_edge(source as int, t, k) implies old(graph).spec_edge(
            source as int,
            t,
            k,
        ) || (0 <= t < graph.nodes@.len() && graph.nodes@[t].id@ == target@ && k == kind) by {
            if !(t == ti as int && k == kind) {
                assert(graph.spec_edge(source as int, t, k) == mid.spec_edge(source as int, t, k));
                if mid.spec_edge(source as int, t, k) {
                    let w = choose|w: int|
                        0 <= w < mid.edges@.len() && (#[trigger] mid.edges@[w]).source
                            == source as int && mid.edges@[w].target == t && mid.edges@[w].kind
                            == k;
                    assert(old(graph).edges@[w] == mid.edges@[w]);
                    assert(old(graph).spec_edge(source as int, t, k));
                }
            }
        }
    }
    ti
}


/// One step of the reference list.
proof fn lemma_list_refs_step(vs: Seq<PropertyValues>, i: int, arr: bool)
    requires
        0 <= i < vs.len(),
    ensures
        list_refs_from(vs, i, arr) == value_refs(vs[i], arr) + list_refs_from(vs, i + 1, arr),
{
}

/// Walk one value shape, emitting an edge per declared reference.
fn outgoing_property_value(graph: &mut ReferenceGraph, index: usize, value: &PropertyValues, arr: bool)
    requires
        old(graph).wf(),
        index < old(graph).nodes@.len(),
    ensures
        final (graph).wf(),
        nodes_extended(old(graph).nodes@, final (graph).nodes@),
        edges_extended_by(old(graph), final (graph), index as int, value_refs(*value, arr)),
        refs_connected(final (graph), index as int, value_refs(*value, arr)),
        forall|s: int, t: int|
            #[trigger] old(graph).spec_connected(s, t) ==> final (graph).spec_connected(s, t),
    decreases *value, 0int,
{
    match value {
        PropertyValues::DataTypeReference(id) => {
            let kind = if arr {
                EdgeKind::Array
            } else {
                EdgeKind::Plain
            };
            let ti = add_link(graph, index, id, kind);
            proof {
                let refs = value_refs(*value, arr);
                assert(refs[0] == (id@, kind));
                assert(refs.contains((graph.nodes@[ti as int].id@, kind)));
                assert(graph.spec_connected(index as int, ti as int));
                assert forall|r: int| #![trigger refs[r]] 0 <= r < refs.len() implies ref_connected(
                    graph,
                    index as int,
                    refs[r].0,
                ) by {
                    assert(r == 0);
                    assert(graph.nodes@[ti as int].id@ == (refs[r]).0);
                }
            }
        },
        PropertyValues::PropertyTypeObject(entries) => {
            let ghost refs = value_refs(*value, arr);
            let mut i: usize = 0;
            while i < entries.len()
                invariant
                    graph.wf(),
                    index < graph.nodes@.len(),
                    i <= entries@.len(),
                    refs == value_refs(*value, arr),
                    refs == entries@.map_values(
                        |o: crate::schema::ObjectProperty|
                            (o.target@, if arr || o.array {
                                EdgeKind::Array
                            } else {
                                EdgeKind::Plain
                            }),
                    ),
                    nodes_extended(old(graph).nodes@, graph.nodes@),
                    edges_extended_by(old(graph), graph, index as int, refs),
                    forall|r: int| #![trigger refs[r]]
                        0 <= r < i ==> ref_connected(graph, index as int, refs[r].0),
                    forall|s: int, t: int|
                        #[trigger] old(graph).spec_connected(s, t) ==> graph.spec_connected(s, t),
                decreases entries@.len() - i,
            {
                let ghost pre = *graph;
                let o = &entries[i];
                let kind = if arr || o.array {
                    EdgeKind::Array
                } else {
                    EdgeKind::Plain
                };
                let ti = add_link(graph, index, &o.target, kind);
                proof {
                    assert(refs[i as int] == (o.target@, kind));
                    assert(refs.contains((graph.nodes@[ti as int].id@, kind)));
                    assert forall|t: int, k: EdgeKind|
                        #[trigger] graph.spec_edge(index as int, t, k) implies old(
                        graph,
                    ).spec_edge(index as int, t, k) || (0 <= t < graph.nodes@.len()
                        && refs.contains((graph.nodes@[t].id@, k))) by {
                        if !pre.spec_edge(index as int, t, k) {
                            assert(graph.nodes@[t].id@ == o.target@ && k == kind);
                        } else {
                            if !old(graph).spec_edge(index as int, t, k) {
                                assert(0 <= t < pre.nodes@.len() && refs.contains(
                                    (pre.nodes@[t].id@, k),
                                ));
                                assert(graph.nodes@[t].id@ == pre.nodes@[t].id@);
                            }
                        }
                    }
                    assert forall|r: int| #![trigger refs[r]] 0 <= r < i + 1 implies ref_connected(
                        graph,
                        index as int,
                        refs[r].0,
                    ) by {
                        if r < i {
                            lemma_ref_connected_monotone(&pre, graph, index as int, refs[r].0);
                        } else {
                            assert(graph.nodes@[ti as int].id@ == (refs[r]).0);
                            assert(graph.spec_connected(index as int, ti as int));
                        }
                    }
                }
                i = i + 1;
            }
            proof {
                assert(value_refs(*value, arr).len() == entries@.len());
            }
        },
        PropertyValues::ArrayOfPropertyValues(vs) => {
            outgoing_values(graph, index, vs, true);
            proof {
                assert(value_refs(*value, arr) == list_refs_from(vs@, 0, true));
            }
        },
    }
}

/// Walk a list of value shapes in order.
fn outgoing_values(graph: &mut ReferenceGraph, index: usize, values: &Vec<PropertyValues>, arr: bool)
    requires
        old(graph).wf(),
        index < old(graph).nodes@.len(),
    ensures
        final (graph).wf(),
        nodes_extended(old(graph).nodes@, final (graph).nodes@),
        edges_extended_by(old(graph), final (graph), index as int, list_refs_from(values@, 0, arr)),
        refs_connected(final (graph), index as int, list_refs_from(values@, 0, arr)),
        forall|s: int, t: int|
            #[trigger] old(graph).spec_connected(s, t) ==> final (graph).spec_connected(s, t),
    decreases values@, 0int,
{
    let ghost full = list_refs_from(values@, 0, arr);
    let ghost mut acc: Seq<(IdView, EdgeKind)> = Seq::empty();
    let mut i: usize = 0;
    proof {
        assert(acc + list_refs_from(values@, 0, arr) =~= full);
    }
    while i < values.len()
        invariant
            graph.wf(),
            index < graph.nodes@.len(),
            i <= values@.len(),
            full == list_refs_from(values@, 0, arr),
            acc + list_refs_from(values@, i as int, arr) == full,
            nodes_extended(old(graph).nodes@, graph.nodes@),
            edges_extended_by(old(graph), graph, index as int, full),
            refs_connected(graph, index as int, acc),
            forall|s: int, t: int|
                #[trigger] old(graph).spec_connected(s, t) ==> graph.spec_connected(s, t),
        decreases values@.len() - i,
    {
        let ghost pre = *graph;
        let ghost vrefs = value_refs(values@[i as int], arr);
        outgoing_property_value(graph, index, &values[i], arr);
        proof {
            lemma_list_refs_step(values@, i as int, arr);
            assert(acc + (vrefs + list_refs_from(values@, i + 1, arr)) == full);
            assert((acc + vrefs) + list_refs_from(values@, i + 1, arr) =~= acc + (vrefs
                + list_refs_from(values@, i + 1, arr)));
            // soundness composes: new edges belong to the full list
            assert forall|t: int, k: EdgeKind|
                #[trigger] graph.spec_edge(index as int, t, k) implies old(graph).spec_edge(
                index as int,
                t,
                k,
            ) || (0 <= t < graph.nodes@.len() && full.contains((graph.nodes@[t].id@, k))) by {
                if !pre.spec_edge(index as int, t, k) {
                    assert(0 <= t < graph.nodes@.len() && vrefs.contains((graph.nodes@[t].id@, k)));
                    let w = choose|w: int| 0 <= w < vrefs.len() && vrefs[w] == (graph.nodes@[t].id@, k);
                    assert(full[acc.len() + w] == (graph.nodes@[t].id@, k));
                } else {
                    if !old(graph).spec_edge(index as int, t, k) {
                        assert(0 <= t < pre.nodes@.len() && full.contains((pre.nodes@[t].id@, k)));
                        assert(graph.nodes@[t].id@ == pre.nodes@[t].id@);
                    }
                }
            }
            // connectivity accumulates
            let acc2 = acc + vrefs;
            assert forall|r: int| #![trigger acc2[r]] 0 <= r < acc2.len() implies ref_connected(
                graph,
                index as int,
                acc2[r].0,
            ) by {
                if r < acc.len() {
                    assert(acc2[r] == acc[r]);
                    assert(ref_connected(&pre, index as int, acc[r].0));
                    lemma_ref_connected_monotone(&pre, graph, index as int, acc[r].0);
                } else {
                    assert(acc2[r] == vrefs[r - acc.len()]);
                    assert(0 <= r - acc.len() < vrefs.len());
                    assert(ref_connected(graph, index as int, vrefs[r - acc.len()].0));
                }
            }
            acc = acc2;
        }
        i = i + 1;
    }
    proof {
        assert(list_refs_from(values@, values@.len() as int, arr) =~= Seq::<
            (IdView, EdgeKind),
        >::empty());
        assert(acc =~= full);
    }
}

/// Walk a property type: every alternative of its disjunction.
fn outgoing_property_type(graph: &mut ReferenceGraph, index: usize, ty: &PropertySchema)
    requires
        old(graph).wf(),
        index < old(graph).nodes@.len(),
    ensures
        final (graph).wf(),
        nodes_extended(old(graph).nodes@, final (graph).nodes@),
        edges_extended_by(old(graph), final (graph), index as int, property_refs(*ty)),
        refs_connected(final (graph), index as int, property_refs(*ty)),
        forall|s: int, t: int|
            #[trigger] old(graph).spec_connected(s, t) ==> final (graph).spec_connected(s, t),
{
    outgoing_values(graph, index, &ty.one_of, false);
}

/// Walk an entity type: one edge per named property, none for
/// inheritance.
fn outgoing_entity_type(graph: &mut ReferenceGraph, index: usize, ty: &EntitySchema)
    requires
        old(graph).wf(),
        index < old(graph).nodes@.len(),
    ensures
        final (graph).wf(),
        nodes_extended(old(graph).nodes@, final (graph).nodes@),
        edges_extended_by(old(graph), final (graph), index as int, entity_refs(*ty)),
        refs_connected(final (graph), index as int, entity_refs(*ty)),
        forall|s: int, t: int|
            #[trigger] old(graph).spec_connected(s, t) ==> final (graph).spec_connected(s, t),
{
    let ghost refs = entity_refs(*ty);
    let mut i: usize = 0;
    while i < ty.properties.len()
        invariant
            graph.wf(),
            index < graph.nodes@.len(),
            i <= ty.properties@.len(),
            refs == entity_refs(*ty),
            nodes_extended(old(graph).nodes@, graph.nodes@),
            edges_extended_by(old(graph), graph, index as int, refs),
            forall|r: int| #![trigger refs[r]]
                0 <= r < i ==> ref_connected(graph, index as int, refs[r].0),
            forall|s: int, t: int|
                #[trigger] old(graph).spec_connected(s, t) ==> graph.spec_connected(s, t),
        decreases ty.properties@.len() - i,
    {
        let ghost pre = *graph;
        let p = &ty.properties[i];
        let kind = if p.array {
            EdgeKind::Array
        } else {
            EdgeKind::Plain
        };
        let ti = add_link(graph, index, &p.target, kind);
        proof {
            assert(refs[i as int] == (p.target@, kind));
            assert(refs.contains((graph.nodes@[ti as int].id@, kind)));
            assert forall|t: int, k: EdgeKind|
                #[trigger] graph.spec_edge(index as int, t, k) implies old(graph).spec_edge(
                index as int,
                t,
                k,
            ) || (0 <= t < graph.nodes@.len() && refs.contains((graph.nodes@[t].id@, k))) by {
                if !pre.spec_edge(index as int, t, k) {
                    assert(graph.nodes@[t].id@ == p.target@ && k == kind);
                } else {
                    if !old(graph).spec_edge(index as int, t, k) {
                        assert(0 <= t < pre.nodes@.len() && refs.contains((pre.nodes@[t].id@, k)));
                        assert(graph.nodes@[t].id@ == pre.nodes@[t].id@);
                    }
                }
            }
            assert forall|r: int| #![trigger refs[r]] 0 <= r < i + 1 implies ref_connected(
                graph,
                index as int,
                refs[r].0,
            ) by {
                if r < i {
                    lemma_ref_connected_monotone(&pre, graph, index as int, refs[r].0);
                } else {
                    assert(graph.nodes@[ti as int].id@ == (refs[r]).0);
                    assert(graph.spec_connected(index as int, ti as int));
                }
            }
        }
        i = i + 1;
    }
    proof {
        assert(entity_refs(*ty).len() == ty.properties@.len());
    }
}

/// Walk one schema.
fn outgoing(graph: &mut ReferenceGraph, index: usize, ty: &AnyType)
    requires
        old(graph).wf(),
        index < old(graph).nodes@.len(),
    ensures
        final (graph).wf(),
        nodes_extended(old(graph).nodes@, final (graph).nodes@),
        edges_extended_by(old(graph), final (graph), index as int, schema_refs(*ty)),
        refs_connected(final (graph), index as int, schema_refs(*ty)),
        forall|s: int, t: int|
            #[trigger] old(graph).spec_connected(s, t) ==> final (graph).spec_connected(s, t),
        ty is Data ==> *final (graph) == *old(graph),
{
    match ty {
        AnyType::Data(_) => {
            proof {
                assert(schema_refs(*ty) =~= Seq::<(IdView, EdgeKind)>::empty());
            }
        },
        AnyType::Property(t) => outgoing_property_type(graph, index, t),
        AnyType::Entity(t) => outgoing_entity_type(graph, index, t),
    }
}

/// The node kind a schema maps to.
pub open spec fn kind_of(t: AnyType) -> NodeKind {
    match t {
        AnyType::Data(_) => NodeKind::DataType,
        AnyType::Property(_) => NodeKind::PropertyType,
        AnyType::Entity(_) => NodeKind::EntityType,
    }
}

fn exec_kind_of(ty: &AnyType) -> (r: NodeKind)
    ensures
        r == kind_of(*ty),
{
    match ty {
        AnyType::Data(_) => NodeKind::DataType,
        AnyType::Property(_) => NodeKind::PropertyType,
        AnyType::Entity(_) => NodeKind::EntityType,
    }
}


/// The schema has a node carrying its identifier and kind, with an edge
/// for every declared reference.
pub open spec fn schema_node(g: &ReferenceGraph, types: Seq<AnyType>, x: int) -> bool {
    exists|s: int|
        0 <= s < g.nodes@.len() && (#[trigger] g.nodes@[s]).id@ == types[x].spec_id()
            && g.nodes@[s].kind == Some(kind_of(types[x])) && refs_connected(
            g,
            s,
            schema_refs(types[x]),
        )
}

/// The edge comes from a declared reference of the schema at its source
/// node; after cycle breaking a `Boxed` edge may stand for a declared
/// `Plain` reference.
pub open spec fn edge_from_decl(
    g: &ReferenceGraph,
    types: Seq<AnyType>,
    s: int,
    t: int,
    k: EdgeKind,
    boxing: bool,
) -> bool {
    &&& 0 <= s < g.nodes@.len()
    &&& 0 <= t < g.nodes@.len()
    &&& exists|x: int|
        0 <= x < types.len() && (#[trigger] types[x]).spec_id() == g.nodes@[s].id@ && (schema_refs(
            types[x],
        ).contains((g.nodes@[t].id@, k)) || (boxing && k == EdgeKind::Boxed && schema_refs(
            types[x],
        ).contains((g.nodes@[t].id@, EdgeKind::Plain))))
}

/// Every edge of the graph comes from a declared reference.
pub open spec fn edges_declared(g: &ReferenceGraph, types: Seq<AnyType>, boxing: bool) -> bool {
    forall|s: int, t: int, k: EdgeKind|
        #[trigger] g.spec_edge(s, t, k) ==> edge_from_decl(g, types, s, t, k, boxing)
}

/// Connected references stay connected as the graph grows.
proof fn lemma_refs_connected_monotone(
    g1: &ReferenceGraph,
    g2: &ReferenceGraph,
    src: int,
    refs: Seq<(IdView, EdgeKind)>,
)
    requires
        refs_connected(g1, src, refs),
        g1.nodes@.len() <= g2.nodes@.len(),
        forall|k: int| 0 <= k < g1.nodes@.len() ==> (#[trigger] g2.nodes@[k]).id@ == g1.nodes@[k].id@,
        forall|s: int, t: int| #[trigger] g1.spec_connected(s, t) ==> g2.spec_connected(s, t),
    ensures
        refs_connected(g2, src, refs),
{
    assert forall|r: int| #![trigger refs[r]] 0 <= r < refs.len() implies ref_connected(
        g2,
        src,
        refs[r].0,
    ) by {
        lemma_ref_connected_monotone(g1, g2, src, refs[r].0);
    }
}

impl DependencyAnalyzer {
    /// Build the typed reference graph over the given schemas and break
    /// its cycles.  Every schema gets a node of its kind with an edge per
    /// declared reference; targets without a schema keep a bare node and
    /// are reported as dangling.  Afterwards the `Plain` subgraph is
    /// acyclic, and every edge still stands for a declared reference, a
    /// `Boxed` edge possibly for a declared `Plain` one.
    pub fn new(types: &Vec<AnyType>) -> (r: (DependencyAnalyzer, Vec<SchemaId>))
        requires
            forall|i: int, j: int|
                0 <= i < j < types@.len() ==> (#[trigger] types@[i]).spec_id() != (
                #[trigger] types@[j]).spec_id(),
        ensures
            r.0.graph.wf(),
            plain_acyclic(&r.0.graph),
            forall|x: int| 0 <= x < types@.len() ==> schema_node(&r.0.graph, types@, x),
            edges_declared(&r.0.graph, types@, true),
            forall|d: int, x: int|
                0 <= d < r.1@.len() && 0 <= x < types@.len() ==> (#[trigger] r.1@[d])@ != (
                #[trigger] types@[x]).spec_id(),
            forall|s: int|
                0 <= s < r.0.graph.nodes@.len() && (#[trigger] r.0.graph.nodes@[s]).kind is None
                    ==> exists|d: int| 0 <= d < r.1@.len() && (#[trigger] r.1@[d])@
                    == r.0.graph.nodes@[s].id@,
    {
        let mut graph = ReferenceGraph::new();
        let mut x: usize = 0;
        while x < types.len()
            invariant
                graph.wf(),
                x <= types@.len(),
                forall|i: int, j: int|
                    0 <= i < j < types@.len() ==> (#[trigger] types@[i]).spec_id() != (
                    #[trigger] types@[j]).spec_id(),
                forall|w: int| 0 <= w < x ==> schema_node(&graph, types@, w),
                edges_declared(&graph, types@, false),
            decreases types@.len() - x,
        {
            let ghost pre_node = graph;
            let ty = &types[x];
            let idx = match graph.node_index(ty.id()) {
                Some(i) => {
                    graph.set_node_kind(i, exec_kind_of(ty));
                    i
                },
                None => graph.add_node(ty.id().clone(), Some(exec_kind_of(ty))),
            };
            proof {
                assert(graph.nodes@[idx as int].id@ == types@[x as int].spec_id());
                assert(graph.nodes@[idx as int].kind == Some(kind_of(types@[x as int])));
                // earlier schema nodes keep identifier, kind and edges
                assert forall|w: int| 0 <= w < x implies schema_node(&graph, types@, w) by {
                    assert(schema_node(&pre_node, types@, w));
                    let s = choose|s: int|
                        0 <= s < pre_node.nodes@.len() && (#[trigger] pre_node.nodes@[s]).id@
                            == types@[w].spec_id() && pre_node.nodes@[s].kind == Some(
                            kind_of(types@[w]),
                        ) && refs_connected(&pre_node, s, schema_refs(types@[w]));
                    assert(graph.nodes@[s].id@ == types@[w].spec_id());
                    assert(graph.nodes@[s].kind == Some(kind_of(types@[w])));
                    assert forall|s2: int, t2: int|
                        #[trigger] pre_node.spec_connected(s2, t2) implies graph.spec_connected(
                        s2,
                        t2,
                    ) by {
                        let e = choose|e: int|
                            0 <= e < pre_node.edges@.len() && (#[trigger] pre_node.edges@[e]).source
                                == s2 && pre_node.edges@[e].target == t2;
                        assert(graph.edges@[e] == pre_node.edges@[e]);
                    }
                    lemma_refs_connected_monotone(
                        &pre_node,
                        &graph,
                        s,
                        schema_refs(types@[w]),
                    );
                }
                // the edges are untouched by node bookkeeping
                assert forall|s: int, t: int, k: EdgeKind|
                    #[trigger] graph.spec_edge(s, t, k) implies edge_from_decl(
                    &graph,
                    types@,
                    s,
                    t,
                    k,
                    false,
                ) by {
                    let e = choose|e: int|
                        0 <= e < graph.edges@.len() && (#[trigger] graph.edges@[e]).source == s
                            && graph.edges@[e].target == t && graph.edges@[e].kind == k;
                    assert(pre_node.edges@[e] == graph.edges@[e]);
                    assert(pre_node.spec_edge(s, t, k));
                    assert(edges_declared(&pre_node, types@, false));
                    assert(edge_from_decl(&pre_node, types@, s, t, k, false));
                    let x2 = choose|x2: int|
                        0 <= x2 < types@.len() && (#[trigger] types@[x2]).spec_id()
                            == pre_node.nodes@[s].id@ && schema_refs(types@[x2]).contains(
                            (pre_node.nodes@[t].id@, k),
                        );
                    assert(graph.nodes@[s].id@ == pre_node.nodes@[s].id@);
                    assert(graph.nodes@[t].id@ == pre_node.nodes@[t].id@);
                }
            }
            let ghost pre = graph;
            outgoing(&mut graph, idx, ty);
            proof {
                // earlier schema nodes survive the new edges
                assert forall|w: int| 0 <= w < x + 1 implies schema_node(&graph, types@, w) by {
                    if w < x as int {
                        assert(schema_node(&pre, types@, w));
                        let s = choose|s: int|
                            0 <= s < pre.nodes@.len() && (#[trigger] pre.nodes@[s]).id@
                                == types@[w].spec_id() && pre.nodes@[s].kind == Some(
                                kind_of(types@[w]),
                            ) && refs_connected(&pre, s, schema_refs(types@[w]));
                        assert(graph.nodes@[s].id@ == types@[w].spec_id());
                        assert(graph.nodes@[s].kind == Some(kind_of(types@[w])));
                        lemma_refs_connected_monotone(&pre, &graph, s, schema_refs(types@[w]));
                    } else {
                        assert(graph.nodes@[idx as int].id@ == types@[w].spec_id());
                        assert(graph.nodes@[idx as int].kind == Some(kind_of(types@[w])));
                        assert(refs_connected(&graph, idx as int, schema_refs(types@[w])));
                    }
                }
                // new edges come from the schema just walked
                assert forall|s: int, t: int, k: EdgeKind|
                    #[trigger] graph.spec_edge(s, t, k) implies edge_from_decl(
                    &graph,
                    types@,
                    s,
                    t,
                    k,
                    false,
                ) by {
                    if s != idx as int {
                        assert(pre.spec_edge(s, t, k));
                        assert(edges_declared(&pre, types@, false));
                        assert(edge_from_decl(&pre, types@, s, t, k, false));
                        let x2 = choose|x2: int|
                            0 <= x2 < types@.len() && (#[trigger] types@[x2]).spec_id()
                                == pre.nodes@[s].id@ && schema_refs(types@[x2]).contains(
                                (pre.nodes@[t].id@, k),
                            );
                        assert(graph.nodes@[s].id@ == pre.nodes@[s].id@);
                        assert(graph.nodes@[t].id@ == pre.nodes@[t].id@);
                    } else {
                        if pre.spec_edge(s, t, k) {
                            assert(edges_declared(&pre, types@, false));
                            assert(edge_from_decl(&pre, types@, s, t, k, false));
                            let x2 = choose|x2: int|
                                0 <= x2 < types@.len() && (#[trigger] types@[x2]).spec_id()
                                    == pre.nodes@[s].id@ && schema_refs(types@[x2]).contains(
                                    (pre.nodes@[t].id@, k),
                                );
                            assert(graph.nodes@[s].id@ == pre.nodes@[s].id@);
                            assert(graph.nodes@[t].id@ == pre.nodes@[t].id@);
                        } else {
                            assert(0 <= t < graph.nodes@.len() && schema_refs(
                                types@[x as int],
                            ).contains((graph.nodes@[t].id@, k)));
                            assert(types@[x as int].spec_id() == graph.nodes@[s].id@);
                        }
                    }
                }
            }
            x = x + 1;
        }
        let ghost built = graph;
        crate::cycle::remove_cycles(&mut graph);
        proof {
            // resolution keeps nodes and connectivity; an edge's kind may
            // move from `Plain` to `Boxed`
            assert forall|w: int| 0 <= w < types@.len() implies schema_node(&graph, types@, w) by {
                assert(schema_node(&built, types@, w));
                let s = choose|s: int|
                    0 <= s < built.nodes@.len() && (#[trigger] built.nodes@[s]).id@
                        == types@[w].spec_id() && built.nodes@[s].kind == Some(kind_of(types@[w]))
                        && refs_connected(&built, s, schema_refs(types@[w]));
                assert(graph.nodes@[s] == built.nodes@[s]);
                assert forall|s2: int, t2: int|
                    #[trigger] built.spec_connected(s2, t2) implies graph.spec_connected(
                    s2,
                    t2,
                ) by {
                    let e = choose|e: int|
                        0 <= e < built.edges@.len() && (#[trigger] built.edges@[e]).source == s2
                            && built.edges@[e].target == t2;
                    assert(graph.edges@[e].source == built.edges@[e].source
                        && graph.edges@[e].target == built.edges@[e].target);
                }
                assert(nodes_extended(built.nodes@, graph.nodes@));
                lemma_refs_connected_monotone(&built, &graph, s, schema_refs(types@[w]));
            }
            assert forall|s: int, t: int, k: EdgeKind|
                #[trigger] graph.spec_edge(s, t, k) implies edge_from_decl(
                &graph,
                types@,
                s,
                t,
                k,
                true,
            ) by {
                let e = choose|e: int|
                    0 <= e < graph.edges@.len() && (#[trigger] graph.edges@[e]).source == s
                        && graph.edges@[e].target == t && graph.edges@[e].kind == k;
                let bk = built.edges@[e].kind;
                assert(built.spec_edge(s, t, bk));
                assert(edges_declared(&built, types@, false));
                assert(edge_from_decl(&built, types@, s, t, bk, false));
                let x2 = choose|x2: int|
                    0 <= x2 < types@.len() && (#[trigger] types@[x2]).spec_id()
                        == built.nodes@[s].id@ && schema_refs(types@[x2]).contains(
                        (built.nodes@[t].id@, bk),
                    );
                assert(graph.nodes@[s] == built.nodes@[s]);
                assert(graph.nodes@[t] == built.nodes@[t]);
                assert(bk == k || (bk == EdgeKind::Plain && k == EdgeKind::Boxed));
            }
        }
        let mut out: Vec<SchemaId> = Vec::new();
        let ghost mut wit: Seq<int> = Seq::empty();
        let mut si: usize = 0;
        while si < graph.nodes.len()
            invariant
                graph.wf(),
                si <= graph.nodes@.len(),
                forall|w: int| 0 <= w < types@.len() ==> schema_node(&graph, types@, w),
                forall|d: int, y: int|
                    0 <= d < out@.len() && 0 <= y < types@.len() ==> (#[trigger] out@[d])@ != (
                    #[trigger] types@[y]).spec_id(),
                wit.len() == si,
                forall|s: int|
                    0 <= s < si && (#[trigger] graph.nodes@[s]).kind is None ==> 0 <= wit[s]
                        < out@.len() && out@[wit[s]]@ == graph.nodes@[s].id@,
            decreases graph.nodes@.len() - si,
        {
            let none_kind = match graph.nodes[si].kind {
                None => true,
                Some(_) => false,
            };
            let ghost out_pre = out@;
            proof {
                wit = wit.push(if none_kind {
                    out@.len() as int
                } else {
                    0int
                });
            }
            if none_kind {
                out.push(graph.nodes[si].id.clone());
                proof {
                    assert forall|d: int, y: int|
                        0 <= d < out@.len() && 0 <= y < types@.len() implies (#[trigger] out@[d])@
                        != (#[trigger] types@[y]).spec_id() by {
                        if d == out@.len() - 1 {
                            if out@[d]@ == types@[y].spec_id() {
                                assert(schema_node(&graph, types@, y));
                                let s2 = choose|s2: int|
                                    0 <= s2 < graph.nodes@.len() && (
                                    #[trigger] graph.nodes@[s2]).id@ == types@[y].spec_id()
                                        && graph.nodes@[s2].kind == Some(kind_of(types@[y]))
                                        && refs_connected(&graph, s2, schema_refs(types@[y]));
                                assert(graph.nodes@[si as int].id@ == graph.nodes@[s2].id@);
                                assert(si as int == s2);
                                assert(false);
                            }
                        } else {
                            assert(out@[d] == out_pre[d]);
                        }
                    }
                }
            }
            si = si + 1;
        }
        (DependencyAnalyzer { graph }, out)
    }
}

} // verus!
