use turbine::cycle::find_cycles;
use turbine::graph::{DependencyAnalyzer, EdgeKind, NodeKind, ReferenceGraph};
use turbine::id::SchemaId;

fn url(version: u32) -> SchemaId {
    SchemaId::new("https://example.com/".to_owned(), version)
}

#[test]
fn remove_cycles_self_loop() {
    let mut graph = ReferenceGraph::new();
    let index = graph.add_node(url(1), Some(NodeKind::DataType));
    graph.update_edge(index, index, EdgeKind::Plain);

    DependencyAnalyzer::remove_cycles(&mut graph);

    assert_eq!(graph.edges[0].kind, EdgeKind::Boxed);
}

#[test]
fn remove_larger_cycle() {
    let mut graph = ReferenceGraph::new();
    let idx_a = graph.add_node(url(1), Some(NodeKind::DataType));
    let idx_b = graph.add_node(url(2), Some(NodeKind::DataType));
    let idx_c = graph.add_node(url(3), Some(NodeKind::DataType));

    graph.update_edge(idx_a, idx_b, EdgeKind::Plain);
    graph.update_edge(idx_b, idx_c, EdgeKind::Plain);
    graph.update_edge(idx_c, idx_a, EdgeKind::Plain);

    DependencyAnalyzer::remove_cycles(&mut graph);

    assert_eq!(graph.edges[0].kind, EdgeKind::Boxed);
    assert_eq!(graph.edges[1].kind, EdgeKind::Plain);
    assert_eq!(graph.edges[2].kind, EdgeKind::Plain);
}

#[test]
fn correctly_identify_loop_with_self() {}

#[test]
fn overlapping_cycles() {}

#[test]
fn resolution_leaves_no_plain_cycle() {
    // two overlapping cycles: a -> b -> a and b -> c -> a
    let mut graph = ReferenceGraph::new();
    let a = graph.add_node(url(1), Some(NodeKind::PropertyType));
    let b = graph.add_node(url(2), Some(NodeKind::PropertyType));
    let c = graph.add_node(url(3), Some(NodeKind::PropertyType));
    graph.update_edge(a, b, EdgeKind::Plain);
    graph.update_edge(b, a, EdgeKind::Plain);
    graph.update_edge(b, c, EdgeKind::Plain);
    graph.update_edge(c, a, EdgeKind::Plain);

    DependencyAnalyzer::remove_cycles(&mut graph);

    assert!(find_cycles(&graph).is_empty());
    // the first edge sits on both cycles, so it is the one boxed first
    assert_eq!(graph.edges[0].kind, EdgeKind::Boxed);
}

#[test]
fn resolution_is_idempotent() {
    let mut graph = ReferenceGraph::new();
    let a = graph.add_node(url(1), Some(NodeKind::PropertyType));
    let b = graph.add_node(url(2), Some(NodeKind::PropertyType));
    graph.update_edge(a, b, EdgeKind::Plain);
    graph.update_edge(b, a, EdgeKind::Plain);

    DependencyAnalyzer::remove_cycles(&mut graph);
    let first: Vec<_> = graph.edges.clone();
    DependencyAnalyzer::remove_cycles(&mut graph);
    assert_eq!(graph.edges, first);
}

#[test]
fn array_edges_never_break() {
    // an array self-loop is fine: sequences need no boxing
    let mut graph = ReferenceGraph::new();
    let a = graph.add_node(url(1), Some(NodeKind::PropertyType));
    graph.update_edge(a, a, EdgeKind::Array);

    DependencyAnalyzer::remove_cycles(&mut graph);

    assert_eq!(graph.edges[0].kind, EdgeKind::Array);
}

#[test]
fn re_adding_an_edge_updates_its_kind() {
    let mut graph = ReferenceGraph::new();
    let a = graph.add_node(url(1), Some(NodeKind::EntityType));
    let b = graph.add_node(url(2), Some(NodeKind::PropertyType));
    graph.update_edge(a, b, EdgeKind::Plain);
    graph.update_edge(a, b, EdgeKind::Array);

    assert_eq!(graph.edges.len(), 1);
    assert_eq!(graph.edges[0].kind, EdgeKind::Array);
}
