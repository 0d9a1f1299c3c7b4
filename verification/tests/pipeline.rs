use turbine::graph::{DependencyAnalyzer, EdgeKind, NodeKind};
use turbine::id::SchemaId;
use turbine::schema::{
    AnyType, DataSchema, EntityProperty, EntitySchema, ObjectProperty, PropertySchema,
    PropertyValues,
};
use turbine::store::SchemaStore;
use turbine::process;

fn data(slug: &str) -> AnyType {
    AnyType::Data(DataSchema {
        id: SchemaId::new(
            format!("https://blockprotocol.org/@alice/types/data-type/{slug}/"),
            1,
        ),
        title: slug.to_owned(),
    })
}

fn data_id(slug: &str) -> SchemaId {
    SchemaId::new(format!("https://blockprotocol.org/@alice/types/data-type/{slug}/"), 1)
}

fn property_id(slug: &str) -> SchemaId {
    SchemaId::new(format!("https://blockprotocol.org/@alice/types/property-type/{slug}/"), 1)
}

fn entity_id(slug: &str) -> SchemaId {
    SchemaId::new(format!("https://blockprotocol.org/@alice/types/entity-type/{slug}/"), 1)
}

#[test]
fn compile() {}

#[test]
fn store_replaces_on_reinsert() {
    let mut store = SchemaStore::new();
    store.insert(data("text"));
    store.insert(data("text"));
    assert_eq!(store.len(), 1);
    assert!(store.get(&data_id("text")).is_some());
    assert!(store.get(&data_id("number")).is_none());
}

#[test]
fn builder_walks_declared_references() {
    // an entity with one plain and one array property, a property type
    // pointing at a data type, and a dangling reference
    let text = data("text");
    let prop = AnyType::Property(PropertySchema {
        id: property_id("name"),
        title: "name".to_owned(),
        one_of: vec![PropertyValues::DataTypeReference(data_id("text"))],
    });
    let ent = AnyType::Entity(EntitySchema {
        id: entity_id("person"),
        title: "person".to_owned(),
        properties: vec![
            EntityProperty { key: "name".to_owned(), target: property_id("name"), array: false },
            EntityProperty { key: "tags".to_owned(), target: property_id("tags"), array: true },
        ],
        required: Vec::new(),
        inherits_from: Vec::new(),
    });
    let store = SchemaStore::from_vec(vec![text, prop, ent]);
    let (analyzer, dangling) = DependencyAnalyzer::new(store.items());
    let graph = &analyzer.graph;

    // "tags" has no schema: it is a dangling node
    assert_eq!(dangling.len(), 1);
    assert_eq!(dangling[0], property_id("tags"));

    let person = graph.node_index(&entity_id("person")).unwrap();
    let name = graph.node_index(&property_id("name")).unwrap();
    let tags = graph.node_index(&property_id("tags")).unwrap();
    let text_node = graph.node_index(&data_id("text")).unwrap();
    assert_eq!(graph.nodes[person].kind, Some(NodeKind::EntityType));
    assert_eq!(graph.nodes[tags].kind, None);

    let mut found = 0;
    for e in &graph.edges {
        if e.source == person && e.target == name {
            assert_eq!(e.kind, EdgeKind::Plain);
            found += 1;
        }
        if e.source == person && e.target == tags {
            assert_eq!(e.kind, EdgeKind::Array);
            found += 1;
        }
        if e.source == name && e.target == text_node {
            assert_eq!(e.kind, EdgeKind::Plain);
            found += 1;
        }
    }
    assert_eq!(found, 3);
    assert_eq!(graph.edges.len(), 3);
}

#[test]
fn self_referencing_property_is_boxed() {
    // a property type whose object shape points back at itself
    let prop = AnyType::Property(PropertySchema {
        id: property_id("tree"),
        title: "tree".to_owned(),
        one_of: vec![PropertyValues::PropertyTypeObject(vec![ObjectProperty {
            key: "child".to_owned(),
            target: property_id("tree"),
            array: false,
        }])],
    });
    let store = SchemaStore::from_vec(vec![prop]);
    let (analyzer, dangling) = DependencyAnalyzer::new(store.items());
    assert!(dangling.is_empty());
    assert_eq!(analyzer.graph.edges.len(), 1);
    assert_eq!(analyzer.graph.edges[0].kind, EdgeKind::Boxed);
}

#[test]
fn arrays_of_arrays_resolve_to_one_array_edge() {
    let prop = AnyType::Property(PropertySchema {
        id: property_id("matrix"),
        title: "matrix".to_owned(),
        one_of: vec![PropertyValues::ArrayOfPropertyValues(vec![
            PropertyValues::ArrayOfPropertyValues(vec![PropertyValues::DataTypeReference(
                data_id("number"),
            )]),
        ])],
    });
    let store = SchemaStore::from_vec(vec![prop, data("number")]);
    let (analyzer, _) = DependencyAnalyzer::new(store.items());
    assert_eq!(analyzer.graph.edges.len(), 1);
    assert_eq!(analyzer.graph.edges[0].kind, EdgeKind::Array);
}

#[test]
fn pipeline_produces_all_outputs() {
    let text = data("text");
    let prop = AnyType::Property(PropertySchema {
        id: property_id("name"),
        title: "name".to_owned(),
        one_of: vec![PropertyValues::DataTypeReference(data_id("text"))],
    });
    let ent = AnyType::Entity(EntitySchema {
        id: entity_id("person"),
        title: "person".to_owned(),
        properties: vec![EntityProperty {
            key: "name".to_owned(),
            target: property_id("name"),
            array: false,
        }],
        required: vec!["name".to_owned()],
        inherits_from: Vec::new(),
    });

    let out = process(vec![text, prop, ent]);
    assert!(out.errors.is_empty());
    assert!(out.dangling.is_empty());
    assert_eq!(out.analyzer.graph.nodes.len(), 3);
    assert_eq!(out.unified.len(), 1);
    assert_eq!(out.unified[0].0, entity_id("person"));
    assert_eq!(out.locations.len(), 3);
    // batch entries come out sorted by identifier
    assert_eq!(out.locations[0].0, data_id("text"));
    assert_eq!(out.locations[1].0, entity_id("person"));
    assert_eq!(out.locations[2].0, property_id("name"));
}
