use turbine::id::SchemaId;
use turbine::schema::{AnyType, DataSchema, EntityProperty, EntitySchema};
use turbine::store::SchemaStore;
use turbine::unify::{link_schema_id, AnalysisError, UnificationAnalyzer, UnifiedEntity};

fn id(slug: &str) -> SchemaId {
    SchemaId::new(
        format!("https://example.com/@alice/types/entity-type/{slug}/"),
        1,
    )
}

fn prop(key: &str, target: &str) -> EntityProperty {
    EntityProperty {
        key: key.to_owned(),
        target: SchemaId::new(
            format!("https://example.com/@alice/types/property-type/{target}/"),
            1,
        ),
        array: false,
    }
}

fn entity(slug: &str, properties: Vec<EntityProperty>, parents: Vec<SchemaId>) -> AnyType {
    AnyType::Entity(EntitySchema {
        id: id(slug),
        title: slug.to_owned(),
        properties,
        required: Vec::new(),
        inherits_from: parents,
    })
}

fn find<'a>(unified: &'a [(SchemaId, UnifiedEntity)], slug: &str) -> Option<&'a UnifiedEntity> {
    let wanted = id(slug);
    for (entry, u) in unified {
        if *entry == wanted {
            return Some(u);
        }
    }
    None
}

#[test]
fn own_values_win_over_inherited() {
    let e = entity("child", vec![prop("p", "x")], vec![id("parent")]);
    let p = entity("parent", vec![prop("p", "y"), prop("q", "z")], Vec::new());
    let store = SchemaStore::from_vec(vec![e, p]);
    let (_, unified, errors) = UnificationAnalyzer::new(store).run();
    assert!(errors.is_empty());

    let child = find(&unified, "child").expect("child resolves");
    assert_eq!(child.properties.len(), 2);
    assert_eq!(child.properties[0].key, "p");
    // the child's own target wins over the parent's
    assert_eq!(
        child.properties[0].target,
        SchemaId::new("https://example.com/@alice/types/property-type/x/".to_owned(), 1)
    );
    assert_eq!(child.properties[1].key, "q");
    assert!(!child.is_link);
}

#[test]
fn transitive_inheritance_unions_properties() {
    let e = entity("child", vec![prop("a", "x")], vec![id("mid")]);
    let p1 = entity("mid", vec![prop("b", "y")], vec![id("top")]);
    let p2 = entity("top", vec![prop("c", "z")], Vec::new());
    let store = SchemaStore::from_vec(vec![e, p1, p2]);
    let (_, unified, errors) = UnificationAnalyzer::new(store).run();
    assert!(errors.is_empty());

    let child = find(&unified, "child").expect("child resolves");
    let keys: Vec<&str> = child.properties.iter().map(|p| p.key.as_str()).collect();
    assert_eq!(keys, ["a", "b", "c"]);
}

#[test]
fn link_parent_sets_flag_and_is_not_merged() {
    let e = entity("connector", vec![prop("a", "x")], vec![link_schema_id()]);
    let store = SchemaStore::from_vec(vec![e]);
    let (_, unified, errors) = UnificationAnalyzer::new(store).run();
    assert!(errors.is_empty());

    let u = find(&unified, "connector").expect("resolves");
    assert!(u.is_link);
    assert_eq!(u.properties.len(), 1);
}

#[test]
fn missing_parent_is_reported_and_isolated() {
    let e1 = entity("needy", vec![prop("a", "x")], vec![id("absent")]);
    let e2 = entity("fine", vec![prop("b", "y")], Vec::new());
    let store = SchemaStore::from_vec(vec![e1, e2]);
    let analyzer = UnificationAnalyzer::new(store);
    let (_, unified, errors) = analyzer.run();

    let mut reported = false;
    for e in &errors {
        if let AnalysisError::IncompleteGraph(x) = e {
            assert_eq!(*x, id("absent"));
            reported = true;
        }
    }
    assert!(reported);
    // the unaffected entity still resolves, and so does the dependent one,
    // with its own properties only
    assert!(find(&unified, "fine").is_some());
    let needy = find(&unified, "needy").expect("best effort");
    assert_eq!(needy.properties.len(), 1);
}

#[test]
fn caller_supplied_fetch_completes_the_graph() {
    let e = entity("child", vec![prop("p", "x")], vec![id("parent")]);
    let store = SchemaStore::from_vec(vec![e]);
    let mut analyzer = UnificationAnalyzer::new(store);

    let missing = analyzer.next_missing().expect("parent is missing");
    assert_eq!(missing, id("parent"));
    let fetched = entity("parent", vec![prop("q", "z")], Vec::new());
    analyzer.supply(missing, Some(fetched));
    assert!(analyzer.next_missing().is_none());

    let (_, unified, errors) = analyzer.run();
    assert!(errors.is_empty());
    let child = find(&unified, "child").expect("resolves");
    assert_eq!(child.properties.len(), 2);
}

#[test]
fn fetch_miss_is_marked_and_not_asked_again() {
    let e = entity("child", Vec::new(), vec![id("parent")]);
    let store = SchemaStore::from_vec(vec![e]);
    let mut analyzer = UnificationAnalyzer::new(store);

    let missing = analyzer.next_missing().expect("parent is missing");
    analyzer.supply(missing, None);
    assert!(analyzer.next_missing().is_none());
}

#[test]
fn inheritance_cycle_is_reported() {
    let a = entity("a", Vec::new(), vec![id("b")]);
    let b = entity("b", Vec::new(), vec![id("a")]);
    let c = entity("c", Vec::new(), Vec::new());
    let store = SchemaStore::from_vec(vec![a, b, c]);
    let (_, unified, errors) = UnificationAnalyzer::new(store).run();

    let mut cycles = 0;
    for e in &errors {
        if let AnalysisError::UnificationCycle(x) = e {
            assert!(*x == id("a") || *x == id("b"));
            cycles += 1;
        }
    }
    assert_eq!(cycles, 2);
    assert!(find(&unified, "a").is_none());
    assert!(find(&unified, "b").is_none());
    assert!(find(&unified, "c").is_some());
}

#[test]
fn non_entity_parent_is_unsupported() {
    let d = AnyType::Data(DataSchema {
        id: SchemaId::new("https://example.com/@alice/types/data-type/text/".to_owned(), 1),
        title: "text".to_owned(),
    });
    let e = entity(
        "child",
        Vec::new(),
        vec![SchemaId::new("https://example.com/@alice/types/data-type/text/".to_owned(), 1)],
    );
    let store = SchemaStore::from_vec(vec![d, e]);
    let (_, _, errors) = UnificationAnalyzer::new(store).run();

    assert!(errors.iter().any(|e| matches!(e, AnalysisError::UnsupportedUnification(_))));
}

#[test]
fn required_names_join() {
    let mut child = EntitySchema {
        id: id("child"),
        title: "child".to_owned(),
        properties: Vec::new(),
        required: vec!["a".to_owned()],
        inherits_from: vec![id("parent")],
    };
    child.required.push("shared".to_owned());
    let parent = EntitySchema {
        id: id("parent"),
        title: "parent".to_owned(),
        properties: Vec::new(),
        required: vec!["b".to_owned(), "shared".to_owned()],
        inherits_from: Vec::new(),
    };
    let store = SchemaStore::from_vec(vec![AnyType::Entity(child), AnyType::Entity(parent)]);
    let (_, unified, errors) = UnificationAnalyzer::new(store).run();
    assert!(errors.is_empty());
    let u = find(&unified, "child").expect("resolves");
    let names: Vec<&str> = u.required.iter().map(|s| s.as_str()).collect();
    assert_eq!(names, ["a", "shared", "b"]);
}

#[test]
fn cycle_blocked_entities_still_report_missing_parents() {
    // a and b block each other; a also references a missing parent, which
    // must still be reported in the same pass
    let a = entity("a", Vec::new(), vec![id("b"), id("absent")]);
    let b = entity("b", Vec::new(), vec![id("a")]);
    let store = SchemaStore::from_vec(vec![a, b]);
    let (_, unified, errors) = UnificationAnalyzer::new(store).run();

    assert!(unified.is_empty());
    assert!(errors.iter().any(
        |e| matches!(e, AnalysisError::IncompleteGraph(x) if *x == id("absent"))
    ));
    assert!(errors.iter().any(
        |e| matches!(e, AnalysisError::UnificationCycle(x) if *x == id("a"))
    ));
    assert!(errors.iter().any(
        |e| matches!(e, AnalysisError::UnificationCycle(x) if *x == id("b"))
    ));
}
