use turbine::id::SchemaId;
use turbine::name::{Flavor, Location, LocationKind, Mode, NameResolver};
use turbine::schema::{AnyType, EntitySchema};
use turbine::store::SchemaStore;

fn bp(namespace: &str, slug: &str) -> String {
    format!("https://blockprotocol.org/@{namespace}/types/entity-type/{slug}/")
}

fn entity(base: &str, version: u32, title: &str) -> AnyType {
    AnyType::Entity(EntitySchema {
        id: SchemaId::new(base.to_owned(), version),
        title: title.to_owned(),
        properties: Vec::new(),
        required: Vec::new(),
        inherits_from: Vec::new(),
    })
}

fn resolver(values: Vec<AnyType>) -> NameResolver {
    NameResolver::new(SchemaStore::from_vec(values))
}

#[test]
fn latest_version_keeps_the_plain_name() {
    let base = bp("alice", "thing");
    let r = resolver(vec![
        entity(&base, 1, "thing"),
        entity(&base, 2, "thing"),
        entity(&base, 3, "thing"),
    ]);

    let latest = r.location(&SchemaId::new(base.clone(), 3));
    assert_eq!(latest.name.value, "Thing");
    assert_eq!(latest.name.alias.as_deref(), Some("ThingV3"));
    assert_eq!(latest.path.1.0, "mod");
    match &latest.kind {
        LocationKind::Latest { other } => {
            assert_eq!(other.len(), 2);
            assert!(other.contains(&SchemaId::new(base.clone(), 1)));
            assert!(other.contains(&SchemaId::new(base.clone(), 2)));
        },
        LocationKind::Version => panic!("newest version must be the latest location"),
    }
}

#[test]
fn older_versions_are_demoted_and_suffixed() {
    let base = bp("alice", "thing");
    let r = resolver(vec![
        entity(&base, 1, "thing"),
        entity(&base, 2, "thing"),
        entity(&base, 3, "thing"),
    ]);

    let v1 = r.location(&SchemaId::new(base.clone(), 1));
    assert_eq!(v1.name.value, "ThingV1");
    assert!(v1.name.alias.is_none());
    assert!(matches!(v1.kind, LocationKind::Version));
    assert_eq!(v1.path.1.0, "v1");
    // demoted under a directory named after the schema
    assert_eq!(v1.path.0.last().unwrap().0, "thing");

    let v2 = r.location(&SchemaId::new(base.clone(), 2));
    assert_eq!(v2.name.value, "ThingV2");
    assert_eq!(v2.path.1.0, "v2");
}

#[test]
fn flavor_decomposes_block_protocol_urls() {
    let base = bp("alice", "my-thing");
    let r = resolver(vec![entity(&base, 1, "fallback title")]);
    let loc = r.location(&SchemaId::new(base.clone(), 1));

    assert_eq!(loc.name.value, "MyThing");
    let dirs: Vec<&str> = loc.path.0.iter().map(|d| d.0.as_str()).collect();
    assert_eq!(dirs, ["https_blockprotocol_org", "alice", "entity"]);
    assert_eq!(loc.path.1.0, "my_thing");
}

#[test]
fn unknown_urls_fall_back_to_the_title() {
    let base = "http://localhost:3000/unstructured".to_owned();
    let r = resolver(vec![entity(&base, 1, "some fallback")]);
    let loc = r.location(&SchemaId::new(base.clone(), 1));

    assert_eq!(loc.name.value, "SomeFallback");
    assert!(loc.path.0.is_empty());
}

fn location_fields(l: &Location) -> (Vec<String>, String, String, Option<String>, Option<String>) {
    (
        l.path.0.iter().map(|d| d.0.clone()).collect(),
        l.path.1.0.clone(),
        l.name.value.clone(),
        l.name.alias.clone(),
        l.alias.clone(),
    )
}

#[test]
fn colliding_names_get_distinct_aliases() {
    // two distinct namespaces, one slug: the first-pass names collide
    let a = bp("alice", "thing");
    let b = bp("bob", "thing");
    let r = resolver(vec![entity(&a, 1, "thing a"), entity(&b, 1, "thing b")]);

    let ids = vec![SchemaId::new(a.clone(), 1), SchemaId::new(b.clone(), 1)];
    let out = r.locations(&ids);
    assert_eq!(out.len(), 2);
    assert_eq!(out[0].1.name.value, "Thing");
    assert_eq!(out[1].1.name.value, "Thing");
    let alias0 = out[0].1.alias.clone().expect("collision gets an alias");
    let alias1 = out[1].1.alias.clone().expect("collision gets an alias");
    assert_ne!(alias0, alias1);
    assert_eq!(alias0, "Thing0");
    assert_eq!(alias1, "Thing1");
}

#[test]
fn batch_assignment_ignores_input_order() {
    let a = bp("alice", "thing");
    let b = bp("bob", "thing");
    let c = bp("carol", "other");
    let make = || {
        resolver(vec![
            entity(&a, 1, "a"),
            entity(&b, 1, "b"),
            entity(&c, 1, "c"),
        ])
    };

    let forward = make().locations(&vec![
        SchemaId::new(a.clone(), 1),
        SchemaId::new(b.clone(), 1),
        SchemaId::new(c.clone(), 1),
    ]);
    let backward = make().locations(&vec![
        SchemaId::new(c.clone(), 1),
        SchemaId::new(b.clone(), 1),
        SchemaId::new(a.clone(), 1),
        SchemaId::new(b.clone(), 1),
    ]);

    assert_eq!(forward.len(), backward.len());
    for (x, y) in forward.iter().zip(backward.iter()) {
        assert_eq!(x.0, y.0);
        assert_eq!(location_fields(&x.1), location_fields(&y.1));
    }
}

#[test]
fn singleton_names_get_no_alias() {
    let a = bp("alice", "thing");
    let r = resolver(vec![entity(&a, 1, "a")]);
    let out = r.locations(&vec![SchemaId::new(a.clone(), 1)]);
    assert_eq!(out.len(), 1);
    assert!(out[0].1.alias.is_none());
}

#[test]
fn version_suffix_renders_decimals() {
    let base = bp("alice", "thing");
    let r = resolver(vec![entity(&base, 12, "thing"), entity(&base, 120, "thing")]);
    let v12 = r.location(&SchemaId::new(base.clone(), 12));
    assert_eq!(v12.name.value, "ThingV12");
    assert_eq!(v12.path.1.0, "v12");
}

#[test]
fn property_names_are_snake_cased() {
    let base = bp("alice", "my-thing");
    let r = resolver(vec![entity(&base, 1, "title")]);
    let p = r.property_name(&SchemaId::new(base.clone(), 1));
    assert_eq!(p.0, "my_thing");
}

#[test]
fn colliding_property_names_get_position_suffixes() {
    let a = bp("alice", "thing");
    let b = bp("bob", "thing");
    let r = resolver(vec![entity(&a, 1, "a"), entity(&b, 1, "b")]);

    let out = r.property_names(&vec![SchemaId::new(a.clone(), 1), SchemaId::new(b.clone(), 1)]);
    assert_eq!(out.len(), 2);
    assert_eq!(out[0].1.0, "thing_0");
    assert_eq!(out[1].1.0, "thing_1");
}

#[test]
fn only_the_path_component_is_matched() {
    // the flavor pattern occurs in the query, not in the path, so the
    // flavor must not match and the title is used instead
    let base = "https://example.com/nothing?x=/@alice/types/entity-type/thing/".to_owned();
    let r = resolver(vec![entity(&base, 1, "query title")]);
    let loc = r.location(&SchemaId::new(base.clone(), 1));
    assert_eq!(loc.name.value, "QueryTitle");
    assert!(loc.path.0.is_empty());
}

#[test]
fn patterns_without_required_groups_are_rejected() {
    let good = "/@(?P<namespace>[\\w-]+)/types/(?P<kind>data|property|entity)-type/(?P<id>[\\w\\-_%]+)/";
    assert!(Mode::MatchPath.verify_pattern(good));
    // the path mode does not require an origin group, the whole-URL mode does
    assert!(!Mode::MatchAll.verify_pattern(good));
    assert!(!Mode::MatchPath.verify_pattern("no groups here"));
    assert!(!Mode::MatchPath.verify_pattern("(unbalanced"));

    assert!(Flavor::new("custom".to_owned(), Mode::MatchPath, good.to_owned()).is_ok());
    assert!(Flavor::new("custom".to_owned(), Mode::MatchPath, "x".to_owned()).is_err());
}

#[test]
fn custom_flavors_extend_the_resolver() {
    let base = "https://types.example.com/org/entity/widget/".to_owned();
    let mut r = resolver(vec![entity(&base, 1, "ignored title")]);
    let flavor = Flavor::new(
        "local".to_owned(),
        Mode::MatchAll,
        "(?P<origin>https://types\\.example\\.com)/org/(?P<kind>data|property|entity)/(?P<id>[\\w-]+)/"
            .to_owned(),
    )
    .expect("pattern carries the required groups");
    r.with_flavor(flavor);
    let loc = r.location(&SchemaId::new(base.clone(), 1));
    assert_eq!(loc.name.value, "Widget");
    let dirs: Vec<&str> = loc.path.0.iter().map(|d| d.0.as_str()).collect();
    assert_eq!(dirs, ["https_types_example_com", "entity"]);
}
