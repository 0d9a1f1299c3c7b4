use turbine::data::{Boolean, EmptyList, Null, Text, TextRef, TypeRef};
use turbine::path::{EntityPath, EntityPathIterator, LinkedPathSegment, PathSegment};
use turbine::select::{Condition, JsonPath, Segment};
use turbine::urls::{BaseUrlRef, VersionedUrlRef};

#[test]
fn text_round_trips_through_borrowed_form() {
    let t = Text::new("hello".to_owned());
    let r = TextRef(t.0.as_str());
    assert_eq!(r.as_str(), "hello");
    let owned = r.into_owned();
    assert_eq!(owned.0, "hello");
}

#[test]
fn plain_value_wrappers_hold_their_values() {
    assert_eq!(Boolean(true), Boolean(true));
    assert_ne!(Boolean(true), Boolean(false));
    assert_eq!(Null, Null);
    assert_eq!(EmptyList, EmptyList);
}

#[test]
fn versioned_url_refs_expose_their_parts() {
    let base = BaseUrlRef::new_unchecked("https://example.com/");
    let url = VersionedUrlRef::new_unchecked(base, 7);
    assert_eq!(url.base().as_str(), "https://example.com/");
    assert_eq!(url.version(), 7);
}

#[test]
fn json_paths_append_segments() {
    let p = JsonPath::new().then(Segment::Field("a".to_owned())).then(Segment::Index(3));
    assert_eq!(p.0.len(), 2);
    assert!(matches!(p.0[0], Segment::Field(_)));
    assert!(matches!(p.0[1], Segment::Index(3)));
    assert!(matches!(Condition::Equals, Condition::Equals));
}

#[test]
fn entity_path_iterator_walks_linked_segments() {
    let segs = [PathSegment::Field("a".to_owned()), PathSegment::Index(1)];
    let tail = EntityPath::new(&segs);
    let head_seg = PathSegment::Field("head".to_owned());
    let linked = LinkedPathSegment::new(
        &head_seg,
        Some(turbine::path::Next::Borrowed(&tail)),
    );
    let mut iter = EntityPathIterator::Linked(&linked);
    assert!(matches!(iter.next(), Some(PathSegment::Field(_))));
    assert!(matches!(iter.next(), Some(PathSegment::Field(_))));
    assert!(matches!(iter.next(), Some(PathSegment::Index(1))));
    assert!(iter.next().is_none());
    assert!(iter.next().is_none());
}
