//! The schema data model.
//!
//! A schema is one of three kinds: an opaque data type, a property type
//! (a disjunction of value shapes), or an entity type (a flat map of named
//! property references plus inheritance declarations).  The analysis
//! pipeline never parses surface syntax; it consumes already-validated
//! schema values.

use vstd::prelude::*;

use crate::id::{IdView, SchemaId};

verus! {

/// An opaque leaf schema: no outgoing references.
#[derive(Debug)]
pub struct DataSchema {
    pub id: SchemaId,
    pub title: String,
}

/// One named entry of a property-type object shape: a reference to a
/// property type, either single-valued or array-valued.
#[derive(Debug)]
pub struct ObjectProperty {
    pub key: String,
    pub target: SchemaId,
    pub array: bool,
}

/// One alternative of a property type's disjunction.
#[derive(Debug)]
pub enum PropertyValues {
    /// A direct reference to a data type.
    DataTypeReference(SchemaId),
    /// A nested object of named property references.
    PropertyTypeObject(Vec<ObjectProperty>),
    /// An array of further value shapes.
    ArrayOfPropertyValues(Vec<PropertyValues>),
}

/// A property type: a disjunction ("one of") of value shapes.
#[derive(Debug)]
pub struct PropertySchema {
    pub id: SchemaId,
    pub title: String,
    pub one_of: Vec<PropertyValues>,
}

/// One named property of an entity type: a reference to a property type,
/// either single-valued or array-valued.
#[derive(Debug)]
pub struct EntityProperty {
    pub key: String,
    pub target: SchemaId,
    pub array: bool,
}

/// An entity type: named property references, required property names,
/// and the entity types it inherits from.
#[derive(Debug)]
pub struct EntitySchema {
    pub id: SchemaId,
    pub title: String,
    pub properties: Vec<EntityProperty>,
    pub required: Vec<String>,
    pub inherits_from: Vec<SchemaId>,
}

/// Mathematical value of one named entity property reference.
#[verifier::ext_equal]
pub ghost struct PropEntry {
    pub key: Seq<char>,
    pub target: IdView,
    pub array: bool,
}

impl View for EntityProperty {
    type V = PropEntry;

    open spec fn view(&self) -> PropEntry {
        PropEntry { key: self.key@, target: self.target@, array: self.array }
    }
}

impl Clone for EntityProperty {
    fn clone(&self) -> (r: Self)
        ensures
            r@ == self@,
    {
        EntityProperty { key: self.key.clone(), target: self.target.clone(), array: self.array }
    }
}

/// Mathematical value of an entity type.
#[verifier::ext_equal]
pub ghost struct EntityView {
    pub id: IdView,
    pub title: Seq<char>,
    pub props: Seq<PropEntry>,
    pub required: Seq<Seq<char>>,
    pub parents: Seq<IdView>,
}

impl View for EntitySchema {
    type V = EntityView;

    open spec fn view(&self) -> EntityView {
        EntityView {
            id: self.id@,
            title: self.title@,
            props: self.properties@.map_values(|p: EntityProperty| p@),
            required: self.required@.map_values(|s: String| s@),
            parents: self.inherits_from@.map_values(|p: SchemaId| p@),
        }
    }
}

impl Clone for EntitySchema {
    fn clone(&self) -> (r: Self)
        ensures
            r@ == self@,
    {
        let r = EntitySchema {
            id: self.id.clone(),
            title: self.title.clone(),
            properties: clone_properties(&self.properties),
            required: clone_strings(&self.required),
            inherits_from: clone_ids(&self.inherits_from),
        };
        proof {
            assert(r@.props =~= self@.props);
            assert(r@.required =~= self@.required);
            assert(r@.parents =~= self@.parents);
            assert(r@ =~= self@);
        }
        r
    }
}

pub(crate) fn clone_properties(v: &Vec<EntityProperty>) -> (r: Vec<EntityProperty>)
    ensures
        r@.map_values(|p: EntityProperty| p@) == v@.map_values(|p: EntityProperty| p@),
{
    let mut r: Vec<EntityProperty> = Vec::new();
    let mut i: usize = 0;
    while i < v.len()
        invariant
            i <= v@.len(),
            r@.len() == i,
            forall|k: int| 0 <= k < i ==> (#[trigger] r@[k])@ == v@[k]@,
        decreases v@.len() - i,
    {
        r.push(v[i].clone());
        i = i + 1;
    }
    proof {
        assert(r@.map_values(|p: EntityProperty| p@) =~= v@.map_values(|p: EntityProperty| p@));
    }
    r
}

pub(crate) fn clone_strings(v: &Vec<String>) -> (r: Vec<String>)
    ensures
        r@.map_values(|s: String| s@) == v@.map_values(|s: String| s@),
{
    let mut r: Vec<String> = Vec::new();
    let mut i: usize = 0;
    while i < v.len()
        invariant
            i <= v@.len(),
            r@.len() == i,
            forall|k: int| 0 <= k < i ==> (#[trigger] r@[k])@ == v@[k]@,
        decreases v@.len() - i,
    {
        r.push(v[i].clone());
        i = i + 1;
    }
    proof {
        assert(r@.map_values(|s: String| s@) =~= v@.map_values(|s: String| s@));
    }
    r
}

pub(crate) fn clone_ids(v: &Vec<SchemaId>) -> (r: Vec<SchemaId>)
    ensures
        r@.map_values(|p: SchemaId| p@) == v@.map_values(|p: SchemaId| p@),
{
    let mut r: Vec<SchemaId> = Vec::new();
    let mut i: usize = 0;
    while i < v.len()
        invariant
            i <= v@.len(),
            r@.len() == i,
            forall|k: int| 0 <= k < i ==> (#[trigger] r@[k])@ == v@[k]@,
        decreases v@.len() - i,
    {
        r.push(v[i].clone());
        i = i + 1;
    }
    proof {
        assert(r@.map_values(|p: SchemaId| p@) =~= v@.map_values(|p: SchemaId| p@));
    }
    r
}

/// Tagged union over the three schema kinds.
#[derive(Debug)]
pub enum AnyType {
    Data(DataSchema),
    Property(PropertySchema),
    Entity(EntitySchema),
}

impl AnyType {
    /// The identifier of the underlying schema.
    pub open spec fn spec_id(&self) -> IdView {
        match self {
            AnyType::Data(t) => t.id@,
            AnyType::Property(t) => t.id@,
            AnyType::Entity(t) => t.id@,
        }
    }

    pub fn id(&self) -> (r: &SchemaId)
        ensures
            r@ == self.spec_id(),
    {
        match self {
            AnyType::Data(t) => &t.id,
            AnyType::Property(t) => &t.id,
            AnyType::Entity(t) => &t.id,
        }
    }

    pub open spec fn spec_title(&self) -> Seq<char> {
        match self {
            AnyType::Data(t) => t.title@,
            AnyType::Property(t) => t.title@,
            AnyType::Entity(t) => t.title@,
        }
    }

    pub fn title(&self) -> (r: &str)
        ensures
            r@ == self.spec_title(),
    {
        match self {
            AnyType::Data(t) => t.title.as_str(),
            AnyType::Property(t) => t.title.as_str(),
            AnyType::Entity(t) => t.title.as_str(),
        }
    }
}

} // verus!
