use crate::ordered::{ascending, lemma_ascending, OrderedMap};
use crate::value::{Type, ID};
use std::collections::HashMap;
use vstd::prelude::*;

verus! {

/// A field of an object type: its name, the type of its values, and whether
/// it may hold more than one.
#[derive(Clone, Debug, PartialEq)]
pub struct FieldType {
    pub name: String,
    pub type_: Type,
    pub repeated: bool,
}

/// An object type: its name and its fields. The order of the fields is the
/// increasing order of their identifiers.
#[derive(Clone, Debug, PartialEq)]
pub struct ObjectType {
    pub name: String,
    pub fields: OrderedMap<FieldType>,
}

/// The object types of a document, and the type of its root.
#[derive(Clone, Debug)]
pub struct Schema {
    pub root_object_type_id: ID,
    pub object_types: HashMap<ID, ObjectType>,
}

/// What a field of an object type is.
pub struct FieldTypeView {
    pub name: Seq<char>,
    pub type_: Type,
    pub repeated: bool,
}

/// What an object type is.
pub struct ObjectTypeView {
    pub name: Seq<char>,
    pub fields: Map<u32, FieldTypeView>,
}

/// What a schema is.
pub struct SchemaView {
    pub root_object_type_id: u32,
    pub object_types: Map<u32, ObjectTypeView>,
}

impl View for FieldType {
    type V = FieldTypeView;

    open spec fn view(&self) -> FieldTypeView {
        FieldTypeView { name: self.name@, type_: self.type_, repeated: self.repeated }
    }
}

impl View for ObjectType {
    type V = ObjectTypeView;

    open spec fn view(&self) -> ObjectTypeView {
        ObjectTypeView { name: self.name@, fields: self.fields@.map_values(|f: FieldType| f@) }
    }
}

impl View for Schema {
    type V = SchemaView;

    open spec fn view(&self) -> SchemaView {
        SchemaView {
            root_object_type_id: self.root_object_type_id,
            object_types: self.object_types@.map_values(|t: ObjectType| t@),
        }
    }
}

impl ObjectTypeView {
    /// An object type of the given name without fields.
    pub open spec fn named(name: Seq<char>) -> ObjectTypeView {
        ObjectTypeView { name, fields: Map::empty() }
    }

    /// The object type with one more field, which takes the place of a
    /// field with the same identifier.
    pub open spec fn with_field(self, id: u32, name: Seq<char>, type_: Type, repeated: bool) -> ObjectTypeView {
        ObjectTypeView {
            name: self.name,
            fields: self.fields.insert(id, FieldTypeView { name, type_, repeated }),
        }
    }
}

impl SchemaView {
    /// A schema without object types.
    pub open spec fn rooted(root_object_type_id: u32) -> SchemaView {
        SchemaView { root_object_type_id, object_types: Map::empty() }
    }

    /// The schema with one more object type, which takes the place of a
    /// type with the same identifier.
    pub open spec fn with_type(self, id: u32, object_type: ObjectTypeView) -> SchemaView {
        SchemaView {
            root_object_type_id: self.root_object_type_id,
            object_types: self.object_types.insert(id, object_type),
        }
    }

    /// Whether every object type that the schema names exists in it: the
    /// type of the root, and the type of each field that holds objects.
    pub open spec fn closed(self) -> bool {
        &&& self.object_types.contains_key(self.root_object_type_id)
        &&& forall|t: u32, f: u32|
            self.object_types.contains_key(t) && #[trigger] self.object_types[t].fields.contains_key(
                f,
            ) ==> (self.object_types[t].fields[f].type_ matches Type::Object(target)
                ==> self.object_types.contains_key(target))
    }
}

impl ObjectType {
    /// An object type of the given name without fields.
    pub fn named(name: &str) -> (object_type: ObjectType)
        ensures
            object_type@ == ObjectTypeView::named(name@),
    {
        let object_type = ObjectType { name: name.to_owned(), fields: OrderedMap::new() };
        assert(object_type@.fields =~= Map::empty());
        object_type
    }

    /// The object type with one more field.
    pub fn with_field(self, id: ID, name: &str, type_: Type, repeated: bool) -> (object_type:
        ObjectType)
        ensures
            object_type@ == self@.with_field(id, name@, type_, repeated),
    {
        let mut fields = self.fields;
        fields.insert(id, FieldType { name: name.to_owned(), type_, repeated });
        let object_type = ObjectType { name: self.name, fields };
        assert(object_type@.fields =~= self@.with_field(id, name@, type_, repeated).fields);
        object_type
    }
}

impl Schema {
    /// A schema without object types.
    pub fn rooted(root_object_type_id: ID) -> (schema: Schema)
        ensures
            schema@ == SchemaView::rooted(root_object_type_id),
    {
        let schema = Schema { root_object_type_id, object_types: HashMap::new() };
        assert(schema@.object_types =~= Map::empty());
        schema
    }

    /// The schema with one more object type.
    pub fn with_type(self, id: ID, object_type: ObjectType) -> (schema: Schema)
        ensures
            schema@ == self@.with_type(id, object_type@),
    {
        broadcast use vstd::std_specs::hash::group_hash_axioms;

        let mut object_types = self.object_types;
        object_types.insert(id, object_type);
        let schema = Schema { root_object_type_id: self.root_object_type_id, object_types };
        assert(schema@.object_types =~= self@.with_type(id, object_type@).object_types);
        schema
    }

    /// The object type under an identifier, if the schema knows it.
    pub fn object_type(&self, type_id: ID) -> (found: Option<&ObjectType>)
        ensures
            match found {
                Some(t) => self@.object_types.contains_key(type_id) && t@ == self@.object_types[type_id],
                None => !self@.object_types.contains_key(type_id),
            },
    {
        broadcast use vstd::std_specs::hash::group_hash_axioms;

        self.object_types.get(&type_id)
    }
}

/// The fields that a schema declares for an object type: none where it does
/// not know the type.
pub open spec fn fields_of(schema: SchemaView, type_id: u32) -> Map<u32, FieldTypeView> {
    if schema.object_types.contains_key(type_id) {
        schema.object_types[type_id].fields
    } else {
        Map::empty()
    }
}

/// The identifiers of the fields of an object type, in their order.
pub open spec fn field_order(schema: SchemaView, type_id: u32) -> Seq<u32> {
    ascending(fields_of(schema, type_id).dom())
}

/// The first field of an object type, if it has any.
pub open spec fn first_field(schema: SchemaView, type_id: u32) -> Option<u32> {
    if field_order(schema, type_id).len() > 0 {
        Some(field_order(schema, type_id)[0])
    } else {
        None
    }
}

/// A type that a schema does not know has no fields.
pub proof fn lemma_unknown_type(schema: SchemaView, type_id: u32)
    requires
        !schema.object_types.contains_key(type_id),
    ensures
        field_order(schema, type_id).len() == 0,
{
    lemma_ascending(Map::<u32, FieldTypeView>::empty().dom());
    if field_order(schema, type_id).len() > 0 {
        assert(Map::<u32, FieldTypeView>::empty().dom().contains(field_order(schema, type_id)[0]));
    }
}

impl ObjectType {
    /// The fields of the type by their views have the keys of the fields.
    pub proof fn lemma_field_keys(&self)
        ensures
            self@.fields.dom() == self.fields@.dom(),
            ascending(self@.fields.dom()) == self.fields.keys(),
    {
        assert(self@.fields.dom() =~= self.fields@.dom());
    }
}

impl Schema {
    /// The first field of an object type, if the schema knows the type and
    /// the type has a field.
    pub fn first_field_of(&self, type_id: ID) -> (first: Option<ID>)
        ensures
            first == first_field(self@, type_id),
    {
        match self.object_type(type_id) {
            Some(object_type) => {
                proof {
                    object_type.lemma_field_keys();
                }
                if object_type.fields.len() > 0 {
                    Some(object_type.fields.key_at(0))
                } else {
                    None
                }
            },
            None => {
                proof {
                    lemma_unknown_type(self@, type_id);
                }
                None
            },
        }
    }
}

} // verus!
