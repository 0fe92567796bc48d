use crate::digest::D;
use crate::ordered::OrderedMap;
use vstd::prelude::*;

verus! {

/// An identifier of an object type, of a field or of a node.
pub type ID = u32;

/// One step of a path: a field of an object, and a place in that field's list.
#[derive(Clone, Copy, Debug, PartialEq, Eq, Hash, Structural)]
pub struct Selector {
    pub field_id: ID,
    pub index: usize,
}

/// A walk from a root node down through nested objects.
pub type Path = Vec<Selector>;

/// The type of a field's values.
#[derive(Clone, Copy, Debug, PartialEq, Eq, Structural)]
pub enum Type {
    String,
    Int,
    Number,
    Boolean,
    Object(ID),
}

/// An object: its type, and for each field the digests of its children in
/// order.
#[derive(Clone, Debug, PartialEq, Eq)]
pub struct ObjectValue {
    pub object_type_id: ID,
    pub fields: OrderedMap<Vec<D>>,
}

/// The payload of a node. A number is held as the bit pattern of its IEEE 754
/// double.
#[derive(Clone, Debug, Default, PartialEq)]
pub enum Value {
    #[default]
    Empty,
    String(String),
    Int(i64),
    Number(u64),
    Boolean(bool),
    Object(ObjectValue),
}

/// The unit of storage: a value under an informational identifier.
#[derive(Clone, Debug, Default, PartialEq)]
pub struct Node {
    pub id: ID,
    pub value: Value,
}

/// What an object is: its type, and under each field a sequence of digests.
pub struct ObjectView {
    pub object_type_id: u32,
    pub fields: Map<u32, Seq<D>>,
}

/// What a value is.
pub enum ValueView {
    Empty,
    String(Seq<char>),
    Int(i64),
    Number(u64),
    Boolean(bool),
    Object(ObjectView),
}

/// What a node is.
pub struct NodeView {
    pub id: u32,
    pub value: ValueView,
}

/// The list of digests under a field, empty where the object has no such
/// field.
pub open spec fn field_list(fields: Map<u32, Seq<D>>, field_id: u32) -> Seq<D> {
    if fields.contains_key(field_id) {
        fields[field_id]
    } else {
        Seq::empty()
    }
}

/// The fields of an object, each list as the sequence of its digests.
pub open spec fn fields_view(fields: Map<u32, Vec<D>>) -> Map<u32, Seq<D>> {
    fields.map_values(|list: Vec<D>| list@)
}

impl View for ObjectValue {
    type V = ObjectView;

    open spec fn view(&self) -> ObjectView {
        ObjectView {
            object_type_id: self.object_type_id,
            fields: fields_view(self.fields@),
        }
    }
}

impl View for Value {
    type V = ValueView;

    open spec fn view(&self) -> ValueView {
        match self {
            Value::Empty => ValueView::Empty,
            Value::String(s) => ValueView::String(s@),
            Value::Int(i) => ValueView::Int(*i),
            Value::Number(bits) => ValueView::Number(*bits),
            Value::Boolean(b) => ValueView::Boolean(*b),
            Value::Object(o) => ValueView::Object(o@),
        }
    }
}

impl View for Node {
    type V = NodeView;

    open spec fn view(&self) -> NodeView {
        NodeView { id: self.id, value: self.value@ }
    }
}

/// A copy of a list of digests.
pub fn copy_digests(list: &Vec<D>) -> (copy: Vec<D>)
    ensures
        copy@ == list@,
{
    let mut copy: Vec<D> = Vec::new();
    let mut i: usize = 0;
    while i < list.len()
        invariant
            i <= list.len(),
            copy@ == list@.subrange(0, i as int),
        decreases list.len() - i,
    {
        copy.push(list[i]);
        assert(copy@ =~= list@.subrange(0, i + 1));
        i += 1;
    }
    assert(copy@ =~= list@);
    copy
}

impl ObjectValue {
    /// An object of the given type without fields.
    pub fn new(object_type_id: ID) -> (object: Self)
        ensures
            object@ == (ObjectView { object_type_id, fields: Map::empty() }),
    {
        let object = ObjectValue { object_type_id, fields: OrderedMap::new() };
        assert(object@.fields =~= Map::empty());
        object
    }

    /// The list under a field, empty where the object has no such field.
    fn list_of(&self, field_id: ID) -> (list: Vec<D>)
        ensures
            list@ == field_list(self@.fields, field_id),
    {
        match self.fields.get(field_id) {
            Some(found) => copy_digests(found),
            None => {
                Vec::new()
            },
        }
    }

    /// Puts a list under a field.
    fn put_list(&mut self, field_id: ID, list: Vec<D>)
        ensures
            final(self)@.object_type_id == old(self)@.object_type_id,
            final(self)@.fields == old(self)@.fields.insert(field_id, list@),
    {
        self.fields.insert(field_id, list);
        assert(self@.fields =~= old(self)@.fields.insert(field_id, list@));
    }

    /// Adds a digest at the end of a field's list. A field that the object
    /// does not have yet starts with an empty list.
    pub fn append(&mut self, field_id: ID, value: D)
        ensures
            final(self)@.object_type_id == old(self)@.object_type_id,
            final(self)@.fields == old(self)@.fields.insert(
                field_id,
                field_list(old(self)@.fields, field_id).push(value),
            ),
    {
        let mut list = self.list_of(field_id);
        list.push(value);
        self.put_list(field_id, list);
    }

    /// Takes the entry at `index` out of a field's list; the entries behind it
    /// move one place down. An object without the field stays as it is.
    pub fn delete(&mut self, field_id: ID, index: usize)
        requires
            old(self)@.fields.contains_key(field_id) ==> index < old(self)@.fields[field_id].len(),
        ensures
            final(self)@.object_type_id == old(self)@.object_type_id,
            final(self)@.fields == if old(self)@.fields.contains_key(field_id) {
                old(self)@.fields.insert(field_id, old(self)@.fields[field_id].remove(index as int))
            } else {
                old(self)@.fields
            },
    {
        if self.fields.get(field_id).is_some() {
            let mut list = self.list_of(field_id);
            list.remove(index);
            self.put_list(field_id, list);
        }
    }

    /// Puts a digest in place of the entry at `index` of a field's list, where
    /// there is such an entry. A field that the object does not have yet
    /// starts with an empty list.
    pub fn set(&mut self, field_id: ID, index: usize, value: D)
        ensures
            final(self)@.object_type_id == old(self)@.object_type_id,
            final(self)@.fields == old(self)@.fields.insert(
                field_id,
                if index < field_list(old(self)@.fields, field_id).len() {
                    field_list(old(self)@.fields, field_id).update(index as int, value)
                } else {
                    field_list(old(self)@.fields, field_id)
                },
            ),
    {
        let mut list = self.list_of(field_id);
        if index < list.len() {
            list.set(index, value);
        }
        self.put_list(field_id, list);
    }

    /// The number of entries of a field's list: none where the object has no
    /// such field.
    pub fn count(&self, field_id: ID) -> (n: usize)
        ensures
            n == field_list(self@.fields, field_id).len(),
    {
        match self.fields.get(field_id) {
            Some(list) => list.len(),
            None => 0,
        }
    }

    /// The digest at `index` of a field's list, if there is one.
    pub fn get(&self, field_id: ID, index: usize) -> (found: Option<&D>)
        ensures
            match found {
                Some(d) => index < field_list(self@.fields, field_id).len() && *d == field_list(
                    self@.fields,
                    field_id,
                )[index as int],
                None => index >= field_list(self@.fields, field_id).len(),
            },
    {
        match self.fields.get(field_id) {
            Some(list) => {
                if index < list.len() {
                    Some(&list[index])
                } else {
                    None
                }
            },
            None => None,
        }
    }
}

} // verus!
