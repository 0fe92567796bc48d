use crate::digest::D;
use crate::encoding::{decimal_text, write_decimal};
use crate::storage::{get_item, node_at, KeyValue};
use crate::schema::{
    field_order, fields_of, first_field, lemma_unknown_type, FieldTypeView, Schema, SchemaView,
};
use crate::value::{
    field_list, Node, NodeView, ObjectValue, ObjectView, Path, Selector, Type, Value, ValueView, ID,
};
use vstd::prelude::*;

verus! {

/// Why a path cannot be followed or an edit cannot be made.
#[derive(Clone, Copy, Debug, PartialEq, Eq, Structural)]
pub enum Error {
    /// A node on the way is not in the store, or a step names a field or a
    /// place that an object does not have.
    NotFound,
    /// A step or an edit expects an object and finds another value.
    ExpectedObject,
    /// The path is empty where a last step is needed: the root has no parent
    /// to take it out of.
    NoParent,
}

/// The child that a step leads to from a node.
pub open spec fn child_at(node: NodeView, step: Selector) -> Result<D, Error> {
    match node.value {
        ValueView::Object(o) => if step.index < field_list(o.fields, step.field_id).len() {
            Ok(field_list(o.fields, step.field_id)[step.index as int])
        } else {
            Err(Error::NotFound)
        },
        _ => Err(Error::ExpectedObject),
    }
}

/// The digest that a path leads to from a root. The empty path leads to the
/// root itself; every node on the way but the last has to be in the store.
pub open spec fn resolve(texts: Map<Seq<char>, Seq<char>>, root: D, path: Seq<Selector>) -> Result<
    D,
    Error,
>
    decreases path.len(),
{
    if path.len() == 0 {
        Ok(root)
    } else {
        match node_at(texts, root) {
            None => Err(Error::NotFound),
            Some(node) => match child_at(node, path[0]) {
                Ok(child) => resolve(texts, child, path.drop_first()),
                Err(e) => Err(e),
            },
        }
    }
}

/// The node that a path leads to from a root.
pub open spec fn node_on(texts: Map<Seq<char>, Seq<char>>, root: D, path: Seq<Selector>) -> Result<
    NodeView,
    Error,
> {
    match resolve(texts, root, path) {
        Ok(d) => match node_at(texts, d) {
            Some(node) => Ok(node),
            None => Err(Error::NotFound),
        },
        Err(e) => Err(e),
    }
}

/// Following a path and then one more step is following the longer path.
pub proof fn lemma_resolve_push(
    texts: Map<Seq<char>, Seq<char>>,
    root: D,
    path: Seq<Selector>,
    step: Selector,
)
    ensures
        resolve(texts, root, path.push(step)) == match node_on(texts, root, path) {
            Ok(node) => child_at(node, step),
            Err(e) => Err(e),
        },
    decreases path.len(),
{
    let longer = path.push(step);
    if path.len() == 0 {
        assert(longer.drop_first() =~= Seq::<Selector>::empty());
        assert(longer[0] == step);
        match node_at(texts, root) {
            Some(node) => {
                match child_at(node, step) {
                    Ok(child) => {
                        assert(resolve(texts, child, longer.drop_first()) == Ok::<D, Error>(child));
                    },
                    Err(_) => {},
                }
            },
            None => {},
        }
    } else {
        assert(longer.drop_first() =~= path.drop_first().push(step));
        assert(longer[0] == path[0]);
        match node_at(texts, root) {
            Some(node) => {
                match child_at(node, path[0]) {
                    Ok(child) => {
                        lemma_resolve_push(texts, child, path.drop_first(), step);
                    },
                    Err(_) => {},
                }
            },
            None => {},
        }
    }
}

/// The child that a step leads to from a node.
pub fn step_from(node: &Node, step: &Selector) -> (child: Result<D, Error>)
    ensures
        child == child_at(node@, *step),
{
    match &node.value {
        Value::Object(object) => match object.get(step.field_id, step.index) {
            Some(d) => Ok(*d),
            None => Err(Error::NotFound),
        },
        _ => Err(Error::ExpectedObject),
    }
}

/// Follows a path from a root, starting at the step `from` with the digest
/// `at` that the steps before it led to.
fn find_from(store: &KeyValue, at: D, path: &Path, from: usize) -> (found: Result<D, Error>)
    requires
        from <= path@.len(),
    ensures
        found == resolve(store@, at, path@.skip(from as int)),
{
    let mut current = at;
    let mut i: usize = from;
    while i < path.len()
        invariant
            from <= i <= path@.len(),
            resolve(store@, at, path@.skip(from as int)) == resolve(store@, current, path@.skip(i as int)),
        decreases path@.len() - i,
    {
        proof {
            assert(path@.skip(i as int)[0] == path@[i as int]);
            assert(path@.skip(i as int).drop_first() =~= path@.skip(i + 1));
        }
        let node = match get_item(store, &current) {
            Some(node) => node,
            None => {
                return Err(Error::NotFound);
            },
        };
        match step_from(&node, &path[i]) {
            Ok(child) => {
                current = child;
            },
            Err(e) => {
                return Err(e);
            },
        }
        i += 1;
    }
    Ok(current)
}

/// The digest that a path leads to from a root. There is none where a node
/// on the way is not in the store or a step names a field or a place that an
/// object does not have; a step from a value that is no object is an error.
pub fn find_value(store: &KeyValue, root_digest: &D, path: &Path) -> (found: Result<Option<D>, Error>)
    ensures
        match found {
            Ok(Some(d)) => resolve(store@, *root_digest, path@) == Ok::<D, Error>(d),
            Ok(None) => resolve(store@, *root_digest, path@) == Err::<D, Error>(Error::NotFound),
            Err(e) => e == Error::ExpectedObject && resolve(store@, *root_digest, path@) == Err::<
                D,
                Error,
            >(e),
        },
{
    assert(path@.skip(0) =~= path@);
    match find_from(store, *root_digest, path, 0) {
        Ok(d) => Ok(Some(d)),
        Err(Error::NotFound) => Ok(None),
        Err(e) => {
            proof {
                lemma_resolve_errors(store@, *root_digest, path@);
            }
            Err(e)
        },
    }
}

/// Following a path fails only for want of a node or of an object.
pub proof fn lemma_resolve_errors(texts: Map<Seq<char>, Seq<char>>, root: D, path: Seq<Selector>)
    ensures
        resolve(texts, root, path) != Err::<D, Error>(Error::NoParent),
    decreases path.len(),
{
    if path.len() > 0 {
        match node_at(texts, root) {
            Some(node) => {
                match child_at(node, path[0]) {
                    Ok(child) => {
                        lemma_resolve_errors(texts, child, path.drop_first());
                    },
                    Err(_) => {},
                }
            },
            None => {},
        }
    }
}

/// The node that a path leads to from a root.
pub fn find_node(store: &KeyValue, root_digest: &D, path: &Path) -> (found: Result<Node, Error>)
    ensures
        match found {
            Ok(node) => node_on(store@, *root_digest, path@) == Ok::<NodeView, Error>(node@),
            Err(e) => node_on(store@, *root_digest, path@) == Err::<NodeView, Error>(e),
        },
{
    assert(path@.skip(0) =~= path@);
    match find_from(store, *root_digest, path, 0) {
        Ok(d) => match get_item(store, &d) {
            Some(node) => Ok(node),
            None => Err(Error::NotFound),
        },
        Err(e) => Err(e),
    }
}

/// A copy of a path.
pub fn copy_path(path: &Path) -> (copy: Path)
    ensures
        copy@ == path@,
{
    let mut copy: Path = Vec::new();
    let mut i: usize = 0;
    while i < path.len()
        invariant
            i <= path@.len(),
            copy@ == path@.subrange(0, i as int),
        decreases path@.len() - i,
    {
        copy.push(path[i]);
        assert(copy@ =~= path@.subrange(0, i + 1));
        i += 1;
    }
    assert(copy@ =~= path@);
    copy
}

/// The path without its last step; the empty path stays as it is.
pub open spec fn parent_of(path: Seq<Selector>) -> Seq<Selector> {
    if path.len() == 0 {
        path
    } else {
        path.drop_last()
    }
}

/// The path to the parent: the path without its last step. The root is its
/// own parent.
pub fn parent(path: &Path) -> (up: Path)
    ensures
        up@ == parent_of(path@),
{
    let mut up = copy_path(path);
    up.pop();
    up
}

/// The path to the selection before this one. Moving back is not defined
/// yet: the selection stays where it is.
pub fn prev(path: &Path) -> (same: Path)
    ensures
        same@ == path@,
{
    copy_path(path)
}

/// A path as text: each step as its field and its place in square brackets,
/// with a full stop between each two steps.
pub open spec fn path_text(path: Seq<Selector>) -> Seq<char>
    decreases path.len(),
{
    if path.len() == 0 {
        Seq::empty()
    } else {
        let step = path.last();
        let text = decimal_text(step.field_id as nat) + seq!['['] + decimal_text(step.index as nat)
            + seq![']'];
        if path.len() == 1 {
            text
        } else {
            path_text(path.drop_last()) + seq!['.'] + text
        }
    }
}

/// A path as text, such as `3[0].12[4]`.
pub fn format_path(p: &Path) -> (text: String)
    ensures
        text@ == path_text(p@),
{
    let mut text = String::new();
    let mut i: usize = 0;
    while i < p.len()
        invariant
            i <= p@.len(),
            text@ == path_text(p@.take(i as int)),
        decreases p@.len() - i,
    {
        assert(p@.take(i + 1).drop_last() =~= p@.take(i as int));
        if i > 0 {
            text.push('.');
        }
        write_decimal(&mut text, p[i].field_id as u64);
        text.push('[');
        write_decimal(&mut text, p[i].index as u64);
        text.push(']');
        assert(text@ =~= path_text(p@.take(i + 1)));
        i += 1;
    }
    assert(p@.take(p@.len() as int) =~= p@);
    text
}

/// The object that a path leads to.
pub open spec fn object_on(texts: Map<Seq<char>, Seq<char>>, root: D, path: Seq<Selector>) -> Result<
    ObjectView,
    Error,
> {
    match node_on(texts, root, path) {
        Ok(node) => match node.value {
            ValueView::Object(o) => Ok(o),
            _ => Err(Error::ExpectedObject),
        },
        Err(e) => Err(e),
    }
}

/// The object that a path leads to, as it is stored.
pub fn find_object(store: &KeyValue, root: &D, path: &Path) -> (found: Result<ObjectValue, Error>)
    ensures
        match found {
            Ok(o) => object_on(store@, *root, path@) == Ok::<ObjectView, Error>(o@),
            Err(e) => object_on(store@, *root, path@) == Err::<ObjectView, Error>(e),
        },
{
    match find_node(store, root, path) {
        Ok(node) => match node.value {
            Value::Object(o) => Ok(o),
            _ => Err(Error::ExpectedObject),
        },
        Err(e) => Err(e),
    }
}

/// The path to the first leaf under the node that a path leads to: from an
/// object, the way goes on into the first entry of the object's first
/// field, until it comes to a value that is no object. There is no leaf
/// where the way leaves the store, where an object's type has no field, or
/// where more than `fuel` objects lie on the way.
pub open spec fn first_leaf_within(
    texts: Map<Seq<char>, Seq<char>>,
    schema: SchemaView,
    root: D,
    path: Seq<Selector>,
    fuel: nat,
) -> Option<Seq<Selector>>
    decreases fuel,
{
    match node_on(texts, root, path) {
        Err(_) => None,
        Ok(node) => match node.value {
            ValueView::Object(o) => if fuel == 0 {
                None
            } else {
                match first_field(schema, o.object_type_id) {
                    None => None,
                    Some(field_id) => first_leaf_within(
                        texts,
                        schema,
                        root,
                        path.push(Selector { field_id, index: 0 }),
                        (fuel - 1) as nat,
                    ),
                }
            },
            _ => Some(path),
        },
    }
}

/// The path to the first leaf under the node that a path leads to. The way
/// goes through at most as many objects as the store has keys: a longer way
/// would come by the same node twice and never end.
pub fn first_leaf(schema: &Schema, store: &KeyValue, root_digest: &D, path: &Path) -> (leaf: Option<
    Path,
>)
    ensures
        match leaf {
            Some(p) => first_leaf_within(
                store@,
                schema@,
                *root_digest,
                path@,
                store@.dom().len(),
            ) == Some(p@),
            None => first_leaf_within(store@, schema@, *root_digest, path@, store@.dom().len())
                is None,
        },
{
    let mut current = match find_node(store, root_digest, path) {
        Ok(node) => node,
        Err(_) => {
            return None;
        },
    };
    let mut leaf = copy_path(path);
    let mut fuel = store.len();
    loop
        invariant
            node_on(store@, *root_digest, leaf@) == Ok::<NodeView, Error>(current@),
            first_leaf_within(store@, schema@, *root_digest, path@, store@.dom().len())
                == first_leaf_within(store@, schema@, *root_digest, leaf@, fuel as nat),
        decreases fuel,
    {
        let field_id = match &current.value {
            Value::Object(o) => {
                if fuel == 0 {
                    return None;
                }
                match schema.first_field_of(o.object_type_id) {
                    Some(field_id) => field_id,
                    None => {
                        return None;
                    },
                }
            },
            _ => {
                return Some(leaf);
            },
        };
        let step = Selector { field_id, index: 0 };
        proof {
            lemma_resolve_push(store@, *root_digest, leaf@, step);
            assert(first_leaf_within(store@, schema@, *root_digest, leaf@, fuel as nat)
                == first_leaf_within(
                store@,
                schema@,
                *root_digest,
                leaf@.push(step),
                (fuel - 1) as nat,
            ));
        }
        let child = match step_from(&current, &step) {
            Ok(child) => child,
            Err(_) => {
                return None;
            },
        };
        current = match get_item(store, &child) {
            Some(node) => node,
            None => {
                return None;
            },
        };
        leaf.push(step);
        fuel -= 1;
    }
}

/// Whether a type is that of a scalar: any type but an object type.
pub open spec fn is_scalar_type(t: Type) -> bool {
    !(t is Object)
}

/// The first of the fields from the place `from` of the order on whose type
/// is that of a scalar.
pub open spec fn first_scalar_field(fields: Map<u32, FieldTypeView>, order: Seq<u32>, from: nat) -> Option<
    u32,
>
    decreases order.len() - from,
{
    if from >= order.len() {
        None
    } else if is_scalar_type(fields[order[from as int]].type_) {
        Some(order[from as int])
    } else {
        first_scalar_field(fields, order, from + 1)
    }
}

/// The path to the child to select under the node that a path leads to:
/// the first entry of the first scalar field of an object's type. The path
/// stays as it is where it does not lead to an object or the type has no
/// such field.
pub open spec fn child_of(
    texts: Map<Seq<char>, Seq<char>>,
    schema: SchemaView,
    root: D,
    path: Seq<Selector>,
) -> Seq<Selector> {
    match object_on(texts, root, path) {
        Ok(o) => match first_scalar_field(
            fields_of(schema, o.object_type_id),
            field_order(schema, o.object_type_id),
            0,
        ) {
            Some(field_id) => path.push(Selector { field_id, index: 0 }),
            None => path,
        },
        Err(_) => path,
    }
}

impl Schema {
    /// The first field of an object type whose type is that of a scalar.
    pub fn first_scalar_field_of(&self, type_id: ID) -> (first: Option<ID>)
        ensures
            first == first_scalar_field(fields_of(self@, type_id), field_order(self@, type_id), 0),
    {
        match self.object_type(type_id) {
            Some(object_type) => {
                proof {
                    object_type.lemma_field_keys();
                }
                let n = object_type.fields.len();
                let mut i: usize = 0;
                while i < n
                    invariant
                        i <= n,
                        n == object_type.fields.keys().len(),
                        fields_of(self@, type_id) == object_type@.fields,
                        field_order(self@, type_id) == object_type.fields.keys(),
                        first_scalar_field(fields_of(self@, type_id), field_order(self@, type_id), 0)
                            == first_scalar_field(
                            fields_of(self@, type_id),
                            field_order(self@, type_id),
                            i as nat,
                        ),
                    decreases n - i,
                {
                    let field = object_type.fields.value_at(i);
                    if field.type_.is_primitive() {
                        return Some(object_type.fields.key_at(i));
                    }
                    i += 1;
                }
                None
            },
            None => {
                proof {
                    lemma_unknown_type(self@, type_id);
                }
                None
            },
        }
    }
}

impl Type {
    /// Whether the type is that of a scalar: any type but an object type.
    pub fn is_primitive(&self) -> (yes: bool)
        ensures
            yes == is_scalar_type(*self),
    {
        match self {
            Type::String => true,
            Type::Int => true,
            Type::Number => true,
            Type::Boolean => true,
            Type::Object(_) => false,
        }
    }
}

/// The path to the child to select under the node that a path leads to.
pub fn child(schema: &Schema, store: &KeyValue, root_digest: &D, path: &Path) -> (down: Path)
    ensures
        down@ == child_of(store@, schema@, *root_digest, path@),
{
    let mut down = copy_path(path);
    match find_object(store, root_digest, path) {
        Ok(o) => match schema.first_scalar_field_of(o.object_type_id) {
            Some(field_id) => {
                down.push(Selector { field_id, index: 0 });
                down
            },
            None => down,
        },
        Err(_) => down,
    }
}

/// The first of the fields from the place `from` of the order on that comes
/// behind the field `after` and has an entry in the object.
pub open spec fn first_filled_after(order: Seq<u32>, o: ObjectView, after: u32, from: nat) -> Option<
    u32,
>
    decreases order.len() - from,
{
    if from >= order.len() {
        None
    } else if order[from as int] > after && field_list(o.fields, order[from as int]).len() > 0 {
        Some(order[from as int])
    } else {
        first_filled_after(order, o, after, from + 1)
    }
}

/// The step to the next child of an object behind the child that a step
/// leads to: the next entry of the same field where the field is repeated
/// and has one, or else the first entry of the next field that has any.
pub open spec fn next_sibling(schema: SchemaView, o: ObjectView, last: Selector) -> Option<Selector> {
    let fields = fields_of(schema, o.object_type_id);
    if fields.contains_key(last.field_id) && fields[last.field_id].repeated && last.index + 1
        < field_list(o.fields, last.field_id).len() {
        Some(Selector { field_id: last.field_id, index: (last.index + 1) as usize })
    } else {
        match first_filled_after(field_order(schema, o.object_type_id), o, last.field_id, 0) {
            Some(field_id) => Some(Selector { field_id, index: 0 }),
            None => None,
        }
    }
}

/// The path to the next child of the nearest ancestor that has one: at the
/// parent of the path, the sibling behind the path's last step; where the
/// parent has none, the same from the parent on upward. There is none where
/// the root is reached, or where a parent is not found to be an object.
pub open spec fn ancestor_with_next(
    texts: Map<Seq<char>, Seq<char>>,
    schema: SchemaView,
    root: D,
    path: Seq<Selector>,
) -> Option<Seq<Selector>>
    decreases path.len(),
{
    if path.len() == 0 {
        None
    } else {
        match object_on(texts, root, path.drop_last()) {
            Ok(o) => match next_sibling(schema, o, path.last()) {
                Some(step) => Some(path.drop_last().push(step)),
                None => ancestor_with_next(texts, schema, root, path.drop_last()),
            },
            Err(_) => None,
        }
    }
}

impl Schema {
    /// The step to the next child of an object behind the child that a step
    /// leads to.
    pub fn next_sibling_of(&self, object: &ObjectValue, last: &Selector) -> (next: Option<Selector>)
        ensures
            next == next_sibling(self@, object@, *last),
    {
        let object_type = match self.object_type(object.object_type_id) {
            Some(object_type) => object_type,
            None => {
                proof {
                    lemma_unknown_type(self@, object.object_type_id);
                }
                return None;
            },
        };
        proof {
            object_type.lemma_field_keys();
        }
        assert(fields_of(self@, object.object_type_id) == object_type@.fields);
        let entries = object.count(last.field_id);
        match object_type.fields.get(last.field_id) {
            Some(field) => {
                if field.repeated && entries > 0 && last.index < entries - 1 {
                    return Some(Selector { field_id: last.field_id, index: last.index + 1 });
                }
            },
            None => {},
        }
        let n = object_type.fields.len();
        let mut i: usize = 0;
        while i < n
            invariant
                i <= n,
                n == object_type.fields.keys().len(),
                field_order(self@, object.object_type_id) == object_type.fields.keys(),
                next_sibling(self@, object@, *last) == match first_filled_after(
                    field_order(self@, object.object_type_id),
                    object@,
                    last.field_id,
                    0,
                ) {
                    Some(field_id) => Some(Selector { field_id, index: 0 }),
                    None => None,
                },
                first_filled_after(
                    field_order(self@, object.object_type_id),
                    object@,
                    last.field_id,
                    0,
                ) == first_filled_after(
                    field_order(self@, object.object_type_id),
                    object@,
                    last.field_id,
                    i as nat,
                ),
            decreases n - i,
        {
            let key = object_type.fields.key_at(i);
            if key > last.field_id && object.get(key, 0).is_some() {
                return Some(Selector { field_id: key, index: 0 });
            }
            i += 1;
        }
        assert(first_filled_after(
            field_order(self@, object.object_type_id),
            object@,
            last.field_id,
            n as nat,
        ) is None);
        None
    }
}

/// The path to the next child of the nearest ancestor that has one.
pub fn ancestor_with_next_child(
    schema: &Schema,
    store: &KeyValue,
    root_digest: &D,
    path: &Path,
) -> (found: Option<Path>)
    ensures
        match found {
            Some(p) => ancestor_with_next(store@, schema@, *root_digest, path@) == Some(p@),
            None => ancestor_with_next(store@, schema@, *root_digest, path@) is None,
        },
{
    let mut up = copy_path(path);
    loop
        invariant
            ancestor_with_next(store@, schema@, *root_digest, path@) == ancestor_with_next(
                store@,
                schema@,
                *root_digest,
                up@,
            ),
        decreases up@.len(),
    {
        if up.len() == 0 {
            return None;
        }
        let last = up[up.len() - 1];
        let ghost below = up@;
        up.pop();
        assert(up@ =~= below.drop_last());
        let object = match find_object(store, root_digest, &up) {
            Ok(o) => o,
            Err(_) => {
                return None;
            },
        };
        match schema.next_sibling_of(&object, &last) {
            Some(step) => {
                up.push(step);
                return Some(up);
            },
            None => {},
        }
    }
}

/// The path to the selection behind the one at a path: under an object, its
/// first leaf; else the first leaf of the next child of the nearest
/// ancestor that has one. The path stays as it is where there is no such
/// selection.
pub open spec fn next_of(
    texts: Map<Seq<char>, Seq<char>>,
    schema: SchemaView,
    root: D,
    path: Seq<Selector>,
) -> Seq<Selector> {
    match node_on(texts, root, path) {
        Err(_) => path,
        Ok(node) => {
            let start = if node.value is Object {
                Some(path)
            } else {
                ancestor_with_next(texts, schema, root, path)
            };
            match start {
                Some(from) => match first_leaf_within(texts, schema, root, from, texts.dom().len()) {
                    Some(leaf) => leaf,
                    None => path,
                },
                None => path,
            }
        },
    }
}

/// The path to the selection behind the one at a path.
pub fn next(schema: &Schema, store: &KeyValue, root_digest: &D, path: &Path) -> (forward: Path)
    ensures
        forward@ == next_of(store@, schema@, *root_digest, path@),
{
    let node = match find_node(store, root_digest, path) {
        Ok(node) => node,
        Err(_) => {
            return copy_path(path);
        },
    };
    let start = match node.value {
        Value::Object(_) => Some(copy_path(path)),
        _ => ancestor_with_next_child(schema, store, root_digest, path),
    };
    match start {
        Some(from) => match first_leaf(schema, store, root_digest, &from) {
            Some(leaf) => leaf,
            None => copy_path(path),
        },
        None => copy_path(path),
    }
}

/// A path fails as its first failing part fails.
pub proof fn lemma_resolve_prefix(
    texts: Map<Seq<char>, Seq<char>>,
    root: D,
    path: Seq<Selector>,
    k: int,
)
    requires
        0 <= k <= path.len(),
        resolve(texts, root, path.take(k)) is Err,
    ensures
        resolve(texts, root, path) == resolve(texts, root, path.take(k)),
    decreases path.len(),
{
    let part = path.take(k);
    if k > 0 {
        assert(part[0] == path[0]);
        assert(part.drop_first() =~= path.drop_first().take(k - 1));
        match node_at(texts, root) {
            Some(node) => {
                match child_at(node, path[0]) {
                    Ok(child) => {
                        lemma_resolve_prefix(texts, child, path.drop_first(), k - 1);
                    },
                    Err(_) => {},
                }
            },
            None => {},
        }
    }
}

/// Path resolution past the end of a field. A path with a step that names a
/// place at or past the end of a field's list, from an object that the
/// steps before it lead to, leads nowhere: it is not found, and that is all.
pub proof fn law_resolve_past_end(
    texts: Map<Seq<char>, Seq<char>>,
    root: D,
    path: Seq<Selector>,
    k: int,
)
    requires
        0 <= k < path.len(),
        object_on(texts, root, path.take(k)) is Ok,
        path[k].index >= field_list(
            object_on(texts, root, path.take(k))->Ok_0.fields,
            path[k].field_id,
        ).len(),
    ensures
        resolve(texts, root, path) == Err::<D, Error>(Error::NotFound),
{
    lemma_resolve_push(texts, root, path.take(k), path[k]);
    assert(path.take(k).push(path[k]) =~= path.take(k + 1));
    lemma_resolve_prefix(texts, root, path, k + 1);
}

/// The root is its own parent, and the parent of any other path is one step
/// shorter.
pub proof fn law_parent(path: Seq<Selector>)
    ensures
        path.len() == 0 ==> parent_of(path) == path,
        path.len() > 0 ==> parent_of(path).len() == path.len() - 1 && parent_of(path) == path.take(
            path.len() - 1,
        ),
{
    if path.len() > 0 {
        assert(path.drop_last() =~= path.take(path.len() - 1));
    }
}

/// A first leaf that is found lies at or below the path, and is a leaf: the
/// store holds a node there, and the node is no object.
pub proof fn law_first_leaf_is_leaf(
    texts: Map<Seq<char>, Seq<char>>,
    schema: SchemaView,
    root: D,
    path: Seq<Selector>,
    fuel: nat,
)
    requires
        first_leaf_within(texts, schema, root, path, fuel) is Some,
    ensures
        ({
            let leaf = first_leaf_within(texts, schema, root, path, fuel)->Some_0;
            &&& leaf.len() >= path.len()
            &&& leaf.take(path.len() as int) == path
            &&& node_on(texts, root, leaf) is Ok
            &&& !(node_on(texts, root, leaf)->Ok_0.value is Object)
        }),
    decreases fuel,
{
    let node = node_on(texts, root, path)->Ok_0;
    match node.value {
        ValueView::Object(o) => {
            let field_id = first_field(schema, o.object_type_id)->Some_0;
            let longer = path.push(Selector { field_id, index: 0 });
            law_first_leaf_is_leaf(texts, schema, root, longer, (fuel - 1) as nat);
            let leaf = first_leaf_within(texts, schema, root, longer, (fuel - 1) as nat)->Some_0;
            assert(leaf.take(path.len() as int) =~= leaf.take(longer.len() as int).take(
                path.len() as int,
            ));
            assert(longer.take(path.len() as int) =~= path);
        },
        _ => {
            assert(path.take(path.len() as int) =~= path);
        },
    }
}

/// A move to the next selection either stays in place or comes to a leaf
/// that the store holds.
pub proof fn law_next_is_leaf_or_stays(
    texts: Map<Seq<char>, Seq<char>>,
    schema: SchemaView,
    root: D,
    path: Seq<Selector>,
)
    ensures
        ({
            let forward = next_of(texts, schema, root, path);
            forward == path || (node_on(texts, root, forward) is Ok && !(node_on(
                texts,
                root,
                forward,
            )->Ok_0.value is Object))
        }),
{
    let forward = next_of(texts, schema, root, path);
    if forward != path {
        let node = node_on(texts, root, path)->Ok_0;
        let start = if node.value is Object {
            Some(path)
        } else {
            ancestor_with_next(texts, schema, root, path)
        };
        law_first_leaf_is_leaf(texts, schema, root, start->Some_0, texts.dom().len());
    }
}

/// A move down and then up comes back: the child to select lies one step
/// below the path, or the selection has not moved.
pub proof fn law_parent_of_child(
    texts: Map<Seq<char>, Seq<char>>,
    schema: SchemaView,
    root: D,
    path: Seq<Selector>,
)
    ensures
        ({
            let down = child_of(texts, schema, root, path);
            down == path || parent_of(down) == path
        }),
{
    let down = child_of(texts, schema, root, path);
    if down != path {
        assert(down.drop_last() =~= path);
    }
}

} // verus!
