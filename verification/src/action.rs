use crate::digest::D;
use crate::mutation::{
    all_stored, lemma_new_spine, lemma_spine_walk, new_spine, update_node, update_node_value,
    with_nodes,
};
use crate::navigation::{copy_path, find_object, object_on, Error};
use crate::digest::digest_text;
use crate::storage::{
    digest_of, law_store_round_trip, node_at, root_key, set_item, set_root, with_node, HasDigest,
    KeyValue,
};
use crate::value::{field_list, Node, NodeView, ObjectView, Path, Selector, Value, ValueView, ID};
use vstd::prelude::*;

verus! {

/// Where in a field's list a new entry is to go. Only the end is served: an
/// entry is appended whatever the position says.
#[derive(Clone, Copy, Debug, PartialEq, Eq, Structural)]
pub enum Position {
    First,
    Last,
    Before(usize),
    After(usize),
}

/// An object with one more digest at the end of a field's list.
pub open spec fn appended(o: ObjectView, field_id: u32, child: D) -> ObjectView {
    ObjectView {
        object_type_id: o.object_type_id,
        fields: o.fields.insert(field_id, field_list(o.fields, field_id).push(child)),
    }
}

/// An object without the entry at a place of a field's list.
pub open spec fn deleted(o: ObjectView, step: Selector) -> ObjectView {
    ObjectView {
        object_type_id: o.object_type_id,
        fields: o.fields.insert(
            step.field_id,
            field_list(o.fields, step.field_id).remove(step.index as int),
        ),
    }
}

/// Appends a new node with the given identifier and value to a field of the
/// object that a path leads to, and returns the digest of the new root. The
/// nodes on the path are written anew, then the new node. Where the path
/// does not lead to an object, nothing is written.
pub fn append(
    store: &mut KeyValue,
    root: &D,
    path: &Path,
    field_id: ID,
    position: Position,
    value: Value,
    id: ID,
) -> (updated: Result<D, Error>)
    ensures
        match updated {
            Ok(d) => {
                let child = NodeView { id, value: value@ };
                &&& object_on(old(store)@, *root, path@) matches Ok(o)
                &&& new_spine(
                    old(store)@,
                    *root,
                    path@,
                    ValueView::Object(appended(o, field_id, digest_of(child))),
                ) matches Ok(spine)
                &&& d == digest_of(spine[0])
                &&& final(store)@ == with_node(with_nodes(old(store)@, spine), child)
            },
            Err(e) => final(store)@ == old(store)@ && object_on(old(store)@, *root, path@) == Err::<
                ObjectView,
                Error,
            >(e),
        },
{
    let target = match find_object(store, root, path) {
        Ok(o) => o,
        Err(e) => {
            return Err(e);
        },
    };
    let node = Node { id, value };
    let child = node.digest();
    let ghost texts = store@;
    let ghost wanted = ValueView::Object(appended(target@, field_id, child));
    let add = move |v: Value| -> (new: Value)
        ensures
            v@ == ValueView::Object(target@) ==> new@ == wanted,
        {
            match v {
                Value::Object(mut object) => {
                    object.append(field_id, child);
                    let new = Value::Object(object);
                    proof {
                        if v@ == ValueView::Object(target@) {
                            assert(new@->Object_0.fields =~= wanted->Object_0.fields);
                        }
                    }
                    new
                },
                other => other,
            }
        };
    match update_node_value(store, root, path, add) {
        Ok(d) => {
            proof {
                lemma_new_spine(texts, *root, path@, wanted);
            }
            set_item(store, &node);
            Ok(d)
        },
        Err(e) => Err(e),
    }
}

/// Takes the entry that a path leads to out of its parent's list, and
/// returns the digest of the new root. The entries behind it move one place
/// down. Where the path is empty, or does not lead to an entry of an object,
/// nothing is written.
pub fn delete(store: &mut KeyValue, root: &D, path: &Path) -> (updated: Result<D, Error>)
    ensures
        match updated {
            Ok(d) => {
                &&& path@.len() > 0
                &&& object_on(old(store)@, *root, path@.drop_last()) matches Ok(o)
                &&& path@.last().index < field_list(o.fields, path@.last().field_id).len()
                &&& new_spine(
                    old(store)@,
                    *root,
                    path@.drop_last(),
                    ValueView::Object(deleted(o, path@.last())),
                ) matches Ok(spine)
                &&& d == digest_of(spine[0])
                &&& final(store)@ == with_nodes(old(store)@, spine)
            },
            Err(e) => final(store)@ == old(store)@ && if path@.len() == 0 {
                e == Error::NoParent
            } else {
                match object_on(old(store)@, *root, path@.drop_last()) {
                    Ok(o) => e == Error::NotFound && path@.last().index >= field_list(
                        o.fields,
                        path@.last().field_id,
                    ).len(),
                    Err(other) => e == other,
                }
            },
        },
{
    if path.len() == 0 {
        return Err(Error::NoParent);
    }
    let step = path[path.len() - 1];
    let mut up = copy_path(path);
    up.pop();
    assert(up@ =~= path@.drop_last());
    let target = match find_object(store, root, &up) {
        Ok(o) => o,
        Err(e) => {
            return Err(e);
        },
    };
    if target.get(step.field_id, step.index).is_none() {
        return Err(Error::NotFound);
    }
    let ghost texts = store@;
    let ghost wanted = ValueView::Object(deleted(target@, step));
    let remove = move |v: Value| -> (new: Value)
        ensures
            v@ == ValueView::Object(target@) ==> new@ == wanted,
        {
            match v {
                Value::Object(mut object) => {
                    if object.get(step.field_id, step.index).is_some() {
                        object.delete(step.field_id, step.index);
                    }
                    let new = Value::Object(object);
                    proof {
                        if v@ == ValueView::Object(target@) {
                            assert(new@->Object_0.fields =~= wanted->Object_0.fields);
                        }
                    }
                    new
                },
                other => other,
            }
        };
    match update_node_value(store, root, &up, remove) {
        Ok(d) => {
            proof {
                lemma_new_spine(texts, *root, up@, wanted);
            }
            Ok(d)
        },
        Err(e) => Err(e),
    }
}

/// Taking out the entry that was appended last gives the object back, where
/// the object had the field before.
pub proof fn law_delete_undoes_append(o: ObjectView, field_id: u32, child: D)
    requires
        o.fields.contains_key(field_id),
        o.fields[field_id].len() < usize::MAX,
    ensures
        deleted(
            appended(o, field_id, child),
            Selector { field_id, index: o.fields[field_id].len() as usize },
        ) == o,
{
    let list = o.fields[field_id];
    assert(list.push(child).remove(list.len() as int) =~= list);
    assert(deleted(
        appended(o, field_id, child),
        Selector { field_id, index: list.len() as usize },
    ).fields =~= o.fields);
}

/// Append increases the count by one. Where the store after an append
/// holds the nodes that the append wrote on the path, the path leads from
/// the new root to the object with one more entry in the field, the entries
/// before it are as they were, and the new entry is the digest of the node
/// with the appended value, which the store holds.
pub proof fn law_append_adds_one(
    texts: Map<Seq<char>, Seq<char>>,
    root: D,
    path: Seq<Selector>,
    field_id: u32,
    child: NodeView,
)
    requires
        object_on(texts, root, path) is Ok,
        ({
            let o = object_on(texts, root, path)->Ok_0;
            let spine = new_spine(
                texts,
                root,
                path,
                ValueView::Object(appended(o, field_id, digest_of(child))),
            )->Ok_0;
            all_stored(with_node(with_nodes(texts, spine), child), spine)
        }),
    ensures
        ({
            let o = object_on(texts, root, path)->Ok_0;
            let spine = new_spine(
                texts,
                root,
                path,
                ValueView::Object(appended(o, field_id, digest_of(child))),
            )->Ok_0;
            let after = with_node(with_nodes(texts, spine), child);
            let before = field_list(o.fields, field_id);
            &&& object_on(after, digest_of(spine[0]), path) matches Ok(now)
            &&& field_list(now.fields, field_id).len() == before.len() + 1
            &&& field_list(now.fields, field_id).subrange(0, before.len() as int) == before
            &&& node_at(after, field_list(now.fields, field_id).last()) == Some(child)
        }),
{
    let o = object_on(texts, root, path)->Ok_0;
    let leaf = ValueView::Object(appended(o, field_id, digest_of(child)));
    lemma_new_spine(texts, root, path, leaf);
    let spine = new_spine(texts, root, path, leaf)->Ok_0;
    let after = with_node(with_nodes(texts, spine), child);
    lemma_spine_walk(texts, after, root, path, leaf);
    law_store_round_trip(with_nodes(texts, spine), child);
    let before = field_list(o.fields, field_id);
    assert(before.push(digest_of(child)).subrange(0, before.len() as int) =~= before);
}

/// Delete decreases the count by one and keeps the order. Where the store
/// after a delete holds the nodes that the delete wrote, the parent's path
/// leads from the new root to the object with one entry less in the field:
/// the entries before the deleted place are as they were, and each entry
/// behind it has moved one place down.
pub proof fn law_delete_removes_one(
    texts: Map<Seq<char>, Seq<char>>,
    root: D,
    path: Seq<Selector>,
)
    requires
        path.len() > 0,
        object_on(texts, root, path.drop_last()) is Ok,
        ({
            let o = object_on(texts, root, path.drop_last())->Ok_0;
            path.last().index < field_list(o.fields, path.last().field_id).len()
        }),
        ({
            let o = object_on(texts, root, path.drop_last())->Ok_0;
            let spine = new_spine(
                texts,
                root,
                path.drop_last(),
                ValueView::Object(deleted(o, path.last())),
            )->Ok_0;
            all_stored(with_nodes(texts, spine), spine)
        }),
    ensures
        ({
            let o = object_on(texts, root, path.drop_last())->Ok_0;
            let step = path.last();
            let spine = new_spine(
                texts,
                root,
                path.drop_last(),
                ValueView::Object(deleted(o, step)),
            )->Ok_0;
            let after = with_nodes(texts, spine);
            let before = field_list(o.fields, step.field_id);
            &&& object_on(after, digest_of(spine[0]), path.drop_last()) matches Ok(now)
            &&& field_list(now.fields, step.field_id).len() == before.len() - 1
            &&& forall|i: int|
                0 <= i < step.index ==> field_list(now.fields, step.field_id)[i] == before[i]
            &&& forall|i: int|
                step.index <= i < before.len() - 1 ==> field_list(now.fields, step.field_id)[i]
                    == before[i + 1]
        }),
{
    let o = object_on(texts, root, path.drop_last())->Ok_0;
    let leaf = ValueView::Object(deleted(o, path.last()));
    lemma_new_spine(texts, root, path.drop_last(), leaf);
    let spine = new_spine(texts, root, path.drop_last(), leaf)->Ok_0;
    lemma_spine_walk(texts, with_nodes(texts, spine), root, path.drop_last(), leaf);
}

/// What the editor can be asked to do.
#[derive(Clone, Debug)]
pub enum Action {
    /// Nothing.
    Noop,
    /// Replace the value of the node that the path leads to.
    Update(Path, Value),
    /// Append a new node with the value to a field of the object that the
    /// path leads to.
    Append { path: Path, field_id: ID, position: Position, value: Value },
    /// Take the entry that the path leads to out of its parent's list.
    Delete { path: Path },
    /// Move the focus to a path.
    SetFocus { path: Path },
}

/// The state of an editing session: the root of the document as it is now,
/// the path in focus, and the roots that were superseded, oldest first.
#[derive(Clone, Debug)]
pub struct State {
    pub root: D,
    pub focus: Path,
    pub history: Vec<D>,
}

impl Default for State {
    fn default() -> (state: State)
        ensures
            state.root@ == crate::digest::empty_digest(),
            state.focus@.len() == 0,
            state.history@.len() == 0,
    {
        State { root: D::default(), focus: Vec::new(), history: Vec::new() }
    }
}

impl State {
    /// A session on a document with the given root.
    pub fn new(root: D) -> (state: State)
        ensures
            state.root == root,
            state.focus@.len() == 0,
            state.history@.len() == 0,
    {
        State { root, focus: Vec::new(), history: Vec::new() }
    }
}

/// What an edit of a document gives, where it can be made: the new root and
/// the store with the nodes that the edit wrote.
pub open spec fn edit_result(texts: Map<Seq<char>, Seq<char>>, root: D, action: Action, id: u32) -> Result<
    (D, Map<Seq<char>, Seq<char>>),
    Error,
> {
    match action {
        Action::Update(path, value) => match new_spine(texts, root, path@, value@) {
            Ok(spine) => Ok((digest_of(spine[0]), with_nodes(texts, spine))),
            Err(e) => Err(e),
        },
        Action::Append { path, field_id, position, value } => match object_on(texts, root, path@) {
            Ok(o) => {
                let child = NodeView { id, value: value@ };
                match new_spine(
                    texts,
                    root,
                    path@,
                    ValueView::Object(appended(o, field_id, digest_of(child))),
                ) {
                    Ok(spine) => Ok(
                        (digest_of(spine[0]), with_node(with_nodes(texts, spine), child)),
                    ),
                    Err(e) => Err(e),
                }
            },
            Err(e) => Err(e),
        },
        Action::Delete { path } => if path@.len() == 0 {
            Err(Error::NoParent)
        } else {
            match object_on(texts, root, path@.drop_last()) {
                Ok(o) => if path@.last().index < field_list(o.fields, path@.last().field_id).len() {
                    match new_spine(
                        texts,
                        root,
                        path@.drop_last(),
                        ValueView::Object(deleted(o, path@.last())),
                    ) {
                        Ok(spine) => Ok((digest_of(spine[0]), with_nodes(texts, spine))),
                        Err(e) => Err(e),
                    }
                } else {
                    Err(Error::NotFound)
                },
                Err(e) => Err(e),
            }
        },
        _ => Err(Error::NotFound),
    }
}

/// Whether an action, with `id` for a node that it makes, takes a store and
/// a session to the given outcome. An edit that can be made writes its
/// nodes, names the new root in the store and in the session, and keeps the
/// old root in the history; one that cannot changes nothing. A move of the
/// focus changes the focus alone.
pub open spec fn applied(
    texts: Map<Seq<char>, Seq<char>>,
    before: State,
    action: Action,
    id: u32,
    done: Result<(), Error>,
    new_texts: Map<Seq<char>, Seq<char>>,
    after: State,
) -> bool {
    match action {
        Action::Noop => {
            &&& done is Ok
            &&& new_texts == texts
            &&& after.root == before.root
            &&& after.focus@ == before.focus@
            &&& after.history@ == before.history@
        },
        Action::SetFocus { path } => {
            &&& done is Ok
            &&& new_texts == texts
            &&& after.root == before.root
            &&& after.focus@ == path@
            &&& after.history@ == before.history@
        },
        _ => match edit_result(texts, before.root, action, id) {
            Ok((d, written)) => {
                &&& done is Ok
                &&& new_texts == written.insert(root_key(), digest_text(d@))
                &&& after.root == d
                &&& after.focus@ == before.focus@
                &&& after.history@ == before.history@.push(before.root)
            },
            Err(e) => {
                &&& done == Err::<(), Error>(e)
                &&& new_texts == texts
                &&& after.root == before.root
                &&& after.focus@ == before.focus@
                &&& after.history@ == before.history@
            },
        },
    }
}

/// Does what an action asks, with `id` as the identifier of a node that the
/// action makes.
pub fn apply(store: &mut KeyValue, state: &mut State, action: Action, id: ID) -> (done: Result<
    (),
    Error,
>)
    ensures
        applied(old(store)@, *old(state), action, id, done, final(store)@, *final(state)),
{
    let ghost texts = store@;
    let edited = match action {
        Action::Noop => {
            return Ok(());
        },
        Action::SetFocus { path } => {
            state.focus = path;
            return Ok(());
        },
        Action::Update(path, value) => {
            proof {
                lemma_new_spine(texts, state.root, path@, value@);
            }
            update_node(store, &state.root, &path, value)
        },
        Action::Append { path, field_id, position, value } => {
            proof {
                if object_on(texts, state.root, path@) is Ok {
                    let o = object_on(texts, state.root, path@)->Ok_0;
                    lemma_new_spine(
                        texts,
                        state.root,
                        path@,
                        ValueView::Object(
                            appended(o, field_id, digest_of(NodeView { id, value: value@ })),
                        ),
                    );
                }
            }
            append(store, &state.root, &path, field_id, position, value, id)
        },
        Action::Delete { path } => {
            proof {
                if path@.len() > 0 && object_on(texts, state.root, path@.drop_last()) is Ok {
                    let o = object_on(texts, state.root, path@.drop_last())->Ok_0;
                    lemma_new_spine(
                        texts,
                        state.root,
                        path@.drop_last(),
                        ValueView::Object(deleted(o, path@.last())),
                    );
                }
            }
            delete(store, &state.root, &path)
        },
    };
    match edited {
        Ok(d) => {
            set_root(store, &d);
            state.history.push(state.root);
            state.root = d;
            Ok(())
        },
        Err(e) => Err(e),
    }
}

/// Calls `rand::random` for a new identifier. Nothing is claimed of it: any
/// identifier may come back.
#[verifier::external_body]
pub(crate) fn new_id() -> ID {
    rand::random()
}

/// Does what an action asks. A node that the action makes gets an
/// identifier drawn at random.
pub fn on_action(store: &mut KeyValue, state: &mut State, action: Action) -> (done: Result<(), Error>)
    ensures
        exists|id: u32|
            #[trigger] applied(old(store)@, *old(state), action, id, done, final(store)@, *final(state)),
{
    let id = new_id();
    apply(store, state, action, id)
}

} // verus!
