use crate::digest::D;
use crate::navigation::{child_at, node_on, resolve, step_from, Error};
use crate::digest::digest_text;
use crate::encoding::node_text;
use crate::storage::{
    digest_of, get_item, law_store_round_trip, node_at, set_item, with_node, KeyValue,
};
use crate::value::{field_list, NodeView, ObjectView, Path, Selector, Value, ValueView};
use vstd::prelude::*;

verus! {

/// A node with the child that a step leads to replaced by another digest.
pub open spec fn with_child(node: NodeView, step: Selector, child: D) -> NodeView {
    match node.value {
        ValueView::Object(o) => NodeView {
            id: node.id,
            value: ValueView::Object(
                ObjectView {
                    object_type_id: o.object_type_id,
                    fields: o.fields.insert(
                        step.field_id,
                        field_list(o.fields, step.field_id).update(step.index as int, child),
                    ),
                },
            ),
        },
        _ => node,
    }
}

/// The nodes that an update writes, the new root first and the edited node
/// last. Each is the old node on the path with the child on the path
/// replaced by the digest of the new node below it; the last has the new
/// value.
pub open spec fn new_spine(
    texts: Map<Seq<char>, Seq<char>>,
    root: D,
    path: Seq<Selector>,
    leaf: ValueView,
) -> Result<Seq<NodeView>, Error>
    decreases path.len(),
{
    match node_at(texts, root) {
        None => Err(Error::NotFound),
        Some(node) => if path.len() == 0 {
            Ok(seq![NodeView { id: node.id, value: leaf }])
        } else {
            match child_at(node, path[0]) {
                Err(e) => Err(e),
                Ok(child) => match new_spine(texts, child, path.drop_first(), leaf) {
                    Err(e) => Err(e),
                    Ok(below) => Ok(seq![with_child(node, path[0], digest_of(below[0]))] + below),
                },
            }
        },
    }
}

/// A store after the nodes of a sequence were put into it, the last one
/// first.
pub open spec fn with_nodes(texts: Map<Seq<char>, Seq<char>>, nodes: Seq<NodeView>) -> Map<
    Seq<char>,
    Seq<char>,
>
    decreases nodes.len(),
{
    if nodes.len() == 0 {
        texts
    } else {
        with_node(with_nodes(texts, nodes.drop_first()), nodes[0])
    }
}

/// Whether an update of the node that a path leads to, from the value
/// `before` to the value `after`, gives the new root `d` and the store
/// `new_texts`.
pub open spec fn rebuilt(
    texts: Map<Seq<char>, Seq<char>>,
    root: D,
    path: Seq<Selector>,
    before: ValueView,
    after: ValueView,
    d: D,
    new_texts: Map<Seq<char>, Seq<char>>,
) -> bool {
    &&& node_on(texts, root, path) matches Ok(n)
    &&& n.value == before
    &&& new_spine(texts, root, path, after) matches Ok(spine)
    &&& d == digest_of(spine[0])
    &&& new_texts == with_nodes(texts, spine)
}

/// An update writes nodes exactly where the path leads to a node, and fails
/// as following the path to that node fails.
pub proof fn lemma_new_spine(
    texts: Map<Seq<char>, Seq<char>>,
    root: D,
    path: Seq<Selector>,
    leaf: ValueView,
)
    ensures
        match new_spine(texts, root, path, leaf) {
            Ok(spine) => node_on(texts, root, path) is Ok && spine.len() == path.len() + 1,
            Err(e) => node_on(texts, root, path) == Err::<NodeView, Error>(e),
        },
    decreases path.len(),
{
    if path.len() > 0 {
        match node_at(texts, root) {
            Some(node) => {
                match child_at(node, path[0]) {
                    Ok(child) => {
                        lemma_new_spine(texts, child, path.drop_first(), leaf);
                    },
                    Err(_) => {},
                }
            },
            None => {},
        }
    }
}

/// The node that a path of at least one step leads to is the one that the
/// rest of the path leads to from the first step's child.
pub proof fn lemma_node_on_step(texts: Map<Seq<char>, Seq<char>>, root: D, path: Seq<Selector>)
    requires
        path.len() > 0,
    ensures
        node_on(texts, root, path) == match node_at(texts, root) {
            None => Err::<NodeView, Error>(Error::NotFound),
            Some(node) => match child_at(node, path[0]) {
                Ok(child) => node_on(texts, child, path.drop_first()),
                Err(e) => Err(e),
            },
        },
{
}

/// One more node on top of the nodes that an update writes below it.
proof fn lemma_spine_step(
    texts: Map<Seq<char>, Seq<char>>,
    root: D,
    path: Seq<Selector>,
    leaf: ValueView,
    node: NodeView,
    child: D,
    below: Seq<NodeView>,
)
    requires
        path.len() > 0,
        node_at(texts, root) == Some(node),
        child_at(node, path[0]) == Ok::<D, Error>(child),
        new_spine(texts, child, path.drop_first(), leaf) == Ok::<Seq<NodeView>, Error>(below),
    ensures
        new_spine(texts, root, path, leaf) == Ok::<Seq<NodeView>, Error>(
            seq![with_child(node, path[0], digest_of(below[0]))] + below,
        ),
        with_nodes(texts, seq![with_child(node, path[0], digest_of(below[0]))] + below) == with_node(
            with_nodes(texts, below),
            with_child(node, path[0], digest_of(below[0])),
        ),
{
    let spine = seq![with_child(node, path[0], digest_of(below[0]))] + below;
    assert(spine.drop_first() =~= below);
}

/// The one node that an update of a root's own value writes.
proof fn lemma_spine_leaf(texts: Map<Seq<char>, Seq<char>>, root: D, leaf: ValueView, node: NodeView)
    requires
        node_at(texts, root) == Some(node),
    ensures
        new_spine(texts, root, Seq::empty(), leaf) == Ok::<Seq<NodeView>, Error>(
            seq![NodeView { id: node.id, value: leaf }],
        ),
        with_nodes(texts, seq![NodeView { id: node.id, value: leaf }]) == with_node(
            texts,
            NodeView { id: node.id, value: leaf },
        ),
        node_on(texts, root, Seq::empty()) == Ok::<NodeView, Error>(node),
{
    let spine = seq![NodeView { id: node.id, value: leaf }];
    assert(spine.drop_first() =~= Seq::<NodeView>::empty());
    assert(with_nodes(texts, Seq::<NodeView>::empty()) == texts);
}

/// Rebuilds the nodes from the step `from` of the path down to its end, with
/// `update_fn` applied to the value of the last one. Also gives the value
/// that `update_fn` was applied to and the one that it returned.
fn update_from<F: FnOnce(Value) -> Value>(
    store: &mut KeyValue,
    base: &D,
    path: &Path,
    from: usize,
    update_fn: F,
) -> (updated: (Result<D, Error>, Ghost<(Value, Value)>))
    requires
        from <= path@.len(),
        forall|v: Value|
            node_on(old(store)@, *base, path@.skip(from as int)) matches Ok(n) && n.value == v@
                ==> #[trigger] call_requires(update_fn, (v,)),
    ensures
        match updated.0 {
            Ok(d) => call_ensures(update_fn, (updated.1@.0,), updated.1@.1) && rebuilt(
                old(store)@,
                *base,
                path@.skip(from as int),
                updated.1@.0@,
                updated.1@.1@,
                d,
                final(store)@,
            ),
            Err(e) => node_on(old(store)@, *base, path@.skip(from as int)) == Err::<NodeView, Error>(e)
                && final(store)@ == old(store)@,
        },
    decreases path@.len() - from,
{
    let ghost rest = path@.skip(from as int);
    let ghost texts = store@;
    let ghost nothing = (Value::Empty, Value::Empty);
    let mut node = match get_item(store, base) {
        Some(node) => node,
        None => {
            proof {
                if rest.len() > 0 {
                    lemma_node_on_step(texts, *base, rest);
                }
            }
            return (Err(Error::NotFound), Ghost(nothing));
        },
    };
    let ghost old_node = node@;
    if from == path.len() {
        proof {
            assert(rest =~= Seq::<Selector>::empty());
            assert(node_on(texts, *base, rest) == Ok::<NodeView, Error>(old_node));
        }
        let before = node.value;
        let ghost before_value = before;
        let after = update_fn(before);
        let ghost after_value = after;
        proof {
            lemma_spine_leaf(texts, *base, after@, old_node);
        }
        node.value = after;
        let d = set_item(store, &node);
        (Ok(d), Ghost((before_value, after_value)))
    } else {
        let step = path[from];
        proof {
            assert(rest[0] == step);
            assert(rest.drop_first() =~= path@.skip(from + 1));
            lemma_node_on_step(texts, *base, rest);
        }
        let child = match step_from(&node, &step) {
            Ok(child) => child,
            Err(e) => {
                return (Err(e), Ghost(nothing));
            },
        };
        let (below_result, witness) = update_from(store, &child, path, from + 1, update_fn);
        let new_child = match below_result {
            Ok(d) => d,
            Err(e) => {
                return (Err(e), witness);
            },
        };
        let ghost below = new_spine(texts, child, rest.drop_first(), witness@.1@)->Ok_0;
        match node.value {
            Value::Object(mut object) => {
                object.set(step.field_id, step.index, new_child);
                node.value = Value::Object(object);
            },
            _ => {
                assert(child_at(old_node, step) is Err);
                return (Err(Error::ExpectedObject), witness);
            },
        }
        assert(node@ == with_child(old_node, step, new_child)) by {
            assert(node@.value->Object_0.fields =~= with_child(
                old_node,
                step,
                new_child,
            ).value->Object_0.fields);
        }
        let d = set_item(store, &node);
        proof {
            lemma_spine_step(texts, *base, rest, witness@.1@, old_node, child, below);
        }
        (Ok(d), witness)
    }
}

/// Replaces the value of the node that a path leads to by what `update_fn`
/// makes of it, and returns the digest of the new root. Every node on the
/// path is written anew under its own digest, with the child on the path
/// replaced and every child off the path kept by its digest; nothing else
/// is written. Where the path cannot be followed to a node, nothing is
/// written at all.
pub fn update_node_value<F: FnOnce(Value) -> Value>(
    store: &mut KeyValue,
    base: &D,
    path: &Path,
    update_fn: F,
) -> (updated: Result<D, Error>)
    requires
        forall|v: Value|
            node_on(old(store)@, *base, path@) matches Ok(n) && n.value == v@
                ==> #[trigger] call_requires(update_fn, (v,)),
    ensures
        match updated {
            Ok(d) => exists|before: Value, after: Value|
                call_ensures(update_fn, (before,), after) && #[trigger] rebuilt(
                    old(store)@,
                    *base,
                    path@,
                    before@,
                    after@,
                    d,
                    final(store)@,
                ),
            Err(e) => node_on(old(store)@, *base, path@) == Err::<NodeView, Error>(e) && final(store)@
                == old(store)@,
        },
{
    assert(path@.skip(0) =~= path@);
    let (updated, witness) = update_from(store, base, path, 0, update_fn);
    proof {
        if let Ok(d) = updated {
            assert(rebuilt(old(store)@, *base, path@, witness@.0@, witness@.1@, d, store@));
        }
    }
    updated
}

/// Replaces the value of the node that a path leads to, and returns the
/// digest of the new root.
pub fn update_node(store: &mut KeyValue, base: &D, path: &Path, value: Value) -> (updated: Result<
    D,
    Error,
>)
    ensures
        match updated {
            Ok(d) => new_spine(old(store)@, *base, path@, value@) matches Ok(spine) && d == digest_of(
                spine[0],
            ) && final(store)@ == with_nodes(old(store)@, spine),
            Err(e) => new_spine(old(store)@, *base, path@, value@) == Err::<Seq<NodeView>, Error>(e)
                && final(store)@ == old(store)@,
        },
{
    proof {
        lemma_new_spine(store@, *base, path@, value@);
    }
    let ghost wanted = value@;
    let replace = move |_old: Value| -> (new: Value)
        ensures
            new@ == wanted,
        { value };
    update_node_value(store, base, path, replace)
}

/// Whether every node of one store stands unchanged under its digest in
/// another.
pub open spec fn retains(old_texts: Map<Seq<char>, Seq<char>>, new_texts: Map<Seq<char>, Seq<char>>) -> bool {
    forall|d: D| #[trigger] node_at(old_texts, d) is Some ==> node_at(new_texts, d) == node_at(old_texts, d)
}

/// A step that is not the replaced one leads to the same child as before.
proof fn lemma_other_child(node: NodeView, replaced: Selector, child: D, step: Selector)
    requires
        step != replaced,
        child_at(node, replaced) is Ok,
    ensures
        child_at(with_child(node, replaced, child), step) == child_at(node, step),
{
}

/// Structural sharing. After an update along a path, a path that parts from
/// it at the first step leads from the new root to what it leads to from the
/// old root: the subtrees off the edited path are shared by their digests.
/// This is said of the store as the update left it, in which the old root
/// node is still read under its digest.
pub proof fn law_structural_sharing(
    texts: Map<Seq<char>, Seq<char>>,
    root: D,
    path: Seq<Selector>,
    leaf: ValueView,
    other: Seq<Selector>,
)
    requires
        new_spine(texts, root, path, leaf) is Ok,
        path.len() > 0,
        other.len() > 0,
        other[0] != path[0],
        node_at(with_nodes(texts, new_spine(texts, root, path, leaf)->Ok_0), root) == node_at(
            texts,
            root,
        ),
    ensures
        ({
            let spine = new_spine(texts, root, path, leaf)->Ok_0;
            let after = with_nodes(texts, spine);
            resolve(after, digest_of(spine[0]), other) == resolve(after, root, other)
        }),
{
    let spine = new_spine(texts, root, path, leaf)->Ok_0;
    let after = with_nodes(texts, spine);
    let node = node_at(texts, root)->Some_0;
    let child = child_at(node, path[0])->Ok_0;
    let below = new_spine(texts, child, path.drop_first(), leaf)->Ok_0;
    lemma_spine_step(texts, root, path, leaf, node, child, below);
    law_store_round_trip(with_nodes(texts, below), spine[0]);
    lemma_other_child(node, path[0], digest_of(below[0]), other[0]);
}

/// Structural sharing below the root. In a store that holds the nodes that
/// an update wrote and every node that was stored before, a path that goes
/// along the edited path for some steps and then parts from it leads from
/// the new root to what it leads to from the old root.
pub proof fn law_structural_sharing_at_depth(
    texts: Map<Seq<char>, Seq<char>>,
    after: Map<Seq<char>, Seq<char>>,
    root: D,
    path: Seq<Selector>,
    leaf: ValueView,
    other: Seq<Selector>,
    k: int,
)
    requires
        new_spine(texts, root, path, leaf) is Ok,
        retains(texts, after),
        all_stored(after, new_spine(texts, root, path, leaf)->Ok_0),
        0 <= k < path.len(),
        k < other.len(),
        other.take(k) == path.take(k),
        other[k] != path[k],
    ensures
        resolve(after, digest_of(new_spine(texts, root, path, leaf)->Ok_0[0]), other) == resolve(
            after,
            root,
            other,
        ),
    decreases k,
{
    let spine = new_spine(texts, root, path, leaf)->Ok_0;
    let node = node_at(texts, root)->Some_0;
    let child = child_at(node, path[0])->Ok_0;
    let below = new_spine(texts, child, path.drop_first(), leaf)->Ok_0;
    lemma_spine_step(texts, root, path, leaf, node, child, below);
    assert(node_at(texts, root) is Some);
    assert(node_at(after, root) == Some(node));
    assert(node_at(after, digest_of(spine[0])) == Some(spine[0]));
    if k == 0 {
        lemma_other_child(node, path[0], digest_of(below[0]), other[0]);
    } else {
        assert(other[0] == path[0]) by {
            assert(other.take(k)[0] == other[0]);
            assert(path.take(k)[0] == path[0]);
        }
        assert(child_at(spine[0], path[0]) == Ok::<D, Error>(digest_of(below[0])));
        assert forall|j: int| 0 <= j < below.len() implies node_at(
            after,
            digest_of(#[trigger] below[j]),
        ) == Some(below[j]) by {
            assert(spine[j + 1] == below[j]);
        }
        assert(other.drop_first().take(k - 1) =~= other.take(k).drop_first());
        assert(path.drop_first().take(k - 1) =~= path.take(k).drop_first());
        law_structural_sharing_at_depth(
            texts,
            after,
            child,
            path.drop_first(),
            leaf,
            other.drop_first(),
            k - 1,
        );
    }
}

/// What stands in a store under a key after nodes were put into it: the
/// text of the first of those nodes whose digest has that key, or else what
/// stood there before.
proof fn lemma_with_nodes_lookup(texts: Map<Seq<char>, Seq<char>>, nodes: Seq<NodeView>, key: Seq<char>)
    ensures
        (exists|i: int| 0 <= i < nodes.len() && digest_text(digest_of(#[trigger] nodes[i])@) == key)
            ==> with_nodes(texts, nodes).contains_key(key) && exists|i: int|
            0 <= i < nodes.len() && digest_text(digest_of(#[trigger] nodes[i])@) == key && with_nodes(
                texts,
                nodes,
            )[key] == node_text(nodes[i]) && forall|j: int|
                0 <= j < i ==> digest_text(digest_of(#[trigger] nodes[j])@) != key,
        (forall|i: int| 0 <= i < nodes.len() ==> digest_text(digest_of(#[trigger] nodes[i])@) != key)
            ==> with_nodes(texts, nodes).contains_key(key) == texts.contains_key(key) && (
        texts.contains_key(key) ==> with_nodes(texts, nodes)[key] == texts[key]),
    decreases nodes.len(),
{
    if nodes.len() > 0 {
        let rest = nodes.drop_first();
        lemma_with_nodes_lookup(texts, rest, key);
        if digest_text(digest_of(nodes[0])@) == key {
        } else {
            if exists|i: int| 0 <= i < nodes.len() && digest_text(digest_of(#[trigger] nodes[i])@) == key {
                let i = choose|i: int|
                    0 <= i < nodes.len() && digest_text(digest_of(#[trigger] nodes[i])@) == key;
                assert(rest[i - 1] == nodes[i]);
                let r = choose|r: int|
                    0 <= r < rest.len() && digest_text(digest_of(#[trigger] rest[r])@) == key
                        && with_nodes(texts, rest)[key] == node_text(rest[r]) && forall|j: int|
                        0 <= j < r ==> digest_text(digest_of(#[trigger] rest[j])@) != key;
                assert(nodes[r + 1] == rest[r]);
                assert forall|j: int| 0 <= j < r + 1 implies digest_text(
                    digest_of(#[trigger] nodes[j])@,
                ) != key by {
                    if j > 0 {
                        assert(rest[j - 1] == nodes[j]);
                    }
                }
            } else {
                assert forall|i: int| 0 <= i < rest.len() implies digest_text(
                    digest_of(#[trigger] rest[i])@,
                ) != key by {
                    assert(rest[i] == nodes[i + 1]);
                }
            }
        }
    }
}

/// Putting the same nodes twice is putting them once.
pub proof fn lemma_with_nodes_idempotent(texts: Map<Seq<char>, Seq<char>>, nodes: Seq<NodeView>)
    ensures
        with_nodes(with_nodes(texts, nodes), nodes) == with_nodes(texts, nodes),
{
    let once = with_nodes(texts, nodes);
    let twice = with_nodes(once, nodes);
    assert forall|key: Seq<char>| #[trigger] twice.contains_key(key) == once.contains_key(key) && (
    once.contains_key(key) ==> twice[key] == once[key]) by {
        lemma_with_nodes_lookup(texts, nodes, key);
        lemma_with_nodes_lookup(once, nodes, key);
        if exists|i: int| 0 <= i < nodes.len() && digest_text(digest_of(#[trigger] nodes[i])@) == key {
            let a = choose|i: int|
                0 <= i < nodes.len() && digest_text(digest_of(#[trigger] nodes[i])@) == key && once[key]
                    == node_text(nodes[i]) && forall|j: int|
                    0 <= j < i ==> digest_text(digest_of(#[trigger] nodes[j])@) != key;
            let b = choose|i: int|
                0 <= i < nodes.len() && digest_text(digest_of(#[trigger] nodes[i])@) == key && twice[key]
                    == node_text(nodes[i]) && forall|j: int|
                    0 <= j < i ==> digest_text(digest_of(#[trigger] nodes[j])@) != key;
            if a < b {
                assert(digest_text(digest_of(nodes[a])@) != key);
            }
            if b < a {
                assert(digest_text(digest_of(nodes[b])@) != key);
            }
        }
    }
    assert forall|key: Seq<char>| #[trigger] once.contains_key(key) implies twice.contains_key(key)
        && twice[key] == once[key] by {
        assert(twice.contains_key(key) == once.contains_key(key));
    }
    assert(twice =~= once);
}

/// An update reads only the nodes on its path: in a store that holds each of
/// them unchanged, it writes the same nodes.
proof fn lemma_new_spine_retained(
    texts: Map<Seq<char>, Seq<char>>,
    after: Map<Seq<char>, Seq<char>>,
    root: D,
    path: Seq<Selector>,
    leaf: ValueView,
)
    requires
        new_spine(texts, root, path, leaf) is Ok,
        retains(texts, after),
    ensures
        new_spine(after, root, path, leaf) == new_spine(texts, root, path, leaf),
    decreases path.len(),
{
    assert(node_at(texts, root) is Some);
    if path.len() > 0 {
        let node = node_at(texts, root)->Some_0;
        let child = child_at(node, path[0])->Ok_0;
        lemma_new_spine_retained(texts, after, child, path.drop_first(), leaf);
    }
}

/// Update idempotence. Where an update left every node of the store as it
/// was, making the same update again from the old root gives the same new
/// root and writes nothing new.
pub proof fn law_update_idempotent(
    texts: Map<Seq<char>, Seq<char>>,
    root: D,
    path: Seq<Selector>,
    leaf: ValueView,
)
    requires
        new_spine(texts, root, path, leaf) is Ok,
        retains(texts, with_nodes(texts, new_spine(texts, root, path, leaf)->Ok_0)),
    ensures
        ({
            let spine = new_spine(texts, root, path, leaf)->Ok_0;
            let after = with_nodes(texts, spine);
            new_spine(after, root, path, leaf) == Ok::<Seq<NodeView>, Error>(spine) && with_nodes(
                after,
                spine,
            ) == after
        }),
{
    let spine = new_spine(texts, root, path, leaf)->Ok_0;
    let after = with_nodes(texts, spine);
    lemma_new_spine_retained(texts, after, root, path, leaf);
    lemma_with_nodes_idempotent(texts, spine);
}

/// Whether each node of a sequence stands under its digest in a store.
pub open spec fn all_stored(texts: Map<Seq<char>, Seq<char>>, nodes: Seq<NodeView>) -> bool {
    forall|j: int| 0 <= j < nodes.len() ==> node_at(texts, digest_of(#[trigger] nodes[j])) == Some(nodes[j])
}

/// In a store that holds the nodes that an update wrote, the path leads
/// from the new root to the edited node: the old node with the new value.
pub proof fn lemma_spine_walk(
    texts: Map<Seq<char>, Seq<char>>,
    after: Map<Seq<char>, Seq<char>>,
    root: D,
    path: Seq<Selector>,
    leaf: ValueView,
)
    requires
        new_spine(texts, root, path, leaf) is Ok,
        all_stored(after, new_spine(texts, root, path, leaf)->Ok_0),
    ensures
        node_on(texts, root, path) is Ok,
        node_on(after, digest_of(new_spine(texts, root, path, leaf)->Ok_0[0]), path) == Ok::<
            NodeView,
            Error,
        >(NodeView { id: node_on(texts, root, path)->Ok_0.id, value: leaf }),
    decreases path.len(),
{
    let spine = new_spine(texts, root, path, leaf)->Ok_0;
    let node = node_at(texts, root)->Some_0;
    assert(node_at(after, digest_of(spine[0])) == Some(spine[0]));
    if path.len() > 0 {
        let child = child_at(node, path[0])->Ok_0;
        let below = new_spine(texts, child, path.drop_first(), leaf)->Ok_0;
        lemma_spine_step(texts, root, path, leaf, node, child, below);
        assert forall|j: int| 0 <= j < below.len() implies node_at(
            after,
            digest_of(#[trigger] below[j]),
        ) == Some(below[j]) by {
            assert(spine[j + 1] == below[j]);
        }
        lemma_spine_walk(texts, after, child, path.drop_first(), leaf);
        lemma_node_on_step(texts, root, path);
        lemma_node_on_step(after, digest_of(spine[0]), path);
        assert(child_at(spine[0], path[0]) == Ok::<D, Error>(digest_of(below[0])));
    }
}

} // verus!
