use crate::digest::D;
use crate::navigation::{child_at, lemma_resolve_push, node_on, resolve};
use crate::ordered::{ascending, lemma_ascending};
use crate::storage::{get_item, node_at, KeyValue};
use crate::value::{fields_view, Node, NodeView, Selector, Value, ValueView};
use vstd::prelude::*;

verus! {

/// The digests under the given fields of an object, field by field.
pub open spec fn children_under(fields: Map<u32, Seq<D>>, keys: Seq<u32>) -> Seq<D>
    decreases keys.len(),
{
    if keys.len() == 0 {
        Seq::empty()
    } else {
        children_under(fields, keys.drop_last()) + fields[keys.last()]
    }
}

/// The children of a node: the digests of an object's fields, in the order
/// of the fields and, within a field, of its list. A value that is no
/// object has none.
pub open spec fn children_of(node: NodeView) -> Seq<D> {
    match node.value {
        ValueView::Object(o) => children_under(o.fields, ascending(o.fields.dom())),
        _ => Seq::empty(),
    }
}

/// The children of a node, in order.
pub fn children(node: &Node) -> (list: Vec<D>)
    ensures
        list@ == children_of(node@),
{
    let mut list: Vec<D> = Vec::new();
    match &node.value {
        Value::Object(object) => {
            let fields = &object.fields;
            let n = fields.len();
            let ghost deep = fields_view(fields@);
            assert(deep.dom() =~= fields@.dom());
            let ghost keys = ascending(deep.dom());
            let mut i: usize = 0;
            while i < n
                invariant
                    i <= n,
                    n == fields.keys().len(),
                    deep == fields_view(fields@),
                    keys == fields.keys(),
                    list@ == children_under(deep, keys.take(i as int)),
                decreases n - i,
            {
                let entries = fields.value_at(i);
                proof {
                    assert(keys.take(i + 1).drop_last() =~= keys.take(i as int));
                    assert(keys.take(i + 1).last() == keys[i as int]);
                }
                let ghost before = list@;
                let mut j: usize = 0;
                while j < entries.len()
                    invariant
                        j <= entries@.len(),
                        list@ == before + entries@.take(j as int),
                    decreases entries@.len() - j,
                {
                    list.push(entries[j]);
                    assert(list@ =~= before + entries@.take(j + 1));
                    j += 1;
                }
                assert(entries@.take(entries@.len() as int) =~= entries@);
                i += 1;
            }
            assert(keys.take(n as int) =~= keys);
        },
        _ => {},
    }
    list
}

/// The digests that are left to visit after the first of them was visited:
/// the children of its node, where the store holds one, then the rest.
pub open spec fn after_visit(texts: Map<Seq<char>, Seq<char>>, pending: Seq<D>) -> Seq<D> {
    if pending.len() == 0 {
        pending
    } else {
        match node_at(texts, pending[0]) {
            Some(node) => children_of(node) + pending.drop_first(),
            None => pending.drop_first(),
        }
    }
}

/// How far a walk has come: the digests that it has visited, in order, and
/// those that it has still to visit, the next one first.
pub struct Progress {
    pub visited: Seq<D>,
    pub pending: Seq<D>,
}

/// A walk from a root after a number of steps.
pub open spec fn walk_after(texts: Map<Seq<char>, Seq<char>>, root: D, steps: nat) -> Progress
    decreases steps,
{
    if steps == 0 {
        Progress { visited: Seq::empty(), pending: seq![root] }
    } else {
        let before = walk_after(texts, root, (steps - 1) as nat);
        if before.pending.len() == 0 {
            before
        } else {
            Progress {
                visited: before.visited.push(before.pending[0]),
                pending: after_visit(texts, before.pending),
            }
        }
    }
}

/// Whether a digest is a child of one of the first `upto` visited nodes.
pub open spec fn child_of_visited(
    texts: Map<Seq<char>, Seq<char>>,
    visited: Seq<D>,
    upto: int,
    d: D,
) -> bool {
    exists|j: int|
        0 <= j < upto && j < visited.len() && node_at(texts, #[trigger] visited[j]) is Some
            && children_of(node_at(texts, visited[j])->Some_0).contains(d)
}

proof fn lemma_children_under(fields: Map<u32, Seq<D>>, keys: Seq<u32>, k: int, i: int)
    requires
        0 <= k < keys.len(),
        0 <= i < fields[keys[k]].len(),
    ensures
        children_under(fields, keys).contains(fields[keys[k]][i]),
    decreases keys.len(),
{
    let front = children_under(fields, keys.drop_last());
    let last = fields[keys.last()];
    if k == keys.len() - 1 {
        assert((front + last)[front.len() + i] == last[i]);
    } else {
        lemma_children_under(fields, keys.drop_last(), k, i);
        let at = choose|at: int| 0 <= at < front.len() && front[at] == fields[keys[k]][i];
        assert((front + last)[at] == front[at]);
    }
}

/// The child that a step leads to is one of the children of the node.
pub proof fn lemma_child_is_among_children(node: NodeView, step: Selector)
    requires
        child_at(node, step) is Ok,
    ensures
        children_of(node).contains(child_at(node, step)->Ok_0),
{
    let o = node.value->Object_0;
    let keys = ascending(o.fields.dom());
    lemma_ascending(o.fields.dom());
    assert(o.fields.contains_key(step.field_id));
    assert(keys.contains(step.field_id));
    let k = choose|k: int| 0 <= k < keys.len() && keys[k] == step.field_id;
    lemma_children_under(o.fields, keys, k, step.index as int);
}

/// What holds of a walk at every step: the root was the first to be
/// visited or is still to visit; every other digest that was visited or is
/// still to visit is a child of a node visited before; and every child of
/// a visited node was visited or is still to visit.
pub open spec fn walk_in_order(texts: Map<Seq<char>, Seq<char>>, root: D, at: Progress) -> bool {
    &&& if at.visited.len() == 0 {
        at.pending == seq![root]
    } else {
        at.visited[0] == root
    }
    &&& forall|i: int|
        0 < i < at.visited.len() ==> child_of_visited(texts, at.visited, i, #[trigger] at.visited[i])
    &&& forall|k: int|
        0 <= k < at.pending.len() && at.visited.len() > 0 ==> child_of_visited(
            texts,
            at.visited,
            at.visited.len() as int,
            #[trigger] at.pending[k],
        )
    &&& forall|j: int, d: D|
        0 <= j < at.visited.len() && node_at(texts, #[trigger] at.visited[j]) is Some && children_of(
            node_at(texts, at.visited[j])->Some_0,
        ).contains(d) ==> at.visited.contains(d) || #[trigger] at.pending.contains(d)
}

/// A walk is in order at every step.
pub proof fn lemma_walk_in_order(texts: Map<Seq<char>, Seq<char>>, root: D, steps: nat)
    ensures
        walk_in_order(texts, root, walk_after(texts, root, steps)),
    decreases steps,
{
    if steps > 0 {
        let before = walk_after(texts, root, (steps - 1) as nat);
        let now = walk_after(texts, root, steps);
        lemma_walk_in_order(texts, root, (steps - 1) as nat);
        if before.pending.len() > 0 {
            let d = before.pending[0];
            let n = before.visited.len() as int;
            assert forall|i: int| 0 <= i < n implies now.visited[i] == before.visited[i] by {}
            assert(now.visited[n] == d);
            assert forall|i: int| 0 < i < now.visited.len() implies child_of_visited(
                texts,
                now.visited,
                i,
                #[trigger] now.visited[i],
            ) by {
                if i < n {
                    assert(child_of_visited(texts, before.visited, i, before.visited[i]));
                    let j = choose|j: int|
                        0 <= j < i && j < before.visited.len() && node_at(
                            texts,
                            #[trigger] before.visited[j],
                        ) is Some && children_of(node_at(texts, before.visited[j])->Some_0).contains(
                            before.visited[i],
                        );
                    assert(now.visited[j] == before.visited[j]);
                } else {
                    assert(child_of_visited(texts, before.visited, n, before.pending[0]));
                    let j = choose|j: int|
                        0 <= j < n && j < before.visited.len() && node_at(
                            texts,
                            #[trigger] before.visited[j],
                        ) is Some && children_of(node_at(texts, before.visited[j])->Some_0).contains(d);
                    assert(now.visited[j] == before.visited[j]);
                }
            }
            assert forall|k: int| 0 <= k < now.pending.len() implies child_of_visited(
                texts,
                now.visited,
                now.visited.len() as int,
                #[trigger] now.pending[k],
            ) by {
                let c = now.pending[k];
                let fresh = match node_at(texts, d) {
                    Some(node) => children_of(node),
                    None => Seq::empty(),
                };
                if k < fresh.len() {
                    assert(fresh[k] == c);
                    assert(now.visited[n] == d);
                } else {
                    assert(before.pending[k - fresh.len() + 1] == c);
                    assert(child_of_visited(texts, before.visited, n, c));
                    let j = choose|j: int|
                        0 <= j < n && j < before.visited.len() && node_at(
                            texts,
                            #[trigger] before.visited[j],
                        ) is Some && children_of(node_at(texts, before.visited[j])->Some_0).contains(c);
                    assert(now.visited[j] == before.visited[j]);
                }
            }
            assert forall|j: int, c: D|
                0 <= j < now.visited.len() && node_at(texts, #[trigger] now.visited[j]) is Some
                    && children_of(node_at(texts, now.visited[j])->Some_0).contains(
                    c,
                ) implies now.visited.contains(c) || #[trigger] now.pending.contains(c) by {
                if j < n {
                    assert(before.visited.contains(c) || before.pending.contains(c));
                    if before.visited.contains(c) {
                        let i = choose|i: int| 0 <= i < before.visited.len() && before.visited[i] == c;
                        assert(now.visited[i] == c);
                    } else {
                        let k = choose|k: int| 0 <= k < before.pending.len() && before.pending[k] == c;
                        if k == 0 {
                            assert(now.visited[n] == c);
                        } else {
                            let fresh = match node_at(texts, d) {
                                Some(node) => children_of(node),
                                None => Seq::empty(),
                            };
                            assert(now.pending[fresh.len() + k - 1] == c);
                        }
                    }
                } else {
                    let fresh = children_of(node_at(texts, d)->Some_0);
                    let k = choose|k: int| 0 <= k < fresh.len() && fresh[k] == c;
                    assert(now.pending[k] == c);
                }
            }
        }
    }
}

/// Parent before children. Every digest that a walk visits behind the
/// root is a child of a node that the walk visited before it.
pub proof fn law_walk_visits_parents_first(
    texts: Map<Seq<char>, Seq<char>>,
    root: D,
    steps: nat,
    i: int,
)
    requires
        0 <= i < walk_after(texts, root, steps).visited.len(),
    ensures
        walk_after(texts, root, steps).visited[0] == root,
        i > 0 ==> child_of_visited(
            texts,
            walk_after(texts, root, steps).visited,
            i,
            walk_after(texts, root, steps).visited[i],
        ),
{
    lemma_walk_in_order(texts, root, steps);
}

/// A walk that has come to its end has visited every digest that a path
/// leads to from the root.
pub proof fn law_walk_visits_all(
    texts: Map<Seq<char>, Seq<char>>,
    root: D,
    steps: nat,
    path: Seq<Selector>,
)
    requires
        walk_after(texts, root, steps).pending.len() == 0,
        resolve(texts, root, path) is Ok,
    ensures
        walk_after(texts, root, steps).visited.contains(resolve(texts, root, path)->Ok_0),
    decreases path.len(),
{
    let end = walk_after(texts, root, steps);
    lemma_walk_in_order(texts, root, steps);
    if path.len() == 0 {
        assert(end.visited[0] == root);
    } else {
        let up = path.drop_last();
        let step = path.last();
        assert(up.push(step) =~= path);
        lemma_resolve_push(texts, root, up, step);
        let node = node_on(texts, root, up)->Ok_0;
        let parent = resolve(texts, root, up)->Ok_0;
        law_walk_visits_all(texts, root, steps, up);
        let j = choose|j: int| 0 <= j < end.visited.len() && end.visited[j] == parent;
        lemma_child_is_among_children(node, step);
        let d = resolve(texts, root, path)->Ok_0;
        assert(node_at(texts, end.visited[j]) is Some);
        assert(end.visited.contains(d) || end.pending.contains(d));
    }
}

/// A walk over the nodes that can be reached from a root, each parent
/// before its children. The walk holds the digests that it still has to
/// visit; whoever drives it takes one node at a time.
#[derive(Clone, Debug)]
pub struct Traversal {
    stack: Vec<D>,
}

impl View for Traversal {
    type V = Seq<D>;

    /// The digests still to visit, the next one first.
    closed spec fn view(&self) -> Seq<D> {
        self.stack@.reverse()
    }
}

/// What a step of a walk came upon.
#[derive(Clone, Debug)]
pub enum Visit {
    /// The next node.
    Node(Node),
    /// A digest under which the store holds no node.
    Missing(D),
    /// Nothing: the walk is over.
    Done,
}

impl Traversal {
    /// A walk that starts at a root.
    pub fn new(root: D) -> (walk: Traversal)
        ensures
            walk@ == seq![root],
    {
        let mut stack: Vec<D> = Vec::new();
        stack.push(root);
        let walk = Traversal { stack };
        assert(walk@ =~= seq![root]);
        walk
    }

    /// Whether nothing is left to visit.
    pub fn is_done(&self) -> (done: bool)
        ensures
            done == (self@.len() == 0),
    {
        self.stack.len() == 0
    }

    /// Visits the next digest. A node that the store holds is handed out,
    /// and its children are visited next, before what was left; a digest
    /// without a node is handed out as missing.
    pub fn step(&mut self, store: &KeyValue) -> (visit: Visit)
        ensures
            match visit {
                Visit::Done => old(self)@.len() == 0,
                Visit::Node(node) => old(self)@.len() > 0 && node_at(store@, old(self)@[0]) == Some(
                    node@,
                ),
                Visit::Missing(d) => old(self)@.len() > 0 && d == old(self)@[0] && node_at(store@, d)
                    is None,
            },
            final(self)@ == after_visit(store@, old(self)@),
    {
        let ghost before = self.stack@;
        let d = match self.stack.pop() {
            Some(d) => d,
            None => {
                return Visit::Done;
            },
        };
        let ghost rest = self.stack@;
        assert(rest.reverse() =~= before.reverse().drop_first());
        assert(before.reverse()[0] == d);
        match get_item(store, &d) {
            None => Visit::Missing(d),
            Some(node) => {
                let list = children(&node);
                let mut i: usize = list.len();
                while i > 0
                    invariant
                        i <= list@.len(),
                        self.stack@ == rest + list@.subrange(i as int, list@.len() as int).reverse(),
                    decreases i,
                {
                    i -= 1;
                    self.stack.push(list[i]);
                    assert(self.stack@ =~= rest + list@.subrange(i as int, list@.len() as int).reverse());
                }
                assert(list@.subrange(0, list@.len() as int) =~= list@);
                assert((rest + list@.reverse()).reverse() =~= list@ + rest.reverse());
                Visit::Node(node)
            },
        }
    }
}

} // verus!
