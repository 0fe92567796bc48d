use crate::digest::{digest_text, law_digest_text_injective, lemma_digest_from, D};
use crate::navigation::{child_at, first_leaf_within, lemma_resolve_push, resolve};
use crate::schema::{first_field, SchemaView};
use crate::storage::node_at;
use crate::value::{NodeView, Selector, ValueView};
use vstd::prelude::*;

verus! {

/// The step from an object into the first entry of its first field, and the
/// child that it leads to, where the node is an object that has them.
pub open spec fn first_step(schema: SchemaView, node: NodeView) -> Option<(Selector, D)> {
    match node.value {
        ValueView::Object(o) => match first_field(schema, o.object_type_id) {
            Some(field_id) => match child_at(node, Selector { field_id, index: 0 }) {
                Ok(child) => Some((Selector { field_id, index: 0 }, child)),
                Err(_) => None,
            },
            None => None,
        },
        _ => None,
    }
}

/// The steps from the node under a digest down to its first leaf, through
/// at most `fuel` objects.
pub open spec fn leaf_steps(
    texts: Map<Seq<char>, Seq<char>>,
    schema: SchemaView,
    d: D,
    fuel: nat,
) -> Option<Seq<Selector>>
    decreases fuel,
{
    match node_at(texts, d) {
        None => None,
        Some(node) => if node.value is Object {
            if fuel == 0 {
                None
            } else {
                match first_step(schema, node) {
                    Some((step, child)) => match leaf_steps(texts, schema, child, (fuel - 1) as nat) {
                        Some(below) => Some(seq![step] + below),
                        None => None,
                    },
                    None => None,
                }
            }
        } else {
            Some(Seq::empty())
        },
    }
}

/// The first leaf under a path is where the steps from the path's node lead.
pub proof fn lemma_first_leaf_steps(
    texts: Map<Seq<char>, Seq<char>>,
    schema: SchemaView,
    root: D,
    path: Seq<Selector>,
    fuel: nat,
)
    ensures
        first_leaf_within(texts, schema, root, path, fuel) == match resolve(texts, root, path) {
            Ok(d) => match leaf_steps(texts, schema, d, fuel) {
                Some(below) => Some(path + below),
                None => None,
            },
            Err(_) => None,
        },
    decreases fuel,
{
    match resolve(texts, root, path) {
        Ok(d) => {
            match node_at(texts, d) {
                Some(node) => {
                    if node.value is Object {
                        if fuel > 0 {
                            let o = node.value->Object_0;
                            match first_field(schema, o.object_type_id) {
                                Some(field_id) => {
                                    let step = Selector { field_id, index: 0 };
                                    lemma_resolve_push(texts, root, path, step);
                                    lemma_first_leaf_steps(
                                        texts,
                                        schema,
                                        root,
                                        path.push(step),
                                        (fuel - 1) as nat,
                                    );
                                    match child_at(node, step) {
                                        Ok(child) => {
                                            match leaf_steps(texts, schema, child, (fuel - 1) as nat) {
                                                Some(below) => {
                                                    assert(path.push(step) + below =~= path + (seq![
                                                        step,
                                                    ] + below));
                                                },
                                                None => {},
                                            }
                                        },
                                        Err(_) => {},
                                    }
                                },
                                None => {},
                            }
                        }
                    } else {
                        assert(path + Seq::<Selector>::empty() =~= path);
                    }
                },
                None => {},
            }
        },
        Err(_) => {},
    }
}

/// Steps that are found with some fuel are as many as the fuel at most, and
/// are found with any more fuel too.
pub proof fn lemma_leaf_steps_more_fuel(
    texts: Map<Seq<char>, Seq<char>>,
    schema: SchemaView,
    d: D,
    fuel: nat,
    more: nat,
)
    requires
        leaf_steps(texts, schema, d, fuel) is Some,
        fuel <= more,
    ensures
        leaf_steps(texts, schema, d, more) == leaf_steps(texts, schema, d, fuel),
        leaf_steps(texts, schema, d, fuel)->Some_0.len() <= fuel,
    decreases fuel,
{
    let node = node_at(texts, d)->Some_0;
    if node.value is Object {
        let (step, child) = first_step(schema, node)->Some_0;
        lemma_leaf_steps_more_fuel(texts, schema, child, (fuel - 1) as nat, (more - 1) as nat);
    }
}

/// Steps that are found are found with as much fuel as they are many.
pub proof fn lemma_leaf_steps_least_fuel(
    texts: Map<Seq<char>, Seq<char>>,
    schema: SchemaView,
    d: D,
    fuel: nat,
)
    requires
        leaf_steps(texts, schema, d, fuel) is Some,
    ensures
        leaf_steps(texts, schema, d, leaf_steps(texts, schema, d, fuel)->Some_0.len())
            == leaf_steps(texts, schema, d, fuel),
    decreases fuel,
{
    let node = node_at(texts, d)->Some_0;
    if node.value is Object {
        let (step, child) = first_step(schema, node)->Some_0;
        lemma_leaf_steps_least_fuel(texts, schema, child, (fuel - 1) as nat);
        let below = leaf_steps(texts, schema, child, (fuel - 1) as nat)->Some_0;
        assert((seq![step] + below).len() == below.len() + 1);
    }
}

/// The digests of the first `count` objects on the way down from a digest.
pub open spec fn objects_on_the_way(
    texts: Map<Seq<char>, Seq<char>>,
    schema: SchemaView,
    d: D,
    count: nat,
) -> Seq<D>
    decreases count,
{
    if count == 0 {
        Seq::empty()
    } else {
        match node_at(texts, d) {
            Some(node) => match first_step(schema, node) {
                Some((_, child)) => seq![d] + objects_on_the_way(texts, schema, child, (count - 1) as nat),
                None => seq![d],
            },
            None => seq![d],
        }
    }
}

/// Where steps are found, each of them starts at an object that the store
/// holds, and the steps from that object are the rest of the steps.
pub proof fn lemma_objects_on_the_way(
    texts: Map<Seq<char>, Seq<char>>,
    schema: SchemaView,
    d: D,
    fuel: nat,
)
    requires
        leaf_steps(texts, schema, d, fuel) is Some,
    ensures
        ({
            let steps = leaf_steps(texts, schema, d, fuel)->Some_0;
            let way = objects_on_the_way(texts, schema, d, steps.len());
            &&& way.len() == steps.len()
            &&& forall|i: int|
                0 <= i < way.len() ==> texts.contains_key(digest_text((#[trigger] way[i])@))
                    && leaf_steps(texts, schema, way[i], (steps.len() - i) as nat) == Some(
                    steps.skip(i),
                )
        }),
    decreases fuel,
{
    let steps = leaf_steps(texts, schema, d, fuel)->Some_0;
    let way = objects_on_the_way(texts, schema, d, steps.len());
    let node = node_at(texts, d)->Some_0;
    lemma_leaf_steps_least_fuel(texts, schema, d, fuel);
    if node.value is Object {
        let (step, child) = first_step(schema, node)->Some_0;
        let below = leaf_steps(texts, schema, child, (fuel - 1) as nat)->Some_0;
        assert(steps == seq![step] + below);
        assert(steps.len() == below.len() + 1);
        lemma_objects_on_the_way(texts, schema, child, (fuel - 1) as nat);
        let rest = objects_on_the_way(texts, schema, child, below.len());
        assert(way == seq![d] + rest);
        assert forall|i: int| 0 <= i < way.len() implies texts.contains_key(
            digest_text((#[trigger] way[i])@),
        ) && leaf_steps(texts, schema, way[i], (steps.len() - i) as nat) == Some(steps.skip(i)) by {
            if i == 0 {
                assert(steps.skip(0) =~= steps);
            } else {
                assert(way[i] == rest[i - 1]);
                assert(steps.skip(i) =~= below.skip(i - 1));
            }
        }
    } else {
        assert(steps.len() == 0);
    }
}

/// More items than a set has members, all taken from the set, hold one
/// member twice.
pub proof fn lemma_pigeonhole(items: Seq<Seq<char>>, set: Set<Seq<char>>)
    requires
        set.finite(),
        items.len() > set.len(),
        forall|i: int| 0 <= i < items.len() ==> set.contains(#[trigger] items[i]),
    ensures
        exists|i: int, j: int| 0 <= i < j < items.len() && items[i] == items[j],
{
    if items.no_duplicates() {
        items.unique_seq_to_set();
        assert(items.to_set().subset_of(set)) by {
            assert forall|x: Seq<char>| items.to_set().contains(x) implies set.contains(x) by {
                let i = choose|i: int| 0 <= i < items.len() && items[i] == x;
                assert(set.contains(items[i]));
            }
        }
        vstd::set_lib::lemma_len_subset(items.to_set(), set);
    } else {
        let (i, j) = choose|i: int, j: int|
            0 <= i < items.len() && 0 <= j < items.len() && i != j && items[i] == items[j];
        if i < j {
            assert(0 <= i < j < items.len() && items[i] == items[j]);
        } else {
            assert(0 <= j < i < items.len() && items[j] == items[i]);
        }
    }
}

/// The steps down to a first leaf go through no more objects than the
/// store has keys: a longer way would come by the same object twice, and
/// from there on go round for ever.
pub proof fn lemma_leaf_steps_bounded(
    texts: Map<Seq<char>, Seq<char>>,
    schema: SchemaView,
    d: D,
    fuel: nat,
)
    requires
        texts.dom().finite(),
        leaf_steps(texts, schema, d, fuel) is Some,
    ensures
        leaf_steps(texts, schema, d, fuel)->Some_0.len() <= texts.dom().len(),
{
    let steps = leaf_steps(texts, schema, d, fuel)->Some_0;
    let way = objects_on_the_way(texts, schema, d, steps.len());
    lemma_objects_on_the_way(texts, schema, d, fuel);
    if steps.len() > texts.dom().len() {
        let keys = Seq::new(way.len(), |i: int| digest_text(way[i]@));
        assert forall|i: int| 0 <= i < keys.len() implies texts.dom().contains(#[trigger] keys[i]) by {
            assert(texts.contains_key(digest_text(way[i]@)));
        }
        lemma_pigeonhole(keys, texts.dom());
        let (i, j) = choose|i: int, j: int| 0 <= i < j < keys.len() && keys[i] == keys[j];
        law_digest_text_injective(way[i]@, way[j]@);
        lemma_digest_from(way[i]);
        lemma_digest_from(way[j]);
        assert(way[i] == way[j]);
        assert(leaf_steps(texts, schema, way[i], (steps.len() - i) as nat) == Some(steps.skip(i)));
        assert(leaf_steps(texts, schema, way[j], (steps.len() - j) as nat) == Some(steps.skip(j)));
        lemma_leaf_steps_more_fuel(
            texts,
            schema,
            way[j],
            (steps.len() - j) as nat,
            (steps.len() - i) as nat,
        );
        assert(steps.skip(i).len() != steps.skip(j).len());
    }
}

/// The bound on the way to a first leaf loses nothing. With as much fuel as
/// the store has keys, the first leaf is found wherever any amount of fuel
/// finds it; where it is not found, no amount of fuel finds one.
pub proof fn law_first_leaf_bound_suffices(
    texts: Map<Seq<char>, Seq<char>>,
    schema: SchemaView,
    root: D,
    path: Seq<Selector>,
    fuel: nat,
)
    requires
        texts.dom().finite(),
        fuel >= texts.dom().len(),
    ensures
        first_leaf_within(texts, schema, root, path, fuel) == first_leaf_within(
            texts,
            schema,
            root,
            path,
            texts.dom().len(),
        ),
{
    let bound = texts.dom().len();
    lemma_first_leaf_steps(texts, schema, root, path, fuel);
    lemma_first_leaf_steps(texts, schema, root, path, bound);
    match resolve(texts, root, path) {
        Ok(d) => {
            if leaf_steps(texts, schema, d, fuel) is Some {
                let steps = leaf_steps(texts, schema, d, fuel)->Some_0;
                lemma_leaf_steps_bounded(texts, schema, d, fuel);
                lemma_leaf_steps_least_fuel(texts, schema, d, fuel);
                lemma_leaf_steps_more_fuel(texts, schema, d, steps.len(), bound);
            } else if leaf_steps(texts, schema, d, bound) is Some {
                lemma_leaf_steps_more_fuel(texts, schema, d, bound, fuel);
            }
        },
        Err(_) => {},
    }
}

} // verus!
