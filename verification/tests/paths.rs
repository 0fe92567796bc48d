use content_tree::catalogue::create_schema;
use content_tree::digest::D;
use content_tree::input::create_value;
use content_tree::navigation::{
    ancestor_with_next_child, child, find_node, find_value, first_leaf, format_path, next, parent,
    prev, Error,
};
use content_tree::schema::{ObjectType, Schema};
use content_tree::storage::{set_item, KeyValue};
use content_tree::value::{Node, ObjectValue, Path, Selector, Type, Value};

fn step(field_id: u32, index: usize) -> Selector {
    Selector { field_id, index }
}

fn put_text(store: &mut KeyValue, id: u32, text: &str) -> D {
    set_item(store, &Node { id, value: Value::String(text.to_string()) })
}

/// A post with a title, a content, two authors (the first with a name, an
/// age and two friends, the second without fields) and one comment.
fn sample_post(store: &mut KeyValue) -> D {
    let title = put_text(store, 10, "A title");
    let content = put_text(store, 11, "Some content");
    let name = put_text(store, 20, "Ann");
    let age = set_item(store, &Node { id: 21, value: Value::Int(33) });
    let friend_a = put_text(store, 22, "Bob");
    let friend_b = put_text(store, 23, "Cy");
    let mut ann = ObjectValue::new(27092);
    ann.append(0, name);
    ann.append(1, age);
    ann.append(3, friend_a);
    ann.append(3, friend_b);
    let ann = set_item(store, &Node { id: 30, value: Value::Object(ann) });
    let nobody = set_item(store, &Node { id: 31, value: Value::Object(ObjectValue::new(27092)) });
    let remark = put_text(store, 40, "Nice");
    let mut comment = ObjectValue::new(5528);
    comment.append(0, remark);
    let comment = set_item(store, &Node { id: 41, value: Value::Object(comment) });
    let mut post = ObjectValue::new(2325);
    post.append(0, title);
    post.append(1, content);
    post.append(2, ann);
    post.append(2, nobody);
    post.append(3, comment);
    set_item(store, &Node { id: 1, value: Value::Object(post) })
}

fn text_at(store: &KeyValue, root: &D, path: &Path) -> Option<String> {
    match find_node(store, root, path) {
        Ok(Node { value: Value::String(s), .. }) => Some(s),
        _ => None,
    }
}

#[test]
fn the_empty_path_leads_to_the_root() {
    let mut store = KeyValue::new();
    let root = sample_post(&mut store);
    assert_eq!(find_value(&store, &root, &vec![]), Ok(Some(root)));
    let absent = D { sha2_256: [5u8; 32] };
    assert_eq!(find_value(&store, &absent, &vec![]), Ok(Some(absent)));
}

#[test]
fn a_path_leads_down_through_objects() {
    let mut store = KeyValue::new();
    let root = sample_post(&mut store);
    assert_eq!(text_at(&store, &root, &vec![step(0, 0)]), Some("A title".to_string()));
    assert_eq!(text_at(&store, &root, &vec![step(1, 0)]), Some("Some content".to_string()));
    assert_eq!(text_at(&store, &root, &vec![step(2, 0), step(0, 0)]), Some("Ann".to_string()));
    assert_eq!(text_at(&store, &root, &vec![step(2, 0), step(3, 1)]), Some("Cy".to_string()));
    assert_eq!(text_at(&store, &root, &vec![step(3, 0), step(0, 0)]), Some("Nice".to_string()));
    let age = find_node(&store, &root, &vec![step(2, 0), step(1, 0)]).unwrap();
    assert_eq!(age, Node { id: 21, value: Value::Int(33) });
}

#[test]
fn a_place_past_the_end_is_not_found() {
    let mut store = KeyValue::new();
    let root = sample_post(&mut store);
    assert_eq!(find_value(&store, &root, &vec![step(0, 1)]), Ok(None));
    assert_eq!(find_value(&store, &root, &vec![step(2, 2)]), Ok(None));
    assert_eq!(find_value(&store, &root, &vec![step(2, usize::MAX)]), Ok(None));
    assert_eq!(find_value(&store, &root, &vec![step(2, 0), step(3, 2)]), Ok(None));
    assert_eq!(find_value(&store, &root, &vec![step(2, 5), step(0, 0)]), Ok(None));
    assert_eq!(find_node(&store, &root, &vec![step(0, 1)]), Err(Error::NotFound));
}

#[test]
fn a_field_that_the_object_lacks_is_not_found() {
    let mut store = KeyValue::new();
    let root = sample_post(&mut store);
    assert_eq!(find_value(&store, &root, &vec![step(99, 0)]), Ok(None));
    assert_eq!(find_value(&store, &root, &vec![step(2, 1), step(0, 0)]), Ok(None));
}

#[test]
fn a_node_that_is_not_stored_is_not_found() {
    let mut store = KeyValue::new();
    let absent = D { sha2_256: [5u8; 32] };
    let mut object = ObjectValue::new(2325);
    object.append(0, absent);
    let root = set_item(&mut store, &Node { id: 1, value: Value::Object(object) });
    assert_eq!(find_value(&store, &root, &vec![step(0, 0)]), Ok(Some(absent)));
    assert_eq!(find_value(&store, &root, &vec![step(0, 0), step(0, 0)]), Ok(None));
    assert_eq!(find_node(&store, &root, &vec![step(0, 0)]), Err(Error::NotFound));
    assert_eq!(find_value(&store, &absent, &vec![step(0, 0)]), Ok(None));
}

#[test]
fn a_step_from_a_scalar_is_an_error() {
    let mut store = KeyValue::new();
    let root = sample_post(&mut store);
    assert_eq!(
        find_value(&store, &root, &vec![step(0, 0), step(0, 0)]),
        Err(Error::ExpectedObject)
    );
    assert_eq!(
        find_node(&store, &root, &vec![step(2, 0), step(1, 0), step(0, 0)]),
        Err(Error::ExpectedObject)
    );
}

#[test]
fn parent_drops_the_last_step() {
    assert_eq!(parent(&vec![step(2, 0), step(3, 1)]), vec![step(2, 0)]);
    assert_eq!(parent(&vec![step(2, 0)]), vec![]);
}

#[test]
fn parent_of_the_root_is_the_root() {
    assert_eq!(parent(&vec![]), vec![]);
}

#[test]
fn prev_stays_in_place() {
    assert_eq!(prev(&vec![]), vec![]);
    assert_eq!(prev(&vec![step(2, 0), step(3, 1)]), vec![step(2, 0), step(3, 1)]);
}

#[test]
fn format_path_writes_field_and_place() {
    assert_eq!(format_path(&vec![]), "");
    assert_eq!(format_path(&vec![step(0, 0)]), "0[0]");
    assert_eq!(format_path(&vec![step(2, 1), step(912831, 12)]), "2[1].912831[12]");
    assert_eq!(
        format_path(&vec![step(u32::MAX, 0), step(0, 7), step(1, 1)]),
        "4294967295[0].0[7].1[1]"
    );
}

#[test]
fn first_leaf_of_a_scalar_is_its_own_path() {
    let mut store = KeyValue::new();
    let root = sample_post(&mut store);
    let schema = create_schema();
    assert_eq!(first_leaf(&schema, &store, &root, &vec![step(0, 0)]), Some(vec![step(0, 0)]));
    assert_eq!(
        first_leaf(&schema, &store, &root, &vec![step(2, 0), step(3, 1)]),
        Some(vec![step(2, 0), step(3, 1)])
    );
}

#[test]
fn first_leaf_goes_down_the_first_field() {
    let mut store = KeyValue::new();
    let root = sample_post(&mut store);
    let schema = create_schema();
    assert_eq!(first_leaf(&schema, &store, &root, &vec![]), Some(vec![step(0, 0)]));
    assert_eq!(
        first_leaf(&schema, &store, &root, &vec![step(2, 0)]),
        Some(vec![step(2, 0), step(0, 0)])
    );
    assert_eq!(
        first_leaf(&schema, &store, &root, &vec![step(3, 0)]),
        Some(vec![step(3, 0), step(0, 0)])
    );
}

#[test]
fn first_leaf_goes_down_through_nested_objects() {
    let mut store = KeyValue::new();
    let schema = create_schema();
    let mut run = ObjectValue::new(273819273);
    let line = put_text(&mut store, 5, "apt update");
    run.append(1279811, line);
    let run = set_item(&mut store, &Node { id: 6, value: Value::Object(run) });
    let mut command = ObjectValue::new(28973111);
    command.append(89723, run);
    let command = set_item(&mut store, &Node { id: 7, value: Value::Object(command) });
    let mut dockerfile = ObjectValue::new(213792873);
    dockerfile.append(2871232, command);
    let root = set_item(&mut store, &Node { id: 8, value: Value::Object(dockerfile) });
    assert_eq!(
        first_leaf(&schema, &store, &root, &vec![]),
        Some(vec![step(2871232, 0), step(89723, 0), step(1279811, 0)])
    );
    assert_eq!(
        first_leaf(&schema, &store, &root, &vec![step(2871232, 0)]),
        Some(vec![step(2871232, 0), step(89723, 0), step(1279811, 0)])
    );
}

#[test]
fn first_leaf_follows_the_type_that_the_object_names() {
    let mut store = KeyValue::new();
    let schema = create_schema();
    // The object under `run` names the type of a `FROM` line: the way goes
    // into that type's first field, `image`.
    let image = put_text(&mut store, 1, "debian");
    let mut from = ObjectValue::new(29187312);
    from.append(281731, image);
    let from = set_item(&mut store, &Node { id: 2, value: Value::Object(from) });
    let mut command = ObjectValue::new(28973111);
    command.append(89723, from);
    let root = set_item(&mut store, &Node { id: 3, value: Value::Object(command) });
    assert_eq!(
        first_leaf(&schema, &store, &root, &vec![]),
        Some(vec![step(89723, 0), step(281731, 0)])
    );
}

#[test]
fn first_leaf_of_an_object_without_the_first_entry_is_none() {
    let mut store = KeyValue::new();
    let root = sample_post(&mut store);
    let schema = create_schema();
    assert_eq!(first_leaf(&schema, &store, &root, &vec![step(2, 1)]), None);
    let fresh = set_item(&mut store, &Node { id: 1, value: create_value() });
    assert_eq!(first_leaf(&schema, &store, &fresh, &vec![]), None);
}

#[test]
fn first_leaf_of_a_type_without_fields_is_none() {
    let mut store = KeyValue::new();
    let schema = Schema::rooted(1).with_type(1, ObjectType::named("Bare"));
    let root = set_item(&mut store, &Node { id: 1, value: Value::Object(ObjectValue::new(1)) });
    assert_eq!(first_leaf(&schema, &store, &root, &vec![]), None);
}

#[test]
fn first_leaf_of_an_unknown_type_is_none() {
    let mut store = KeyValue::new();
    let schema = create_schema();
    let mut object = ObjectValue::new(123456);
    let leaf = put_text(&mut store, 1, "x");
    object.append(0, leaf);
    let root = set_item(&mut store, &Node { id: 1, value: Value::Object(object) });
    assert_eq!(first_leaf(&schema, &store, &root, &vec![]), None);
}

#[test]
fn first_leaf_of_a_path_that_leads_nowhere_is_none() {
    let mut store = KeyValue::new();
    let root = sample_post(&mut store);
    let schema = create_schema();
    assert_eq!(first_leaf(&schema, &store, &root, &vec![step(9, 9)]), None);
    assert_eq!(first_leaf(&schema, &store, &root, &vec![step(0, 0), step(0, 0)]), None);
    assert_eq!(first_leaf(&schema, &store, &D::default(), &vec![]), None);
}

#[test]
fn child_goes_into_the_first_scalar_field() {
    let mut store = KeyValue::new();
    let root = sample_post(&mut store);
    let schema = create_schema();
    assert_eq!(child(&schema, &store, &root, &vec![]), vec![step(0, 0)]);
    assert_eq!(child(&schema, &store, &root, &vec![step(2, 0)]), vec![step(2, 0), step(0, 0)]);
}

#[test]
fn child_skips_fields_that_hold_objects() {
    let mut store = KeyValue::new();
    let schema = Schema::rooted(1).with_type(
        1,
        ObjectType::named("Mixed")
            .with_field(3, "first", Type::Object(1), true)
            .with_field(5, "second", Type::Int, false)
            .with_field(8, "third", Type::String, false),
    );
    let root = set_item(&mut store, &Node { id: 1, value: Value::Object(ObjectValue::new(1)) });
    assert_eq!(child(&schema, &store, &root, &vec![]), vec![step(5, 0)]);
}

#[test]
fn child_stays_where_there_is_nothing_below() {
    let mut store = KeyValue::new();
    let root = sample_post(&mut store);
    let schema = create_schema();
    assert_eq!(child(&schema, &store, &root, &vec![step(0, 0)]), vec![step(0, 0)]);
    assert_eq!(child(&schema, &store, &root, &vec![step(9, 9)]), vec![step(9, 9)]);
    let only_objects = Schema::rooted(1)
        .with_type(1, ObjectType::named("Holder").with_field(0, "inner", Type::Object(1), true));
    let holder = set_item(&mut store, &Node { id: 1, value: Value::Object(ObjectValue::new(1)) });
    assert_eq!(child(&only_objects, &store, &holder, &vec![]), vec![]);
    let unknown = set_item(&mut store, &Node { id: 1, value: Value::Object(ObjectValue::new(77)) });
    assert_eq!(child(&only_objects, &store, &unknown, &vec![]), vec![]);
}

#[test]
fn ancestor_gives_the_next_entry_of_a_repeated_field() {
    let mut store = KeyValue::new();
    let root = sample_post(&mut store);
    let schema = create_schema();
    assert_eq!(
        ancestor_with_next_child(&schema, &store, &root, &vec![step(2, 0), step(3, 0)]),
        Some(vec![step(2, 0), step(3, 1)])
    );
    assert_eq!(
        ancestor_with_next_child(&schema, &store, &root, &vec![step(2, 0)]),
        Some(vec![step(2, 1)])
    );
}

#[test]
fn ancestor_gives_the_next_field_that_has_an_entry() {
    let mut store = KeyValue::new();
    let root = sample_post(&mut store);
    let schema = create_schema();
    assert_eq!(
        ancestor_with_next_child(&schema, &store, &root, &vec![step(0, 0)]),
        Some(vec![step(1, 0)])
    );
    assert_eq!(
        ancestor_with_next_child(&schema, &store, &root, &vec![step(2, 0), step(1, 0)]),
        Some(vec![step(2, 0), step(3, 0)])
    );
    assert_eq!(
        ancestor_with_next_child(&schema, &store, &root, &vec![step(2, 1)]),
        Some(vec![step(3, 0)])
    );
}

#[test]
fn ancestor_goes_up_where_a_level_has_no_next_child() {
    let mut store = KeyValue::new();
    let root = sample_post(&mut store);
    let schema = create_schema();
    assert_eq!(
        ancestor_with_next_child(&schema, &store, &root, &vec![step(2, 0), step(3, 1)]),
        Some(vec![step(2, 1)])
    );
}

#[test]
fn ancestor_is_none_at_the_end_of_the_document() {
    let mut store = KeyValue::new();
    let root = sample_post(&mut store);
    let schema = create_schema();
    assert_eq!(
        ancestor_with_next_child(&schema, &store, &root, &vec![step(3, 0), step(0, 0)]),
        None
    );
    assert_eq!(ancestor_with_next_child(&schema, &store, &root, &vec![step(3, 0)]), None);
    assert_eq!(ancestor_with_next_child(&schema, &store, &root, &vec![]), None);
}

#[test]
fn ancestor_is_none_where_the_parent_is_no_object() {
    let mut store = KeyValue::new();
    let root = sample_post(&mut store);
    let schema = create_schema();
    assert_eq!(
        ancestor_with_next_child(&schema, &store, &root, &vec![step(0, 0), step(0, 0)]),
        None
    );
    assert_eq!(
        ancestor_with_next_child(&schema, &store, &root, &vec![step(7, 7), step(0, 0)]),
        None
    );
}

#[test]
fn a_field_that_is_not_repeated_has_no_next_entry() {
    let mut store = KeyValue::new();
    let first = put_text(&mut store, 1, "one");
    let second = put_text(&mut store, 2, "two");
    let mut post = ObjectValue::new(2325);
    post.append(0, first);
    post.append(0, second);
    let root = set_item(&mut store, &Node { id: 3, value: Value::Object(post) });
    let schema = create_schema();
    assert_eq!(ancestor_with_next_child(&schema, &store, &root, &vec![step(0, 0)]), None);
}

#[test]
fn next_of_an_object_is_its_first_leaf() {
    let mut store = KeyValue::new();
    let root = sample_post(&mut store);
    let schema = create_schema();
    assert_eq!(next(&schema, &store, &root, &vec![]), vec![step(0, 0)]);
    assert_eq!(next(&schema, &store, &root, &vec![step(2, 0)]), vec![step(2, 0), step(0, 0)]);
}

#[test]
fn next_of_a_leaf_is_the_first_leaf_of_what_follows() {
    let mut store = KeyValue::new();
    let root = sample_post(&mut store);
    let schema = create_schema();
    assert_eq!(next(&schema, &store, &root, &vec![step(0, 0)]), vec![step(1, 0)]);
    assert_eq!(next(&schema, &store, &root, &vec![step(1, 0)]), vec![step(2, 0), step(0, 0)]);
    assert_eq!(
        next(&schema, &store, &root, &vec![step(2, 0), step(0, 0)]),
        vec![step(2, 0), step(1, 0)]
    );
    assert_eq!(
        next(&schema, &store, &root, &vec![step(2, 0), step(3, 0)]),
        vec![step(2, 0), step(3, 1)]
    );
}

#[test]
fn next_stays_where_nothing_follows() {
    let mut store = KeyValue::new();
    let root = sample_post(&mut store);
    let schema = create_schema();
    let last = vec![step(3, 0), step(0, 0)];
    assert_eq!(next(&schema, &store, &root, &last), last);
    // What follows the last friend is the second author, who has no fields
    // to go into.
    let friend = vec![step(2, 0), step(3, 1)];
    assert_eq!(next(&schema, &store, &root, &friend), friend);
    let nowhere = vec![step(8, 8)];
    assert_eq!(next(&schema, &store, &root, &nowhere), nowhere);
    assert_eq!(next(&schema, &store, &D::default(), &vec![]), vec![]);
}

#[test]
fn cursor_moves_never_fail_on_odd_paths() {
    let mut store = KeyValue::new();
    let root = sample_post(&mut store);
    let schema = create_schema();
    let odd: Vec<Path> = vec![
        vec![],
        vec![step(u32::MAX, usize::MAX)],
        vec![step(0, 0), step(0, 0), step(0, 0)],
        vec![step(2, usize::MAX)],
        vec![step(2, 0), step(3, usize::MAX)],
    ];
    for path in odd {
        let up = parent(&path);
        assert!(up.len() <= path.len());
        assert_eq!(prev(&path), path);
        let down = child(&schema, &store, &root, &path);
        assert!(down.len() >= path.len());
        let forward = next(&schema, &store, &root, &path);
        assert!(forward == path || find_node(&store, &root, &forward).is_ok());
        let empty = KeyValue::new();
        assert_eq!(child(&schema, &empty, &root, &path), path);
        assert_eq!(next(&schema, &empty, &root, &path), path);
    }
}
