use content_tree::action::{append, apply, delete, on_action, Action, Position, State};
use content_tree::digest::D;
use content_tree::input::create_value;
use content_tree::mutation::{update_node, update_node_value};
use content_tree::navigation::{find_node, find_value, Error};
use content_tree::storage::{get_item, get_root, set_item, HasDigest, KeyValue};
use content_tree::value::{Node, ObjectValue, Path, Selector, Value};

fn at(field_id: u32, index: usize) -> Selector {
    Selector { field_id, index }
}

fn put_string(store: &mut KeyValue, id: u32, text: &str) -> D {
    set_item(store, &Node { id, value: Value::String(text.to_string()) })
}

/// A root with two texts in field 0, an inner object in field 1 that holds
/// two texts in its field 5, and a text in field 2.
fn small_tree(store: &mut KeyValue) -> D {
    let a = put_string(store, 10, "a");
    let b = put_string(store, 11, "b");
    let x = put_string(store, 12, "x");
    let y = put_string(store, 13, "y");
    let c = put_string(store, 14, "c");
    let mut inner = ObjectValue::new(7);
    inner.append(5, x);
    inner.append(5, y);
    let inner = set_item(store, &Node { id: 20, value: Value::Object(inner) });
    let mut root = ObjectValue::new(2325);
    root.append(0, a);
    root.append(0, b);
    root.append(1, inner);
    root.append(2, c);
    set_item(store, &Node { id: 1, value: Value::Object(root) })
}

fn object_at(store: &KeyValue, root: &D, path: &Path) -> ObjectValue {
    match find_node(store, root, path) {
        Ok(Node { value: Value::Object(o), .. }) => o,
        other => panic!("{:?}", other),
    }
}

fn string_at(store: &KeyValue, root: &D, path: &Path) -> String {
    match find_node(store, root, path) {
        Ok(Node { value: Value::String(s), .. }) => s,
        other => panic!("{:?}", other),
    }
}

#[test]
fn update_replaces_the_value_at_the_path() {
    let mut store = KeyValue::new();
    let root = small_tree(&mut store);
    let path = vec![at(1, 0), at(5, 1)];
    let new_root = update_node(&mut store, &root, &path, Value::String("changed".to_string())).unwrap();
    assert_ne!(new_root, root);
    assert_eq!(string_at(&store, &new_root, &path), "changed");
    assert_eq!(find_node(&store, &new_root, &path).unwrap().id, 13);
    assert_eq!(string_at(&store, &root, &path), "y");
}

#[test]
fn update_of_the_root_itself() {
    let mut store = KeyValue::new();
    let root = small_tree(&mut store);
    let new_root = update_node(&mut store, &root, &vec![], Value::Int(5)).unwrap();
    assert_eq!(get_item(&store, &new_root), Some(Node { id: 1, value: Value::Int(5) }));
    assert_eq!(new_root, Node { id: 1, value: Value::Int(5) }.digest());
    assert!(get_item(&store, &root).is_some());
}

#[test]
fn update_shares_the_subtrees_off_the_path() {
    let mut store = KeyValue::new();
    let root = small_tree(&mut store);
    let path = vec![at(1, 0), at(5, 1)];
    let new_root = update_node(&mut store, &root, &path, Value::String("changed".to_string())).unwrap();
    let others: Vec<Path> = vec![
        vec![at(0, 0)],
        vec![at(0, 1)],
        vec![at(2, 0)],
        vec![at(0, 2)],
        vec![at(9, 0)],
        vec![at(0, 0), at(0, 0)],
        vec![at(1, 0), at(5, 0)],
        vec![at(1, 0), at(5, 2)],
    ];
    for other in others {
        assert_eq!(
            find_value(&store, &new_root, &other),
            find_value(&store, &root, &other),
            "{:?}",
            other
        );
    }
    assert_ne!(
        find_value(&store, &new_root, &vec![at(1, 0)]),
        find_value(&store, &root, &vec![at(1, 0)])
    );
}

#[test]
fn update_writes_one_node_for_each_step_and_the_leaf() {
    let mut store = KeyValue::new();
    let root = small_tree(&mut store);
    let before = store.len();
    update_node(&mut store, &root, &vec![at(1, 0), at(5, 1)], Value::Int(1)).unwrap();
    assert_eq!(store.len(), before + 3);
}

#[test]
fn update_twice_with_the_same_value_gives_the_same_root() {
    let mut store = KeyValue::new();
    let root = small_tree(&mut store);
    let path = vec![at(1, 0), at(5, 0)];
    let first = update_node(&mut store, &root, &path, Value::Boolean(true)).unwrap();
    let size = store.len();
    let second = update_node(&mut store, &root, &path, Value::Boolean(true)).unwrap();
    assert_eq!(first, second);
    assert_eq!(store.len(), size);
    let third = update_node(&mut store, &first, &path, Value::Boolean(true)).unwrap();
    assert_eq!(third, first);
}

#[test]
fn update_with_the_old_value_gives_the_old_root() {
    let mut store = KeyValue::new();
    let root = small_tree(&mut store);
    let same = update_node(&mut store, &root, &vec![at(0, 1)], Value::String("b".to_string())).unwrap();
    assert_eq!(same, root);
}

#[test]
fn update_with_a_function_of_the_old_value() {
    let mut store = KeyValue::new();
    let root = small_tree(&mut store);
    let path = vec![at(2, 0)];
    let new_root = update_node_value(&mut store, &root, &path, |v| match v {
        Value::String(s) => Value::String(format!("{}{}", s, s)),
        other => other,
    })
    .unwrap();
    assert_eq!(string_at(&store, &new_root, &path), "cc");
}

#[test]
fn update_fails_where_the_path_leads_nowhere() {
    let mut store = KeyValue::new();
    let root = small_tree(&mut store);
    let before = store.len();
    assert_eq!(
        update_node(&mut store, &root, &vec![at(0, 2)], Value::Empty),
        Err(Error::NotFound)
    );
    assert_eq!(
        update_node(&mut store, &root, &vec![at(8, 0)], Value::Empty),
        Err(Error::NotFound)
    );
    assert_eq!(
        update_node(&mut store, &root, &vec![at(0, 0), at(0, 0)], Value::Empty),
        Err(Error::ExpectedObject)
    );
    assert_eq!(
        update_node(&mut store, &D::default(), &vec![], Value::Empty),
        Err(Error::NotFound)
    );
    assert_eq!(store.len(), before);
}

#[test]
fn update_fails_where_the_leaf_is_not_stored() {
    let mut store = KeyValue::new();
    let mut object = ObjectValue::new(1);
    object.append(0, D { sha2_256: [4u8; 32] });
    let root = set_item(&mut store, &Node { id: 1, value: Value::Object(object) });
    assert_eq!(
        update_node(&mut store, &root, &vec![at(0, 0)], Value::Empty),
        Err(Error::NotFound)
    );
    assert_eq!(store.len(), 1);
}

#[test]
fn append_adds_one_entry_with_the_value() {
    let mut store = KeyValue::new();
    let root = small_tree(&mut store);
    let path = vec![at(1, 0)];
    let new_root =
        append(&mut store, &root, &path, 5, Position::Last, Value::String("z".to_string()), 99)
            .unwrap();
    let before = object_at(&store, &root, &path);
    let after = object_at(&store, &new_root, &path);
    assert_eq!(before.count(5), 2);
    assert_eq!(after.count(5), 3);
    assert_eq!(after.get(5, 0), before.get(5, 0));
    assert_eq!(after.get(5, 1), before.get(5, 1));
    assert_eq!(
        find_node(&store, &new_root, &vec![at(1, 0), at(5, 2)]),
        Ok(Node { id: 99, value: Value::String("z".to_string()) })
    );
}

#[test]
fn append_to_a_field_that_is_not_there_yet() {
    let mut store = KeyValue::new();
    let root = small_tree(&mut store);
    let new_root = append(&mut store, &root, &vec![], 44, Position::Last, Value::Int(3), 5).unwrap();
    let after = object_at(&store, &new_root, &vec![]);
    assert_eq!(after.count(44), 1);
    assert_eq!(
        find_node(&store, &new_root, &vec![at(44, 0)]),
        Ok(Node { id: 5, value: Value::Int(3) })
    );
}

#[test]
fn append_goes_to_the_end_whatever_the_position() {
    for position in [Position::First, Position::Last, Position::Before(0), Position::After(0)] {
        let mut store = KeyValue::new();
        let root = small_tree(&mut store);
        let new_root =
            append(&mut store, &root, &vec![], 0, position, Value::String("new".to_string()), 7)
                .unwrap();
        assert_eq!(string_at(&store, &new_root, &vec![at(0, 0)]), "a");
        assert_eq!(string_at(&store, &new_root, &vec![at(0, 1)]), "b");
        assert_eq!(string_at(&store, &new_root, &vec![at(0, 2)]), "new");
    }
}

#[test]
fn append_fails_where_the_path_leads_to_no_object() {
    let mut store = KeyValue::new();
    let root = small_tree(&mut store);
    let before = store.len();
    assert_eq!(
        append(&mut store, &root, &vec![at(0, 0)], 0, Position::Last, Value::Empty, 1),
        Err(Error::ExpectedObject)
    );
    assert_eq!(
        append(&mut store, &root, &vec![at(0, 5)], 0, Position::Last, Value::Empty, 1),
        Err(Error::NotFound)
    );
    assert_eq!(store.len(), before);
}

#[test]
fn delete_takes_one_entry_out_and_keeps_the_order() {
    let mut store = KeyValue::new();
    let mut list = ObjectValue::new(1);
    for (i, text) in ["p", "q", "r", "s", "t"].iter().enumerate() {
        list.append(3, put_string(&mut store, i as u32, text));
    }
    let root = set_item(&mut store, &Node { id: 50, value: Value::Object(list) });
    let new_root = delete(&mut store, &root, &vec![at(3, 1)]).unwrap();
    let after = object_at(&store, &new_root, &vec![]);
    assert_eq!(after.count(3), 4);
    assert_eq!(string_at(&store, &new_root, &vec![at(3, 0)]), "p");
    assert_eq!(string_at(&store, &new_root, &vec![at(3, 1)]), "r");
    assert_eq!(string_at(&store, &new_root, &vec![at(3, 2)]), "s");
    assert_eq!(string_at(&store, &new_root, &vec![at(3, 3)]), "t");
    assert_eq!(object_at(&store, &root, &vec![]).count(3), 5);
    let last = delete(&mut store, &new_root, &vec![at(3, 3)]).unwrap();
    assert_eq!(object_at(&store, &last, &vec![]).count(3), 3);
    assert_eq!(string_at(&store, &last, &vec![at(3, 2)]), "s");
}

#[test]
fn delete_below_the_root() {
    let mut store = KeyValue::new();
    let root = small_tree(&mut store);
    let new_root = delete(&mut store, &root, &vec![at(1, 0), at(5, 0)]).unwrap();
    assert_eq!(object_at(&store, &new_root, &vec![at(1, 0)]).count(5), 1);
    assert_eq!(string_at(&store, &new_root, &vec![at(1, 0), at(5, 0)]), "y");
    assert_eq!(string_at(&store, &new_root, &vec![at(0, 1)]), "b");
}

#[test]
fn delete_fails_without_a_last_step() {
    let mut store = KeyValue::new();
    let root = small_tree(&mut store);
    let before = store.len();
    assert_eq!(delete(&mut store, &root, &vec![]), Err(Error::NoParent));
    assert_eq!(store.len(), before);
}

#[test]
fn delete_fails_where_there_is_no_such_entry() {
    let mut store = KeyValue::new();
    let root = small_tree(&mut store);
    let before = store.len();
    assert_eq!(delete(&mut store, &root, &vec![at(0, 2)]), Err(Error::NotFound));
    assert_eq!(delete(&mut store, &root, &vec![at(77, 0)]), Err(Error::NotFound));
    assert_eq!(delete(&mut store, &root, &vec![at(0, 0), at(0, 0)]), Err(Error::ExpectedObject));
    assert_eq!(delete(&mut store, &root, &vec![at(1, 1), at(5, 0)]), Err(Error::NotFound));
    assert_eq!(store.len(), before);
}

#[test]
fn end_to_end_append_then_delete() {
    let mut store = KeyValue::new();
    let first = set_item(&mut store, &Node { id: 1, value: create_value() });
    let second =
        append(&mut store, &first, &vec![], 0, Position::Last, Value::String("Hi".to_string()), 2)
            .unwrap();
    assert_eq!(find_node(&store, &second, &vec![at(0, 0)]).unwrap().value, Value::String("Hi".to_string()));
    assert_eq!(object_at(&store, &second, &vec![]).count(0), 1);
    let third = delete(&mut store, &second, &vec![at(0, 0)]).unwrap();
    assert_eq!(object_at(&store, &third, &vec![]).count(0), 0);
    assert_eq!(third, first);
    assert_eq!(get_item(&store, &first), Some(Node { id: 1, value: create_value() }));
    assert_eq!(object_at(&store, &second, &vec![]).count(0), 1);
    assert_eq!(find_node(&store, &second, &vec![at(0, 0)]).unwrap().value, Value::String("Hi".to_string()));
    assert_eq!(find_value(&store, &first, &vec![at(0, 0)]), Ok(None));
}

#[test]
fn apply_update_moves_the_root_and_keeps_the_old_one() {
    let mut store = KeyValue::new();
    let root = small_tree(&mut store);
    let mut state = State::new(root);
    let path = vec![at(0, 0)];
    assert_eq!(
        apply(&mut store, &mut state, Action::Update(path.clone(), Value::Int(1)), 0),
        Ok(())
    );
    assert_ne!(state.root, root);
    assert_eq!(state.history, vec![root]);
    assert_eq!(get_root(&store), state.root);
    assert_eq!(find_node(&store, &state.root, &path).unwrap().value, Value::Int(1));
    assert_eq!(string_at(&store, &root, &path), "a");
}

#[test]
fn apply_append_uses_the_given_identifier() {
    let mut store = KeyValue::new();
    let first = set_item(&mut store, &Node { id: 1, value: create_value() });
    let mut state = State::new(first);
    let action = Action::Append {
        path: vec![],
        field_id: 2,
        position: Position::Last,
        value: Value::Boolean(true),
    };
    assert_eq!(apply(&mut store, &mut state, action, 4242), Ok(()));
    assert_eq!(
        find_node(&store, &state.root, &vec![at(2, 0)]),
        Ok(Node { id: 4242, value: Value::Boolean(true) })
    );
    assert_eq!(get_root(&store), state.root);
    assert_eq!(state.history, vec![first]);
}

#[test]
fn apply_delete_then_history_holds_both_roots() {
    let mut store = KeyValue::new();
    let root = small_tree(&mut store);
    let mut state = State::new(root);
    assert_eq!(apply(&mut store, &mut state, Action::Delete { path: vec![at(0, 0)] }, 0), Ok(()));
    let second = state.root;
    assert_eq!(apply(&mut store, &mut state, Action::Delete { path: vec![at(0, 0)] }, 0), Ok(()));
    assert_eq!(state.history, vec![root, second]);
    assert_eq!(object_at(&store, &state.root, &vec![]).count(0), 0);
    assert_eq!(object_at(&store, &second, &vec![]).count(0), 1);
    assert_eq!(object_at(&store, &root, &vec![]).count(0), 2);
}

#[test]
fn apply_set_focus_moves_the_focus_only() {
    let mut store = KeyValue::new();
    let root = small_tree(&mut store);
    let size = store.len();
    let mut state = State::new(root);
    assert_eq!(
        apply(&mut store, &mut state, Action::SetFocus { path: vec![at(1, 0)] }, 0),
        Ok(())
    );
    assert_eq!(state.focus, vec![at(1, 0)]);
    assert_eq!(state.root, root);
    assert!(state.history.is_empty());
    assert_eq!(store.len(), size);
}

#[test]
fn apply_noop_changes_nothing() {
    let mut store = KeyValue::new();
    let root = small_tree(&mut store);
    let size = store.len();
    let mut state = State::new(root);
    assert_eq!(apply(&mut store, &mut state, Action::Noop, 0), Ok(()));
    assert_eq!(state.root, root);
    assert!(state.focus.is_empty());
    assert!(state.history.is_empty());
    assert_eq!(store.len(), size);
}

#[test]
fn apply_of_an_edit_that_fails_changes_nothing() {
    let mut store = KeyValue::new();
    let root = small_tree(&mut store);
    let size = store.len();
    let mut state = State::new(root);
    assert_eq!(
        apply(&mut store, &mut state, Action::Delete { path: vec![] }, 0),
        Err(Error::NoParent)
    );
    assert_eq!(
        apply(&mut store, &mut state, Action::Update(vec![at(0, 9)], Value::Empty), 0),
        Err(Error::NotFound)
    );
    let action = Action::Append {
        path: vec![at(0, 0)],
        field_id: 0,
        position: Position::Last,
        value: Value::Empty,
    };
    assert_eq!(apply(&mut store, &mut state, action, 0), Err(Error::ExpectedObject));
    assert_eq!(state.root, root);
    assert!(state.history.is_empty());
    assert_eq!(store.len(), size);
    assert!(get_root(&store).is_empty());
}

#[test]
fn on_action_appends_with_an_identifier_of_its_own() {
    let mut store = KeyValue::new();
    let first = set_item(&mut store, &Node { id: 1, value: create_value() });
    let mut state = State::new(first);
    let action = Action::Append {
        path: vec![],
        field_id: 0,
        position: Position::Last,
        value: Value::String("Hi".to_string()),
    };
    assert_eq!(on_action(&mut store, &mut state, action), Ok(()));
    assert_eq!(object_at(&store, &state.root, &vec![]).count(0), 1);
    assert_eq!(string_at(&store, &state.root, &vec![at(0, 0)]), "Hi");
    assert_eq!(on_action(&mut store, &mut state, Action::Delete { path: vec![at(0, 0)] }), Ok(()));
    assert_eq!(state.root, first);
    assert_eq!(state.history.len(), 2);
}

#[test]
fn a_new_session_starts_without_history() {
    let state = State::default();
    assert!(state.root.is_empty());
    assert!(state.focus.is_empty());
    assert!(state.history.is_empty());
    let root = D { sha2_256: [1u8; 32] };
    let state = State::new(root);
    assert_eq!(state.root, root);
}

#[test]
fn an_edit_that_fills_a_missing_node_is_seen_from_both_roots() {
    let mut store = KeyValue::new();
    let here = put_string(&mut store, 5, "a");
    let missing = Node { id: 5, value: Value::String("b".to_string()) }.digest();
    let mut object = ObjectValue::new(1);
    object.append(0, here);
    object.append(1, missing);
    let root = set_item(&mut store, &Node { id: 1, value: Value::Object(object) });
    let other = vec![at(1, 0), at(0, 0)];
    assert_eq!(find_value(&store, &root, &other), Ok(None));
    let new_root =
        update_node(&mut store, &root, &vec![at(0, 0)], Value::String("b".to_string())).unwrap();
    assert_eq!(find_value(&store, &new_root, &vec![at(0, 0)]), Ok(Some(missing)));
    assert_eq!(find_value(&store, &new_root, &vec![at(1, 0)]), Ok(Some(missing)));
    assert_eq!(
        find_value(&store, &new_root, &other),
        find_value(&store, &root, &other)
    );
    assert_eq!(find_value(&store, &root, &other), Err(Error::ExpectedObject));
}

#[test]
fn delete_of_what_was_appended_gives_the_object_back() {
    let mut object = ObjectValue::new(3);
    object.append(4, D { sha2_256: [1u8; 32] });
    let before = object.clone();
    object.append(4, D { sha2_256: [2u8; 32] });
    object.delete(4, 1);
    assert_eq!(object, before);
}
