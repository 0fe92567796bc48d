use content_tree::digest::{HexError, D};
use content_tree::remote::{
    accept_download, download_url, root_in_fragment, root_location, DownloadError,
};
use content_tree::storage::{get_item, set_item, set_value, HasDigest, KeyValue};
use content_tree::value::{Node, Value};

const KNOWN: &str = "sha2-256:883ba22861ceac0617e6d08c25d6c6868a5cc1757f44f41b70845d23b667323e";

#[test]
fn download_url_names_the_digest() {
    let d = D::from_hex(KNOWN);
    assert_eq!(
        download_url(&d),
        "https://api.static.space/v1/raw/sha2-256:883ba22861ceac0617e6d08c25d6c6868a5cc1757f44f41b70845d23b667323e"
    );
}

#[test]
fn a_good_download_is_stored_under_its_digest() {
    let mut store = KeyValue::new();
    let node = Node { id: 3, value: Value::String("from afar".to_string()) };
    let taken = accept_download(&mut store, 200, &node.serialize());
    assert_eq!(taken, Ok(node.digest()));
    assert_eq!(get_item(&store, &node.digest()), Some(node));
    assert_eq!(store.len(), 1);
}

#[test]
fn a_download_with_another_status_is_refused() {
    let mut store = KeyValue::new();
    let body = Node::default().serialize();
    assert_eq!(accept_download(&mut store, 404, &body), Err(DownloadError::Failed));
    assert_eq!(accept_download(&mut store, 500, &body), Err(DownloadError::Failed));
    assert_eq!(accept_download(&mut store, 201, &body), Err(DownloadError::Failed));
    assert_eq!(store.len(), 0);
}

#[test]
fn a_download_that_is_no_node_is_refused() {
    let mut store = KeyValue::new();
    assert_eq!(accept_download(&mut store, 200, ""), Err(DownloadError::NotANode));
    assert_eq!(accept_download(&mut store, 200, "<html>"), Err(DownloadError::NotANode));
    assert_eq!(
        accept_download(&mut store, 200, "{\"id\": 1, \"value\": \"Empty\"}"),
        Err(DownloadError::NotANode)
    );
    assert_eq!(store.len(), 0);
}

#[test]
fn root_location_is_the_fragment_with_the_digest() {
    let d = D::from_hex(KNOWN);
    assert_eq!(
        root_location(&d),
        "/#sha2-256:883ba22861ceac0617e6d08c25d6c6868a5cc1757f44f41b70845d23b667323e"
    );
}

#[test]
fn a_fragment_names_the_root_behind_its_first_character() {
    let d = D::from_hex(KNOWN);
    let fragment = format!("#{}", KNOWN);
    assert_eq!(root_in_fragment(&fragment), Some(Ok(d)));
    assert_eq!(root_in_fragment(&root_location(&d)[1..]), Some(Ok(d)));
}

#[test]
fn a_short_fragment_names_no_root() {
    assert_eq!(root_in_fragment(""), None);
    assert_eq!(root_in_fragment("#"), None);
    assert_eq!(root_in_fragment("\u{e9}"), None);
}

#[test]
fn a_fragment_without_the_tag_names_the_empty_digest() {
    assert_eq!(root_in_fragment("#abc"), Some(Ok(D::default())));
}

#[test]
fn a_fragment_with_a_broken_digest_is_an_error() {
    assert_eq!(root_in_fragment("#sha2-256:0g"), Some(Err(HexError::InvalidHexCharacter {
        c: 'g',
        index: 1
    })));
    assert_eq!(root_in_fragment("#sha2-256:0"), Some(Err(HexError::OddLength)));
    assert_eq!(root_in_fragment("#sha2-256:00"), Some(Err(HexError::InvalidStringLength)));
}

#[test]
fn keys_come_in_the_order_in_which_they_were_set() {
    let mut store = KeyValue::new();
    set_value(&mut store, "b", "1");
    let d = set_item(&mut store, &Node::default());
    set_value(&mut store, "a", "2");
    set_value(&mut store, "b", "3");
    assert_eq!(store.len(), 3);
    assert_eq!(store.key_at(0), "b");
    assert_eq!(store.text_at(0), "3");
    assert_eq!(store.key_at(1), &d.to_hex());
    assert_eq!(store.text_at(1), "{\"id\":0,\"value\":\"Empty\"}");
    assert_eq!(store.key_at(2), "a");
    assert_eq!(store.text_at(2), "2");
}
