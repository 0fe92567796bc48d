use content_tree::digest::{HexError, D};
use content_tree::input::create_value;
use content_tree::storage::HasDigest;
use content_tree::value::{Node, Value};

fn digest_counting_up() -> D {
    let mut bytes = [0u8; 32];
    for (i, b) in bytes.iter_mut().enumerate() {
        *b = (i as u8) * 8 + 1;
    }
    D { sha2_256: bytes }
}

#[test]
fn test_d_from_hex() {
    let d =
        D::from_hex("sha2-256:883ba22861ceac0617e6d08c25d6c6868a5cc1757f44f41b70845d23b667323e");
    assert_eq!(d.sha2_256[0], 0x88);
    assert_eq!(d.sha2_256[1], 0x3b);
    assert_eq!(d.sha2_256[31], 0x3e);
    assert!(!d.is_empty());
}

#[test]
fn to_hex_writes_tag_and_lowercase_digits() {
    let d = digest_counting_up();
    assert_eq!(
        d.to_hex(),
        "sha2-256:0109111921293139414951596169717981899199a1a9b1b9c1c9d1d9e1e9f1f9"
    );
}

#[test]
fn to_hex_of_empty_digest_is_all_zeros() {
    let d = D::default();
    assert_eq!(
        d.to_hex(),
        "sha2-256:0000000000000000000000000000000000000000000000000000000000000000"
    );
    assert_eq!(d.to_hex().len(), 9 + 64);
}

#[test]
fn hex_round_trip_gives_the_digest_back() {
    let d = digest_counting_up();
    assert_eq!(D::from_hex(&d.to_hex()), d);
    assert_eq!(D::try_from_hex(&d.to_hex()), Ok(d));
    let all_high = D { sha2_256: [0xff; 32] };
    assert_eq!(D::from_hex(&all_high.to_hex()), all_high);
}

#[test]
fn from_hex_reads_digits_of_either_case() {
    let lower = D::from_hex(
        "sha2-256:abcdef0123456789abcdef0123456789abcdef0123456789abcdef0123456789",
    );
    let upper = D::from_hex(
        "sha2-256:ABCDEF0123456789ABCDEF0123456789ABCDEF0123456789ABCDEF0123456789",
    );
    assert_eq!(lower, upper);
    assert_eq!(lower.sha2_256[0], 0xab);
    assert_eq!(lower.sha2_256[3], 0x01);
}

#[test]
fn from_hex_without_tag_is_the_empty_digest() {
    assert!(D::from_hex("").is_empty());
    assert!(D::from_hex("root").is_empty());
    assert!(D::from_hex("sha2-256").is_empty());
    assert!(D::from_hex(
        "sha1:883ba22861ceac0617e6d08c25d6c6868a5cc1757f44f41b70845d23b667323e"
    )
    .is_empty());
    assert_eq!(D::try_from_hex("SHA2-256:00"), Ok(D::default()));
}

#[test]
fn try_from_hex_refuses_an_odd_number_of_digits() {
    assert_eq!(D::try_from_hex("sha2-256:abc"), Err(HexError::OddLength));
}

#[test]
fn try_from_hex_refuses_a_character_that_is_no_digit() {
    assert_eq!(
        D::try_from_hex("sha2-256:00zz"),
        Err(HexError::InvalidHexCharacter { c: 'z', index: 2 })
    );
    assert!(D::try_from_hex("sha2-256:\u{e9}\u{e9}").is_err());
}

#[test]
fn try_from_hex_refuses_another_number_of_bytes() {
    assert_eq!(D::try_from_hex("sha2-256:"), Err(HexError::InvalidStringLength));
    assert_eq!(D::try_from_hex("sha2-256:00ff"), Err(HexError::InvalidStringLength));
    let long = format!("sha2-256:{}", "ab".repeat(33));
    assert_eq!(D::try_from_hex(&long), Err(HexError::InvalidStringLength));
}

#[test]
fn is_empty_holds_of_zeros_only() {
    assert!(D::default().is_empty());
    let mut bytes = [0u8; 32];
    bytes[31] = 1;
    assert!(!D { sha2_256: bytes }.is_empty());
}

#[test]
fn digest_of_a_node_is_the_sha256_of_its_text() {
    let node = Node { id: 1, value: Value::Empty };
    assert_eq!(
        node.digest().to_hex(),
        "sha2-256:d4f6cd7082e106c2a1df24180108fb939f104c0a54c332ed8a3b48119a84c0f0"
    );
    let hi = Node { id: 7, value: Value::String("Hi".to_string()) };
    assert_eq!(
        hi.digest().to_hex(),
        "sha2-256:29139736ff72308df409c2d5341d4b2a6096bb5f69187765119ad4cec67c3083"
    );
}

#[test]
fn digest_of_the_new_document_is_the_known_one() {
    let node = Node { id: 1, value: create_value() };
    assert_eq!(
        node.digest().to_hex(),
        "sha2-256:883ba22861ceac0617e6d08c25d6c6868a5cc1757f44f41b70845d23b667323e"
    );
}

#[test]
fn equal_nodes_have_equal_digests_and_others_differ() {
    let a = Node { id: 5, value: Value::Int(-3) };
    let b = Node { id: 5, value: Value::Int(-3) };
    let other_id = Node { id: 6, value: Value::Int(-3) };
    let other_value = Node { id: 5, value: Value::Int(3) };
    assert_eq!(a.digest(), b.digest());
    assert_ne!(a.digest(), other_id.digest());
    assert_ne!(a.digest(), other_value.digest());
}
