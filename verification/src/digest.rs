use sha2::Digest;
use vstd::prelude::*;
use vstd::utf8::*;

verus! {

/// The SHA-256 hash of a byte string, as the `sha2` crate computes it.
pub uninterp spec fn sha2_256_of(data: Seq<u8>) -> Seq<u8>;

/// Calls `sha2::Sha256::digest` (the one-shot form of `Digest`) and turns its
/// 32-byte output into an array. The hash is a function of the bytes alone;
/// nothing more is claimed of it.
#[verifier::external_body]
pub(crate) fn sha2_256(data: &[u8]) -> (hash: [u8; 32])
    ensures
        hash@ == sha2_256_of(data@),
{
    sha2::Sha256::digest(data).into()
}

/// Why a text is not the hexadecimal form of a byte string.
#[derive(Clone, Copy, Debug, PartialEq, Eq)]
pub enum HexError {
    /// The byte `c`, at byte position `index`, is no hexadecimal digit.
    InvalidHexCharacter { c: char, index: usize },
    /// The number of digits is odd.
    OddLength,
    /// The digits stand for another number of bytes than the 32 of a digest.
    InvalidStringLength,
}

/// The lowercase hexadecimal digit for a value below 16.
pub open spec fn hex_digit(n: int) -> char {
    seq!['0', '1', '2', '3', '4', '5', '6', '7', '8', '9', 'a', 'b', 'c', 'd', 'e', 'f'][n]
}

/// Two lowercase hexadecimal digits per byte, the high one first.
pub open spec fn hex_encoding(data: Seq<u8>) -> Seq<char> {
    Seq::new(
        2 * data.len(),
        |i: int| if i % 2 == 0 { hex_digit(data[i / 2] as int / 16) } else { hex_digit(data[i / 2] as int % 16) },
    )
}

/// The value of a hexadecimal digit given as a byte of text, in either case.
pub open spec fn hex_value(b: u8) -> Option<int> {
    if 0x30 <= b <= 0x39 {
        Some(b - 0x30)
    } else if 0x61 <= b <= 0x66 {
        Some(b - 0x61 + 10)
    } else if 0x41 <= b <= 0x46 {
        Some(b - 0x41 + 10)
    } else {
        None
    }
}

/// The first position from `from` on whose byte is no hexadecimal digit, or
/// the length of the text.
pub open spec fn first_non_hex(text: Seq<u8>, from: int) -> int
    decreases text.len() - from,
{
    if from < 0 || from >= text.len() {
        text.len() as int
    } else if hex_value(text[from]) is None {
        from
    } else {
        first_non_hex(text, from + 1)
    }
}

/// What decoding a hexadecimal text of bytes gives: an odd length is refused
/// first, then the first byte that is no digit; otherwise each pair of digits
/// is one byte.
pub open spec fn hex_decoding(text: Seq<u8>) -> Result<Seq<u8>, HexError> {
    if text.len() % 2 != 0 {
        Err(HexError::OddLength)
    } else if first_non_hex(text, 0) < text.len() {
        Err(
            HexError::InvalidHexCharacter {
                c: text[first_non_hex(text, 0)] as char,
                index: first_non_hex(text, 0) as usize,
            },
        )
    } else {
        Ok(
            Seq::new(
                text.len() / 2,
                |i: int| (hex_value(text[2 * i]).unwrap() * 16 + hex_value(text[2 * i + 1]).unwrap()) as u8,
            ),
        )
    }
}

/// Calls `hex::encode`, which writes each byte as two digits taken from the
/// table `0123456789abcdef`, the high four bits first.
#[verifier::external_body]
pub(crate) fn hex_encode(data: &[u8]) -> (text: String)
    ensures
        text@ == hex_encoding(data@),
{
    hex::encode(data)
}

/// Calls `hex::decode`, which reads the text as bytes: it refuses an odd
/// length, then stops at the first byte outside `0-9a-fA-F`, and otherwise
/// joins each two digits into one byte. The error is carried over variant by
/// variant.
#[verifier::external_body]
pub(crate) fn hex_decode(text: &[u8]) -> (decoded: Result<Vec<u8>, HexError>)
    ensures
        match decoded {
            Ok(bytes) => hex_decoding(text@) == Ok::<Seq<u8>, HexError>(bytes@),
            Err(e) => hex_decoding(text@) == Err::<Seq<u8>, HexError>(e),
        },
{
    match hex::decode(text) {
        Ok(bytes) => Ok(bytes),
        Err(hex::FromHexError::InvalidHexCharacter { c, index }) => Err(
            HexError::InvalidHexCharacter { c, index },
        ),
        Err(hex::FromHexError::OddLength) => Err(HexError::OddLength),
        Err(hex::FromHexError::InvalidStringLength) => Err(HexError::InvalidStringLength),
    }
}

/// A content digest: the SHA-256 hash of a node's canonical text.
#[derive(Clone, Copy, Debug, Hash)]
pub struct D {
    pub sha2_256: [u8; 32],
}

impl View for D {
    type V = Seq<u8>;

    open spec fn view(&self) -> Seq<u8> {
        self.sha2_256@
    }
}

/// The digest with the given 32 bytes.
pub open spec fn digest_from(bytes: Seq<u8>) -> D {
    D { sha2_256: choose|a: [u8; 32]| a@ == bytes }
}

/// A digest is given by its bytes.
pub proof fn lemma_digest_from(d: D)
    ensures
        digest_from(d@) == d,
        d@.len() == 32,
{
    let a = choose|a: [u8; 32]| a@ == d@;
    assert(d.sha2_256@ == d@);
    assert(a =~= d.sha2_256);
}

/// The digest that stands for "no node": thirty-two zero bytes.
pub open spec fn empty_digest() -> Seq<u8> {
    Seq::new(32, |i: int| 0u8)
}

/// The tag that opens the text form of a digest.
pub open spec fn digest_prefix() -> Seq<char> {
    seq!['s', 'h', 'a', '2', '-', '2', '5', '6', ':']
}

/// The text form of a digest: the tag, then two lowercase hexadecimal digits
/// per byte.
pub open spec fn digest_text(d: Seq<u8>) -> Seq<char> {
    digest_prefix() + hex_encoding(d)
}

/// Whether a text opens with the tag of a digest.
pub open spec fn has_digest_prefix(s: Seq<char>) -> bool {
    s.len() >= 9 && s.subrange(0, 9) == digest_prefix()
}

/// Whether a character is a hexadecimal digit, in either case.
pub open spec fn is_hex_char(c: char) -> bool {
    ('0' <= c <= '9') || ('a' <= c <= 'f') || ('A' <= c <= 'F')
}

/// What reading a digest from a text gives. A text without the tag reads as
/// the empty digest. After the tag, the rest must decode from hexadecimal to
/// exactly 32 bytes.
pub open spec fn digest_text_decoding(s: Seq<char>) -> Result<Seq<u8>, HexError> {
    if !has_digest_prefix(s) {
        Ok(empty_digest())
    } else {
        match hex_decoding(encode_utf8(s.skip(9))) {
            Ok(bytes) => if bytes.len() == 32 {
                Ok(bytes)
            } else {
                Err(HexError::InvalidStringLength)
            },
            Err(e) => Err(e),
        }
    }
}

impl Default for D {
    fn default() -> (d: D)
        ensures
            d@ == empty_digest(),
    {
        let d = D { sha2_256: [0u8; 32] };
        assert(d@ =~= empty_digest());
        d
    }
}

impl PartialEq for D {
    fn eq(&self, other: &D) -> (same: bool) {
        let mut i: usize = 0;
        while i < 32
            invariant
                i <= 32,
                forall|j: int| 0 <= j < i ==> self@[j] == other@[j],
            decreases 32 - i,
        {
            if self.sha2_256[i] != other.sha2_256[i] {
                return false;
            }
            i += 1;
        }
        assert(self@ =~= other@);
        true
    }
}

impl vstd::std_specs::cmp::PartialEqSpecImpl for D {
    open spec fn obeys_eq_spec() -> bool {
        true
    }

    open spec fn eq_spec(&self, other: &D) -> bool {
        self@ == other@
    }
}

impl Eq for D {

}

/// Whether the first `n` characters of `s` (its whole length) open with the
/// tag of a digest.
fn opens_with_prefix(s: &str, n: usize) -> (yes: bool)
    requires
        n == s@.len(),
    ensures
        yes == has_digest_prefix(s@),
{
    if n < 9 {
        return false;
    }
    let tag = "sha2-256:";
    proof {
        reveal_strlit("sha2-256:");
    }
    assert(tag@ =~= digest_prefix());
    let mut i: usize = 0;
    while i < 9
        invariant
            i <= 9,
            n == s@.len(),
            n >= 9,
            tag@ == digest_prefix(),
            forall|j: int| 0 <= j < i ==> s@[j] == tag@[j],
        decreases 9 - i,
    {
        if s.get_char(i) != tag.get_char(i) {
            assert(s@.subrange(0, 9)[i as int] == s@[i as int]);
            return false;
        }
        i += 1;
    }
    assert(s@.subrange(0, 9) =~= digest_prefix());
    true
}

impl D {
    /// The digest with the given bytes.
    pub fn from_bytes(bytes: &Vec<u8>) -> (d: D)
        requires
            bytes@.len() == 32,
        ensures
            d@ == bytes@,
            d == digest_from(bytes@),
    {
        let mut sha2_256 = [0u8; 32];
        let mut i: usize = 0;
        while i < 32
            invariant
                i <= 32,
                bytes@.len() == 32,
                forall|j: int| 0 <= j < i ==> sha2_256@[j] == bytes@[j],
            decreases 32 - i,
        {
            sha2_256[i] = bytes[i];
            i += 1;
        }
        let d = D { sha2_256 };
        proof {
            assert(d@ =~= bytes@);
            lemma_digest_from(d);
        }
        d
    }

    /// The text form of the digest.
    pub fn to_hex(&self) -> (text: String)
        ensures
            text@ == digest_text(self@),
    {
        let digits = hex_encode(self.sha2_256.as_slice());
        let tag = String::from_str("sha2-256:");
        proof {
            reveal_strlit("sha2-256:");
        }
        assert(tag@ =~= digest_prefix());
        tag.concat(digits.as_str())
    }

    /// Reads a digest from its text form, and says why where it cannot.
    pub fn try_from_hex(s: &str) -> (read: Result<D, HexError>)
        ensures
            match read {
                Ok(d) => digest_text_decoding(s@) == Ok::<Seq<u8>, HexError>(d@),
                Err(e) => digest_text_decoding(s@) == Err::<Seq<u8>, HexError>(e),
            },
    {
        let n = s.unicode_len();
        if !opens_with_prefix(s, n) {
            return Ok(D::default());
        }
        let rest = s.substring_char(9, n);
        assert(rest@ =~= s@.skip(9));
        match hex_decode(rest.as_bytes()) {
            Err(e) => Err(e),
            Ok(bytes) => {
                if bytes.len() != 32 {
                    Err(HexError::InvalidStringLength)
                } else {
                    Ok(D::from_bytes(&bytes))
                }
            },
        }
    }

    /// Reads a digest from its text form. A text without the tag reads as the
    /// empty digest.
    pub fn from_hex(s: &str) -> (d: D)
        requires
            digest_text_decoding(s@) is Ok,
        ensures
            digest_text_decoding(s@) == Ok::<Seq<u8>, HexError>(d@),
    {
        match D::try_from_hex(s) {
            Ok(d) => d,
            Err(_) => D::default(),
        }
    }

    /// Whether this is the empty digest.
    pub fn is_empty(&self) -> (empty: bool)
        ensures
            empty == (self@ == empty_digest()),
    {
        let mut i: usize = 0;
        while i < 32
            invariant
                i <= 32,
                forall|j: int| 0 <= j < i ==> self@[j] == 0,
            decreases 32 - i,
        {
            if self.sha2_256[i] != 0 {
                assert(empty_digest()[i as int] == 0);
                return false;
            }
            i += 1;
        }
        assert(self@ =~= empty_digest());
        true
    }
}

proof fn lemma_first_non_hex(text: Seq<u8>, from: int)
    requires
        0 <= from <= text.len(),
    ensures
        from <= first_non_hex(text, from) <= text.len(),
        forall|j: int| from <= j < first_non_hex(text, from) ==> hex_value(#[trigger] text[j]) is Some,
        first_non_hex(text, from) < text.len() ==> hex_value(text[first_non_hex(text, from)]) is None,
    decreases text.len() - from,
{
    if from < text.len() && hex_value(text[from]) is Some {
        lemma_first_non_hex(text, from + 1);
    }
}

proof fn lemma_hex_digit_value(n: int)
    requires
        0 <= n < 16,
    ensures
        '0' <= hex_digit(n) <= 'f',
        is_hex_char(hex_digit(n)),
        hex_value(hex_digit(n) as u8) == Some(n),
{
}

proof fn lemma_char_code(c: char)
    ensures
        c as u32 as int == c as int,
{
}

/// A text whose UTF-8 bytes are all below 128 is made of ASCII characters.
proof fn lemma_ascii_bytes(chars: Seq<char>)
    requires
        forall|j: int| 0 <= j < encode_utf8(chars).len() ==> #[trigger] encode_utf8(chars)[j] < 0x80,
    ensures
        is_ascii_chars(chars),
    decreases chars.len(),
{
    if chars.len() > 0 {
        let c = chars[0] as u32;
        let head = encode_scalar(c);
        let tail = encode_utf8(chars.drop_first());
        assert(encode_utf8(chars) == head + tail);
        char_is_scalar(chars[0]);
        assert(head.len() >= 1);
        assert(encode_utf8(chars)[0] == head[0]);
        if !has_width_1_encoding(c) {
            assert(0xC0u8 | ((c >> 6) & 0x1F) as u8 >= 0x80) by (bit_vector);
            assert(0xE0u8 | ((c >> 12) & 0x0F) as u8 >= 0x80) by (bit_vector);
            assert(0xF0u8 | ((c >> 18) & 0x7) as u8 >= 0x80) by (bit_vector);
            assert(false);
        }
        assert forall|j: int| 0 <= j < tail.len() implies #[trigger] tail[j] < 0x80 by {
            assert(encode_utf8(chars)[head.len() + j] == tail[j]);
        }
        lemma_ascii_bytes(chars.drop_first());
        lemma_char_code(chars[0]);
        let rest = chars.drop_first();
        assert forall|i: int| 0 <= i < chars.len() implies '\0' <= #[trigger] chars[i] <= '\u{7f}' by {
            if i > 0 {
                assert('\0' <= rest[i - 1] <= '\u{7f}');
                assert(rest[i - 1] == chars[i]);
            }
        }
    }
}

/// Reading the text form of a digest gives the digest back.
pub proof fn law_digest_text_round_trip(d: Seq<u8>)
    requires
        d.len() == 32,
    ensures
        has_digest_prefix(digest_text(d)),
        digest_text_decoding(digest_text(d)) == Ok::<Seq<u8>, HexError>(d),
{
    let text = digest_text(d);
    let digits = hex_encoding(d);
    assert(text.subrange(0, 9) =~= digest_prefix());
    assert(text.skip(9) =~= digits);
    assert forall|i: int| 0 <= i < digits.len() implies '\0' <= #[trigger] digits[i] <= '\u{7f}' by {
        lemma_hex_digit_value(d[i / 2] as int / 16);
        lemma_hex_digit_value(d[i / 2] as int % 16);
    }
    is_ascii_chars_encode_utf8(digits);
    let bytes = encode_utf8(digits);
    lemma_first_non_hex(bytes, 0);
    assert forall|i: int| 0 <= i < bytes.len() implies hex_value(#[trigger] bytes[i]) is Some by {
        lemma_hex_digit_value(d[i / 2] as int / 16);
        lemma_hex_digit_value(d[i / 2] as int % 16);
        assert(bytes[i] == digits[i] as u8);
    }
    let decoded = hex_decoding(bytes)->Ok_0;
    assert(decoded.len() == 32);
    assert forall|i: int| 0 <= i < 32 implies decoded[i] == d[i] by {
        lemma_hex_digit_value(d[i] as int / 16);
        lemma_hex_digit_value(d[i] as int % 16);
        assert(bytes[2 * i] == digits[2 * i] as u8);
        assert(bytes[2 * i + 1] == digits[2 * i + 1] as u8);
        assert((2 * i) / 2 == i && (2 * i + 1) / 2 == i);
    }
    assert(decoded =~= d);
}

/// A text that does not open with the tag reads as the empty digest. One that
/// does is read if and only if exactly 64 hexadecimal digits follow the tag.
pub proof fn law_digest_text_accepted(s: Seq<char>)
    ensures
        !has_digest_prefix(s) ==> digest_text_decoding(s) == Ok::<Seq<u8>, HexError>(empty_digest()),
        has_digest_prefix(s) ==> (digest_text_decoding(s) is Ok <==> s.len() == 73 && forall|i: int|
            9 <= i < 73 ==> is_hex_char(#[trigger] s[i])),
{
    if has_digest_prefix(s) {
        let rest = s.skip(9);
        let bytes = encode_utf8(rest);
        lemma_first_non_hex(bytes, 0);
        if digest_text_decoding(s) is Ok {
            assert(bytes.len() == 64);
            assert forall|j: int| 0 <= j < bytes.len() implies #[trigger] bytes[j] < 0x80 by {
                assert(hex_value(bytes[j]) is Some);
            }
            lemma_ascii_bytes(rest);
            is_ascii_chars_encode_utf8(rest);
            assert forall|i: int| 9 <= i < 73 implies is_hex_char(#[trigger] s[i]) by {
                assert(rest[i - 9] == s[i]);
                assert(bytes[i - 9] == rest[i - 9] as u8);
                assert(hex_value(bytes[i - 9]) is Some);
            }
        }
        if s.len() == 73 && forall|i: int| 9 <= i < 73 ==> is_hex_char(#[trigger] s[i]) {
            assert forall|i: int| 0 <= i < rest.len() implies '\0' <= #[trigger] rest[i] <= '\u{7f}' by {
                assert(is_hex_char(s[i + 9]));
            }
            is_ascii_chars_encode_utf8(rest);
            assert forall|j: int| 0 <= j < bytes.len() implies hex_value(#[trigger] bytes[j]) is Some by {
                assert(is_hex_char(s[j + 9]));
                assert(bytes[j] == rest[j] as u8);
            }
        }
    }
}

/// Two digests with the same text form are the same digest.
pub proof fn law_digest_text_injective(a: Seq<u8>, b: Seq<u8>)
    requires
        digest_text(a) == digest_text(b),
    ensures
        a == b,
{
    let ta = hex_encoding(a);
    let tb = hex_encoding(b);
    assert(digest_text(a).skip(9) =~= ta);
    assert(digest_text(b).skip(9) =~= tb);
    assert(a.len() == b.len());
    assert forall|i: int| 0 <= i < a.len() implies a[i] == b[i] by {
        lemma_hex_digit_value(a[i] as int / 16);
        lemma_hex_digit_value(a[i] as int % 16);
        lemma_hex_digit_value(b[i] as int / 16);
        lemma_hex_digit_value(b[i] as int % 16);
        assert(ta[2 * i] == tb[2 * i]);
        assert(ta[2 * i + 1] == tb[2 * i + 1]);
        assert((2 * i) / 2 == i && (2 * i + 1) / 2 == i);
    }
    assert(a =~= b);
}

} // verus!
