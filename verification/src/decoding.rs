use crate::digest::{digest_from, hex_digit, lemma_digest_from, D};
use crate::encoding::{
    bytes_text, decimal_text, digest_json, digests_text, digit_char, entry_text, escape_char,
    escaped_text, fields_text, int_text, joined, node_text, object_text, quoted_text, value_text,
};
use crate::ordered::{ascending, keys_of, lemma_ascending, lemma_map_of, map_of, OrderedMap};
use crate::value::{fields_view, Node, NodeView, ObjectValue, ObjectView, Value, ValueView};
use vstd::prelude::*;

verus! {

/// Whether the text `t` stands in `s` from position `pos` on.
pub open spec fn occurs_at(s: Seq<char>, pos: int, t: Seq<char>) -> bool {
    0 <= pos && pos + t.len() <= s.len() && s.subrange(pos, pos + t.len()) == t
}

/// A text made of two parts stands at a position exactly when the first part
/// stands there and the second stands behind it.
pub proof fn lemma_occurs_concat(s: Seq<char>, pos: int, a: Seq<char>, b: Seq<char>)
    ensures
        occurs_at(s, pos, a + b) <==> occurs_at(s, pos, a) && occurs_at(s, pos + a.len(), b),
{
    if occurs_at(s, pos, a + b) {
        assert(s.subrange(pos, pos + a.len()) =~= (a + b).subrange(0, a.len() as int));
        assert((a + b).subrange(0, a.len() as int) =~= a);
        assert(s.subrange(pos + a.len(), pos + a.len() + b.len()) =~= (a + b).subrange(
            a.len() as int,
            (a + b).len() as int,
        ));
        assert((a + b).subrange(a.len() as int, (a + b).len() as int) =~= b);
    }
    if occurs_at(s, pos, a) && occurs_at(s, pos + a.len(), b) {
        assert(s.subrange(pos, pos + (a + b).len()) =~= s.subrange(pos, pos + a.len()) + s.subrange(
            pos + a.len(),
            pos + a.len() + b.len(),
        ));
    }
}

/// Each character of a text that stands at a position is found there.
pub proof fn lemma_occurs_char(s: Seq<char>, pos: int, t: Seq<char>, k: int)
    requires
        occurs_at(s, pos, t),
        0 <= k < t.len(),
    ensures
        s[pos + k] == t[k],
{
    assert(s.subrange(pos, pos + t.len())[k] == s[pos + k]);
}

/// The position behind a literal that stands at `pos`.
pub open spec fn after_literal(s: Seq<char>, pos: int, lit: Seq<char>) -> Option<int> {
    if occurs_at(s, pos, lit) {
        Some(pos + lit.len())
    } else {
        None
    }
}

/// Whether a character is a decimal digit.
pub open spec fn is_digit(c: char) -> bool {
    '0' <= c <= '9'
}

/// The number that a sequence of decimal digits stands for.
pub open spec fn decimal_value(digits: Seq<char>) -> nat
    decreases digits.len(),
{
    if digits.len() == 0 {
        0
    } else {
        (decimal_value(digits.drop_last()) * 10 + (digits.last() as u32 - '0' as u32)) as nat
    }
}

/// The end of the run of digits that starts at `pos`.
pub open spec fn digits_end(s: Seq<char>, pos: int) -> int
    decreases s.len() - pos,
{
    if 0 <= pos < s.len() && is_digit(s[pos]) {
        digits_end(s, pos + 1)
    } else {
        pos
    }
}

/// The number written in decimal from `pos` on, and the position behind it,
/// where that number is at most `bound`.
pub open spec fn read_decimal(s: Seq<char>, pos: int, bound: nat) -> Option<(nat, int)> {
    let end = digits_end(s, pos);
    if 0 <= pos < end && decimal_value(s.subrange(pos, end)) <= bound {
        Some((decimal_value(s.subrange(pos, end)), end))
    } else {
        None
    }
}

/// The integer written in decimal from `pos` on, with a minus sign where it
/// is negative, and the position behind it.
pub open spec fn read_int(s: Seq<char>, pos: int) -> Option<(i64, int)> {
    if 0 <= pos < s.len() && s[pos] == '-' {
        match read_decimal(s, pos + 1, 0x8000_0000_0000_0000) {
            Some((magnitude, end)) => Some(((-magnitude) as i64, end)),
            None => None,
        }
    } else {
        match read_decimal(s, pos, 0x7fff_ffff_ffff_ffff) {
            Some((value, end)) => Some((value as i64, end)),
            None => None,
        }
    }
}

proof fn lemma_digits_end(s: Seq<char>, pos: int, end: int)
    requires
        0 <= pos <= end <= s.len(),
        forall|j: int| pos <= j < end ==> is_digit(#[trigger] s[j]),
        end == s.len() || !is_digit(s[end]),
    ensures
        digits_end(s, pos) == end,
    decreases end - pos,
{
    if pos < end {
        lemma_digits_end(s, pos + 1, end);
    }
}

proof fn lemma_decimal_value_grows(digits: Seq<char>, k: int)
    requires
        0 <= k <= digits.len(),
        forall|j: int| 0 <= j < digits.len() ==> is_digit(#[trigger] digits[j]),
    ensures
        decimal_value(digits.take(k)) <= decimal_value(digits),
    decreases digits.len() - k,
{
    if k < digits.len() {
        lemma_decimal_value_grows(digits, k + 1);
        assert(digits.take(k + 1).drop_last() =~= digits.take(k));
        assert(is_digit(digits[k]));
    } else {
        assert(digits.take(k) =~= digits);
    }
}

/// The decimal text of a number is made of digits and stands for the number.
pub proof fn lemma_decimal_text(n: nat)
    ensures
        decimal_text(n).len() >= 1,
        forall|j: int| 0 <= j < decimal_text(n).len() ==> is_digit(#[trigger] decimal_text(n)[j]),
        decimal_value(decimal_text(n)) == n,
    decreases n,
{
    lemma_digit_char((n % 10) as int);
    if n < 10 {
        assert(decimal_text(n).drop_last() =~= Seq::<char>::empty());
        assert(decimal_value(Seq::<char>::empty()) == 0);
    } else {
        lemma_decimal_text(n / 10);
        assert(decimal_text(n).drop_last() =~= decimal_text(n / 10));
    }
}

proof fn lemma_digit_char(d: int)
    requires
        0 <= d < 10,
    ensures
        is_digit(digit_char(d)),
        digit_char(d) as u32 - '0' as u32 == d,
{
}

/// Reading gives back a number whose decimal text stands at the position,
/// where no digit follows the text.
pub proof fn lemma_read_decimal(s: Seq<char>, pos: int, n: nat, bound: nat)
    requires
        occurs_at(s, pos, decimal_text(n)),
        n <= bound,
        pos + decimal_text(n).len() == s.len() || !is_digit(s[pos + decimal_text(n).len()]),
    ensures
        read_decimal(s, pos, bound) == Some((n, pos + decimal_text(n).len())),
{
    let text = decimal_text(n);
    lemma_decimal_text(n);
    assert forall|j: int| pos <= j < pos + text.len() implies is_digit(#[trigger] s[j]) by {
        lemma_occurs_char(s, pos, text, j - pos);
    }
    lemma_digits_end(s, pos, pos + text.len());
}

/// Reading gives back an integer whose text stands at the position, where no
/// digit follows the text.
pub proof fn lemma_read_int(s: Seq<char>, pos: int, i: i64)
    requires
        occurs_at(s, pos, int_text(i as int)),
        pos + int_text(i as int).len() == s.len() || !is_digit(s[pos + int_text(i as int).len()]),
    ensures
        read_int(s, pos) == Some((i, pos + int_text(i as int).len())),
{
    if i < 0 {
        let digits = decimal_text((-i) as nat);
        lemma_occurs_concat(s, pos, seq!['-'], digits);
        lemma_occurs_char(s, pos, seq!['-'], 0);
        lemma_read_decimal(s, pos + 1, (-i) as nat, 0x8000_0000_0000_0000);
    } else {
        lemma_decimal_text(i as nat);
        lemma_occurs_char(s, pos, decimal_text(i as nat), 0);
        lemma_read_decimal(s, pos, i as nat, 0x7fff_ffff_ffff_ffff);
    }
}

/// The position behind a literal, where it stands at `pos`.
fn expect(s: &Vec<char>, pos: usize, lit: &str) -> (end: Option<usize>)
    requires
        pos <= s@.len(),
    ensures
        end == match after_literal(s@, pos as int, lit@) {
            Some(e) => Some(e as usize),
            None => None,
        },
        end matches Some(e) ==> e <= s@.len() && e == pos + lit@.len(),
{
    let n = lit.unicode_len();
    let len = s.len();
    if n > len - pos {
        return None;
    }
    let mut k: usize = 0;
    while k < n
        invariant
            k <= n,
            n == lit@.len(),
            len == s@.len(),
            pos + n <= len,
            forall|j: int| 0 <= j < k ==> s@[pos + j] == lit@[j],
        decreases n - k,
    {
        if s[pos + k] != lit.get_char(k) {
            proof {
                if occurs_at(s@, pos as int, lit@) {
                    lemma_occurs_char(s@, pos as int, lit@, k as int);
                }
            }
            return None;
        }
        k += 1;
    }
    assert(s@.subrange(pos as int, pos + n) =~= lit@);
    Some(pos + n)
}

/// Whether the character `c` stands at `pos`.
fn at(s: &Vec<char>, pos: usize, c: char) -> (yes: bool)
    ensures
        yes == (pos < s@.len() && s@[pos as int] == c),
        yes ==> pos < usize::MAX,
{
    pos < s.len() && s[pos] == c
}

fn parse_decimal(s: &Vec<char>, pos: usize, bound: u64) -> (read: Option<(u64, usize)>)
    requires
        pos <= s@.len(),
    ensures
        match read {
            Some((value, end)) => read_decimal(s@, pos as int, bound as nat) == Some(
                (value as nat, end as int),
            ) && pos < end <= s@.len() && value <= bound && (end == s@.len() || !is_digit(s@[end as int])),
            None => read_decimal(s@, pos as int, bound as nat) is None,
        },
{
    let mut i: usize = pos;
    let mut value: u64 = 0;
    let ghost mut overflow = false;
    let mut too_large = false;
    while i < s.len() && s[i] >= '0' && s[i] <= '9'
        invariant
            pos <= i <= s@.len(),
            forall|j: int| pos <= j < i ==> is_digit(#[trigger] s@[j]),
            !too_large ==> value == decimal_value(s@.subrange(pos as int, i as int)) && value <= bound,
            too_large ==> exists|k: int|
                pos <= k <= i && decimal_value(s@.subrange(pos as int, k)) > bound,
        decreases s@.len() - i,
    {
        let digit: u64 = (s[i] as u32 - '0' as u32) as u64;
        proof {
            assert(s@.subrange(pos as int, i + 1).drop_last() =~= s@.subrange(pos as int, i as int));
        }
        if !too_large {
            let next: u128 = value as u128 * 10 + digit as u128;
            if next > bound as u128 {
                too_large = true;
                assert(decimal_value(s@.subrange(pos as int, i + 1)) > bound);
            } else {
                value = next as u64;
            }
        }
        i += 1;
    }
    proof {
        lemma_digits_end(s@, pos as int, i as int);
    }
    if i == pos || too_large {
        proof {
            if too_large {
                let k = choose|k: int|
                    pos <= k <= i && decimal_value(s@.subrange(pos as int, k)) > bound;
                let run = s@.subrange(pos as int, i as int);
                lemma_decimal_value_grows(run, k - pos);
                assert(run.take(k - pos) =~= s@.subrange(pos as int, k));
            }
        }
        None
    } else {
        Some((value, i))
    }
}

fn parse_int(s: &Vec<char>, pos: usize) -> (read: Option<(i64, usize)>)
    requires
        pos <= s@.len(),
    ensures
        match read {
            Some((value, end)) => read_int(s@, pos as int) == Some((value, end as int)) && pos < end
                <= s@.len(),
            None => read_int(s@, pos as int) is None,
        },
{
    let len = s.len();
    if at(s, pos, '-') {
        match parse_decimal(s, pos + 1, 0x8000_0000_0000_0000) {
            Some((magnitude, end)) => {
                let value: i64 = if magnitude == 0x8000_0000_0000_0000 {
                    i64::MIN
                } else {
                    -(magnitude as i64)
                };
                Some((value, end))
            },
            None => None,
        }
    } else {
        match parse_decimal(s, pos, 0x7fff_ffff_ffff_ffff) {
            Some((value, end)) => Some((value as i64, end)),
            None => None,
        }
    }
}

/// The character that a letter behind a backslash stands for in a short
/// escape.
pub open spec fn short_escape(e: char) -> Option<char> {
    if e == '"' {
        Some('"')
    } else if e == '\\' {
        Some('\\')
    } else if e == 'n' {
        Some('\n')
    } else if e == 'r' {
        Some('\r')
    } else if e == 't' {
        Some('\t')
    } else if e == 'b' {
        Some('\u{8}')
    } else if e == 'f' {
        Some('\u{c}')
    } else {
        None
    }
}

/// The value of a lowercase hexadecimal digit.
pub open spec fn lower_hex_value(c: char) -> Option<int> {
    if '0' <= c <= '9' {
        Some(c as u32 - '0' as u32)
    } else if 'a' <= c <= 'f' {
        Some(c as u32 - 'a' as u32 + 10)
    } else {
        None
    }
}

/// Whether `\u00`, a digit 0 or 1 and one more hexadecimal digit stand at
/// `pos`: the long escape of a control character.
pub open spec fn is_long_escape(s: Seq<char>, pos: int) -> bool {
    0 <= pos && pos + 6 <= s.len() && s[pos] == '\\' && s[pos + 1] == 'u' && s[pos + 2] == '0' && s[pos
        + 3] == '0' && (s[pos + 4] == '0' || s[pos + 4] == '1') && lower_hex_value(s[pos + 5]) is Some
}

/// The control character that the long escape at `pos` stands for.
pub open spec fn long_escape_char(s: Seq<char>, pos: int) -> char {
    ((lower_hex_value(s[pos + 4]).unwrap() * 16 + lower_hex_value(s[pos + 5]).unwrap()) as u8) as char
}

/// The characters of a string written from `pos` on up to its closing quote,
/// behind those of `acc`, and the position behind that quote.
pub open spec fn read_string_body(s: Seq<char>, pos: int, acc: Seq<char>) -> Option<(Seq<char>, int)>
    decreases s.len() - pos,
{
    if pos < 0 || pos >= s.len() {
        None
    } else if s[pos] == '"' {
        Some((acc, pos + 1))
    } else if s[pos] == '\\' {
        if pos + 1 < s.len() && short_escape(s[pos + 1]) is Some {
            read_string_body(s, pos + 2, acc.push(short_escape(s[pos + 1]).unwrap()))
        } else if is_long_escape(s, pos) {
            read_string_body(s, pos + 6, acc.push(long_escape_char(s, pos)))
        } else {
            None
        }
    } else {
        read_string_body(s, pos + 1, acc.push(s[pos]))
    }
}

/// The string written between quotes from `pos` on, and the position behind
/// it.
pub open spec fn read_quoted(s: Seq<char>, pos: int) -> Option<(Seq<char>, int)> {
    if 0 <= pos < s.len() && s[pos] == '"' {
        read_string_body(s, pos + 1, Seq::empty())
    } else {
        None
    }
}

proof fn lemma_escaped_front(t: Seq<char>)
    requires
        t.len() > 0,
    ensures
        escaped_text(t) == escape_char(t[0]) + escaped_text(t.drop_first()),
    decreases t.len(),
{
    if t.len() == 1 {
        assert(t.drop_last() =~= Seq::<char>::empty());
        assert(t.drop_first() =~= Seq::<char>::empty());
        assert(escaped_text(t) =~= escape_char(t[0]) + escaped_text(t.drop_first()));
    } else {
        lemma_escaped_front(t.drop_last());
        assert(t.drop_last().drop_first() =~= t.drop_first().drop_last());
        assert(escaped_text(t) =~= escape_char(t[0]) + escaped_text(t.drop_first()));
    }
}

proof fn lemma_char_from_code(c: char)
    requires
        (c as u32) < 0x20,
    ensures
        ((c as u32) as u8) as char == c,
        lower_hex_value(hex_digit((c as u32 / 16) as int)) == Some((c as u32 / 16) as int),
        lower_hex_value(hex_digit((c as u32 % 16) as int)) == Some((c as u32 % 16) as int),
        hex_digit((c as u32 / 16) as int) == '0' || hex_digit((c as u32 / 16) as int) == '1',
{
}

proof fn lemma_read_string_body(s: Seq<char>, pos: int, t: Seq<char>, acc: Seq<char>)
    requires
        occurs_at(s, pos, escaped_text(t) + seq!['"']),
    ensures
        read_string_body(s, pos, acc) == Some((acc + t, pos + escaped_text(t).len() + 1)),
    decreases t.len(),
{
    let quote = seq!['"'];
    if t.len() == 0 {
        assert(escaped_text(t) + quote =~= quote);
        lemma_occurs_char(s, pos, quote, 0);
        assert(acc + t =~= acc);
    } else {
        let c = t[0];
        let rest = t.drop_first();
        let head = escape_char(c);
        lemma_escaped_front(t);
        assert(escaped_text(t) + quote =~= head + (escaped_text(rest) + quote));
        lemma_occurs_concat(s, pos, head, escaped_text(rest) + quote);
        lemma_read_string_body(s, pos + head.len(), rest, acc.push(c));
        assert(acc.push(c) + rest =~= acc + t);
        lemma_occurs_char(s, pos, head, 0);
        if head.len() >= 2 {
            lemma_occurs_char(s, pos, head, 1);
        }
        if head.len() == 6 {
            lemma_occurs_char(s, pos, head, 2);
            lemma_occurs_char(s, pos, head, 3);
            lemma_occurs_char(s, pos, head, 4);
            lemma_occurs_char(s, pos, head, 5);
            lemma_char_from_code(c);
        }
    }
}

/// Reading gives back a string whose quoted text stands at the position.
pub proof fn lemma_read_quoted(s: Seq<char>, pos: int, t: Seq<char>)
    requires
        occurs_at(s, pos, quoted_text(t)),
    ensures
        read_quoted(s, pos) == Some((t, pos + quoted_text(t).len())),
{
    let quote = seq!['"'];
    assert(quoted_text(t) =~= quote + (escaped_text(t) + quote));
    lemma_occurs_concat(s, pos, quote, escaped_text(t) + quote);
    lemma_occurs_char(s, pos, quote, 0);
    lemma_read_string_body(s, pos + 1, t, Seq::empty());
    assert(Seq::<char>::empty() + t =~= t);
}

fn lower_hex_of(c: char) -> (value: Option<u8>)
    ensures
        match value {
            Some(v) => lower_hex_value(c) == Some(v as int),
            None => lower_hex_value(c) is None,
        },
{
    if '0' <= c && c <= '9' {
        Some((c as u32 - '0' as u32) as u8)
    } else if 'a' <= c && c <= 'f' {
        Some((c as u32 - 'a' as u32 + 10) as u8)
    } else {
        None
    }
}

fn short_escape_of(e: char) -> (c: Option<char>)
    ensures
        c == short_escape(e),
{
    if e == '"' {
        Some('"')
    } else if e == '\\' {
        Some('\\')
    } else if e == 'n' {
        Some('\n')
    } else if e == 'r' {
        Some('\r')
    } else if e == 't' {
        Some('\t')
    } else if e == 'b' {
        Some('\u{8}')
    } else if e == 'f' {
        Some('\u{c}')
    } else {
        None
    }
}

/// The control character of the long escape at `pos`, where one stands there.
fn long_escape_of(s: &Vec<char>, pos: usize) -> (c: Option<char>)
    requires
        pos < s@.len(),
    ensures
        match c {
            Some(c) => is_long_escape(s@, pos as int) && c == long_escape_char(s@, pos as int),
            None => !is_long_escape(s@, pos as int),
        },
{
    let len = s.len();
    if len - pos < 6 {
        return None;
    }
    if s[pos] != '\\' || s[pos + 1] != 'u' || s[pos + 2] != '0' || s[pos + 3] != '0' {
        return None;
    }
    let high: u8 = if s[pos + 4] == '0' {
        0
    } else if s[pos + 4] == '1' {
        1
    } else {
        return None;
    };
    match lower_hex_of(s[pos + 5]) {
        Some(low) => Some((high * 16 + low) as char),
        None => None,
    }
}

fn parse_quoted(s: &Vec<char>, pos: usize) -> (read: Option<(String, usize)>)
    requires
        pos <= s@.len(),
    ensures
        match read {
            Some((text, end)) => read_quoted(s@, pos as int) == Some((text@, end as int)) && pos < end
                <= s@.len(),
            None => read_quoted(s@, pos as int) is None,
        },
{
    if !at(s, pos, '"') {
        return None;
    }
    let len = s.len();
    let mut text = String::new();
    let mut i: usize = pos + 1;
    loop
        invariant
            pos < i <= len,
            len == s@.len(),
            read_quoted(s@, pos as int) == read_string_body(s@, i as int, text@),
        decreases len - i,
    {
        if i >= len {
            return None;
        }
        let c = s[i];
        if c == '"' {
            return Some((text, i + 1));
        } else if c == '\\' {
            let short = if i + 1 < len {
                short_escape_of(s[i + 1])
            } else {
                None
            };
            match short {
                Some(plain) => {
                    text.push(plain);
                    i += 2;
                },
                None => {
                    match long_escape_of(s, i) {
                        Some(control) => {
                            text.push(control);
                            i += 6;
                        },
                        None => {
                            return None;
                        },
                    }
                },
            }
        } else {
            text.push(c);
            i += 1;
        }
    }
}

/// The items written from `pos` on with a comma between each two, up to the
/// closing character, behind those of `acc`, and the position behind that
/// character. `item` reads one item.
pub open spec fn read_items<T>(
    s: Seq<char>,
    pos: int,
    acc: Seq<T>,
    item: spec_fn(Seq<char>, int) -> Option<(T, int)>,
    close: char,
) -> Option<(Seq<T>, int)>
    decreases s.len() - pos,
{
    match item(s, pos) {
        None => None,
        Some((x, end)) => {
            if end < pos || end >= s.len() {
                None
            } else if s[end] == close {
                Some((acc.push(x), end + 1))
            } else if s[end] == ',' {
                read_items(s, end + 1, acc.push(x), item, close)
            } else {
                None
            }
        },
    }
}

/// The list written from `pos` on between an opening and a closing
/// character, and the position behind it.
pub open spec fn read_list<T>(
    s: Seq<char>,
    pos: int,
    item: spec_fn(Seq<char>, int) -> Option<(T, int)>,
    open: char,
    close: char,
) -> Option<(Seq<T>, int)> {
    if !(0 <= pos < s.len() && s[pos] == open) {
        None
    } else if pos + 1 < s.len() && s[pos + 1] == close {
        Some((Seq::empty(), pos + 2))
    } else {
        read_items(s, pos + 1, Seq::empty(), item, close)
    }
}

/// Where the text of `x` stands at `p` and a comma or the closing character
/// follows it, `item` reads `x` there.
pub open spec fn reads_back<T>(
    s: Seq<char>,
    p: int,
    x: T,
    text: Seq<char>,
    item: spec_fn(Seq<char>, int) -> Option<(T, int)>,
    close: char,
) -> bool {
    occurs_at(s, p, text) && p + text.len() < s.len() && (s[p + text.len()] == ',' || s[p
        + text.len()] == close) ==> item(s, p) == Some((x, p + text.len()))
}

proof fn lemma_joined_front(texts: Seq<Seq<char>>)
    requires
        texts.len() > 0,
    ensures
        joined(texts) == if texts.len() == 1 {
            texts[0]
        } else {
            texts[0] + seq![','] + joined(texts.drop_first())
        },
    decreases texts.len(),
{
    if texts.len() == 2 {
        assert(texts.drop_last().len() == 1);
        assert(texts.drop_first().len() == 1);
        assert(texts.drop_last()[0] == texts[0]);
        assert(texts.drop_first()[0] == texts.last());
        assert(joined(texts.drop_last()) == texts[0]);
        assert(joined(texts.drop_first()) == texts.last());
        assert(joined(texts) =~= texts[0] + seq![','] + joined(texts.drop_first()));
    } else if texts.len() > 2 {
        let front = texts.drop_last();
        let back = texts.drop_first();
        lemma_joined_front(front);
        assert(front.drop_first() =~= back.drop_last());
        assert(front[0] == texts[0]);
        assert(back.last() == texts.last());
        assert(joined(texts) == joined(front) + seq![','] + texts.last());
        assert(joined(back) == joined(back.drop_last()) + seq![','] + back.last());
        assert(joined(texts) =~= texts[0] + seq![','] + joined(texts.drop_first()));
    }
}

proof fn lemma_read_items<T>(
    s: Seq<char>,
    pos: int,
    items: Seq<T>,
    texts: Seq<Seq<char>>,
    acc: Seq<T>,
    item: spec_fn(Seq<char>, int) -> Option<(T, int)>,
    close: char,
)
    requires
        items.len() == texts.len(),
        items.len() > 0,
        close != ',',
        occurs_at(s, pos, joined(texts) + seq![close]),
        forall|i: int, p: int|
            0 <= i < items.len() ==> #[trigger] reads_back(s, p, items[i], texts[i], item, close),
    ensures
        read_items(s, pos, acc, item, close) == Some((acc + items, pos + joined(texts).len() + 1)),
    decreases items.len(),
{
    let end = seq![close];
    lemma_joined_front(texts);
    assert(reads_back(s, pos, items[0], texts[0], item, close));
    if items.len() == 1 {
        lemma_occurs_concat(s, pos, texts[0], end);
        lemma_occurs_char(s, pos + texts[0].len(), end, 0);
        assert(acc.push(items[0]) =~= acc + items);
    } else {
        let rest_items = items.drop_first();
        let rest_texts = texts.drop_first();
        let tail = seq![','] + (joined(rest_texts) + end);
        assert(joined(texts) + end =~= texts[0] + tail);
        lemma_occurs_concat(s, pos, texts[0], tail);
        lemma_occurs_concat(s, pos + texts[0].len(), seq![','], joined(rest_texts) + end);
        lemma_occurs_char(s, pos + texts[0].len(), seq![','], 0);
        assert forall|i: int, p: int| 0 <= i < rest_items.len() implies #[trigger] reads_back(
            s,
            p,
            rest_items[i],
            rest_texts[i],
            item,
            close,
        ) by {
            assert(reads_back(s, p, items[i + 1], texts[i + 1], item, close));
        }
        lemma_read_items(
            s,
            pos + texts[0].len() + 1,
            rest_items,
            rest_texts,
            acc.push(items[0]),
            item,
            close,
        );
        assert(acc.push(items[0]) + rest_items =~= acc + items);
    }
}

/// Reading gives back a list whose text stands at the position, where
/// reading gives back each of its items and no item's text begins with the
/// closing character.
pub proof fn lemma_read_list<T>(
    s: Seq<char>,
    pos: int,
    items: Seq<T>,
    texts: Seq<Seq<char>>,
    item: spec_fn(Seq<char>, int) -> Option<(T, int)>,
    open: char,
    close: char,
)
    requires
        items.len() == texts.len(),
        close != ',',
        occurs_at(s, pos, seq![open] + joined(texts) + seq![close]),
        forall|i: int| 0 <= i < texts.len() ==> (#[trigger] texts[i]).len() > 0 && texts[i][0] != close,
        forall|i: int, p: int|
            0 <= i < items.len() ==> #[trigger] reads_back(s, p, items[i], texts[i], item, close),
    ensures
        read_list(s, pos, item, open, close) == Some(
            (items, pos + (seq![open] + joined(texts) + seq![close]).len()),
        ),
{
    let body = joined(texts) + seq![close];
    assert(seq![open] + joined(texts) + seq![close] =~= seq![open] + body);
    lemma_occurs_concat(s, pos, seq![open], body);
    lemma_occurs_char(s, pos, seq![open], 0);
    lemma_occurs_char(s, pos + 1, body, 0);
    if items.len() == 0 {
        assert(items =~= Seq::<T>::empty());
    } else {
        lemma_joined_front(texts);
        assert(texts[0].len() > 0 && texts[0][0] != close);
        assert(body[0] == texts[0][0]);
        lemma_read_items(s, pos + 1, items, texts, Seq::empty(), item, close);
        assert(Seq::<T>::empty() + items =~= items);
    }
}

/// Reads one byte of a digest: a decimal number up to 255.
pub open spec fn byte_reader() -> spec_fn(Seq<char>, int) -> Option<(u8, int)> {
    |s: Seq<char>, p: int|
        match read_decimal(s, p, 255) {
            Some((v, end)) => Some((v as u8, end)),
            None => None,
        }
}

/// The digest written from `pos` on, and the position behind it.
pub open spec fn read_digest(s: Seq<char>, pos: int) -> Option<(D, int)> {
    match after_literal(s, pos, "{\"sha2_256\":"@) {
        None => None,
        Some(stop1) => match read_list(s, stop1, byte_reader(), '[', ']') {
            None => None,
            Some((bytes, stop2)) => if bytes.len() == 32 && stop2 < s.len() && s[stop2] == '}' {
                Some((digest_from(bytes), stop2 + 1))
            } else {
                None
            },
        },
    }
}

/// Reads one digest.
pub open spec fn digest_reader() -> spec_fn(Seq<char>, int) -> Option<(D, int)> {
    |s: Seq<char>, p: int| read_digest(s, p)
}

/// The field written from `pos` on, as its identifier and its list of
/// digests, and the position behind it.
pub open spec fn read_entry(s: Seq<char>, pos: int) -> Option<((u32, Seq<D>), int)> {
    if !(0 <= pos < s.len() && s[pos] == '"') {
        None
    } else {
        match read_decimal(s, pos + 1, 0xffff_ffff) {
            None => None,
            Some((key, stop1)) => match after_literal(s, stop1, "\":"@) {
                None => None,
                Some(stop2) => match read_list(s, stop2, digest_reader(), '[', ']') {
                    None => None,
                    Some((list, end)) => Some(((key as u32, list), end)),
                },
            },
        }
    }
}

/// Reads one field of an object.
pub open spec fn entry_reader() -> spec_fn(Seq<char>, int) -> Option<((u32, Seq<D>), int)> {
    |s: Seq<char>, p: int| read_entry(s, p)
}

/// The object written from `pos` on, and the position behind it.
pub open spec fn read_object(s: Seq<char>, pos: int) -> Option<(ObjectView, int)> {
    match after_literal(s, pos, "{\"object_type_id\":"@) {
        None => None,
        Some(stop1) => match read_decimal(s, stop1, 0xffff_ffff) {
            None => None,
            Some((type_id, stop2)) => match after_literal(s, stop2, ",\"fields\":"@) {
                None => None,
                Some(stop3) => match read_list(s, stop3, entry_reader(), '{', '}') {
                    None => None,
                    Some((entries, stop4)) => if stop4 < s.len() && s[stop4] == '}' {
                        Some(
                            (
                                ObjectView { object_type_id: type_id as u32, fields: map_of(entries) },
                                stop4 + 1,
                            ),
                        )
                    } else {
                        None
                    },
                },
            },
        }
    }
}

/// The value written from `pos` on, and the position behind it.
pub open spec fn read_value(s: Seq<char>, pos: int) -> Option<(ValueView, int)> {
    if after_literal(s, pos, "\"Empty\""@) is Some {
        Some((ValueView::Empty, after_literal(s, pos, "\"Empty\""@).unwrap()))
    } else if after_literal(s, pos, "{\"Boolean\":true}"@) is Some {
        Some((ValueView::Boolean(true), after_literal(s, pos, "{\"Boolean\":true}"@).unwrap()))
    } else if after_literal(s, pos, "{\"Boolean\":false}"@) is Some {
        Some((ValueView::Boolean(false), after_literal(s, pos, "{\"Boolean\":false}"@).unwrap()))
    } else if after_literal(s, pos, "{\"String\":"@) is Some {
        match read_quoted(s, after_literal(s, pos, "{\"String\":"@).unwrap()) {
            Some((text, end)) => if end < s.len() && s[end] == '}' {
                Some((ValueView::String(text), end + 1))
            } else {
                None
            },
            None => None,
        }
    } else if after_literal(s, pos, "{\"Int\":"@) is Some {
        match read_int(s, after_literal(s, pos, "{\"Int\":"@).unwrap()) {
            Some((i, end)) => if end < s.len() && s[end] == '}' {
                Some((ValueView::Int(i), end + 1))
            } else {
                None
            },
            None => None,
        }
    } else if after_literal(s, pos, "{\"Number\":"@) is Some {
        match read_decimal(s, after_literal(s, pos, "{\"Number\":"@).unwrap(), 0xffff_ffff_ffff_ffff) {
            Some((bits, end)) => if end < s.len() && s[end] == '}' {
                Some((ValueView::Number(bits as u64), end + 1))
            } else {
                None
            },
            None => None,
        }
    } else if after_literal(s, pos, "{\"Object\":"@) is Some {
        match read_object(s, after_literal(s, pos, "{\"Object\":"@).unwrap()) {
            Some((object, end)) => if end < s.len() && s[end] == '}' {
                Some((ValueView::Object(object), end + 1))
            } else {
                None
            },
            None => None,
        }
    } else {
        None
    }
}

/// The node written from `pos` on, and the position behind it.
pub open spec fn read_node(s: Seq<char>, pos: int) -> Option<(NodeView, int)> {
    match after_literal(s, pos, "{\"id\":"@) {
        None => None,
        Some(stop1) => match read_decimal(s, stop1, 0xffff_ffff) {
            None => None,
            Some((id, stop2)) => match after_literal(s, stop2, ",\"value\":"@) {
                None => None,
                Some(stop3) => match read_value(s, stop3) {
                    None => None,
                    Some((value, stop4)) => if stop4 < s.len() && s[stop4] == '}' {
                        Some((NodeView { id: id as u32, value }, stop4 + 1))
                    } else {
                        None
                    },
                },
            },
        }
    }
}

proof fn lemma_differs(s: Seq<char>, pos: int, a: Seq<char>, b: Seq<char>, k: int)
    requires
        occurs_at(s, pos, a),
        0 <= k < a.len(),
        0 <= k < b.len(),
        a[k] != b[k],
    ensures
        !occurs_at(s, pos, b),
{
    lemma_occurs_char(s, pos, a, k);
    if occurs_at(s, pos, b) {
        lemma_occurs_char(s, pos, b, k);
    }
}

/// Reading gives back a digest whose text stands at the position.
pub proof fn lemma_read_digest(s: Seq<char>, pos: int, d: D)
    requires
        occurs_at(s, pos, digest_json(d@)),
    ensures
        read_digest(s, pos) == Some((d, pos + digest_json(d@).len())),
{
    let tag = "{\"sha2_256\":"@;
    let texts = d@.map_values(|b: u8| decimal_text(b as nat));
    let list = bytes_text(d@);
    lemma_digest_from(d);
    lemma_occurs_concat(s, pos, tag + list, seq!['}']);
    lemma_occurs_concat(s, pos, tag, list);
    lemma_occurs_char(s, pos + tag.len() + list.len(), seq!['}'], 0);
    let stop1 = pos + tag.len();
    assert forall|i: int| 0 <= i < texts.len() implies (#[trigger] texts[i]).len() > 0 && texts[i][0]
        != ']' by {
        lemma_decimal_text(d@[i] as nat);
    }
    assert forall|i: int, p: int| 0 <= i < d@.len() implies #[trigger] reads_back(
        s,
        p,
        d@[i],
        texts[i],
        byte_reader(),
        ']',
    ) by {
        if occurs_at(s, p, texts[i]) && p + texts[i].len() < s.len() && (s[p + texts[i].len()] == ','
            || s[p + texts[i].len()] == ']') {
            lemma_read_decimal(s, p, d@[i] as nat, 255);
        }
    }
    lemma_read_list(s, stop1, d@, texts, byte_reader(), '[', ']');
}

/// Reading gives back a list of digests whose text stands at the position.
pub proof fn lemma_read_digests(s: Seq<char>, pos: int, list: Seq<D>)
    requires
        occurs_at(s, pos, digests_text(list)),
    ensures
        read_list(s, pos, digest_reader(), '[', ']') == Some((list, pos + digests_text(list).len())),
{
    let texts = list.map_values(|d: D| digest_json(d@));
    reveal_strlit("{\"sha2_256\":");
    assert forall|i: int| 0 <= i < texts.len() implies (#[trigger] texts[i]).len() > 0 && texts[i][0]
        != ']' by {
        assert(texts[i][0] == "{\"sha2_256\":"@[0]);
    }
    assert forall|i: int, p: int| 0 <= i < list.len() implies #[trigger] reads_back(
        s,
        p,
        list[i],
        texts[i],
        digest_reader(),
        ']',
    ) by {
        if occurs_at(s, p, texts[i]) {
            lemma_read_digest(s, p, list[i]);
        }
    }
    lemma_read_list(s, pos, list, texts, digest_reader(), '[', ']');
}

/// Reading gives back a field whose text stands at the position.
pub proof fn lemma_read_entry(s: Seq<char>, pos: int, key: u32, list: Seq<D>)
    requires
        occurs_at(s, pos, entry_text(key, list)),
    ensures
        read_entry(s, pos) == Some(((key, list), pos + entry_text(key, list).len())),
{
    let quote = seq!['"'];
    let digits = decimal_text(key as nat);
    let colon = "\":"@;
    let digests = digests_text(list);
    reveal_strlit("\":");
    lemma_occurs_concat(s, pos, quote + digits + colon, digests);
    lemma_occurs_concat(s, pos, quote + digits, colon);
    lemma_occurs_concat(s, pos, quote, digits);
    lemma_occurs_char(s, pos, quote, 0);
    lemma_occurs_char(s, pos + 1 + digits.len(), colon, 0);
    lemma_read_decimal(s, pos + 1, key as nat, 0xffff_ffff);
    lemma_read_digests(s, pos + 1 + digits.len() + colon.len(), list);
}

/// Reading gives back the fields of an object whose text stands at the
/// position.
pub proof fn lemma_read_fields(s: Seq<char>, pos: int, fields: Map<u32, Seq<D>>)
    requires
        occurs_at(s, pos, fields_text(fields)),
    ensures
        read_list(s, pos, entry_reader(), '{', '}') matches Some((entries, end)) && map_of(entries)
            == fields && end == pos + fields_text(fields).len(),
{
    let keys = ascending(fields.dom());
    let texts = keys.map_values(|k: u32| entry_text(k, fields[k]));
    let items = keys.map_values(|k: u32| (k, fields[k]));
    lemma_ascending(fields.dom());
    assert forall|i: int| 0 <= i < texts.len() implies (#[trigger] texts[i]).len() > 0 && texts[i][0]
        != '}' by {
        assert(texts[i][0] == '"');
    }
    assert forall|i: int, p: int| 0 <= i < items.len() implies #[trigger] reads_back(
        s,
        p,
        items[i],
        texts[i],
        entry_reader(),
        '}',
    ) by {
        if occurs_at(s, p, texts[i]) {
            lemma_read_entry(s, p, keys[i], fields[keys[i]]);
        }
    }
    lemma_read_list(s, pos, items, texts, entry_reader(), '{', '}');
    assert(keys_of(items) =~= keys);
    lemma_map_of(items);
    assert(map_of(items) =~= fields) by {
        assert forall|k: u32| map_of(items).contains_key(k) == fields.contains_key(k) by {
            if map_of(items).contains_key(k) {
                let i = choose|i: int| 0 <= i < items.len() && #[trigger] items[i].0 == k;
                assert(fields.dom().contains(keys[i]));
            }
            if fields.contains_key(k) {
                assert(keys.contains(k));
                let i = choose|i: int| 0 <= i < keys.len() && keys[i] == k;
                assert(items[i].0 == k);
            }
        }
        assert forall|k: u32| map_of(items).contains_key(k) implies map_of(items)[k] == fields[k] by {
            let i = choose|i: int| 0 <= i < items.len() && #[trigger] items[i].0 == k;
            assert(items[i].1 == fields[k]);
        }
    }
}

/// Reading gives back an object whose text stands at the position.
pub proof fn lemma_read_object(s: Seq<char>, pos: int, o: ObjectView)
    requires
        occurs_at(s, pos, object_text(o)),
    ensures
        read_object(s, pos) == Some((o, pos + object_text(o).len())),
{
    let tag = "{\"object_type_id\":"@;
    let digits = decimal_text(o.object_type_id as nat);
    let mid = ",\"fields\":"@;
    let fields = fields_text(o.fields);
    reveal_strlit(",\"fields\":");
    lemma_occurs_concat(s, pos, tag + digits + mid + fields, seq!['}']);
    lemma_occurs_concat(s, pos, tag + digits + mid, fields);
    lemma_occurs_concat(s, pos, tag + digits, mid);
    lemma_occurs_concat(s, pos, tag, digits);
    let stop1 = pos + tag.len();
    let stop2 = stop1 + digits.len();
    let stop3 = stop2 + mid.len();
    let stop4 = stop3 + fields.len();
    lemma_occurs_char(s, stop2, mid, 0);
    lemma_occurs_char(s, stop4, seq!['}'], 0);
    lemma_read_decimal(s, stop1, o.object_type_id as nat, 0xffff_ffff);
    lemma_read_fields(s, stop3, o.fields);
}

/// Reading gives back a value whose text stands at the position.
pub proof fn lemma_read_value(s: Seq<char>, pos: int, v: ValueView)
    requires
        occurs_at(s, pos, value_text(v)),
    ensures
        read_value(s, pos) == Some((v, pos + value_text(v).len())),
{
    let empty = "\"Empty\""@;
    let yes = "{\"Boolean\":true}"@;
    let no = "{\"Boolean\":false}"@;
    let string = "{\"String\":"@;
    let integer = "{\"Int\":"@;
    let number = "{\"Number\":"@;
    let object = "{\"Object\":"@;
    reveal_strlit("\"Empty\"");
    reveal_strlit("{\"Boolean\":true}");
    reveal_strlit("{\"Boolean\":false}");
    reveal_strlit("{\"String\":");
    reveal_strlit("{\"Int\":");
    reveal_strlit("{\"Number\":");
    reveal_strlit("{\"Object\":");
    let close = seq!['}'];
    match v {
        ValueView::Empty => {},
        ValueView::Boolean(b) => {
            if b {
                lemma_differs(s, pos, yes, empty, 0);
            } else {
                lemma_differs(s, pos, no, empty, 0);
                lemma_differs(s, pos, no, yes, 11);
            }
        },
        ValueView::String(text) => {
            let inner = quoted_text(text);
            lemma_occurs_concat(s, pos, string + inner, close);
            lemma_occurs_concat(s, pos, string, inner);
            lemma_differs(s, pos, string, empty, 0);
            lemma_differs(s, pos, string, yes, 2);
            lemma_differs(s, pos, string, no, 2);
            lemma_occurs_char(s, pos + string.len() + inner.len(), close, 0);
            lemma_read_quoted(s, pos + string.len(), text);
        },
        ValueView::Int(i) => {
            let inner = int_text(i as int);
            lemma_occurs_concat(s, pos, integer + inner, close);
            lemma_occurs_concat(s, pos, integer, inner);
            lemma_differs(s, pos, integer, empty, 0);
            lemma_differs(s, pos, integer, yes, 2);
            lemma_differs(s, pos, integer, no, 2);
            lemma_differs(s, pos, integer, string, 2);
            lemma_occurs_char(s, pos + integer.len() + inner.len(), close, 0);
            lemma_read_int(s, pos + integer.len(), i);
        },
        ValueView::Number(bits) => {
            let inner = decimal_text(bits as nat);
            lemma_occurs_concat(s, pos, number + inner, close);
            lemma_occurs_concat(s, pos, number, inner);
            lemma_differs(s, pos, number, empty, 0);
            lemma_differs(s, pos, number, yes, 2);
            lemma_differs(s, pos, number, no, 2);
            lemma_differs(s, pos, number, string, 2);
            lemma_differs(s, pos, number, integer, 2);
            lemma_occurs_char(s, pos + number.len() + inner.len(), close, 0);
            lemma_read_decimal(s, pos + number.len(), bits as nat, 0xffff_ffff_ffff_ffff);
        },
        ValueView::Object(o) => {
            let inner = object_text(o);
            lemma_occurs_concat(s, pos, object + inner, close);
            lemma_occurs_concat(s, pos, object, inner);
            lemma_differs(s, pos, object, empty, 0);
            lemma_differs(s, pos, object, yes, 2);
            lemma_differs(s, pos, object, no, 2);
            lemma_differs(s, pos, object, string, 2);
            lemma_differs(s, pos, object, integer, 2);
            lemma_differs(s, pos, object, number, 2);
            lemma_occurs_char(s, pos + object.len() + inner.len(), close, 0);
            lemma_read_object(s, pos + object.len(), o);
        },
    }
}

/// Reading gives back a node whose text stands at the position.
pub proof fn lemma_read_node(s: Seq<char>, pos: int, n: NodeView)
    requires
        occurs_at(s, pos, node_text(n)),
    ensures
        read_node(s, pos) == Some((n, pos + node_text(n).len())),
{
    let tag = "{\"id\":"@;
    let digits = decimal_text(n.id as nat);
    let mid = ",\"value\":"@;
    let value = value_text(n.value);
    let close = seq!['}'];
    reveal_strlit(",\"value\":");
    lemma_occurs_concat(s, pos, tag + digits + mid + value, close);
    lemma_occurs_concat(s, pos, tag + digits + mid, value);
    lemma_occurs_concat(s, pos, tag + digits, mid);
    lemma_occurs_concat(s, pos, tag, digits);
    let stop1 = pos + tag.len();
    let stop2 = stop1 + digits.len();
    let stop3 = stop2 + mid.len();
    let stop4 = stop3 + value.len();
    lemma_occurs_char(s, stop2, mid, 0);
    lemma_occurs_char(s, stop4, close, 0);
    lemma_read_decimal(s, stop1, n.id as nat, 0xffff_ffff);
    lemma_read_value(s, stop3, n.value);
}

fn parse_bytes(s: &Vec<char>, pos: usize) -> (read: Option<(Vec<u8>, usize)>)
    requires
        pos <= s@.len(),
    ensures
        match read {
            Some((bytes, end)) => read_list(s@, pos as int, byte_reader(), '[', ']') == Some(
                (bytes@, end as int),
            ) && pos < end <= s@.len(),
            None => read_list(s@, pos as int, byte_reader(), '[', ']') is None,
        },
{
    let len = s.len();
    if !at(s, pos, '[') {
        return None;
    }
    if at(s, pos + 1, ']') {
        return Some((Vec::new(), pos + 2));
    }
    let mut bytes: Vec<u8> = Vec::new();
    let mut i: usize = pos + 1;
    loop
        invariant
            pos < i <= len,
            len == s@.len(),
            read_list(s@, pos as int, byte_reader(), '[', ']') == read_items(
                s@,
                i as int,
                bytes@,
                byte_reader(),
                ']',
            ),
        decreases len - i,
    {
        match parse_decimal(s, i, 255) {
            None => {
                return None;
            },
            Some((value, end)) => {
                if end >= len {
                    return None;
                }
                bytes.push(value as u8);
                if s[end] == ']' {
                    return Some((bytes, end + 1));
                } else if s[end] == ',' {
                    i = end + 1;
                } else {
                    return None;
                }
            },
        }
    }
}

fn parse_digest(s: &Vec<char>, pos: usize) -> (read: Option<(D, usize)>)
    requires
        pos <= s@.len(),
    ensures
        match read {
            Some((d, end)) => read_digest(s@, pos as int) == Some((d, end as int)) && pos < end
                <= s@.len(),
            None => read_digest(s@, pos as int) is None,
        },
{
    let stop1 = match expect(s, pos, "{\"sha2_256\":") {
        Some(p) => p,
        None => {
            return None;
        },
    };
    let (bytes, stop2) = match parse_bytes(s, stop1) {
        Some(found) => found,
        None => {
            return None;
        },
    };
    if bytes.len() != 32 || !at(s, stop2, '}') {
        return None;
    }
    Some((D::from_bytes(&bytes), stop2 + 1))
}

fn parse_digests(s: &Vec<char>, pos: usize) -> (read: Option<(Vec<D>, usize)>)
    requires
        pos <= s@.len(),
    ensures
        match read {
            Some((list, end)) => read_list(s@, pos as int, digest_reader(), '[', ']') == Some(
                (list@, end as int),
            ) && pos < end <= s@.len(),
            None => read_list(s@, pos as int, digest_reader(), '[', ']') is None,
        },
{
    let len = s.len();
    if !at(s, pos, '[') {
        return None;
    }
    if at(s, pos + 1, ']') {
        return Some((Vec::new(), pos + 2));
    }
    let mut list: Vec<D> = Vec::new();
    let mut i: usize = pos + 1;
    loop
        invariant
            pos < i <= len,
            len == s@.len(),
            read_list(s@, pos as int, digest_reader(), '[', ']') == read_items(
                s@,
                i as int,
                list@,
                digest_reader(),
                ']',
            ),
        decreases len - i,
    {
        match parse_digest(s, i) {
            None => {
                return None;
            },
            Some((d, end)) => {
                if end >= len {
                    return None;
                }
                list.push(d);
                if s[end] == ']' {
                    return Some((list, end + 1));
                } else if s[end] == ',' {
                    i = end + 1;
                } else {
                    return None;
                }
            },
        }
    }
}

fn parse_entry(s: &Vec<char>, pos: usize) -> (read: Option<(u32, Vec<D>, usize)>)
    requires
        pos <= s@.len(),
    ensures
        match read {
            Some((key, list, end)) => read_entry(s@, pos as int) == Some(
                ((key, list@), end as int),
            ) && pos < end <= s@.len(),
            None => read_entry(s@, pos as int) is None,
        },
{
    let len = s.len();
    if !at(s, pos, '"') {
        return None;
    }
    let (key, stop1) = match parse_decimal(s, pos + 1, 0xffff_ffff) {
        Some(found) => found,
        None => {
            return None;
        },
    };
    let stop2 = match expect(s, stop1, "\":") {
        Some(p) => p,
        None => {
            return None;
        },
    };
    match parse_digests(s, stop2) {
        Some((list, end)) => Some((key as u32, list, end)),
        None => None,
    }
}

fn parse_fields(s: &Vec<char>, pos: usize) -> (read: Option<(OrderedMap<Vec<D>>, usize)>)
    requires
        pos <= s@.len(),
    ensures
        match read {
            Some((fields, end)) => read_list(s@, pos as int, entry_reader(), '{', '}') matches Some(
                (entries, e),
            ) && e == end && fields_view(fields@) == map_of(entries) && pos < end <= s@.len(),
            None => read_list(s@, pos as int, entry_reader(), '{', '}') is None,
        },
{
    let len = s.len();
    if !at(s, pos, '{') {
        return None;
    }
    let mut fields: OrderedMap<Vec<D>> = OrderedMap::new();
    if at(s, pos + 1, '}') {
        assert(fields_view(fields@) =~= map_of(Seq::<(u32, Seq<D>)>::empty()));
        return Some((fields, pos + 2));
    }
    let ghost mut entries: Seq<(u32, Seq<D>)> = Seq::empty();
    assert(fields_view(fields@) =~= map_of(entries));
    let mut i: usize = pos + 1;
    loop
        invariant
            pos < i <= len,
            len == s@.len(),
            fields_view(fields@) == map_of(entries),
            read_list(s@, pos as int, entry_reader(), '{', '}') == read_items(
                s@,
                i as int,
                entries,
                entry_reader(),
                '}',
            ),
        decreases len - i,
    {
        match parse_entry(s, i) {
            None => {
                return None;
            },
            Some((key, list, end)) => {
                if end >= len {
                    return None;
                }
                proof {
                    let next = entries.push((key, list@));
                    assert(next.drop_last() =~= entries);
                    assert(fields_view(fields@.insert(key, list)) =~= map_of(next));
                    entries = next;
                }
                fields.insert(key, list);
                if s[end] == '}' {
                    return Some((fields, end + 1));
                } else if s[end] == ',' {
                    i = end + 1;
                } else {
                    return None;
                }
            },
        }
    }
}

fn parse_object(s: &Vec<char>, pos: usize) -> (read: Option<(ObjectValue, usize)>)
    requires
        pos <= s@.len(),
    ensures
        match read {
            Some((object, end)) => read_object(s@, pos as int) == Some((object@, end as int)) && pos
                < end <= s@.len(),
            None => read_object(s@, pos as int) is None,
        },
{
    let stop1 = match expect(s, pos, "{\"object_type_id\":") {
        Some(p) => p,
        None => {
            return None;
        },
    };
    let (type_id, stop2) = match parse_decimal(s, stop1, 0xffff_ffff) {
        Some(found) => found,
        None => {
            return None;
        },
    };
    let stop3 = match expect(s, stop2, ",\"fields\":") {
        Some(p) => p,
        None => {
            return None;
        },
    };
    let (fields, stop4) = match parse_fields(s, stop3) {
        Some(found) => found,
        None => {
            return None;
        },
    };
    if !at(s, stop4, '}') {
        return None;
    }
    Some((ObjectValue { object_type_id: type_id as u32, fields }, stop4 + 1))
}

fn parse_value(s: &Vec<char>, pos: usize) -> (read: Option<(Value, usize)>)
    requires
        pos <= s@.len(),
    ensures
        match read {
            Some((value, end)) => read_value(s@, pos as int) == Some((value@, end as int)) && pos
                <= end <= s@.len(),
            None => read_value(s@, pos as int) is None,
        },
{
    if let Some(end) = expect(s, pos, "\"Empty\"") {
        return Some((Value::Empty, end));
    }
    if let Some(end) = expect(s, pos, "{\"Boolean\":true}") {
        return Some((Value::Boolean(true), end));
    }
    if let Some(end) = expect(s, pos, "{\"Boolean\":false}") {
        return Some((Value::Boolean(false), end));
    }
    if let Some(p) = expect(s, pos, "{\"String\":") {
        return match parse_quoted(s, p) {
            Some((text, end)) => if at(s, end, '}') {
                Some((Value::String(text), end + 1))
            } else {
                None
            },
            None => None,
        };
    }
    if let Some(p) = expect(s, pos, "{\"Int\":") {
        return match parse_int(s, p) {
            Some((i, end)) => if at(s, end, '}') {
                Some((Value::Int(i), end + 1))
            } else {
                None
            },
            None => None,
        };
    }
    if let Some(p) = expect(s, pos, "{\"Number\":") {
        return match parse_decimal(s, p, 0xffff_ffff_ffff_ffff) {
            Some((bits, end)) => if at(s, end, '}') {
                Some((Value::Number(bits), end + 1))
            } else {
                None
            },
            None => None,
        };
    }
    if let Some(p) = expect(s, pos, "{\"Object\":") {
        return match parse_object(s, p) {
            Some((object, end)) => if at(s, end, '}') {
                Some((Value::Object(object), end + 1))
            } else {
                None
            },
            None => None,
        };
    }
    None
}

fn parse_node(s: &Vec<char>, pos: usize) -> (read: Option<(Node, usize)>)
    requires
        pos <= s@.len(),
    ensures
        match read {
            Some((node, end)) => read_node(s@, pos as int) == Some((node@, end as int)) && pos <= end
                <= s@.len(),
            None => read_node(s@, pos as int) is None,
        },
{
    let stop1 = match expect(s, pos, "{\"id\":") {
        Some(p) => p,
        None => {
            return None;
        },
    };
    let (id, stop2) = match parse_decimal(s, stop1, 0xffff_ffff) {
        Some(found) => found,
        None => {
            return None;
        },
    };
    let stop3 = match expect(s, stop2, ",\"value\":") {
        Some(p) => p,
        None => {
            return None;
        },
    };
    let (value, stop4) = match parse_value(s, stop3) {
        Some(found) => found,
        None => {
            return None;
        },
    };
    if !at(s, stop4, '}') {
        return None;
    }
    Some((Node { id: id as u32, value }, stop4 + 1))
}

/// The characters of a string.
pub fn to_chars(s: &str) -> (chars: Vec<char>)
    ensures
        chars@ == s@,
{
    let mut chars: Vec<char> = Vec::new();
    for c in it: s.chars()
        invariant
            chars@ == it.seq().take(it.index() as int),
    {
        chars.push(c);
    }
    chars
}

/// Whether two sequences of characters are the same.
pub fn same_chars(a: &Vec<char>, b: &Vec<char>) -> (same: bool)
    ensures
        same == (a@ == b@),
{
    if a.len() != b.len() {
        return false;
    }
    let mut i: usize = 0;
    while i < a.len()
        invariant
            i <= a@.len(),
            a@.len() == b@.len(),
            forall|j: int| 0 <= j < i ==> a@[j] == b@[j],
        decreases a@.len() - i,
    {
        if a[i] != b[i] {
            return false;
        }
        i += 1;
    }
    assert(a@ =~= b@);
    true
}

/// The node that a text is the canonical text of, if it is that of any.
#[verifier::opaque]
pub open spec fn decode(text: Seq<char>) -> Option<NodeView> {
    if exists|n: NodeView| node_text(n) == text {
        Some(choose|n: NodeView| node_text(n) == text)
    } else {
        None
    }
}

/// Two nodes with the same canonical text are the same node.
pub proof fn law_node_text_injective(a: NodeView, b: NodeView)
    requires
        node_text(a) == node_text(b),
    ensures
        a == b,
{
    let text = node_text(a);
    assert(text.subrange(0, text.len() as int) =~= text);
    lemma_read_node(text, 0, a);
    lemma_read_node(text, 0, b);
}

/// Decoding the canonical text of a node gives the node back.
pub proof fn law_decode_round_trip(n: NodeView)
    ensures
        decode(node_text(n)) == Some(n),
{
    reveal(decode);
    let found = choose|m: NodeView| node_text(m) == node_text(n);
    law_node_text_injective(found, n);
}

impl Node {
    /// Reads a node from its canonical text. Any other text gives `None`.
    pub fn deserialize(s: &str) -> (node: Option<Node>)
        ensures
            match node {
                Some(n) => s@ == node_text(n@) && decode(s@) == Some(n@),
                None => decode(s@) is None && forall|m: NodeView| s@ != node_text(m),
            },
    {
        let chars = to_chars(s);
        let ghost text = s@;
        proof {
            reveal(decode);
            assert(text.subrange(0, text.len() as int) =~= text);
            assert forall|m: NodeView| text == node_text(m) implies read_node(text, 0) == Some(
                (m, text.len() as int),
            ) by {
                lemma_read_node(text, 0, m);
            }
        }
        match parse_node(&chars, 0) {
            Some((node, end)) => {
                if end == chars.len() {
                    let again = node.serialize();
                    let written = to_chars(again.as_str());
                    if same_chars(&written, &chars) {
                        proof {
                            law_decode_round_trip(node@);
                        }
                        Some(node)
                    } else {
                        None
                    }
                } else {
                    None
                }
            },
            None => None,
        }
    }
}

} // verus!
