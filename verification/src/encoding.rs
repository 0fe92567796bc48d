use crate::digest::{hex_digit, D};
use crate::ordered::{ascending, OrderedMap};
use crate::value::{fields_view, Node, NodeView, ObjectValue, ObjectView, Value, ValueView};
use vstd::prelude::*;

verus! {

/// What `String::push` of the standard library does: it appends the
/// character to the end of the string.
pub assume_specification[ std::string::String::push ](s: &mut std::string::String, ch: char)
    ensures
        final(s)@ == old(s)@.push(ch),
;

/// The character for a decimal digit.
pub open spec fn digit_char(d: int) -> char {
    seq!['0', '1', '2', '3', '4', '5', '6', '7', '8', '9'][d]
}

/// A natural number in decimal, without leading zeros.
pub open spec fn decimal_text(n: nat) -> Seq<char>
    decreases n,
{
    if n < 10 {
        seq![digit_char(n as int)]
    } else {
        decimal_text(n / 10).push(digit_char((n % 10) as int))
    }
}

/// An integer in decimal, with a minus sign where it is negative.
pub open spec fn int_text(i: int) -> Seq<char> {
    if i < 0 {
        seq!['-'] + decimal_text((-i) as nat)
    } else {
        decimal_text(i as nat)
    }
}

fn digit_of(d: u64) -> (c: char)
    requires
        d < 10,
    ensures
        c == digit_char(d as int),
{
    if d == 0 {
        '0'
    } else if d == 1 {
        '1'
    } else if d == 2 {
        '2'
    } else if d == 3 {
        '3'
    } else if d == 4 {
        '4'
    } else if d == 5 {
        '5'
    } else if d == 6 {
        '6'
    } else if d == 7 {
        '7'
    } else if d == 8 {
        '8'
    } else {
        '9'
    }
}

/// Appends a natural number in decimal.
pub fn write_decimal(out: &mut String, n: u64)
    ensures
        final(out)@ == old(out)@ + decimal_text(n as nat),
    decreases n,
{
    if n >= 10 {
        write_decimal(out, n / 10);
    }
    out.push(digit_of(n % 10));
    assert(out@ =~= old(out)@ + decimal_text(n as nat));
}

/// Appends an integer in decimal.
pub fn write_int(out: &mut String, i: i64)
    ensures
        final(out)@ == old(out)@ + int_text(i as int),
{
    if i < 0 {
        out.push('-');
        let magnitude: u64 = if i == i64::MIN {
            0x8000_0000_0000_0000u64
        } else {
            (-i) as u64
        };
        write_decimal(out, magnitude);
        assert(out@ =~= old(out)@ + int_text(i as int));
    } else {
        write_decimal(out, i as u64);
    }
}

/// How one character of a string is written between quotes: a quote and a
/// backslash behind a backslash, a control character by its short form or as
/// `\u00` and two hexadecimal digits, any other character as it is.
pub open spec fn escape_char(c: char) -> Seq<char> {
    if c == '"' {
        seq!['\\', '"']
    } else if c == '\\' {
        seq!['\\', '\\']
    } else if c == '\n' {
        seq!['\\', 'n']
    } else if c == '\r' {
        seq!['\\', 'r']
    } else if c == '\t' {
        seq!['\\', 't']
    } else if c == '\u{8}' {
        seq!['\\', 'b']
    } else if c == '\u{c}' {
        seq!['\\', 'f']
    } else if (c as u32) < 0x20 {
        seq!['\\', 'u', '0', '0', hex_digit((c as u32 / 16) as int), hex_digit((c as u32 % 16) as int)]
    } else {
        seq![c]
    }
}

/// The characters of a string as they are written between quotes.
pub open spec fn escaped_text(s: Seq<char>) -> Seq<char>
    decreases s.len(),
{
    if s.len() == 0 {
        Seq::empty()
    } else {
        escaped_text(s.drop_last()) + escape_char(s.last())
    }
}

/// A string between quotes.
pub open spec fn quoted_text(s: Seq<char>) -> Seq<char> {
    seq!['"'] + escaped_text(s) + seq!['"']
}

/// Texts one after the other with a comma between each two.
pub open spec fn joined(items: Seq<Seq<char>>) -> Seq<char>
    decreases items.len(),
{
    if items.len() == 0 {
        Seq::empty()
    } else if items.len() == 1 {
        items[0]
    } else {
        joined(items.drop_last()) + seq![','] + items.last()
    }
}

/// The bytes of a digest as a list of decimal numbers.
pub open spec fn bytes_text(bytes: Seq<u8>) -> Seq<char> {
    seq!['['] + joined(bytes.map_values(|b: u8| decimal_text(b as nat))) + seq![']']
}

/// A digest: an object with the one member `sha2_256`.
pub open spec fn digest_json(d: Seq<u8>) -> Seq<char> {
    "{\"sha2_256\":"@ + bytes_text(d) + seq!['}']
}

/// A list of digests.
pub open spec fn digests_text(list: Seq<D>) -> Seq<char> {
    seq!['['] + joined(list.map_values(|d: D| digest_json(d@))) + seq![']']
}

/// One field of an object: its identifier between quotes, a colon, and its
/// list of digests.
pub open spec fn entry_text(field_id: u32, list: Seq<D>) -> Seq<char> {
    seq!['"'] + decimal_text(field_id as nat) + "\":"@ + digests_text(list)
}

/// The fields of an object, in increasing order of identifier.
pub open spec fn fields_text(fields: Map<u32, Seq<D>>) -> Seq<char> {
    seq!['{'] + joined(
        ascending(fields.dom()).map_values(|k: u32| entry_text(k, fields[k])),
    ) + seq!['}']
}

/// An object: its type, then its fields.
pub open spec fn object_text(o: ObjectView) -> Seq<char> {
    "{\"object_type_id\":"@ + decimal_text(o.object_type_id as nat) + ",\"fields\":"@
        + fields_text(o.fields) + seq!['}']
}

/// A value, tagged by the name of its variant.
pub open spec fn value_text(v: ValueView) -> Seq<char> {
    match v {
        ValueView::Empty => "\"Empty\""@,
        ValueView::String(s) => "{\"String\":"@ + quoted_text(s) + seq!['}'],
        ValueView::Int(i) => "{\"Int\":"@ + int_text(i as int) + seq!['}'],
        ValueView::Number(bits) => "{\"Number\":"@ + decimal_text(bits as nat) + seq!['}'],
        ValueView::Boolean(b) => if b {
            "{\"Boolean\":true}"@
        } else {
            "{\"Boolean\":false}"@
        },
        ValueView::Object(o) => "{\"Object\":"@ + object_text(o) + seq!['}'],
    }
}

/// The canonical text of a node: its identifier, then its value.
pub open spec fn node_text(n: NodeView) -> Seq<char> {
    "{\"id\":"@ + decimal_text(n.id as nat) + ",\"value\":"@ + value_text(n.value) + seq!['}']
}

fn hex_digit_of(n: u32) -> (c: char)
    requires
        n < 16,
    ensures
        c == hex_digit(n as int),
{
    if n < 10 {
        digit_of(n as u64)
    } else if n == 10 {
        'a'
    } else if n == 11 {
        'b'
    } else if n == 12 {
        'c'
    } else if n == 13 {
        'd'
    } else if n == 14 {
        'e'
    } else {
        'f'
    }
}

fn write_escaped_char(out: &mut String, c: char)
    ensures
        final(out)@ == old(out)@ + escape_char(c),
{
    if c == '"' {
        out.push('\\');
        out.push('"');
    } else if c == '\\' {
        out.push('\\');
        out.push('\\');
    } else if c == '\n' {
        out.push('\\');
        out.push('n');
    } else if c == '\r' {
        out.push('\\');
        out.push('r');
    } else if c == '\t' {
        out.push('\\');
        out.push('t');
    } else if c == '\u{8}' {
        out.push('\\');
        out.push('b');
    } else if c == '\u{c}' {
        out.push('\\');
        out.push('f');
    } else if (c as u32) < 0x20 {
        out.push('\\');
        out.push('u');
        out.push('0');
        out.push('0');
        out.push(hex_digit_of(c as u32 / 16));
        out.push(hex_digit_of(c as u32 % 16));
    } else {
        out.push(c);
    }
    assert(out@ =~= old(out)@ + escape_char(c));
}

/// Appends a string between quotes.
pub fn write_quoted(out: &mut String, s: &str)
    ensures
        final(out)@ == old(out)@ + quoted_text(s@),
{
    out.push('"');
    let ghost start = out@;
    for c in it: s.chars()
        invariant
            it.seq() == s@,
            out@ == start + escaped_text(s@.take(it.index() as int)),
    {
        assert(s@.take(it.index() + 1).drop_last() =~= s@.take(it.index() as int));
        write_escaped_char(out, c);
        assert(out@ =~= start + escaped_text(s@.take(it.index() + 1)));
    }
    assert(s@.take(s@.len() as int) =~= s@);
    out.push('"');
    assert(out@ =~= old(out)@ + quoted_text(s@));
}

/// Joining one more text to some that are joined already.
pub proof fn lemma_joined_push(items: Seq<Seq<char>>, item: Seq<char>)
    ensures
        joined(items.push(item)) == if items.len() == 0 {
            item
        } else {
            joined(items) + seq![','] + item
        },
{
    assert(items.push(item).drop_last() =~= items);
}

fn write_digest(out: &mut String, d: &D)
    ensures
        final(out)@ == old(out)@ + digest_json(d@),
{
    out.append("{\"sha2_256\":");
    out.push('[');
    let ghost start = out@;
    let ghost items = d@.map_values(|b: u8| decimal_text(b as nat));
    let mut i: usize = 0;
    while i < 32
        invariant
            i <= 32,
            items == d@.map_values(|b: u8| decimal_text(b as nat)),
            out@ == start + joined(items.take(i as int)),
        decreases 32 - i,
    {
        proof {
            lemma_joined_push(items.take(i as int), items[i as int]);
            assert(items.take(i as int).push(items[i as int]) =~= items.take(i + 1));
        }
        if i > 0 {
            out.push(',');
        }
        write_decimal(out, d.sha2_256[i] as u64);
        assert(out@ =~= start + joined(items.take(i + 1)));
        i += 1;
    }
    assert(items.take(32) =~= items);
    out.push(']');
    out.push('}');
    assert(out@ =~= old(out)@ + digest_json(d@));
}

fn write_digests(out: &mut String, list: &Vec<D>)
    ensures
        final(out)@ == old(out)@ + digests_text(list@),
{
    out.push('[');
    let ghost start = out@;
    let ghost items = list@.map_values(|d: D| digest_json(d@));
    let mut i: usize = 0;
    while i < list.len()
        invariant
            i <= list.len(),
            items == list@.map_values(|d: D| digest_json(d@)),
            out@ == start + joined(items.take(i as int)),
        decreases list.len() - i,
    {
        proof {
            lemma_joined_push(items.take(i as int), items[i as int]);
            assert(items.take(i as int).push(items[i as int]) =~= items.take(i + 1));
        }
        if i > 0 {
            out.push(',');
        }
        write_digest(out, &list[i]);
        assert(out@ =~= start + joined(items.take(i + 1)));
        i += 1;
    }
    assert(items.take(list.len() as int) =~= items);
    out.push(']');
}

fn write_fields(out: &mut String, fields: &OrderedMap<Vec<D>>)
    ensures
        final(out)@ == old(out)@ + fields_text(fields_view(fields@)),
{
    out.push('{');
    let ghost start = out@;
    let ghost deep = fields_view(fields@);
    assert(deep.dom() =~= fields@.dom());
    let ghost items = ascending(deep.dom()).map_values(|k: u32| entry_text(k, deep[k]));
    let n = fields.len();
    let mut i: usize = 0;
    while i < n
        invariant
            i <= n,
            n == fields.keys().len(),
            deep == fields_view(fields@),
            deep.dom() == fields@.dom(),
            items == ascending(deep.dom()).map_values(|k: u32| entry_text(k, deep[k])),
            out@ == start + joined(items.take(i as int)),
        decreases n - i,
    {
        proof {
            lemma_joined_push(items.take(i as int), items[i as int]);
            assert(items.take(i as int).push(items[i as int]) =~= items.take(i + 1));
        }
        if i > 0 {
            out.push(',');
        }
        let key = fields.key_at(i);
        let list = fields.value_at(i);
        out.push('"');
        write_decimal(out, key as u64);
        out.append("\":");
        write_digests(out, list);
        assert(out@ =~= start + joined(items.take(i + 1)));
        i += 1;
    }
    assert(items.take(n as int) =~= items);
    out.push('}');
}

fn write_object(out: &mut String, object: &ObjectValue)
    ensures
        final(out)@ == old(out)@ + object_text(object@),
{
    out.append("{\"object_type_id\":");
    write_decimal(out, object.object_type_id as u64);
    out.append(",\"fields\":");
    write_fields(out, &object.fields);
    out.push('}');
    assert(out@ =~= old(out)@ + object_text(object@));
}

fn write_value(out: &mut String, value: &Value)
    ensures
        final(out)@ == old(out)@ + value_text(value@),
{
    match value {
        Value::Empty => {
            out.append("\"Empty\"");
        },
        Value::String(s) => {
            out.append("{\"String\":");
            write_quoted(out, s.as_str());
            out.push('}');
            assert(out@ =~= old(out)@ + value_text(value@));
        },
        Value::Int(i) => {
            out.append("{\"Int\":");
            write_int(out, *i);
            out.push('}');
            assert(out@ =~= old(out)@ + value_text(value@));
        },
        Value::Number(bits) => {
            out.append("{\"Number\":");
            write_decimal(out, *bits);
            out.push('}');
            assert(out@ =~= old(out)@ + value_text(value@));
        },
        Value::Boolean(b) => {
            if *b {
                out.append("{\"Boolean\":true}");
            } else {
                out.append("{\"Boolean\":false}");
            }
        },
        Value::Object(o) => {
            out.append("{\"Object\":");
            write_object(out, o);
            out.push('}');
            assert(out@ =~= old(out)@ + value_text(value@));
        },
    }
}

impl Node {
    /// The canonical text of the node.
    pub fn serialize(&self) -> (text: String)
        ensures
            text@ == node_text(self@),
    {
        let mut out = String::new();
        out.append("{\"id\":");
        write_decimal(&mut out, self.id as u64);
        out.append(",\"value\":");
        write_value(&mut out, &self.value);
        out.push('}');
        assert(out@ =~= node_text(self@));
        out
    }
}

} // verus!
