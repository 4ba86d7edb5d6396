//! Lines of JSON and the texts in them.

use vstd::prelude::*;
use crate::bytes::bytes_eq;
use crate::snapshot::pair_views;
use crate::text::{decimal, hex_byte, push_decimal, push_hex_byte, text_of};

verus! {

/// A character as it stands in a JSON string.
pub open spec fn escaped_char(c: char) -> Seq<char> {
    if c == '"' {
        "\\\""@
    } else if c == '\\' {
        "\\\\"@
    } else if c == '\n' {
        "\\n"@
    } else if (c as u32) < 0x20 {
        "\\u00"@ + hex_byte(c as u8)
    } else {
        seq![c]
    }
}

/// A text as it stands in a JSON string.
pub open spec fn escaped(s: Seq<char>) -> Seq<char>
    decreases s.len(),
{
    if s.len() == 0 {
        s
    } else {
        escaped(s.drop_last()) + escaped_char(s.last())
    }
}

/// A text as a JSON string.
pub fn json_string(s: &str) -> (r: String)
    ensures
        r@ == "\""@ + escaped(s@) + "\""@,
{
    let n: usize = s.unicode_len();
    let mut r: String = text_of("\"");
    let mut i: usize = 0;
    assert(s@.take(0) =~= Seq::<char>::empty());
    assert(r@ =~= "\""@ + escaped(s@.take(0)));
    while i < n
        invariant
            i <= n == s@.len(),
            r@ == "\""@ + escaped(s@.take(i as int)),
        decreases n - i,
    {
        let c: char = s.get_char(i);
        let ghost before = r@;
        proof {
            assert(s@.take(i + 1).drop_last() =~= s@.take(i as int));
            assert(s@.take(i + 1).last() == c);
        }
        if c == '"' {
            r.append("\\\"");
        } else if c == '\\' {
            r.append("\\\\");
        } else if c == '\n' {
            r.append("\\n");
        } else if (c as u32) < 0x20 {
            r.append("\\u00");
            push_hex_byte(&mut r, c as u8);
        } else {
            r.append(s.substring_char(i, i + 1));
            assert(s@.subrange(i as int, i + 1) =~= seq![c]);
        }
        assert(r@ =~= before + escaped_char(c));
        assert(r@ =~= "\""@ + escaped(s@.take(i + 1)));
        i = i + 1;
    }
    assert(s@.take(n as int) =~= s@);
    r.append("\"");
    r
}

/// What the names and values of fields hold.
pub open spec fn field_views(s: Seq<(String, String)>) -> Seq<(Seq<char>, Seq<char>)> {
    Seq::new(s.len(), |i: int| (s[i].0@, s[i].1@))
}

/// The first `n` fields of a JSON object, separated by commas.
pub open spec fn fields_text(s: Seq<(Seq<char>, Seq<char>)>, n: int) -> Seq<char>
    decreases n,
{
    if n <= 0 {
        Seq::empty()
    } else {
        fields_text(s, n - 1) + (if n > 1 {
            ","@
        } else {
            Seq::empty()
        }) + "\""@ + s[n - 1].0 + "\":"@ + s[n - 1].1
    }
}

/// A JSON object of fields whose values are JSON already.
pub fn json_object(fields: &Vec<(String, String)>) -> (r: String)
    ensures
        r@ == "{"@ + fields_text(field_views(fields@), fields@.len() as int) + "}"@,
{
    let ghost s = field_views(fields@);
    let mut r: String = text_of("{");
    let mut i: usize = 0;
    assert(r@ =~= "{"@ + fields_text(s, 0));
    while i < fields.len()
        invariant
            i <= fields@.len(),
            s == field_views(fields@),
            r@ == "{"@ + fields_text(s, i as int),
        decreases fields.len() - i,
    {
        let ghost before = r@;
        assert(s[i as int] == (fields@[i as int].0@, fields@[i as int].1@));
        if i > 0 {
            r.append(",");
        }
        r.append("\"");
        r.append(fields[i].0.as_str());
        r.append("\":");
        r.append(fields[i].1.as_str());
        assert(r@ =~= "{"@ + fields_text(s, i + 1));
        i = i + 1;
    }
    r.append("}");
    r
}

/// A field with a number.
pub fn number_field(name: &str, n: u64) -> (f: (String, String))
    ensures
        f.0@ == name@,
        f.1@ == decimal(n as nat),
{
    let mut v: String = String::new();
    push_decimal(&mut v, n);
    assert(v@ =~= decimal(n as nat));
    (text_of(name), v)
}

/// A field with a text.
pub fn text_field(name: &str, text: &str) -> (f: (String, String))
    ensures
        f.0@ == name@,
        f.1@ == "\""@ + escaped(text@) + "\""@,
{
    (text_of(name), json_string(text))
}

/// The first `n` bytes of a list, separated by commas.
pub open spec fn listed_bytes(s: Seq<u8>, n: int) -> Seq<char>
    decreases n,
{
    if n <= 0 {
        Seq::empty()
    } else if n == 1 {
        decimal(s[0] as nat)
    } else {
        listed_bytes(s, n - 1) + ", "@ + decimal(s[n - 1] as nat)
    }
}

/// Bytes as a list of numbers in brackets.
pub open spec fn bytes_text(s: Seq<u8>) -> Seq<char> {
    "["@ + listed_bytes(s, s.len() as int) + "]"@
}

/// Appends bytes as a list of numbers in brackets.
pub fn push_bytes(r: &mut String, s: &[u8])
    ensures
        final(r)@ == old(r)@ + bytes_text(s@),
{
    let ghost start = r@;
    r.append("[");
    let mut i: usize = 0;
    assert(r@ =~= start + "["@ + listed_bytes(s@, 0));
    while i < s.len()
        invariant
            i <= s@.len(),
            r@ == start + "["@ + listed_bytes(s@, i as int),
        decreases s.len() - i,
    {
        if i > 0 {
            r.append(", ");
        }
        push_decimal(r, s[i] as u64);
        assert(r@ =~= start + "["@ + listed_bytes(s@, i + 1));
        i = i + 1;
    }
    r.append("]");
    assert(r@ =~= start + bytes_text(s@));
}

/// A short text for what a read gave.
pub open spec fn described(v: Option<Seq<u8>>) -> Seq<char> {
    match v {
        None => "None"@,
        Some(b) => "Some("@ + decimal(b.len()) + " bytes, prefix "@ + bytes_text(
            b.take(if b.len() < 12 {
                b.len() as int
            } else {
                12
            }),
        ) + ")"@,
    }
}

/// What an optional value holds.
pub open spec fn value_view(v: Option<Vec<u8>>) -> Option<Seq<u8>> {
    match v {
        Some(b) => Some(b@),
        None => None,
    }
}

/// Appends a short text for what a read gave.
pub fn push_described(r: &mut String, v: &Option<Vec<u8>>)
    ensures
        final(r)@ == old(r)@ + described(value_view(*v)),
{
    let ghost start = r@;
    match v {
        None => {
            r.append("None");
        },
        Some(b) => {
            r.append("Some(");
            push_decimal(r, b.len() as u64);
            r.append(" bytes, prefix ");
            let n: usize = if b.len() < 12 {
                b.len()
            } else {
                12
            };
            let head: &[u8] = vstd::slice::slice_subrange(b.as_slice(), 0, n);
            assert(head@ =~= b@.take(n as int));
            push_bytes(r, head);
            r.append(")");
            assert(r@ =~= start + described(Some(b@)));
        },
    }
}

/// The first of the pairs from `i` on that the other list lacks or holds otherwise, as
/// a text.
pub open spec fn first_difference(
    a: Seq<(Seq<u8>, Seq<u8>)>,
    b: Seq<(Seq<u8>, Seq<u8>)>,
    i: int,
) -> Option<Seq<char>>
    decreases a.len() - i,
{
    if i < 0 || i >= a.len() {
        None
    } else {
        let j = position_of(b, a[i].0, b.len() as int);
        if j < 0 {
            Some("missing key "@ + bytes_text(a[i].0))
        } else if b[j].1 != a[i].1 {
            Some(
                "key "@ + bytes_text(a[i].0) + ": expected "@ + decimal(a[i].1.len())
                    + " bytes, got "@ + decimal(b[j].1.len()) + " bytes"@,
            )
        } else {
            first_difference(a, b, i + 1)
        }
    }
}

/// The last of the first `n` pairs with a key, a negative number for none.
pub open spec fn position_of(s: Seq<(Seq<u8>, Seq<u8>)>, key: Seq<u8>, n: int) -> int
    decreases n,
{
    if n <= 0 {
        -1
    } else if s[n - 1].0 == key {
        n - 1
    } else {
        position_of(s, key, n - 1)
    }
}

/// How two key spaces differ, as a text.
pub open spec fn difference(a: Seq<(Seq<u8>, Seq<u8>)>, b: Seq<(Seq<u8>, Seq<u8>)>) -> Seq<char> {
    if a.len() != b.len() {
        "key count: expected "@ + decimal(a.len()) + ", got "@ + decimal(b.len())
    } else {
        match first_difference(a, b, 0) {
            Some(t) => t,
            None => "unknown diff"@,
        }
    }
}

fn find_key(s: &Vec<(Vec<u8>, Vec<u8>)>, key: &[u8]) -> (r: Option<usize>)
    ensures
        match r {
            Some(j) => j < s@.len() && position_of(pair_views(s@), key@, s@.len() as int) == j,
            None => position_of(pair_views(s@), key@, s@.len() as int) < 0,
        },
{
    let ghost p = pair_views(s@);
    let mut n: usize = s.len();
    while n > 0
        invariant
            n <= s@.len(),
            p == pair_views(s@),
            position_of(p, key@, s@.len() as int) == position_of(p, key@, n as int),
        decreases n,
    {
        assert(p[n - 1] == (s@[n - 1].0@, s@[n - 1].1@));
        if bytes_eq(s[n - 1].0.as_slice(), key) {
            return Some(n - 1);
        }
        n = n - 1;
    }
    None
}

/// How two key spaces differ, as a text: of the expected pairs the first that is
/// missing or holds another value. With as many distinct keys on both sides, none can
/// be unexpected that is not another's lack.
pub fn diff_summary(expected: &Vec<(Vec<u8>, Vec<u8>)>, got: &Vec<(Vec<u8>, Vec<u8>)>) -> (r: String)
    ensures
        r@ == difference(pair_views(expected@), pair_views(got@)),
{
    let ghost a = pair_views(expected@);
    let ghost b = pair_views(got@);
    if expected.len() != got.len() {
        let mut r: String = text_of("key count: expected ");
        push_decimal(&mut r, expected.len() as u64);
        r.append(", got ");
        push_decimal(&mut r, got.len() as u64);
        return r;
    }
    let mut i: usize = 0;
    while i < expected.len()
        invariant
            i <= expected@.len(),
            a == pair_views(expected@),
            b == pair_views(got@),
            a.len() == b.len(),
            first_difference(a, b, 0) == first_difference(a, b, i as int),
        decreases expected.len() - i,
    {
        let key: &Vec<u8> = &expected[i].0;
        let value: &Vec<u8> = &expected[i].1;
        assert(a[i as int] == (key@, value@));
        match find_key(got, key.as_slice()) {
            None => {
                let mut r: String = text_of("missing key ");
                push_bytes(&mut r, key.as_slice());
                return r;
            },
            Some(j) => {
                assert(b[j as int] == (got@[j as int].0@, got@[j as int].1@));
                if !bytes_eq(got[j].1.as_slice(), value.as_slice()) {
                    let mut r: String = text_of("key ");
                    push_bytes(&mut r, key.as_slice());
                    r.append(": expected ");
                    push_decimal(&mut r, value.len() as u64);
                    r.append(" bytes, got ");
                    push_decimal(&mut r, got[j].1.len() as u64);
                    r.append(" bytes");
                    return r;
                }
            },
        }
        i = i + 1;
    }
    text_of("unknown diff")
}

/// The line that tells of a divergence from the model.
pub fn divergence_line(seed: u64, step: u64, op: &str, detail: &str) -> (r: String)
    ensures
        r@ == "{"@ + fields_text(
            seq![
                ("kind"@, "\""@ + escaped("divergence"@) + "\""@),
                ("seed"@, decimal(seed as nat)),
                ("step"@, decimal(step as nat)),
                ("op"@, "\""@ + escaped(op@) + "\""@),
                ("detail"@, "\""@ + escaped(detail@) + "\""@),
            ],
            5,
        ) + "}"@,
{
    let mut fields: Vec<(String, String)> = Vec::new();
    fields.push(text_field("kind", "divergence"));
    fields.push(number_field("seed", seed));
    fields.push(number_field("step", step));
    fields.push(text_field("op", op));
    fields.push(text_field("detail", detail));
    proof {
        assert(field_views(fields@) =~= seq![
            ("kind"@, "\""@ + escaped("divergence"@) + "\""@),
            ("seed"@, decimal(seed as nat)),
            ("step"@, decimal(step as nat)),
            ("op"@, "\""@ + escaped(op@) + "\""@),
            ("detail"@, "\""@ + escaped(detail@) + "\""@),
        ]);
    }
    json_object(&fields)
}

} // verus!
