//! The JSON values that hook payloads and state files carry, read with
//! JavaScript's conversions: truthiness and `String(value)`.
use vstd::prelude::*;
use crate::keyed::lookup;
use crate::text::{push_char, push_str};

verus! {

/// A JSON number, held by what the logic reads of it: the text JavaScript's
/// `String(n)` gives, whether it is truthy (non-zero and not NaN), and its
/// value when it is a non-negative integer that fits in `u64`.
pub struct JsonNumber {
    pub text: String,
    pub nonzero: bool,
    pub as_u64: Option<u64>,
}

/// A JSON value. Objects keep their entries in order; a key is looked up at
/// its first entry.
pub enum JsonValue {
    Null,
    Bool(bool),
    Number(JsonNumber),
    Str(String),
    Array(Vec<JsonValue>),
    Object(Vec<(String, JsonValue)>),
}

/// `v.get(key)`: the value under `key` when `v` is an object.
pub open spec fn json_get(v: JsonValue, key: Seq<char>) -> Option<JsonValue> {
    match v {
        JsonValue::Object(o) => lookup(o@, key),
        _ => None,
    }
}

/// JavaScript truthiness of an optional value: absent, null, false, 0 and ""
/// are falsy; arrays and objects are truthy.
pub open spec fn truthy_spec(v: Option<JsonValue>) -> bool {
    match v {
        None => false,
        Some(JsonValue::Null) => false,
        Some(JsonValue::Bool(b)) => b,
        Some(JsonValue::Number(n)) => n.nonzero,
        Some(JsonValue::Str(s)) => s@.len() > 0,
        Some(JsonValue::Array(_)) => true,
        Some(JsonValue::Object(_)) => true,
    }
}

/// JavaScript `String(v)`. Arrays join their elements with ',' and render
/// null elements as "".
pub open spec fn js_string(v: JsonValue) -> Seq<char>
    decreases v, 1nat,
{
    match v {
        JsonValue::Null => "null"@,
        JsonValue::Bool(b) => if b {
            "true"@
        } else {
            "false"@
        },
        JsonValue::Number(n) => n.text@,
        JsonValue::Str(s) => s@,
        JsonValue::Array(a) => js_join(a@),
        JsonValue::Object(_) => "[object Object]"@,
    }
}

/// `Array.prototype.join(',')` with null elements rendered as "".
pub open spec fn js_join(a: Seq<JsonValue>) -> Seq<char>
    decreases a, 0nat,
{
    if a.len() == 0 {
        Seq::<char>::empty()
    } else {
        let last = match a.last() {
            JsonValue::Null => Seq::<char>::empty(),
            x => js_string(x),
        };
        if a.len() == 1 {
            last
        } else {
            js_join(a.drop_last()) + seq![','] + last
        }
    }
}

/// The lowercase hexadecimal digit of `d < 16`.
pub open spec fn hex_char(d: nat) -> char {
    if d < 10 {
        crate::text::digit_char(d)
    } else if d == 10 {
        'a'
    } else if d == 11 {
        'b'
    } else if d == 12 {
        'c'
    } else if d == 13 {
        'd'
    } else if d == 14 {
        'e'
    } else {
        'f'
    }
}

/// How serde_json escapes one character inside a JSON string: `"` and `\`
/// with a backslash, \b \t \n \f \r by name, other control characters below
/// 0x20 as `\u00XX` with lowercase hex, everything else as itself.
pub open spec fn json_escape(c: char) -> Seq<char> {
    if c == '"' {
        seq!['\\', '"']
    } else if c == '\\' {
        seq!['\\', '\\']
    } else if c == '\u{8}' {
        seq!['\\', 'b']
    } else if c == '\t' {
        seq!['\\', 't']
    } else if c == '\n' {
        seq!['\\', 'n']
    } else if c == '\u{c}' {
        seq!['\\', 'f']
    } else if c == '\r' {
        seq!['\\', 'r']
    } else if (c as u32) < 0x20 {
        seq!['\\', 'u', '0', '0', hex_char((c as u32 / 16) as nat), hex_char((c as u32 % 16) as nat)]
    } else {
        seq![c]
    }
}

/// The escaped characters of a string, without quotes.
pub open spec fn json_escaped(s: Seq<char>) -> Seq<char>
    decreases s.len(),
{
    if s.len() == 0 {
        Seq::<char>::empty()
    } else {
        json_escaped(s.drop_last()) + json_escape(s.last())
    }
}

/// The JSON string literal serde_json writes for `s`.
pub open spec fn json_literal(s: Seq<char>) -> Seq<char> {
    seq!['"'] + json_escaped(s) + seq!['"']
}

/// The JSON string literal for `s`, as serde_json serialises a string value.
/// Wraps `serde_json::Value::to_string` on `Value::String`; its source
/// (`format_escaped_str` and the `ESCAPE` table in ser.rs) writes a quote,
/// each character escaped as `json_escape` says, and a closing quote.
#[verifier::external_body]
pub fn json_quote(s: &str) -> (r: String)
    ensures
        r@ == json_literal(s@),
{
    serde_json::Value::String(s.to_string()).to_string()
}

/// The value at the first entry of `o` whose key is `key`.
pub fn object_get<'a>(o: &'a Vec<(String, JsonValue)>, key: &str) -> (r: Option<&'a JsonValue>)
    ensures
        r is Some <==> lookup(o@, key@) is Some,
        r matches Some(x) ==> *x == lookup(o@, key@)->0,
{
    let mut i: usize = 0;
    assert(o@.skip(0) =~= o@);
    while i < o.len()
        invariant
            i <= o@.len(),
            lookup(o@, key@) == lookup(o@.skip(i as int), key@),
        decreases o.len() - i,
    {
        assert(o@.skip(i as int).drop_first() =~= o@.skip(i + 1));
        assert(o@.skip(i as int)[0] == o@[i as int]);
        if crate::text::str_eq(o[i].0.as_str(), key) {
            return Some(&o[i].1);
        }
        i = i + 1;
    }
    assert(o@.skip(i as int).len() == 0);
    None
}

impl JsonValue {
    /// `v.get(key)`.
    pub fn get(&self, key: &str) -> (r: Option<&JsonValue>)
        ensures
            r is Some <==> json_get(*self, key@) is Some,
            r matches Some(x) ==> *x == json_get(*self, key@)->0,
    {
        match self {
            JsonValue::Object(o) => object_get(o, key),
            _ => None,
        }
    }

    /// The string, when this is a string.
    pub fn as_str(&self) -> (r: Option<&str>)
        ensures
            r is Some <==> *self is Str,
            r matches Some(s) ==> s@ == (self->Str_0)@,
    {
        match self {
            JsonValue::Str(s) => Some(s.as_str()),
            _ => None,
        }
    }

    /// The integer, when this is a number that is a `u64`.
    pub fn as_u64(&self) -> (r: Option<u64>)
        ensures
            r == match *self {
                JsonValue::Number(n) => n.as_u64,
                _ => None,
            },
    {
        match self {
            JsonValue::Number(n) => n.as_u64,
            _ => None,
        }
    }

    /// Whether this is null.
    pub fn is_null(&self) -> (b: bool)
        ensures
            b == (*self is Null),
    {
        match self {
            JsonValue::Null => true,
            _ => false,
        }
    }

    /// Whether this is an object.
    pub fn is_object(&self) -> (b: bool)
        ensures
            b == (*self is Object),
    {
        match self {
            JsonValue::Object(_) => true,
            _ => false,
        }
    }

    /// Whether this is an array.
    pub fn is_array(&self) -> (b: bool)
        ensures
            b == (*self is Array),
    {
        match self {
            JsonValue::Array(_) => true,
            _ => false,
        }
    }
}

/// JavaScript truthiness of an optional JSON value.
pub fn truthy(v: Option<&JsonValue>) -> (b: bool)
    ensures
        b == truthy_spec(
            match v {
                Some(x) => Some(*x),
                None => None,
            },
        ),
{
    match v {
        None => false,
        Some(JsonValue::Null) => false,
        Some(JsonValue::Bool(b)) => *b,
        Some(JsonValue::Number(n)) => n.nonzero,
        Some(JsonValue::Str(s)) => !s.as_str().is_empty(),
        Some(_) => true,
    }
}

/// JavaScript `String(v)` of a JSON value.
pub fn js_to_string(v: &JsonValue) -> (r: String)
    ensures
        r@ == js_string(*v),
    decreases v,
{
    match v {
        JsonValue::Null => "null".to_owned(),
        JsonValue::Bool(b) => if *b {
            "true".to_owned()
        } else {
            "false".to_owned()
        },
        JsonValue::Number(n) => n.text.clone(),
        JsonValue::Str(s) => s.clone(),
        JsonValue::Object(_) => "[object Object]".to_owned(),
        JsonValue::Array(a) => {
            let mut out = String::new();
            let mut i: usize = 0;
            while i < a.len()
                invariant
                    i <= a@.len(),
                    *v == JsonValue::Array(*a),
                    out@ == js_join(a@.take(i as int)),
                decreases a.len() - i,
            {
                let ghost t = a@.take(i + 1);
                assert(t.drop_last() =~= a@.take(i as int));
                assert(t.last() == a@[i as int]);
                if i > 0 {
                    push_char(&mut out, ',');
                }
                match &a[i] {
                    JsonValue::Null => {},
                    x => {
                        proof {
                            assert(decreases_to!(*v => (*v)->Array_0));
                            assert(decreases_to!((*v)->Array_0 => ((*v)->Array_0)@));
                            assert(decreases_to!(a@ => a@[i as int]));
                            assert(decreases_to!(*v => a@[i as int]));
                        }
                        let s = js_to_string(x);
                        push_str(&mut out, s.as_str());
                    },
                }
                proof {
                    if i == 0 {
                        assert(a@.take(0).len() == 0);
                        assert(out@ =~= js_join(t));
                    } else {
                        assert(out@ =~= js_join(t));
                    }
                }
                i = i + 1;
            }
            assert(a@.take(a@.len() as int) =~= a@);
            out
        },
    }
}

} // verus!
