use vstd::prelude::*;
use crate::json::{Json, Property};
use crate::number::{int_text, format_i128};
use crate::text::{push_char, push_text};

verus! {

pub open spec fn hex_digit(n: int) -> char {
    if n < 10 {
        ((n + 48) as u32) as char
    } else {
        ((n + 87) as u32) as char
    }
}

/// How one character is written inside a JSON string: control characters,
/// quote, backslash and DEL are escaped, everything else stands as it is.
pub open spec fn escape_char(c: char) -> Seq<char> {
    if c == '"' {
        seq!['\\', '"']
    } else if c == '\\' {
        seq!['\\', '\\']
    } else if c == '\u{8}' {
        seq!['\\', 'b']
    } else if c == '\t' {
        seq!['\\', 't']
    } else if c == '\n' {
        seq!['\\', 'n']
    } else if c == '\u{c}' {
        seq!['\\', 'f']
    } else if c == '\r' {
        seq!['\\', 'r']
    } else if (c as u32) < 0x20 || (c as u32) == 0x7f {
        seq!['\\', 'u', '0', '0', hex_digit((c as u32) as int / 16), hex_digit((c as u32) as int % 16)]
    } else {
        seq![c]
    }
}

pub open spec fn escaped(s: Seq<char>) -> Seq<char>
    decreases s.len(),
{
    if s.len() == 0 {
        seq![]
    } else {
        escaped(s.drop_last()) + escape_char(s.last())
    }
}

/// A string literal: the escaped text between double quotes.
pub open spec fn quoted(s: Seq<char>) -> Seq<char> {
    seq!['"'] + escaped(s) + seq!['"']
}

/// Canonical JSON text of a value.
pub open spec fn render(j: Json) -> Seq<char>
    decreases j, 0int,
{
    match j {
        Json::Null => "null"@,
        Json::Bool(b) => if b { "true"@ } else { "false"@ },
        Json::Integer(x) => match x.val {
            Some(v) => int_text(v as int),
            None => x.txt@,
        },
        Json::Float(x) => x.txt@,
        Json::String(s) => quoted(s@),
        Json::Array(v) => seq!['['] + render_items(v@, 0) + seq![']'],
        Json::Object(ps) => seq!['{'] + render_props(ps@, 0) + seq!['}'],
        Json::Error(m) => "error: "@ + m@,
    }
}

/// The elements from index `i` on, separated by commas.
pub open spec fn render_items(v: Seq<Json>, i: int) -> Seq<char>
    decreases v, v.len() - i,
{
    if i < 0 || i >= v.len() {
        seq![]
    } else if i + 1 == v.len() {
        render(v[i])
    } else {
        render(v[i]) + seq![','] + render_items(v, i + 1)
    }
}

/// The members from index `i` on, each `key:value`, separated by commas.
pub open spec fn render_props(ps: Seq<Property>, i: int) -> Seq<char>
    decreases ps, ps.len() - i,
{
    if i < 0 || i >= ps.len() {
        seq![]
    } else if i + 1 == ps.len() {
        quoted(ps[i].key@) + seq![':'] + render(ps[i].value)
    } else {
        quoted(ps[i].key@) + seq![':'] + render(ps[i].value) + seq![','] + render_props(ps, i + 1)
    }
}

fn hex_char(n: u32) -> (r: char)
    requires
        n < 16,
    ensures
        r == hex_digit(n as int),
{
    if n < 10 {
        ((n + 48) as u8) as char
    } else {
        ((n + 87) as u8) as char
    }
}

fn push_escaped_char(out: &mut String, c: char)
    ensures
        final(out)@ == old(out)@ + escape_char(c),
{
    let ghost start = out@;
    if c == '"' {
        push_char(out, '\\');
        push_char(out, '"');
    } else if c == '\\' {
        push_char(out, '\\');
        push_char(out, '\\');
    } else if c == '\u{8}' {
        push_char(out, '\\');
        push_char(out, 'b');
    } else if c == '\t' {
        push_char(out, '\\');
        push_char(out, 't');
    } else if c == '\n' {
        push_char(out, '\\');
        push_char(out, 'n');
    } else if c == '\u{c}' {
        push_char(out, '\\');
        push_char(out, 'f');
    } else if c == '\r' {
        push_char(out, '\\');
        push_char(out, 'r');
    } else if (c as u32) < 0x20 || (c as u32) == 0x7f {
        push_char(out, '\\');
        push_char(out, 'u');
        push_char(out, '0');
        push_char(out, '0');
        push_char(out, hex_char((c as u32) / 16));
        push_char(out, hex_char((c as u32) % 16));
    } else {
        push_char(out, c);
    }
    assert(out@ =~= start + escape_char(c));
}

/// Writes `val` as a JSON string literal.
pub fn encode_string(out: &mut String, val: &str)
    ensures
        final(out)@ == old(out)@ + quoted(val@),
{
    let ghost start = out@;
    push_char(out, '"');
    let n = val.unicode_len();
    let mut i: usize = 0;
    while i < n
        invariant
            n == val@.len(),
            i <= n,
            out@ == start + seq!['"'] + escaped(val@.take(i as int)),
        decreases n - i,
    {
        let c = val.get_char(i);
        let ghost before = out@;
        push_escaped_char(out, c);
        assert(val@.take(i + 1).drop_last() =~= val@.take(i as int));
        assert(out@ =~= start + seq!['"'] + escaped(val@.take(i + 1)));
        i = i + 1;
    }
    assert(val@.take(n as int) =~= val@);
    push_char(out, '"');
    assert(out@ =~= old(out)@ + quoted(val@));
}

/// Writes the canonical JSON text of a value.
pub fn write_json(out: &mut String, j: &Json)
    ensures
        final(out)@ == old(out)@ + render(*j),
    decreases *j,
{
    let ghost start = out@;
    match j {
        Json::Null => push_text(out, "null"),
        Json::Bool(b) => if *b {
            push_text(out, "true")
        } else {
            push_text(out, "false")
        },
        Json::Integer(x) => match x.val {
            Some(v) => {
                let t = format_i128(v);
                push_text(out, t.as_str());
            },
            None => push_text(out, x.txt.as_str()),
        },
        Json::Float(x) => push_text(out, x.txt.as_str()),
        Json::String(s) => encode_string(out, s.as_str()),
        Json::Array(v) => {
            push_char(out, '[');
            let n = v.len();
            let mut i: usize = 0;
            while i < n
                invariant
                    *j is Array,
                    (*j)->Array_0 == *v,
                    n == v@.len(),
                    i <= n,
                    out@ + render_items(v@, i as int) == start + seq!['['] + render_items(v@, 0),
                decreases n - i,
            {
                let ghost before = out@;
                assert(decreases_to!(*j => v@[i as int]));
                write_json(out, &v[i]);
                if i + 1 < n {
                    push_char(out, ',');
                }
                assert(out@ + render_items(v@, i + 1) =~= before + render_items(v@, i as int));
                i = i + 1;
            }
            push_char(out, ']');
            assert(out@ =~= start + render(*j));
        },
        Json::Object(ps) => {
            push_char(out, '{');
            let n = ps.len();
            let mut i: usize = 0;
            while i < n
                invariant
                    *j is Object,
                    (*j)->Object_0 == *ps,
                    n == ps@.len(),
                    i <= n,
                    out@ + render_props(ps@, i as int) == start + seq!['{'] + render_props(ps@, 0),
                decreases n - i,
            {
                let ghost before = out@;
                encode_string(out, ps[i].key.as_str());
                push_char(out, ':');
                assert(decreases_to!(*j => ps@[i as int].value));
                write_json(out, &ps[i].value);
                if i + 1 < n {
                    push_char(out, ',');
                }
                assert(out@ + render_props(ps@, i + 1) =~= before + render_props(ps@, i as int));
                i = i + 1;
            }
            push_char(out, '}');
            assert(out@ =~= start + render(*j));
        },
        Json::Error(m) => {
            push_text(out, "error: ");
            push_text(out, m.as_str());
        },
    }
    proof {
        reveal_strlit("null");
        reveal_strlit("true");
        reveal_strlit("false");
        reveal_strlit("error: ");
    }
    assert(out@ =~= start + render(*j));
}

impl Json {
    /// The canonical JSON text of the value; an error value renders as
    /// `error: <message>`, which is not JSON.
    pub fn to_string(&self) -> (r: String)
        ensures
            r@ == render(*self),
    {
        let mut out = String::new();
        write_json(&mut out, self);
        assert(out@ =~= render(*self));
        out
    }
}

} // verus!
