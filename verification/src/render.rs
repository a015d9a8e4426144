//! The writer: from a value to its compact JSON text.
use vstd::prelude::*;
use vstd::string::StringExecFns;
use crate::cursor::Cursor;
use crate::grammar::{control, document, number_literal};
use crate::parse::parse_number;
use crate::roundtrip::{lemma_normalized_well_formed, lemma_rendered_is_json};
use crate::text::to_chars;
use crate::value::{array_view, object_view, Json, Value};

verus! {

/// The lower-case hexadecimal digit for a value below sixteen.
pub open spec fn hex_char(d: int) -> char {
    if d < 10 {
        (0x30 + d) as char
    } else {
        (0x61 + d - 10) as char
    }
}

/// How one character of a string is written between the quotes: the quote,
/// the backslash and the control characters escaped, every other character
/// as it is.
pub open spec fn escaped_char(c: char) -> Seq<char> {
    if c == '\x08' {
        seq!['\\', 'b']
    } else if c == '\x0c' {
        seq!['\\', 'f']
    } else if c == '\n' {
        seq!['\\', 'n']
    } else if c == '\r' {
        seq!['\\', 'r']
    } else if c == '\t' {
        seq!['\\', 't']
    } else if c == '"' {
        seq!['\\', '"']
    } else if c == '\\' {
        seq!['\\', '\\']
    } else if control(c) {
        seq!['\\', 'u', '0', '0', hex_char(c as int / 16), hex_char(c as int % 16)]
    } else {
        seq![c]
    }
}

/// The characters of `s` from position `k` on, each written as
/// `escaped_char` says.
pub open spec fn escaped(s: Seq<char>, k: int) -> Seq<char>
    decreases s.len() - k,
{
    if 0 <= k < s.len() {
        escaped_char(s[k]) + escaped(s, k + 1)
    } else {
        Seq::empty()
    }
}

/// A string as a JSON string literal.
pub open spec fn quoted(s: Seq<char>) -> Seq<char> {
    seq!['"'] + escaped(s, 0) + seq!['"']
}

/// The compact JSON text of a document: no blank anywhere between tokens.
///
/// A number whose literal is no JSON number is written as `null`, so that
/// the text stays valid whatever the number holds.
pub open spec fn rendered(v: Json) -> Seq<char>
    decreases v, 0nat,
{
    match v {
        Json::Null => "null"@,
        Json::Bool(b) => if b {
            "true"@
        } else {
            "false"@
        },
        Json::Number(n) => if number_literal(n) {
            n
        } else {
            "null"@
        },
        Json::String(s) => quoted(s),
        Json::Object(members) => seq!['{'] + rendered_members(members, 0) + seq!['}'],
        Json::Array(items) => seq!['['] + rendered_items(items, 0) + seq![']'],
    }
}

/// The comma that stands behind every element but the last.
pub open spec fn separator(len: nat, k: int) -> Seq<char> {
    if k + 1 < len {
        seq![',']
    } else {
        Seq::empty()
    }
}

/// The elements of an array from position `k` on, with commas between them.
pub open spec fn rendered_items(items: Seq<Json>, k: int) -> Seq<char>
    decreases items, items.len() - k,
{
    if 0 <= k < items.len() {
        rendered(items[k]) + separator(items.len(), k) + rendered_items(items, k + 1)
    } else {
        Seq::empty()
    }
}

/// The members of an object from position `k` on, with commas between them.
pub open spec fn rendered_members(members: Seq<(Seq<char>, Json)>, k: int) -> Seq<char>
    decreases members, members.len() - k,
{
    if 0 <= k < members.len() {
        quoted(members[k].0) + seq![':'] + rendered(members[k].1) + separator(members.len(), k)
            + rendered_members(members, k + 1)
    } else {
        Seq::empty()
    }
}

/// Whether `text` is one JSON number and nothing else.
pub fn is_number(text: &str) -> (b: bool)
    ensures
        b == number_literal(text@),
{
    let chars = to_chars(text);
    let mut cursor = Cursor::new(chars.as_slice());
    match parse_number(&mut cursor) {
        Some(_) => cursor.offset() == chars.len(),
        None => false,
    }
}

/// The lower-case hexadecimal digit for `d`.
fn hex_of(d: u8) -> (c: char)
    requires
        d < 16,
    ensures
        c == hex_char(d as int),
{
    if d < 10 {
        (0x30 + d) as char
    } else {
        (0x61 + d - 10) as char
    }
}

/// Appends one character of a string the way it is written between quotes.
fn append_char(ch: char, out: &mut String)
    ensures
        final(out)@ == old(out)@ + escaped_char(ch),
{
    if ch == '\x08' {
        out.append("\\b");
    } else if ch == '\x0c' {
        out.append("\\f");
    } else if ch == '\n' {
        out.append("\\n");
    } else if ch == '\r' {
        out.append("\\r");
    } else if ch == '\t' {
        out.append("\\t");
    } else if ch == '"' {
        out.append("\\\"");
    } else if ch == '\\' {
        out.append("\\\\");
    } else if ch <= '\x19' {
        let code = ch as u8;
        out.append("\\u00");
        out.push(hex_of(code / 16));
        out.push(hex_of(code % 16));
    } else {
        out.push(ch);
    }
    proof {
        reveal_strlit("\\b");
        reveal_strlit("\\f");
        reveal_strlit("\\n");
        reveal_strlit("\\r");
        reveal_strlit("\\t");
        reveal_strlit("\\\"");
        reveal_strlit("\\\\");
        reveal_strlit("\\u00");
        assert(out@ =~= old(out)@ + escaped_char(ch));
    }
}

impl Value {
    /// Appends `s` to `out` as a JSON string literal.
    pub fn append_str(s: &str, out: &mut String)
        ensures
            final(out)@ == old(out)@ + quoted(s@),
    {
        out.push('"');
        for ch in it: s.chars()
            invariant
                it.seq() == s@,
                out@ + escaped(s@, it.index() as int) == old(out)@ + seq!['"'] + escaped(s@, 0),
        {
            let ghost before = out@;
            let ghost k = it.index() as int;
            append_char(ch, out);
            assert(out@ + escaped(s@, k + 1) =~= before + escaped(s@, k));
        }
        out.push('"');
        assert(out@ =~= old(out)@ + quoted(s@));
    }

    /// Appends the compact JSON text of this value to `out`.
    pub fn append(&self, out: &mut String)
        ensures
            final(out)@ == old(out)@ + rendered(self@),
        decreases self,
    {
        match self {
            Value::Null => {
                out.append("null");
            },
            Value::Bool(b) => {
                out.append(
                    if *b {
                        "true"
                    } else {
                        "false"
                    },
                );
            },
            Value::Number(n) => {
                if is_number(n.as_str()) {
                    out.append(n.as_str());
                } else {
                    out.append("null");
                }
            },
            Value::String(s) => {
                Self::append_str(s.as_str(), out);
            },
            Value::Object(o) => {
                out.push('{');
                let ghost members = object_view(o@);
                let mut i: usize = 0;
                while i < o.len()
                    invariant
                        i <= o.len(),
                        members == object_view(o@),
                        decreases_to!(self => o),
                        out@ + rendered_members(members, i as int) == old(out)@ + seq!['{']
                            + rendered_members(members, 0),
                    decreases o.len() - i,
                {
                    let ghost before = out@;
                    proof {
                        assert(decreases_to!(o => o[i as int]));
                    }
                    Self::append_str(o[i].0.as_str(), out);
                    out.push(':');
                    o[i].1.append(out);
                    if i + 1 < o.len() {
                        out.push(',');
                    }
                    proof {
                        assert(out@ =~= before + (quoted(members[i as int].0) + seq![':']
                            + rendered(members[i as int].1) + separator(
                            members.len(),
                            i as int,
                        )));
                        assert(out@ + rendered_members(members, i + 1) =~= before
                            + rendered_members(members, i as int));
                    }
                    i = i + 1;
                }
                out.push('}');
                assert(out@ =~= old(out)@ + rendered(self@));
            },
            Value::Array(a) => {
                out.push('[');
                let ghost items = array_view(a@);
                let mut i: usize = 0;
                while i < a.len()
                    invariant
                        i <= a.len(),
                        items == array_view(a@),
                        decreases_to!(self => a),
                        out@ + rendered_items(items, i as int) == old(out)@ + seq!['[']
                            + rendered_items(items, 0),
                    decreases a.len() - i,
                {
                    let ghost before = out@;
                    proof {
                        assert(decreases_to!(a => a[i as int]));
                    }
                    a[i].append(out);
                    if i + 1 < a.len() {
                        out.push(',');
                    }
                    proof {
                        assert(out@ =~= before + (rendered(items[i as int]) + separator(
                            items.len(),
                            i as int,
                        )));
                        assert(out@ + rendered_items(items, i + 1) =~= before + rendered_items(
                            items,
                            i as int,
                        ));
                    }
                    i = i + 1;
                }
                out.push(']');
                assert(out@ =~= old(out)@ + rendered(self@));
            },
        }
    }

    /// The compact JSON text of this value.
    ///
    /// The text is always a JSON document: read back, it gives the normal
    /// form of this value, which for a well-formed value is the value itself.
    pub fn to_string(&self) -> (text: String)
        ensures
            text@ == rendered(self@),
            document(text@) == Some(self@.normalized()),
            self@.well_formed() ==> document(text@) == Some(self@),
    {
        let mut text = String::new();
        self.append(&mut text);
        proof {
            assert(text@ =~= rendered(self@));
            lemma_rendered_is_json(self@);
            if self@.well_formed() {
                lemma_normalized_well_formed(self@);
            }
        }
        text
    }
}

} // verus!
