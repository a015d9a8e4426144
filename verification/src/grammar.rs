//! What a JSON text means.
//!
//! Every function here takes a text and a position in it, and says what
//! stands at that position: a run of blanks, a number, a string literal, a
//! value. A function that recognises something returns what it found and the
//! position just behind it. The scanner is proved to compute exactly these
//! functions.
use vstd::prelude::*;
use crate::cursor::{digit, ws};
use crate::unicode::{lead_surrogate, surrogate_code_point, trail_surrogate, REPLACEMENT};
use crate::value::Json;

verus! {

/// The first position from `i` on that holds no white space.
pub open spec fn skip_ws(s: Seq<char>, i: int) -> int
    decreases s.len() - i,
{
    if 0 <= i < s.len() && ws(s[i]) {
        skip_ws(s, i + 1)
    } else {
        i
    }
}

/// The first position from `i` on that holds no digit.
pub open spec fn skip_digits(s: Seq<char>, i: int) -> int
    decreases s.len() - i,
{
    if 0 <= i < s.len() && digit(s[i]) {
        skip_digits(s, i + 1)
    } else {
        i
    }
}

/// A run of blanks ends at or behind its start, within the text, on a
/// character that is no blank; all before it are blanks.
pub proof fn lemma_skip_ws(s: Seq<char>, i: int)
    requires
        0 <= i <= s.len(),
    ensures
        i <= skip_ws(s, i) <= s.len(),
        skip_ws(s, i) < s.len() ==> !ws(s[skip_ws(s, i)]),
        forall|j: int| i <= j < skip_ws(s, i) ==> ws(#[trigger] s[j]),
    decreases s.len() - i,
{
    if i < s.len() && ws(s[i]) {
        lemma_skip_ws(s, i + 1);
    }
}

/// A run of digits ends at or behind its start, within the text, on a
/// character that is no digit; all before it are digits.
pub proof fn lemma_skip_digits(s: Seq<char>, i: int)
    requires
        0 <= i <= s.len(),
    ensures
        i <= skip_digits(s, i) <= s.len(),
        skip_digits(s, i) < s.len() ==> !digit(s[skip_digits(s, i)]),
        forall|j: int| i <= j < skip_digits(s, i) ==> digit(#[trigger] s[j]),
    decreases s.len() - i,
{
    if i < s.len() && digit(s[i]) {
        lemma_skip_digits(s, i + 1);
    }
}

/// A run of blanks that ends at `j` is the run that `skip_ws` finds.
pub proof fn lemma_ws_run(s: Seq<char>, i: int, j: int)
    requires
        0 <= i <= j <= s.len(),
        forall|k: int| i <= k < j ==> ws(#[trigger] s[k]),
        j < s.len() ==> !ws(s[j]),
    ensures
        skip_ws(s, i) == j,
    decreases j - i,
{
    if i < j {
        lemma_ws_run(s, i + 1, j);
    }
}

/// A run of digits that ends at `j` is the run that `skip_digits` finds.
pub proof fn lemma_digit_run(s: Seq<char>, i: int, j: int)
    requires
        0 <= i <= j <= s.len(),
        forall|k: int| i <= k < j ==> digit(#[trigger] s[k]),
        j < s.len() ==> !digit(s[j]),
    ensures
        skip_digits(s, i) == j,
    decreases j - i,
{
    if i < j {
        lemma_digit_run(s, i + 1, j);
    }
}

/// The end of the integer part at `i`: a single `0`, or a digit from `1` to
/// `9` and the digits that follow it.
pub open spec fn integer_end(s: Seq<char>, i: int) -> Option<int> {
    if !(0 <= i < s.len()) {
        None
    } else if s[i] == '0' {
        Some(i + 1)
    } else if digit(s[i]) {
        Some(skip_digits(s, i))
    } else {
        None
    }
}

/// The end of the fraction at `i`, a point and at least one digit; `i` itself
/// where no complete fraction stands there.
pub open spec fn fraction_end(s: Seq<char>, i: int) -> int {
    if 0 <= i && i + 1 < s.len() && s[i] == '.' && digit(s[i + 1]) {
        skip_digits(s, i + 2)
    } else {
        i
    }
}

/// The end of the exponent at `i`, the letter `e` or `E`, an optional sign
/// and at least one digit; `i` itself where no complete exponent stands there.
pub open spec fn exponent_end(s: Seq<char>, i: int) -> int {
    if 0 <= i < s.len() && (s[i] == 'e' || s[i] == 'E') {
        let j = if i + 1 < s.len() && (s[i + 1] == '+' || s[i + 1] == '-') {
            i + 2
        } else {
            i + 1
        };
        if j < s.len() && digit(s[j]) {
            skip_digits(s, j + 1)
        } else {
            i
        }
    } else {
        i
    }
}

/// The end of the number at `i`: an optional minus sign, an integer part, and
/// as much of a fraction and an exponent as is complete.
pub open spec fn number_end(s: Seq<char>, i: int) -> Option<int> {
    if !(0 <= i < s.len()) {
        None
    } else {
        let j = if s[i] == '-' {
            i + 1
        } else {
            i
        };
        match integer_end(s, j) {
            Some(k) => Some(exponent_end(s, fraction_end(s, k))),
            None => None,
        }
    }
}

/// A number ends behind its start and within the text.
pub proof fn lemma_number_end(s: Seq<char>, i: int)
    ensures
        number_end(s, i) matches Some(end) ==> 0 <= i < end <= s.len(),
{
    if let Some(end) = number_end(s, i) {
        let j = if s[i] == '-' {
            i + 1
        } else {
            i
        };
        let k = integer_end(s, j)->0;
        lemma_skip_digits(s, j);
        let f = fraction_end(s, k);
        if f != k {
            lemma_skip_digits(s, k + 2);
        }
        if exponent_end(s, f) != f {
            let m = if f + 1 < s.len() && (s[f + 1] == '+' || s[f + 1] == '-') {
                f + 2
            } else {
                f + 1
            };
            lemma_skip_digits(s, m + 1);
        }
    }
}

/// A text that is one number and nothing else.
pub open spec fn number_literal(t: Seq<char>) -> bool {
    number_end(t, 0) == Some(t.len() as int)
}

/// Whether a number that ends just before `k` could not have gone on: the
/// text ends there, or the character at `k` is no digit, point or exponent
/// letter.
pub open spec fn ends_number(s: Seq<char>, k: int) -> bool {
    !(0 <= k < s.len()) || !(digit(s[k]) || s[k] == '.' || s[k] == 'e' || s[k] == 'E')
}

/// Whether the fixed word `kw` stands at `i`.
pub open spec fn keyword_at(s: Seq<char>, i: int, kw: Seq<char>) -> bool {
    0 <= i && i + kw.len() <= s.len() && s.subrange(i, i + kw.len()) == kw
}

/// The value of a hexadecimal digit, in either case.
pub open spec fn hex_digit(c: char) -> Option<int> {
    if '0' <= c <= '9' {
        Some(c as int - 0x30)
    } else if 'a' <= c <= 'f' {
        Some(c as int - 0x61 + 10)
    } else if 'A' <= c <= 'F' {
        Some(c as int - 0x41 + 10)
    } else {
        None
    }
}

/// The code unit that the four hexadecimal digits at `i` spell.
pub open spec fn four_hex(s: Seq<char>, i: int) -> Option<u16> {
    if 0 <= i && i + 4 <= s.len() && hex_digit(s[i]) is Some && hex_digit(s[i + 1]) is Some
        && hex_digit(s[i + 2]) is Some && hex_digit(s[i + 3]) is Some {
        Some(
            (((hex_digit(s[i])->0 * 16 + hex_digit(s[i + 1])->0) * 16 + hex_digit(s[i + 2])->0)
                * 16 + hex_digit(s[i + 3])->0) as u16,
        )
    } else {
        None
    }
}

/// The character that a backslash and `e` stand for, for the escapes of one
/// letter.
pub open spec fn escape_char(e: char) -> Option<char> {
    if e == '"' || e == '\\' || e == '/' {
        Some(e)
    } else if e == 'b' {
        Some('\x08')
    } else if e == 'f' {
        Some('\x0c')
    } else if e == 'n' {
        Some('\n')
    } else if e == 'r' {
        Some('\r')
    } else if e == 't' {
        Some('\t')
    } else {
        None
    }
}

/// A character that may not stand unescaped in a string literal.
pub open spec fn control(c: char) -> bool {
    c <= '\x19'
}

/// What a lead surrogate that found no partner leaves in the text: one
/// replacement character.
pub open spec fn flushed(pending: Option<u16>) -> Seq<char> {
    if pending is Some {
        seq![REPLACEMENT]
    } else {
        Seq::empty()
    }
}

/// What the code unit `cu` of a `\u` escape adds to the text, given the lead
/// surrogate that may be waiting, and the lead surrogate that waits after it.
pub open spec fn unit_step(pending: Option<u16>, cu: u16) -> (Seq<char>, Option<u16>) {
    if lead_surrogate(cu) {
        (flushed(pending), Some(cu))
    } else if trail_surrogate(cu) {
        match pending {
            Some(lead) => (seq![surrogate_code_point(lead, cu) as char], None),
            None => (seq![REPLACEMENT], None),
        }
    } else {
        (flushed(pending).push(cu as char), None)
    }
}

/// Puts `head` before the text of `tail`, if there is one.
pub open spec fn prefixed<T>(head: Seq<T>, tail: Option<(Seq<T>, int)>) -> Option<(Seq<T>, int)> {
    match tail {
        Some((rest, end)) => Some((head + rest, end)),
        None => None,
    }
}

/// Putting a text before a prefixed text is prefixing with both.
pub proof fn lemma_prefixed_twice<T>(a: Seq<T>, b: Seq<T>, tail: Option<(Seq<T>, int)>)
    ensures
        prefixed(a, prefixed(b, tail)) == prefixed(a + b, tail),
{
    if let Some((rest, end)) = tail {
        assert(a + (b + rest) =~= (a + b) + rest);
    }
}

/// The rest of a string literal from `i` on, inside the quotes: the text it
/// stands for and the position behind the closing quote. `pending` is the
/// lead surrogate that the escape just before `i` left waiting.
pub open spec fn string_body(s: Seq<char>, i: int, pending: Option<u16>) -> Option<
    (Seq<char>, int),
>
    decreases s.len() - i,
{
    if !(0 <= i < s.len()) {
        None
    } else if s[i] == '"' {
        Some((flushed(pending), i + 1))
    } else if s[i] == '\\' {
        if i + 1 >= s.len() {
            None
        } else if s[i + 1] == 'u' {
            match four_hex(s, i + 2) {
                Some(cu) => prefixed(
                    unit_step(pending, cu).0,
                    string_body(s, i + 6, unit_step(pending, cu).1),
                ),
                None => None,
            }
        } else {
            match escape_char(s[i + 1]) {
                Some(c) => prefixed(flushed(pending).push(c), string_body(s, i + 2, None)),
                None => None,
            }
        }
    } else if control(s[i]) {
        None
    } else {
        prefixed(flushed(pending).push(s[i]), string_body(s, i + 1, None))
    }
}

/// The string literal at `i`: the text it stands for and the position behind
/// its closing quote.
pub open spec fn string_at(s: Seq<char>, i: int) -> Option<(Seq<char>, int)> {
    if 0 <= i < s.len() && s[i] == '"' {
        string_body(s, i + 1, None)
    } else {
        None
    }
}

/// A string literal ends behind its start and within the text.
pub proof fn lemma_string_body_end(s: Seq<char>, i: int, pending: Option<u16>)
    ensures
        string_body(s, i, pending) matches Some((_, end)) ==> i < end <= s.len(),
    decreases s.len() - i,
{
    if 0 <= i < s.len() && s[i] != '"' {
        if s[i] == '\\' {
            if i + 1 < s.len() {
                if s[i + 1] == 'u' {
                    if let Some(cu) = four_hex(s, i + 2) {
                        lemma_string_body_end(s, i + 6, unit_step(pending, cu).1);
                    }
                } else {
                    lemma_string_body_end(s, i + 2, None);
                }
            }
        } else {
            lemma_string_body_end(s, i + 1, None);
        }
    }
}

/// The position of the first member from `i` on whose key is `key`, or the
/// number of members where there is none.
pub open spec fn key_index(entries: Seq<(Seq<char>, Json)>, key: Seq<char>, i: int) -> int
    decreases entries.len() - i,
{
    if 0 <= i < entries.len() && entries[i].0 != key {
        key_index(entries, key, i + 1)
    } else {
        i
    }
}

/// The members after `key` has been given the value `val`: a member with
/// that key keeps its place and takes the new value; a new key goes to the end.
pub open spec fn inserted(entries: Seq<(Seq<char>, Json)>, key: Seq<char>, val: Json) -> Seq<
    (Seq<char>, Json),
> {
    let at = key_index(entries, key, 0);
    if 0 <= at < entries.len() {
        entries.update(at, (key, val))
    } else {
        entries.push((key, val))
    }
}

/// The members of an object whose text lists `raw`, in that order: of two
/// members with one key the later one decides the value.
pub open spec fn collected(raw: Seq<(Seq<char>, Json)>) -> Seq<(Seq<char>, Json)>
    decreases raw.len(),
{
    if raw.len() == 0 {
        Seq::empty()
    } else {
        inserted(collected(raw.drop_last()), raw.last().0, raw.last().1)
    }
}

/// The value at `i` and the position behind it.
pub open spec fn value_at(s: Seq<char>, i: int) -> Option<(Json, int)>
    decreases s.len() - i, 1nat,
{
    if !(0 <= i < s.len()) {
        None
    } else if s[i] == '{' {
        match object_at(s, i) {
            Some((members, end)) => Some((Json::Object(members), end)),
            None => None,
        }
    } else if s[i] == '[' {
        match array_at(s, i) {
            Some((items, end)) => Some((Json::Array(items), end)),
            None => None,
        }
    } else if s[i] == '"' {
        match string_at(s, i) {
            Some((text, end)) => Some((Json::String(text), end)),
            None => None,
        }
    } else if s[i] == '-' || digit(s[i]) {
        match number_end(s, i) {
            Some(end) => Some((Json::Number(s.subrange(i, end)), end)),
            None => None,
        }
    } else if s[i] == 'f' {
        if keyword_at(s, i, "false"@) {
            Some((Json::Bool(false), i + 5))
        } else {
            None
        }
    } else if s[i] == 'n' {
        if keyword_at(s, i, "null"@) {
            Some((Json::Null, i + 4))
        } else {
            None
        }
    } else if s[i] == 't' {
        if keyword_at(s, i, "true"@) {
            Some((Json::Bool(true), i + 4))
        } else {
            None
        }
    } else {
        None
    }
}

/// The array at `i`, from its opening bracket: its elements and the position
/// behind its closing bracket.
pub open spec fn array_at(s: Seq<char>, i: int) -> Option<(Seq<Json>, int)>
    decreases s.len() - i, 0nat,
{
    if 0 <= i < s.len() && s[i] == '[' {
        let j = skip_ws(s, i + 1);
        if j < s.len() && s[j] == ']' {
            Some((Seq::empty(), j + 1))
        } else {
            proof {
                lemma_skip_ws(s, i + 1);
            }
            elements_at(s, j)
        }
    } else {
        None
    }
}

/// The object at `i`, from its opening brace: its members and the position
/// behind its closing brace.
pub open spec fn object_at(s: Seq<char>, i: int) -> Option<(Seq<(Seq<char>, Json)>, int)>
    decreases s.len() - i, 0nat,
{
    if 0 <= i < s.len() && s[i] == '{' {
        let j = skip_ws(s, i + 1);
        if j < s.len() && s[j] == '}' {
            Some((Seq::empty(), j + 1))
        } else {
            proof {
                lemma_skip_ws(s, i + 1);
            }
            match members_at(s, j) {
                Some((raw, end)) => Some((collected(raw), end)),
                None => None,
            }
        }
    } else {
        None
    }
}

/// The elements of an array from `i` on, where a value must stand, up to the
/// closing bracket, and the position behind that bracket.
pub open spec fn elements_at(s: Seq<char>, i: int) -> Option<(Seq<Json>, int)>
    decreases s.len() - i, 2nat,
{
    match value_at(s, i) {
        Some((v, j)) => {
            if 0 <= i < j <= s.len() {
                proof {
                    lemma_skip_ws(s, j);
                }
                prefixed(seq![v], elements_tail(s, skip_ws(s, j)))
            } else {
                None
            }
        },
        None => None,
    }
}

/// What follows an element of an array: at `k` stands the closing bracket, or
/// a comma and then more elements.
pub open spec fn elements_tail(s: Seq<char>, k: int) -> Option<(Seq<Json>, int)>
    decreases s.len() - k, 0nat,
{
    if !(0 <= k < s.len()) {
        None
    } else if s[k] == ']' {
        Some((Seq::empty(), k + 1))
    } else if s[k] == ',' {
        proof {
            lemma_skip_ws(s, k + 1);
        }
        elements_at(s, skip_ws(s, k + 1))
    } else {
        None
    }
}

/// The member of an object at `i`: a string literal as its key, a colon, a
/// value, with blanks allowed round the colon.
pub open spec fn member_at(s: Seq<char>, i: int) -> Option<((Seq<char>, Json), int)>
    decreases s.len() - i, 2nat,
{
    match string_at(s, i) {
        Some((key, j)) => {
            let k = skip_ws(s, j);
            if 0 <= k < s.len() && s[k] == ':' {
                proof {
                    lemma_string_body_end(s, i + 1, None);
                    lemma_skip_ws(s, j);
                    lemma_skip_ws(s, k + 1);
                }
                match value_at(s, skip_ws(s, k + 1)) {
                    Some((v, end)) => Some(((key, v), end)),
                    None => None,
                }
            } else {
                None
            }
        },
        None => None,
    }
}

/// The members of an object from `i` on, where a member must stand, up to the
/// closing brace, as the text lists them, and the position behind that brace.
pub open spec fn members_at(s: Seq<char>, i: int) -> Option<(Seq<(Seq<char>, Json)>, int)>
    decreases s.len() - i, 3nat,
{
    match member_at(s, i) {
        Some((m, j)) => {
            if 0 <= i < j <= s.len() {
                proof {
                    lemma_skip_ws(s, j);
                }
                prefixed(seq![m], members_tail(s, skip_ws(s, j)))
            } else {
                None
            }
        },
        None => None,
    }
}

/// What follows a member of an object: at `k` stands the closing brace, or a
/// comma and then more members.
pub open spec fn members_tail(s: Seq<char>, k: int) -> Option<(Seq<(Seq<char>, Json)>, int)>
    decreases s.len() - k, 0nat,
{
    if !(0 <= k < s.len()) {
        None
    } else if s[k] == '}' {
        Some((Seq::empty(), k + 1))
    } else if s[k] == ',' {
        proof {
            lemma_skip_ws(s, k + 1);
        }
        members_at(s, skip_ws(s, k + 1))
    } else {
        None
    }
}

/// The document that a whole text holds: one value, with nothing but blanks
/// before and behind it.
pub open spec fn document(s: Seq<char>) -> Option<Json> {
    match value_at(s, skip_ws(s, 0)) {
        Some((v, end)) => {
            if skip_ws(s, end) == s.len() {
                Some(v)
            } else {
                None
            }
        },
        None => None,
    }
}

} // verus!
