//! The scanner: from a text to the value it holds.
use vstd::prelude::*;
use crate::cursor::{is_digit, is_ws, next_if, peek, skip_while, Cursor};
use crate::grammar::{
    array_at, collected, document, elements_tail, escape_char, exponent_end, flushed, four_hex,
    fraction_end, hex_digit, inserted, integer_end, key_index, keyword_at, lemma_number_end,
    lemma_digit_run, lemma_prefixed_twice, lemma_string_body_end, lemma_ws_run, member_at, members_at, members_tail, number_end,
    object_at, prefixed, skip_digits, skip_ws, string_at, string_body, unit_step, value_at,
};
use crate::render::rendered;
use crate::roundtrip::{lemma_document_well_formed, lemma_parse_then_render};
use crate::text::to_chars;
use crate::unicode::{compose_surrogates, is_lead_surrogate, lead_surrogate, REPLACEMENT};
use crate::value::{array_view, object_view, Json, Value};

verus! {

/// The value of a hexadecimal digit.
fn hex_value(c: char) -> (r: Option<u16>)
    ensures
        r is Some <==> hex_digit(c) is Some,
        r matches Some(v) ==> v == hex_digit(c)->0 && v < 16,
{
    if '0' <= c && c <= '9' {
        Some((c as u32 - 0x30) as u16)
    } else if 'a' <= c && c <= 'f' {
        Some((c as u32 - 0x61 + 10) as u16)
    } else if 'A' <= c && c <= 'F' {
        Some((c as u32 - 0x41 + 10) as u16)
    } else {
        None
    }
}

/// The character that a backslash and `e` stand for, for the escapes of one
/// letter.
fn unescape(e: char) -> (r: Option<char>)
    ensures
        r == escape_char(e),
{
    if e == '"' || e == '\\' || e == '/' {
        Some(e)
    } else if e == 'b' {
        Some('\x08')
    } else if e == 'f' {
        Some('\x0c')
    } else if e == 'n' {
        Some('\n')
    } else if e == 'r' {
        Some('\r')
    } else if e == 't' {
        Some('\t')
    } else {
        None
    }
}

/// Reads the four hexadecimal digits of a `\u` escape.
pub fn parse_four_hex(chars: &mut Cursor) -> (r: Option<u16>)
    ensures
        final(chars).text() == old(chars).text(),
        0 <= old(chars).pos() <= final(chars).pos() <= old(chars).text().len(),
        r == four_hex(old(chars).text(), old(chars).pos()),
        r is Some ==> final(chars).pos() == old(chars).pos() + 4,
{
    let c0 = chars.next()?;
    let c1 = chars.next()?;
    let c2 = chars.next()?;
    let c3 = chars.next()?;
    let h0 = hex_value(c0)?;
    let h1 = hex_value(c1)?;
    let h2 = hex_value(c2)?;
    let h3 = hex_value(c3)?;
    Some(((h0 * 16 + h1) * 16 + h2) * 16 + h3)
}

/// Writes out the replacement character for a lead surrogate that is still
/// waiting, if there is one.
fn flush_pending(out: &mut String, pending: &mut Option<u16>)
    ensures
        final(out)@ == old(out)@ + flushed(*old(pending)),
        *final(pending) is None,
{
    if pending.is_some() {
        out.push(REPLACEMENT);
        *pending = None;
    }
    assert(out@ =~= old(out)@ + flushed(*old(pending)));
}

/// Appends one character, after the replacement for a waiting lead surrogate.
fn push_char(out: &mut String, pending: &mut Option<u16>, ch: char)
    ensures
        final(out)@ == old(out)@ + flushed(*old(pending)).push(ch),
        *final(pending) is None,
{
    flush_pending(out, pending);
    out.push(ch);
    assert(out@ =~= old(out)@ + flushed(*old(pending)).push(ch));
}

/// Reads a string literal and decodes its escapes.
pub fn parse_string(chars: &mut Cursor) -> (r: Option<String>)
    ensures
        final(chars).text() == old(chars).text(),
        0 <= old(chars).pos() <= final(chars).pos() <= old(chars).text().len(),
        match string_at(old(chars).text(), old(chars).pos()) {
            Some((text, end)) => r matches Some(out) && out@ == text && final(chars).pos() == end,
            None => r is None,
        },
{
    let ghost s = chars.text();
    let ghost start = chars.pos();
    if chars.next()? != '"' {
        return None;
    }
    let mut out = String::new();
    let mut pending: Option<u16> = None;
    proof {
        if let Some((rest, end)) = string_body(s, start + 1, None) {
            assert(out@ + rest =~= rest);
        }
    }
    loop
        invariant
            chars.text() == s,
            s == old(chars).text(),
            start == old(chars).pos(),
            0 <= start < chars.pos() <= s.len(),
            s[start] == '"',
            pending matches Some(lead) ==> lead_surrogate(lead),
            string_body(s, start + 1, None) == prefixed(
                out@,
                string_body(s, chars.pos(), pending),
            ),
        decreases s.len() - chars.pos(),
    {
        let ghost here = chars.pos();
        let ghost before = out@;
        let ghost waiting = pending;
        match chars.next()? {
            '"' => {
                flush_pending(&mut out, &mut pending);
                return Some(out);
            },
            '\\' => {
                let e = chars.next()?;
                if e == 'u' {
                    let cu = parse_four_hex(chars)?;
                    if let Some(ch) = char::from_u32(cu as u32) {
                        push_char(&mut out, &mut pending, ch);
                    } else if is_lead_surrogate(cu) {
                        flush_pending(&mut out, &mut pending);
                        pending = Some(cu);
                    } else {
                        if let Some(lcu) = pending {
                            out.push(compose_surrogates(lcu, cu));
                            pending = None;
                        } else {
                            out.push(REPLACEMENT);
                        }
                    }
                    proof {
                        assert(out@ =~= before + unit_step(waiting, cu).0);
                        assert(pending == unit_step(waiting, cu).1);
                        lemma_prefixed_twice(
                            before,
                            unit_step(waiting, cu).0,
                            string_body(s, here + 6, pending),
                        );
                    }
                } else {
                    let ch = unescape(e)?;
                    push_char(&mut out, &mut pending, ch);
                    proof {
                        lemma_prefixed_twice(
                            before,
                            flushed(waiting).push(ch),
                            string_body(s, here + 2, None),
                        );
                    }
                }
            },
            c => {
                if c <= '\x19' {
                    return None;
                }
                push_char(&mut out, &mut pending, c);
                proof {
                    lemma_prefixed_twice(
                        before,
                        flushed(waiting).push(c),
                        string_body(s, here + 1, None),
                    );
                }
            },
        }
    }
}

/// Consumes the blanks at the cursor.
fn blanks(chars: &mut Cursor)
    ensures
        final(chars).text() == old(chars).text(),
        final(chars).pos() == skip_ws(old(chars).text(), old(chars).pos()),
        0 <= old(chars).pos() <= final(chars).pos() <= old(chars).text().len(),
{
    skip_while(chars, is_ws);
    proof {
        lemma_ws_run(chars.text(), old(chars).pos(), chars.pos());
    }
}

/// Consumes the digits at the cursor.
fn digits(chars: &mut Cursor)
    ensures
        final(chars).text() == old(chars).text(),
        final(chars).pos() == skip_digits(old(chars).text(), old(chars).pos()),
        0 <= old(chars).pos() <= final(chars).pos() <= old(chars).text().len(),
{
    skip_while(chars, is_digit);
    proof {
        lemma_digit_run(chars.text(), old(chars).pos(), chars.pos());
    }
}

/// The characters between two positions of one text.
fn between(from: &Cursor, to: &Cursor) -> (out: String)
    requires
        from.text() == to.text(),
        from.pos() <= to.pos(),
    ensures
        out@ == from.text().subrange(from.pos(), to.pos()),
{
    let mut out = String::new();
    let mut at = *from;
    let end = to.offset();
    proof {
        from.lemma_in_text();
        assert(out@ =~= from.text().subrange(from.pos(), from.pos()));
    }
    while at.offset() < end
        invariant
            at.text() == from.text(),
            0 <= from.pos() <= at.pos() <= end == to.pos() <= from.text().len(),
            out@ == from.text().subrange(from.pos(), at.pos()),
        decreases end - at.pos(),
    {
        let ghost was = at.pos();
        if let Some(c) = at.next() {
            out.push(c);
        }
        assert(out@ =~= from.text().subrange(from.pos(), was + 1));
    }
    out
}

/// Reads a number and returns its literal.
///
/// A fraction or an exponent is taken only if it is complete; what is left
/// of an incomplete one stays in the text.
pub fn parse_number(input: &mut Cursor) -> (r: Option<String>)
    ensures
        final(input).text() == old(input).text(),
        0 <= old(input).pos() <= final(input).pos() <= old(input).text().len(),
        match number_end(old(input).text(), old(input).pos()) {
            Some(end) => r matches Some(lit) && lit@ == old(input).text().subrange(
                old(input).pos(),
                end,
            ) && final(input).pos() == end,
            None => r is None && final(input).pos() == old(input).pos(),
        },
{
    let ghost s = input.text();
    let mut chars = *input;
    let ahead = peek(&chars);
    if ahead? == '-' {
        chars.next();
    }
    let ghost j = chars.pos();

    // The integer part.
    let first = peek(&chars)?;
    if first == '0' {
        chars.next();
    } else if is_digit(first) {
        digits(&mut chars);
    } else {
        return None;
    }
    let ghost k = chars.pos();
    assert(integer_end(s, j) == Some(k));

    // The fraction.
    if let Some('.') = peek(&chars) {
        let mut fchars = chars;
        fchars.next();
        if next_if(&mut fchars, is_digit).is_some() {
            digits(&mut fchars);
            chars = fchars;
        }
    }
    let ghost f = chars.pos();
    assert(f == fraction_end(s, k));

    // The exponent.
    let mark = peek(&chars);
    if mark == Some('e') || mark == Some('E') {
        let mut echars = chars;
        echars.next();
        let sign = peek(&echars);
        if sign == Some('+') || sign == Some('-') {
            echars.next();
        }
        if next_if(&mut echars, is_digit).is_some() {
            digits(&mut echars);
            chars = echars;
        }
    }
    assert(chars.pos() == exponent_end(s, f));

    let lit = between(input, &chars);
    *input = chars;
    Some(lit)
}

/// Reads the fixed word `kw` and returns `expected`; consumes nothing where
/// the text differs from the word.
pub fn parse_keyword(input: &mut Cursor, kw: &str, expected: Value) -> (r: Option<Value>)
    ensures
        final(input).text() == old(input).text(),
        0 <= old(input).pos() <= final(input).pos() <= old(input).text().len(),
        keyword_at(old(input).text(), old(input).pos(), kw@) ==> r == Some(expected)
            && final(input).pos() == old(input).pos() + kw@.len(),
        !keyword_at(old(input).text(), old(input).pos(), kw@) ==> r is None && final(input).pos()
            == old(input).pos(),
{
    let ghost s = input.text();
    let ghost start = input.pos();
    let mut chars = *input;
    proof {
        chars.lemma_in_text();
        assert(s.subrange(start, start) =~= kw@.take(0));
    }
    for c in it: kw.chars()
        invariant
            it.seq() == kw@,
            chars.text() == s,
            s == input.text(),
            start == input.pos(),
            input == old(input),
            0 <= start,
            chars.pos() == start + it.index(),
            chars.pos() <= s.len(),
            s.subrange(start, chars.pos()) == kw@.take(it.index() as int),
    {
        let ghost at = chars.pos();
        match chars.next() {
            Some(d) => {
                if d != c {
                    assert(keyword_at(s, start, kw@) ==> s.subrange(start, start + kw@.len())[at
                        - start] == d);
                    return None;
                }
            },
            None => {
                return None;
            },
        }
        assert(s.subrange(start, at + 1) =~= kw@.take(at - start + 1));
    }
    assert(kw@.take(kw@.len() as int) =~= kw@);
    *input = chars;
    Some(expected)
}

/// Gives `key` the value `val` among the members `out`: the member that has
/// the key takes the new value, and a new key goes to the end.
fn insert_entry(out: &mut Vec<(String, Value)>, key: String, val: Value)
    ensures
        object_view(final(out)@) == inserted(object_view(old(out)@), key@, val@),
{
    let ghost entries = object_view(out@);
    let mut i: usize = 0;
    while i < out.len()
        invariant
            i <= out.len(),
            out@ == old(out)@,
            entries == object_view(out@),
            key_index(entries, key@, 0) == key_index(entries, key@, i as int),
        decreases out.len() - i,
    {
        if out[i].0 == key {
            out.set(i, (key, val));
            assert(object_view(out@) =~= entries.update(i as int, (key@, val@)));
            return ;
        }
        i = i + 1;
    }
    out.push((key, val));
    assert(object_view(out@) =~= entries.push((key@, val@)));
}

/// Reads a value of any kind, told by its first character.
pub fn parse_value(chars: &mut Cursor) -> (r: Option<Value>)
    ensures
        final(chars).text() == old(chars).text(),
        0 <= old(chars).pos() <= final(chars).pos() <= old(chars).text().len(),
        match value_at(old(chars).text(), old(chars).pos()) {
            Some((v, end)) => r matches Some(out) && out@ == v && final(chars).pos() == end
                && old(chars).pos() < end,
            None => r is None,
        },
    decreases old(chars).text().len() - old(chars).pos(), 1nat,
{
    let first = peek(chars)?;
    if first == '{' {
        match parse_object(chars) {
            Some(o) => Some(Value::Object(o)),
            None => None,
        }
    } else if first == '[' {
        match parse_array(chars) {
            Some(a) => Some(Value::Array(a)),
            None => None,
        }
    } else if first == '"' {
        match parse_string(chars) {
            Some(s) => {
                proof {
                    lemma_string_body_end(old(chars).text(), old(chars).pos() + 1, None);
                }
                Some(Value::String(s))
            },
            None => None,
        }
    } else if first == '-' || is_digit(first) {
        match parse_number(chars) {
            Some(n) => {
                proof {
                    lemma_number_end(old(chars).text(), old(chars).pos());
                }
                Some(Value::Number(n))
            },
            None => None,
        }
    } else if first == 'f' {
        proof {
            reveal_strlit("false");
        }
        parse_keyword(chars, "false", Value::Bool(false))
    } else if first == 'n' {
        proof {
            reveal_strlit("null");
        }
        parse_keyword(chars, "null", Value::Null)
    } else if first == 't' {
        proof {
            reveal_strlit("true");
        }
        parse_keyword(chars, "true", Value::Bool(true))
    } else {
        None
    }
}

/// Reads an array, from its opening bracket to its closing bracket.
pub fn parse_array(chars: &mut Cursor) -> (r: Option<Vec<Value>>)
    ensures
        final(chars).text() == old(chars).text(),
        0 <= old(chars).pos() <= final(chars).pos() <= old(chars).text().len(),
        match array_at(old(chars).text(), old(chars).pos()) {
            Some((items, end)) => {
                &&& r matches Some(out) && array_view(out@) == items
                &&& final(chars).pos() == end
                &&& old(chars).pos() < end
            },
            None => r is None,
        },
    decreases old(chars).text().len() - old(chars).pos(), 0nat,
{
    let ghost s = chars.text();
    let ghost start = chars.pos();
    if chars.next()? != '[' {
        return None;
    }
    blanks(chars);
    let mut out: Vec<Value> = Vec::new();
    let ghost j = chars.pos();

    if peek(chars)? == ']' {
        chars.next();
        assert(array_view(out@) =~= Seq::<Json>::empty());
        return Some(out);
    }
    let v = parse_value(chars)?;
    out.push(v);
    blanks(chars);
    proof {
        assert(array_view(out@) =~= seq![v@]);
    }

    loop
        invariant
            chars.text() == s,
            s == old(chars).text(),
            start == old(chars).pos(),
            0 <= start < chars.pos() <= s.len(),
            array_at(s, start) == prefixed(array_view(out@), elements_tail(s, chars.pos())),
        decreases s.len() - chars.pos(),
    {
        let ghost k = chars.pos();
        let ghost before = array_view(out@);
        let c = chars.next()?;
        if c == ']' {
            assert(before + Seq::<Json>::empty() =~= before);
            return Some(out);
        } else if c != ',' {
            return None;
        }
        blanks(chars);
        let v = parse_value(chars)?;
        out.push(v);
        blanks(chars);
        proof {
            assert(array_view(out@) =~= before + seq![v@]);
            lemma_prefixed_twice(before, seq![v@], elements_tail(s, chars.pos()));
        }
    }
}

/// Reads one member of an object, `key : value`, and puts it among `out`:
/// a key that `out` has already takes the new value.
pub fn consume_object_entry(chars: &mut Cursor, out: &mut Vec<(String, Value)>) -> (r: Option<()>)
    ensures
        final(chars).text() == old(chars).text(),
        0 <= old(chars).pos() <= final(chars).pos() <= old(chars).text().len(),
        match member_at(old(chars).text(), old(chars).pos()) {
            Some(((key, v), end)) => r is Some && object_view(final(out)@) == inserted(
                object_view(old(out)@),
                key,
                v,
            ) && final(chars).pos() == end && old(chars).pos() < end,
            None => r is None && final(out)@ == old(out)@,
        },
    decreases old(chars).text().len() - old(chars).pos(), 2nat,
{
    proof {
        lemma_string_body_end(old(chars).text(), old(chars).pos() + 1, None);
    }
    let key = parse_string(chars)?;
    blanks(chars);
    if chars.next()? != ':' {
        return None;
    }
    blanks(chars);
    let val = parse_value(chars)?;
    insert_entry(out, key, val);
    Some(())
}

/// Reads an object, from its opening brace to its closing brace; consumes
/// nothing where no object stands.
pub fn parse_object(input: &mut Cursor) -> (r: Option<Vec<(String, Value)>>)
    ensures
        final(input).text() == old(input).text(),
        0 <= old(input).pos() <= final(input).pos() <= old(input).text().len(),
        match object_at(old(input).text(), old(input).pos()) {
            Some((members, end)) => {
                &&& r matches Some(out) && object_view(out@) == members
                &&& final(input).pos() == end
                &&& old(input).pos() < end
            },
            None => r is None && final(input).pos() == old(input).pos(),
        },
    decreases old(input).text().len() - old(input).pos(), 0nat,
{
    let ghost s = input.text();
    let ghost start = input.pos();
    let mut chars = *input;
    if chars.next()? != '{' {
        return None;
    }
    blanks(&mut chars);
    let ghost j = chars.pos();

    let mut out: Vec<(String, Value)> = Vec::new();
    if peek(&chars)? == '}' {
        chars.next();
        *input = chars;
        assert(object_view(out@) =~= Seq::<(Seq<char>, Json)>::empty());
        return Some(out);
    }
    let ghost mut raw: Seq<(Seq<char>, Json)> = Seq::empty();
    proof {
        assert(object_view(out@) =~= Seq::<(Seq<char>, Json)>::empty());
        if let Some((m, e)) = member_at(s, j) {
            raw = seq![m];
            assert(raw.drop_last() =~= Seq::<(Seq<char>, Json)>::empty());
            assert(collected(raw.drop_last()) =~= Seq::<(Seq<char>, Json)>::empty());
            assert(Seq::<(Seq<char>, Json)>::empty() + raw =~= raw);
        }
    }
    consume_object_entry(&mut chars, &mut out)?;
    blanks(&mut chars);

    loop
        invariant
            chars.text() == s,
            input == old(input),
            s == old(input).text(),
            start == old(input).pos(),
            0 <= start < j < chars.pos() <= s.len(),
            s[start] == '{',
            j == skip_ws(s, start + 1),
            !(s[j] == '}'),
            object_view(out@) == collected(raw),
            members_at(s, j) == prefixed(raw, members_tail(s, chars.pos())),
        decreases s.len() - chars.pos(),
    {
        let ghost before = raw;
        let c = chars.next()?;
        if c == '}' {
            *input = chars;
            assert(before + Seq::<(Seq<char>, Json)>::empty() =~= before);
            return Some(out);
        } else if c != ',' {
            return None;
        }
        blanks(&mut chars);
        proof {
            if let Some((m, e)) = member_at(s, chars.pos()) {
                raw = before.push(m);
                assert(raw.drop_last() =~= before);
                assert(before + seq![m] =~= raw);
            }
        }
        let ghost at = chars.pos();
        consume_object_entry(&mut chars, &mut out)?;
        blanks(&mut chars);
        proof {
            let found = member_at(s, at)->0;
            lemma_prefixed_twice(before, seq![found.0], members_tail(s, chars.pos()));
        }
    }
}

/// Reads a whole text as one JSON document.
///
/// The text must hold exactly one value, with nothing but blanks before and
/// behind it; any other text gives `None`. The value that comes back is well
/// formed, and its own text is read back as the same value.
pub fn parse(s: &str) -> (r: Option<Value>)
    ensures
        match document(s@) {
            Some(v) => r matches Some(out) && out@ == v,
            None => r is None,
        },
        r matches Some(out) ==> out@.well_formed() && document(rendered(out@)) == Some(out@),
{
    proof {
        lemma_document_well_formed(s@);
        if document(s@) is Some {
            lemma_parse_then_render(s@);
        }
    }
    let text = to_chars(s);
    let mut chars = Cursor::new(text.as_slice());
    blanks(&mut chars);

    let out = parse_value(&mut chars)?;
    blanks(&mut chars);

    if peek(&chars).is_none() {
        Some(out)
    } else {
        None
    }
}

} // verus!
