//! Reading back what was written.
//!
//! The text that the writer gives for any document is read back as the
//! normal form of that document, which for a well-formed document is the
//! document itself; and whatever the reader returns is well formed. So
//! reading, writing and reading again changes nothing.
use vstd::prelude::*;
use crate::cursor::{digit, ws};
use crate::grammar::{
    collected, document, elements_at, ends_number, exponent_end, flushed, four_hex, fraction_end,
    hex_digit, inserted, integer_end, key_index, lemma_number_end, lemma_skip_digits,
    lemma_skip_ws, lemma_string_body_end, member_at, members_at, number_end, number_literal,
    prefixed, skip_digits, skip_ws, string_at, string_body, unit_step, value_at,
};
use crate::render::{
    escaped, escaped_char, hex_char, quoted, rendered, rendered_items, rendered_members, separator,
};
use crate::unicode::{lead_surrogate, trail_surrogate};
use crate::value::{distinct_keys, normalized_items, normalized_members, Json};

verus! {

/// A hexadecimal digit that was written is read back as its value.
proof fn lemma_hex_char(d: int)
    requires
        0 <= d < 16,
    ensures
        hex_digit(hex_char(d)) == Some(d),
{
}

/// Reading one written character: where the text holds at `p` what
/// `escaped_char` gives for `c`, a string body read from `p` starts with `c`
/// and goes on behind it.
proof fn lemma_escaped_char_read(s: Seq<char>, p: int, c: char)
    requires
        0 <= p,
        p + escaped_char(c).len() <= s.len(),
        s.subrange(p, p + escaped_char(c).len()) == escaped_char(c),
    ensures
        string_body(s, p, None) == prefixed(
            seq![c],
            string_body(s, p + escaped_char(c).len(), None),
        ),
{
    let e = escaped_char(c);
    let part = s.subrange(p, p + e.len());
    assert(forall|j: int| 0 <= j < e.len() ==> s[p + j] == #[trigger] part[j]);
    assert(s[p] == e[0]);
    assert(flushed(None).push(c) =~= seq![c]);
    if e.len() == 2 {
        assert(s[p + 1] == part[1]);
    } else if e.len() == 6 {
        assert(s[p + 1] == part[1]);
        assert(s[p + 2] == part[2]);
        assert(s[p + 3] == part[3]);
        assert(s[p + 4] == part[4]);
        assert(s[p + 5] == part[5]);
        let hi = c as int / 16;
        let lo = c as int % 16;
        lemma_hex_char(hi);
        lemma_hex_char(lo);
        lemma_hex_char(0);
        let cu = four_hex(s, p + 2)->0;
        assert(cu as int == c as int);
        assert(!lead_surrogate(cu) && !trail_surrogate(cu));
        assert(cu as char == c);
        assert(unit_step(None, cu).0 =~= seq![c]);
    }
}

/// Reading a written string: where the text holds at `p` the characters of
/// `t` from `k` on as the writer escapes them, and then a quote, a string
/// body read from `p` gives those characters and ends behind the quote.
proof fn lemma_escaped_read(s: Seq<char>, p: int, t: Seq<char>, k: int)
    requires
        0 <= k <= t.len(),
        0 <= p,
        p + escaped(t, k).len() + 1 <= s.len(),
        s.subrange(p, p + escaped(t, k).len() + 1) == escaped(t, k) + seq!['"'],
    ensures
        string_body(s, p, None) == Some(
            (t.subrange(k, t.len() as int), p + escaped(t, k).len() + 1),
        ),
    decreases t.len() - k,
{
    let whole = s.subrange(p, p + escaped(t, k).len() + 1);
    if k == t.len() {
        assert(s[p] == whole[0]);
        assert(t.subrange(k, t.len() as int) =~= flushed(None));
    } else {
        let e = escaped_char(t[k]);
        let rest = escaped(t, k + 1);
        assert(escaped(t, k) == e + rest);
        assert(s.subrange(p, p + e.len()) =~= e) by {
            assert forall|j: int| 0 <= j < e.len() implies s[p + j] == e[j] by {
                assert(whole[j] == s[p + j]);
            }
        }
        lemma_escaped_char_read(s, p, t[k]);
        assert(s.subrange(p + e.len(), p + e.len() + rest.len() + 1) =~= rest + seq!['"']) by {
            assert forall|j: int| 0 <= j < rest.len() + 1 implies s[p + e.len() + j] == (rest
                + seq!['"'])[j] by {
                assert(whole[e.len() + j] == s[p + e.len() + j]);
            }
        }
        lemma_escaped_read(s, p + e.len(), t, k + 1);
        assert(seq![t[k]] + t.subrange(k + 1, t.len() as int) =~= t.subrange(k, t.len() as int));
    }
}

/// A string literal that was written is read back as the string.
pub proof fn lemma_quoted_read(s: Seq<char>, i: int, t: Seq<char>)
    requires
        0 <= i,
        i + quoted(t).len() <= s.len(),
        s.subrange(i, i + quoted(t).len()) == quoted(t),
    ensures
        string_at(s, i) == Some((t, i + quoted(t).len())),
{
    let q = quoted(t);
    let whole = s.subrange(i, i + q.len());
    assert(q.len() == escaped(t, 0).len() + 2);
    assert(s[i] == whole[0]);
    assert(s.subrange(i + 1, i + 1 + escaped(t, 0).len() + 1) =~= escaped(t, 0) + seq!['"']) by {
        assert forall|j: int| 0 <= j < escaped(t, 0).len() + 1 implies s[i + 1 + j] == (escaped(
            t,
            0,
        ) + seq!['"'])[j] by {
            assert(whole[1 + j] == s[i + 1 + j]);
        }
    }
    lemma_escaped_read(s, i + 1, t, 0);
    assert(t.subrange(0, t.len() as int) =~= t);
}

/// A run of digits inside a piece of a text is the same run in the text, as
/// long as it ends inside the piece or the text has no digit behind the piece.
proof fn lemma_digits_embedded(n: Seq<char>, s: Seq<char>, i: int, a: int)
    requires
        0 <= i,
        i + n.len() <= s.len(),
        s.subrange(i, i + n.len()) == n,
        0 <= a <= n.len(),
        skip_digits(n, a) < n.len() || i + n.len() == s.len() || !digit(s[i + n.len()]),
    ensures
        skip_digits(s, i + a) == i + skip_digits(n, a),
    decreases n.len() - a,
{
    if a < n.len() {
        assert(s.subrange(i, i + n.len())[a] == s[i + a]);
        if digit(n[a]) {
            lemma_digits_embedded(n, s, i, a + 1);
        }
    }
}

/// A run of digits that ends at or before `e` is the same run in the piece
/// of the text that ends at `e`.
proof fn lemma_digits_restricted(s: Seq<char>, i: int, e: int, a: int)
    requires
        0 <= i,
        0 <= a,
        i + a <= e <= s.len(),
        skip_digits(s, i + a) <= e,
    ensures
        skip_digits(s.subrange(i, e), a) == skip_digits(s, i + a) - i,
    decreases e - i - a,
{
    lemma_skip_digits(s, i + a);
    if i + a < e {
        assert(s.subrange(i, e)[a] == s[i + a]);
        if digit(s[i + a]) {
            lemma_digits_restricted(s, i, e, a + 1);
        }
    }
}

/// A number literal is read as a whole wherever it stands in a text, if what
/// follows it cannot continue a number.
pub proof fn lemma_number_read(s: Seq<char>, i: int, n: Seq<char>)
    requires
        number_literal(n),
        0 <= i,
        i + n.len() <= s.len(),
        s.subrange(i, i + n.len()) == n,
        ends_number(s, i + n.len()),
    ensures
        number_end(s, i) == Some(i + n.len()),
        n.len() > 0,
        s[i] == n[0],
        n[0] == '-' || digit(n[0]),
{
    lemma_number_end(n, 0);
    let part = s.subrange(i, i + n.len());
    assert(forall|j: int| 0 <= j < n.len() ==> s[i + j] == #[trigger] part[j]);
    let j = if n[0] == '-' {
        1int
    } else {
        0int
    };
    let k = integer_end(n, j)->0;
    lemma_skip_digits(n, j);
    assert(s[i + j] == part[j]);
    if n[j] != '0' {
        lemma_digits_embedded(n, s, i, j);
    }
    assert(integer_end(s, i + j) == Some(i + k));
    let f = fraction_end(n, k);
    if f != k {
        assert(s[i + k] == part[k]);
        assert(s[i + k + 1] == part[k + 1]);
        lemma_skip_digits(n, k + 2);
        lemma_digits_embedded(n, s, i, k + 2);
    } else if k < n.len() {
        assert(s[i + k] == part[k]);
        if k + 1 < n.len() {
            assert(s[i + k + 1] == part[k + 1]);
        }
    }
    assert(fraction_end(s, i + k) == i + f);
    if exponent_end(n, f) != f {
        let m = if f + 1 < n.len() && (n[f + 1] == '+' || n[f + 1] == '-') {
            f + 2
        } else {
            f + 1
        };
        assert(s[i + f] == part[f]);
        assert(s[i + f + 1] == part[f + 1]);
        assert(s[i + m] == part[m]);
        lemma_skip_digits(n, m + 1);
        lemma_digits_embedded(n, s, i, m + 1);
    }
    assert(exponent_end(s, i + f) == i + n.len());
}

/// What the reader takes for a number is, by itself, a number literal.
pub proof fn lemma_number_isolated(s: Seq<char>, i: int)
    requires
        number_end(s, i) is Some,
    ensures
        number_literal(s.subrange(i, number_end(s, i)->0)),
{
    lemma_number_end(s, i);
    let e = number_end(s, i)->0;
    let n = s.subrange(i, e);
    assert(forall|a: int| 0 <= a < n.len() ==> s[i + a] == #[trigger] n[a]);
    let j = if s[i] == '-' {
        i + 1
    } else {
        i
    };
    let k = integer_end(s, j)->0;
    lemma_skip_digits(s, j);
    let f = fraction_end(s, k);
    if f != k {
        lemma_skip_digits(s, k + 2);
    }
    let m = if f + 1 < s.len() && (s[f + 1] == '+' || s[f + 1] == '-') {
        f + 2
    } else {
        f + 1
    };
    if e != f {
        lemma_skip_digits(s, m + 1);
    }
    assert(j < k <= f <= e);
    assert(n[0] == s[i]);
    assert(n[j - i] == s[j]);
    if s[j] != '0' {
        lemma_digits_restricted(s, i, e, j - i);
    }
    assert(integer_end(n, j - i) == Some(k - i));
    if f != k {
        assert(n[k - i] == s[k]);
        assert(n[k - i + 1] == s[k + 1]);
        lemma_digits_restricted(s, i, e, k + 2 - i);
    } else if k + 1 < e {
        assert(n[k - i] == s[k]);
        assert(n[k - i + 1] == s[k + 1]);
    }
    assert(fraction_end(n, k - i) == f - i);
    if e != f {
        assert(n[f - i] == s[f]);
        assert(n[f - i + 1] == s[f + 1]);
        assert(n[m - i] == s[m]);
        lemma_digits_restricted(s, i, e, m + 1 - i);
    }
    assert(exponent_end(n, f - i) == e - i);
}

/// A character with which the text of a value can start.
pub open spec fn opens_value(c: char) -> bool {
    c == '{' || c == '[' || c == '"' || c == '-' || digit(c) || c == 'f' || c == 'n' || c == 't'
}

/// The text of a document is never empty and starts as a value starts: not
/// with a blank, a comma, a colon or a closing bracket.
pub proof fn lemma_rendered_first(v: Json)
    ensures
        rendered(v).len() > 0,
        opens_value(rendered(v)[0]),
{
    reveal_strlit("null");
    reveal_strlit("true");
    reveal_strlit("false");
    match v {
        Json::Number(n) => {
            if number_literal(n) {
                lemma_number_end(n, 0);
            }
        },
        _ => {},
    }
}

/// A piece in the middle of a piece: where the text holds `a + b + c` at
/// `p`, it holds `b` behind `a`.
proof fn lemma_middle(s: Seq<char>, p: int, a: Seq<char>, b: Seq<char>, c: Seq<char>)
    requires
        0 <= p,
        p + (a + b + c).len() <= s.len(),
        s.subrange(p, p + (a + b + c).len()) == a + b + c,
    ensures
        p + a.len() + b.len() <= s.len(),
        s.subrange(p + a.len(), p + a.len() + b.len()) == b,
        forall|j: int| 0 <= j < a.len() ==> s[p + j] == a[j],
        forall|j: int| 0 <= j < c.len() ==> s[p + a.len() + b.len() + j] == c[j],
{
    let whole = s.subrange(p, p + (a + b + c).len());
    assert forall|j: int| 0 <= j < b.len() implies s[p + a.len() + j] == b[j] by {
        assert(whole[a.len() + j] == s[p + a.len() + j]);
    }
    assert(s.subrange(p + a.len(), p + a.len() + b.len()) =~= b);
    assert forall|j: int| 0 <= j < a.len() implies s[p + j] == a[j] by {
        assert(whole[j] == s[p + j]);
    }
    assert forall|j: int| 0 <= j < c.len() implies s[p + a.len() + b.len() + j] == c[j] by {
        assert(whole[a.len() + b.len() + j] == s[p + a.len() + b.len() + j]);
    }
}

/// Where no member from `i` on has the key, `key_index` finds none.
proof fn lemma_key_absent(entries: Seq<(Seq<char>, Json)>, key: Seq<char>, i: int)
    requires
        0 <= i <= entries.len(),
        forall|j: int| i <= j < entries.len() ==> (#[trigger] entries[j]).0 != key,
    ensures
        key_index(entries, key, i) == entries.len(),
    decreases entries.len() - i,
{
    if i < entries.len() {
        lemma_key_absent(entries, key, i + 1);
    }
}

/// Members whose keys differ are kept as they are listed.
pub proof fn lemma_collected_distinct(members: Seq<(Seq<char>, Json)>)
    requires
        distinct_keys(members),
    ensures
        collected(members) == members,
    decreases members.len(),
{
    if members.len() == 0 {
        assert(collected(members) =~= members);
    } else {
        let init = members.drop_last();
        let last = members.last();
        assert forall|i: int, j: int| 0 <= i < j < init.len() implies (#[trigger] init[i]).0 != (
        #[trigger] init[j]).0 by {
            assert(init[i] == members[i] && init[j] == members[j]);
        }
        lemma_collected_distinct(init);
        assert forall|j: int| 0 <= j < init.len() implies (#[trigger] init[j]).0 != last.0 by {
            assert(init[j] == members[j]);
            assert(last == members[members.len() - 1]);
        }
        lemma_key_absent(init, last.0, 0);
        assert(init.push((last.0, last.1)) =~= members);
    }
}

/// Reading a written value: where the text holds at `i` what the writer gives
/// for `v`, and what follows cannot continue a number, the value read at `i`
/// is the normal form of `v` and ends where the written text ends.
pub proof fn lemma_value_read(s: Seq<char>, i: int, v: Json)
    requires
        0 <= i,
        i + rendered(v).len() <= s.len(),
        s.subrange(i, i + rendered(v).len()) == rendered(v),
        ends_number(s, i + rendered(v).len()),
    ensures
        value_at(s, i) == Some((v.normalized(), i + rendered(v).len())),
    decreases v, 0nat,
{
    let r = rendered(v);
    let part = s.subrange(i, i + r.len());
    lemma_rendered_first(v);
    assert(s[i] == part[0]);
    reveal_strlit("null");
    reveal_strlit("true");
    reveal_strlit("false");
    match v {
        Json::Null => {},
        Json::Bool(b) => {},
        Json::Number(n) => {
            if number_literal(n) {
                lemma_number_read(s, i, n);
            }
        },
        Json::String(t) => {
            lemma_quoted_read(s, i, t);
        },
        Json::Array(items) => {
            let inner = rendered_items(items, 0);
            lemma_middle(s, i, seq!['['], inner, seq![']']);
            assert(s[i] == seq!['['][0]);
            if items.len() == 0 {
                assert(s[i + 1] == seq![']'][0]);
                assert(normalized_items(items) =~= Seq::<Json>::empty());
            } else {
                lemma_rendered_first(items[0]);
                assert(s[i + 1] == part[1]);
                assert(part[1] == rendered(items[0])[0]);
                assert(s.subrange(i + 1, i + 1 + inner.len() + 1) =~= inner + seq![']']) by {
                    assert forall|j: int| 0 <= j < inner.len() + 1 implies s[i + 1 + j] == (inner
                        + seq![']'])[j] by {
                        assert(part[1 + j] == s[i + 1 + j]);
                    }
                }
                lemma_items_read(s, i + 1, items, 0);
                assert(normalized_items(items).subrange(0, items.len() as int)
                    =~= normalized_items(items));
            }
        },
        Json::Object(members) => {
            let inner = rendered_members(members, 0);
            lemma_middle(s, i, seq!['{'], inner, seq!['}']);
            assert(s[i] == seq!['{'][0]);
            if members.len() == 0 {
                assert(s[i + 1] == seq!['}'][0]);
                assert(normalized_members(members) =~= Seq::<(Seq<char>, Json)>::empty());
                assert(collected(normalized_members(members)) =~= Seq::<
                    (Seq<char>, Json),
                >::empty());
            } else {
                assert(s[i + 1] == part[1]);
                assert(part[1] == quoted(members[0].0)[0]);
                assert(s.subrange(i + 1, i + 1 + inner.len() + 1) =~= inner + seq!['}']) by {
                    assert forall|j: int| 0 <= j < inner.len() + 1 implies s[i + 1 + j] == (inner
                        + seq!['}'])[j] by {
                        assert(part[1 + j] == s[i + 1 + j]);
                    }
                }
                lemma_members_read(s, i + 1, members, 0);
                assert(normalized_members(members).subrange(0, members.len() as int)
                    =~= normalized_members(members));
            }
        },
    }
}

/// Reading the written elements of an array from the `k`-th on, up to the
/// closing bracket.
proof fn lemma_items_read(s: Seq<char>, p: int, items: Seq<Json>, k: int)
    requires
        0 <= k < items.len(),
        0 <= p,
        p + rendered_items(items, k).len() + 1 <= s.len(),
        s.subrange(p, p + rendered_items(items, k).len() + 1) == rendered_items(items, k)
            + seq![']'],
    ensures
        elements_at(s, p) == Some(
            (
                normalized_items(items).subrange(k, items.len() as int),
                p + rendered_items(items, k).len() + 1,
            ),
        ),
    decreases items, items.len() - k,
{
    let r = rendered(items[k]);
    let sep = separator(items.len(), k);
    let rest = rendered_items(items, k + 1);
    let tail = sep + rest + seq![']'];
    let read = normalized_items(items);
    assert(rendered_items(items, k) + seq![']'] =~= Seq::<char>::empty() + r + tail);
    lemma_middle(s, p, Seq::<char>::empty(), r, tail);
    lemma_rendered_first(items[k]);
    let e = p + r.len();
    assert(s[e] == tail[0]);
    lemma_value_read(s, p, items[k]);
    if k + 1 < items.len() {
        lemma_rendered_first(items[k + 1]);
        assert(rest == rendered(items[k + 1]) + separator(items.len(), k + 1) + rendered_items(
            items,
            k + 2,
        ));
        assert(s[e + 1] == tail[1]);
        assert(tail[1] == rendered(items[k + 1])[0]);
        assert(s.subrange(e + 1, e + 1 + rest.len() + 1) =~= rest + seq![']']) by {
            assert forall|j: int| 0 <= j < rest.len() + 1 implies s[e + 1 + j] == (rest
                + seq![']'])[j] by {
                assert(s[p + r.len() + (1 + j)] == tail[1 + j]);
            }
        }
        lemma_items_read(s, e + 1, items, k + 1);
        assert(seq![read[k]] + read.subrange(k + 1, items.len() as int) =~= read.subrange(
            k,
            items.len() as int,
        ));
    } else {
        assert(rest =~= Seq::<char>::empty());
        assert(seq![read[k]] + Seq::<Json>::empty() =~= read.subrange(k, items.len() as int));
    }
}

/// Reading the written members of an object from the `k`-th on, up to the
/// closing brace.
proof fn lemma_members_read(s: Seq<char>, p: int, members: Seq<(Seq<char>, Json)>, k: int)
    requires
        0 <= k < members.len(),
        0 <= p,
        p + rendered_members(members, k).len() + 1 <= s.len(),
        s.subrange(p, p + rendered_members(members, k).len() + 1) == rendered_members(members, k)
            + seq!['}'],
    ensures
        members_at(s, p) == Some(
            (
                normalized_members(members).subrange(k, members.len() as int),
                p + rendered_members(members, k).len() + 1,
            ),
        ),
    decreases members, members.len() - k,
{
    let q = quoted(members[k].0);
    let r = rendered(members[k].1);
    let sep = separator(members.len(), k);
    let rest = rendered_members(members, k + 1);
    let tail = sep + rest + seq!['}'];
    let whole = rendered_members(members, k) + seq!['}'];
    let read = normalized_members(members);
    assert(whole =~= Seq::<char>::empty() + q + (seq![':'] + r + tail));
    lemma_middle(s, p, Seq::<char>::empty(), q, seq![':'] + r + tail);
    lemma_quoted_read(s, p, members[k].0);
    let c = p + q.len();
    assert(s[c] == (seq![':'] + r + tail)[0]);
    assert(whole =~= (q + seq![':']) + r + tail);
    lemma_middle(s, p, q + seq![':'], r, tail);
    lemma_rendered_first(members[k].1);
    assert(s[c + 1] == s.subrange(c + 1, c + 1 + r.len())[0]);
    let e = c + 1 + r.len();
    assert(s[e] == tail[0]);
    lemma_value_read(s, c + 1, members[k].1);
    assert(member_at(s, p) == Some((read[k], e)));
    if k + 1 < members.len() {
        assert(rest == quoted(members[k + 1].0) + seq![':'] + rendered(members[k + 1].1)
            + separator(members.len(), k + 1) + rendered_members(members, k + 2));
        assert(s[e + 1] == tail[1]);
        assert(tail[1] == quoted(members[k + 1].0)[0]);
        assert(s.subrange(e + 1, e + 1 + rest.len() + 1) =~= rest + seq!['}']) by {
            assert forall|j: int| 0 <= j < rest.len() + 1 implies s[e + 1 + j] == (rest
                + seq!['}'])[j] by {
                assert(s[p + (q + seq![':']).len() + r.len() + (1 + j)] == tail[1 + j]);
            }
        }
        lemma_members_read(s, e + 1, members, k + 1);
        assert(seq![read[k]] + read.subrange(k + 1, members.len() as int) =~= read.subrange(
            k,
            members.len() as int,
        ));
    } else {
        assert(rest =~= Seq::<char>::empty());
        assert(seq![read[k]] + Seq::<(Seq<char>, Json)>::empty() =~= read.subrange(
            k,
            members.len() as int,
        ));
    }
}

/// A well-formed document is its own normal form.
pub proof fn lemma_normalized_well_formed(v: Json)
    requires
        v.well_formed(),
    ensures
        v.normalized() == v,
    decreases v,
{
    match v {
        Json::Array(items) => {
            assert forall|j: int| 0 <= j < items.len() implies normalized_items(items)[j]
                == items[j] by {
                lemma_normalized_well_formed(items[j]);
            }
            assert(normalized_items(items) =~= items);
        },
        Json::Object(members) => {
            assert forall|j: int| 0 <= j < members.len() implies normalized_members(members)[j]
                == members[j] by {
                lemma_normalized_well_formed(members[j].1);
            }
            assert(normalized_members(members) =~= members);
            lemma_collected_distinct(members);
        },
        _ => {},
    }
}

/// The text that the writer gives for any document at all is JSON: it is
/// read as the normal form of the document.
pub proof fn lemma_rendered_is_json(v: Json)
    ensures
        document(rendered(v)) == Some(v.normalized()),
{
    let s = rendered(v);
    lemma_rendered_first(v);
    assert(s.subrange(0, s.len() as int) =~= s);
    lemma_value_read(s, 0, v);
}

/// Writing a well-formed document and reading the text gives the document
/// back.
pub proof fn lemma_render_then_parse(v: Json)
    requires
        v.well_formed(),
    ensures
        document(rendered(v)) == Some(v),
{
    lemma_rendered_is_json(v);
    lemma_normalized_well_formed(v);
}

/// What `key_index` finds: the first member from `i` on that has the key,
/// or the end of the members.
proof fn lemma_key_index(entries: Seq<(Seq<char>, Json)>, key: Seq<char>, i: int)
    requires
        0 <= i <= entries.len(),
    ensures
        i <= key_index(entries, key, i) <= entries.len(),
        forall|j: int| i <= j < key_index(entries, key, i) ==> (#[trigger] entries[j]).0 != key,
        key_index(entries, key, i) < entries.len() ==> entries[key_index(entries, key, i)].0
            == key,
    decreases entries.len() - i,
{
    if i < entries.len() && entries[i].0 != key {
        lemma_key_index(entries, key, i + 1);
    }
}

/// Giving a key a value keeps the keys distinct and the values well formed.
proof fn lemma_inserted(entries: Seq<(Seq<char>, Json)>, key: Seq<char>, val: Json)
    requires
        distinct_keys(entries),
        forall|j: int| 0 <= j < entries.len() ==> (#[trigger] entries[j]).1.well_formed(),
        val.well_formed(),
    ensures
        distinct_keys(inserted(entries, key, val)),
        forall|j: int|
            0 <= j < inserted(entries, key, val).len() ==> (#[trigger] inserted(
                entries,
                key,
                val,
            )[j]).1.well_formed(),
{
    lemma_key_index(entries, key, 0);
    let at = key_index(entries, key, 0);
    let after = inserted(entries, key, val);
    assert forall|a: int, b: int| 0 <= a < b < after.len() implies (#[trigger] after[a]).0 != (
    #[trigger] after[b]).0 by {
        if at < entries.len() {
            assert(after[a].0 == entries[a].0);
            assert(after[b].0 == entries[b].0);
        } else if b < entries.len() {
            assert(after[a] == entries[a] && after[b] == entries[b]);
        } else {
            assert(after[a] == entries[a]);
        }
    }
    assert forall|j: int| 0 <= j < after.len() implies (#[trigger] after[j]).1.well_formed() by {
        if j != at {
            assert(after[j] == entries[j]);
        }
    }
}

/// The members collected from a list with well-formed values have distinct
/// keys and well-formed values.
proof fn lemma_collected(raw: Seq<(Seq<char>, Json)>)
    requires
        forall|j: int| 0 <= j < raw.len() ==> (#[trigger] raw[j]).1.well_formed(),
    ensures
        distinct_keys(collected(raw)),
        forall|j: int|
            0 <= j < collected(raw).len() ==> (#[trigger] collected(raw)[j]).1.well_formed(),
    decreases raw.len(),
{
    if raw.len() > 0 {
        let init = raw.drop_last();
        assert forall|j: int| 0 <= j < init.len() implies (#[trigger] init[j]).1.well_formed() by {
            assert(init[j] == raw[j]);
        }
        lemma_collected(init);
        assert(raw.last() == raw[raw.len() - 1]);
        lemma_inserted(collected(init), raw.last().0, raw.last().1);
    }
}

/// What the reader takes for a value is well formed, and ends behind its
/// start and within the text.
pub proof fn lemma_value_well_formed(s: Seq<char>, i: int)
    ensures
        value_at(s, i) matches Some((v, end)) ==> v.well_formed() && 0 <= i < end <= s.len(),
    decreases s.len() - i, 1nat,
{
    reveal_strlit("null");
    reveal_strlit("true");
    reveal_strlit("false");
    if 0 <= i < s.len() {
        if s[i] == '{' {
            let j = skip_ws(s, i + 1);
            lemma_skip_ws(s, i + 1);
            if !(j < s.len() && s[j] == '}') {
                lemma_members_well_formed(s, j);
                if let Some((raw, end)) = members_at(s, j) {
                    lemma_collected(raw);
                }
            }
        } else if s[i] == '[' {
            let j = skip_ws(s, i + 1);
            lemma_skip_ws(s, i + 1);
            if !(j < s.len() && s[j] == ']') {
                lemma_elements_well_formed(s, j);
            }
        } else if s[i] == '"' {
            lemma_string_body_end(s, i + 1, None);
        } else if s[i] == '-' || digit(s[i]) {
            lemma_number_end(s, i);
            if number_end(s, i) is Some {
                lemma_number_isolated(s, i);
            }
        }
    }
}

/// The elements that the reader takes from `i` on are well formed, and end
/// behind `i` and within the text.
proof fn lemma_elements_well_formed(s: Seq<char>, i: int)
    ensures
        elements_at(s, i) matches Some((items, end)) ==> i < end <= s.len() && forall|j: int|
            0 <= j < items.len() ==> (#[trigger] items[j]).well_formed(),
    decreases s.len() - i, 2nat,
{
    lemma_value_well_formed(s, i);
    if let Some((v, j)) = value_at(s, i) {
        lemma_skip_ws(s, j);
        let k = skip_ws(s, j);
        if 0 <= k < s.len() && s[k] == ',' {
            lemma_skip_ws(s, k + 1);
            lemma_elements_well_formed(s, skip_ws(s, k + 1));
        }
    }
}

/// The members that the reader takes from `i` on have well-formed values,
/// and end behind `i` and within the text.
proof fn lemma_members_well_formed(s: Seq<char>, i: int)
    ensures
        members_at(s, i) matches Some((raw, end)) ==> i < end <= s.len() && forall|j: int|
            0 <= j < raw.len() ==> (#[trigger] raw[j]).1.well_formed(),
    decreases s.len() - i, 3nat,
{
    if let Some((key, j)) = string_at(s, i) {
        lemma_string_body_end(s, i + 1, None);
        lemma_skip_ws(s, j);
        let c = skip_ws(s, j);
        if 0 <= c < s.len() && s[c] == ':' {
            lemma_skip_ws(s, c + 1);
            lemma_value_well_formed(s, skip_ws(s, c + 1));
        }
    }
    if let Some((m, j)) = member_at(s, i) {
        if 0 <= i < j <= s.len() {
            lemma_skip_ws(s, j);
            let k = skip_ws(s, j);
            if 0 <= k < s.len() && s[k] == ',' {
                lemma_skip_ws(s, k + 1);
                lemma_members_well_formed(s, skip_ws(s, k + 1));
            }
        }
    }
}

/// Whatever document a text holds is well formed.
pub proof fn lemma_document_well_formed(s: Seq<char>)
    ensures
        document(s) matches Some(v) ==> v.well_formed(),
{
    lemma_value_well_formed(s, skip_ws(s, 0));
}

/// Reading a text, writing the document and reading that again gives the
/// same document as the first reading did.
pub proof fn lemma_parse_then_render(s: Seq<char>)
    requires
        document(s) is Some,
    ensures
        document(rendered(document(s)->0)) == document(s),
{
    lemma_document_well_formed(s);
    lemma_render_then_parse(document(s)->0);
}

/// Writing a well-formed document, reading the text and writing again gives
/// the same text.
pub proof fn lemma_render_is_stable(v: Json)
    requires
        v.well_formed(),
    ensures
        document(rendered(v)) is Some,
        rendered(document(rendered(v))->0) == rendered(v),
{
    lemma_render_then_parse(v);
}

/// A text with anything but blanks behind its value holds no document.
pub proof fn lemma_trailing_rejected(s: Seq<char>, k: int)
    requires
        value_at(s, skip_ws(s, 0)) matches Some((_, end)) && end <= k,
        0 <= k < s.len(),
        !ws(s[k]),
    ensures
        document(s) is None,
{
    lemma_value_well_formed(s, skip_ws(s, 0));
    let found = value_at(s, skip_ws(s, 0))->0;
    lemma_skip_ws(s, found.1);
}

} // verus!
