//! A position in a text, cheap to copy, that the scanner moves forward.
//!
//! Copying a cursor takes a snapshot; assigning the copy back commits what a
//! speculative scan consumed.
use vstd::prelude::*;

verus! {

/// The four characters that count as white space between tokens.
pub open spec fn ws(c: char) -> bool {
    c == ' ' || c == '\t' || c == '\n' || c == '\r'
}

/// A decimal digit.
pub open spec fn digit(c: char) -> bool {
    '0' <= c <= '9'
}

/// A text together with a position in it.
#[derive(Clone, Copy)]
pub struct Cursor<'a> {
    text: &'a [char],
    pos: usize,
}

impl<'a> Cursor<'a> {
    /// The whole text, consumed part included.
    pub closed spec fn text(&self) -> Seq<char> {
        self.text@
    }

    /// How many characters have been consumed.
    pub closed spec fn pos(&self) -> int {
        if self.pos <= self.text@.len() {
            self.pos as int
        } else {
            self.text@.len() as int
        }
    }

    /// The position never passes the end of the text.
    #[verifier::type_invariant]
    pub closed spec fn inv(&self) -> bool {
        self.pos <= self.text@.len()
    }

    /// The next character, if any is left.
    pub open spec fn head(&self) -> Option<char> {
        if 0 <= self.pos() < self.text().len() {
            Some(self.text()[self.pos()])
        } else {
            None
        }
    }

    /// The position of a cursor lies within its text.
    pub proof fn lemma_in_text(self)
        ensures
            0 <= self.pos() <= self.text().len(),
    {
    }

    /// A cursor at the start of `text`.
    pub fn new(text: &'a [char]) -> (c: Self)
        ensures
            c.text() == text@,
            c.pos() == 0,
    {
        Cursor { text, pos: 0 }
    }

    /// Consumes one character and returns it; `None` at the end of the text.
    pub fn next(&mut self) -> (r: Option<char>)
        ensures
            final(self).text() == old(self).text(),
            r == old(self).head(),
            final(self).pos() == old(self).pos() + if r is Some { 1int } else { 0int },
            0 <= old(self).pos() <= final(self).pos() <= old(self).text().len(),
    {
        proof {
            use_type_invariant(&*self);
        }
        if self.pos < self.text.len() {
            let c = self.text[self.pos];
            self.pos = self.pos + 1;
            Some(c)
        } else {
            None
        }
    }

    /// The number of characters consumed so far.
    pub fn offset(&self) -> (n: usize)
        ensures
            n == self.pos(),
            0 <= self.pos() <= self.text().len(),
    {
        proof {
            use_type_invariant(self);
        }
        self.pos
    }
}

/// Whether `c` is a space, a tab, a line feed or a carriage return.
pub fn is_ws(c: char) -> (b: bool)
    ensures
        b == ws(c),
{
    c == ' ' || c == '\t' || c == '\n' || c == '\r'
}

/// Whether `c` is one of `0` to `9`.
pub fn is_digit(c: char) -> (b: bool)
    ensures
        b == digit(c),
{
    '0' <= c && c <= '9'
}

/// The next character, without consuming it.
pub fn peek(chars: &Cursor) -> (r: Option<char>)
    ensures
        r == chars.head(),
        0 <= chars.pos() <= chars.text().len(),
{
    let mut ahead = *chars;
    ahead.next()
}

/// Consumes the next character if there is one and `func` accepts it.
pub fn next_if(chars: &mut Cursor, func: impl FnOnce(char) -> bool) -> (r: Option<char>)
    requires
        old(chars).head() matches Some(c) ==> func.requires((c,)),
    ensures
        final(chars).text() == old(chars).text(),
        0 <= old(chars).pos() <= final(chars).pos() <= old(chars).text().len(),
        match r {
            Some(c) => {
                &&& old(chars).head() == Some(c)
                &&& func.ensures((c,), true)
                &&& final(chars).pos() == old(chars).pos() + 1
            },
            None => {
                &&& final(chars).pos() == old(chars).pos()
                &&& old(chars).head() matches Some(c) ==> func.ensures((c,), false)
            },
        },
{
    match peek(chars) {
        Some(c) => {
            if func(c) {
                chars.next()
            } else {
                None
            }
        },
        None => None,
    }
}

/// Consumes characters for as long as `func` accepts them: it stops at the
/// first character that `func` refuses, or at the end of the text.
pub fn skip_while(chars: &mut Cursor, func: impl Fn(char) -> bool)
    requires
        forall|j: int|
            old(chars).pos() <= j < old(chars).text().len() ==> func.requires(
                (#[trigger] old(chars).text()[j],),
            ),
    ensures
        final(chars).text() == old(chars).text(),
        0 <= old(chars).pos() <= final(chars).pos() <= old(chars).text().len(),
        forall|j: int|
            old(chars).pos() <= j < final(chars).pos() ==> func.ensures(
                (#[trigger] old(chars).text()[j],),
                true,
            ),
        final(chars).head() matches Some(c) ==> func.ensures((c,), false),
{
    proof {
        chars.lemma_in_text();
    }
    loop
        invariant
            forall|j: int|
                old(chars).pos() <= j < old(chars).text().len() ==> func.requires(
                    (#[trigger] old(chars).text()[j],),
                ),
            chars.text() == old(chars).text(),
            0 <= old(chars).pos() <= chars.pos() <= old(chars).text().len(),
            forall|j: int|
                old(chars).pos() <= j < chars.pos() ==> func.ensures(
                    (#[trigger] old(chars).text()[j],),
                    true,
                ),
        ensures
            chars.head() matches Some(c) ==> func.ensures((c,), false),
        decreases chars.text().len() - chars.pos(),
    {
        if next_if(chars, |c: char| -> (b: bool)
            requires func.requires((c,)),
            ensures func.ensures((c,), b),
            { func(c) }).is_none() {
            break;
        }
    }
}

} // verus!
