//! The parse-time cursor.
//!
//! [`LeptContext`] is a position-tracking view over the input text: the
//! character buffer, the current offset, and a scratch stack on which the
//! string production collects decoded characters.  Lookahead is total —
//! peeking past the end of the buffer yields a NUL sentinel instead of
//! indexing out of bounds.

use vstd::prelude::*;
use crate::text::{char_at, is_digit, ws_end};

verus! {

/// Parse-time state: the input characters, the current offset, and a
/// scratch stack for decoded string content.
pub struct LeptContext {
    pub chars: Vec<char>,
    pub ptr: usize,
    pub stack: Vec<char>,
}

impl LeptContext {
    /// The cursor never stands past the end of its buffer.
    pub open spec fn wf(&self) -> bool {
        self.ptr <= self.chars@.len()
    }

    /// Whether at least one character is left to consume.
    pub fn hasnext(&self) -> (r: bool)
        ensures
            r == (self.ptr < self.chars@.len()),
    {
        self.ptr < self.chars.len()
    }

    /// The current character, or the NUL sentinel at end of input.
    pub fn peek(&self) -> (r: char)
        ensures
            r == char_at(self.chars@, self.ptr as int),
    {
        if self.ptr < self.chars.len() {
            self.chars[self.ptr]
        } else {
            '\u{0}'
        }
    }

    /// The character one past the current one, or the NUL sentinel.
    pub fn peek1(&self) -> (r: char)
        ensures
            r == char_at(self.chars@, self.ptr + 1),
    {
        if self.ptr < self.chars.len() && self.chars.len() - self.ptr > 1 {
            self.chars[self.ptr + 1]
        } else {
            '\u{0}'
        }
    }

    /// The character two past the current one, or the NUL sentinel.
    pub fn peek2(&self) -> (r: char)
        ensures
            r == char_at(self.chars@, self.ptr + 2),
    {
        if self.ptr < self.chars.len() && self.chars.len() - self.ptr > 2 {
            self.chars[self.ptr + 2]
        } else {
            '\u{0}'
        }
    }

    /// The character three past the current one, or the NUL sentinel.
    pub fn peek3(&self) -> (r: char)
        ensures
            r == char_at(self.chars@, self.ptr + 3),
    {
        if self.ptr < self.chars.len() && self.chars.len() - self.ptr > 3 {
            self.chars[self.ptr + 3]
        } else {
            '\u{0}'
        }
    }

    /// Consumes one character; a no-op at end of input.
    pub fn forward(&mut self)
        ensures
            final(self).chars == old(self).chars,
            final(self).stack == old(self).stack,
            final(self).ptr == if old(self).ptr < old(self).chars@.len() {
                old(self).ptr + 1
            } else {
                old(self).ptr as int
            },
    {
        if self.ptr < self.chars.len() {
            self.ptr = self.ptr + 1;
        }
    }

    /// Consumes the current character when it equals `c`; reports whether
    /// it did.  A mismatch consumes nothing — the caller turns it into
    /// the parse error of its own production.
    pub fn expect(&mut self, c: char) -> (r: bool)
        ensures
            final(self).chars == old(self).chars,
            final(self).stack == old(self).stack,
            r == (old(self).ptr < old(self).chars@.len() && old(self).chars@[old(self).ptr as int]
                == c),
            final(self).ptr == if r {
                old(self).ptr + 1
            } else {
                old(self).ptr as int
            },
    {
        if self.ptr < self.chars.len() && self.chars[self.ptr] == c {
            self.ptr = self.ptr + 1;
            true
        } else {
            false
        }
    }

    /// Pushes one decoded character onto the scratch stack.
    pub fn putc(&mut self, c: char)
        ensures
            final(self).chars == old(self).chars,
            final(self).ptr == old(self).ptr,
            final(self).stack@ == old(self).stack@.push(c),
    {
        self.stack.push(c);
    }
}

/// Whether `c` is a decimal digit.
#[allow(non_snake_case)]
pub fn ISDIGIT(c: char) -> (r: bool)
    ensures
        r == is_digit(c),
{
    c == '1' || c == '0' || c == '2' || c == '3' || c == '4' || c == '5' || c == '6' || c == '7'
        || c == '8' || c == '9'
}

/// Consumes the maximal run of whitespace at the cursor.
pub fn lept_parse_whitespace(c: &mut LeptContext)
    requires
        old(c).wf(),
    ensures
        final(c).chars == old(c).chars,
        final(c).stack == old(c).stack,
        final(c).wf(),
        final(c).ptr == ws_end(old(c).chars@, old(c).ptr as int),
{
    while c.hasnext() && (c.peek() == ' ' || c.peek() == '\t' || c.peek() == '\n' || c.peek()
        == '\r')
        invariant
            c.wf(),
            c.chars == old(c).chars,
            c.stack == old(c).stack,
            ws_end(c.chars@, c.ptr as int) == ws_end(old(c).chars@, old(c).ptr as int),
        decreases c.chars@.len() - c.ptr,
    {
        c.forward();
    }
}

} // verus!
