//! The character cursor: a forward-only view over the input's characters
//! with one-step lookahead.

use vstd::prelude::*;
use vstd::string::StrSliceExecFns;
use vstd::string::StringExecFns;

verus! {

/// A sequential reader over a source string's characters.
pub struct Stream {
    code: String,
    curr_pos: usize,
}

impl Stream {
    /// The characters this cursor reads.
    pub closed spec fn chars(&self) -> Seq<char> {
        self.code@
    }

    /// The position of the next character to read.
    pub closed spec fn pos(&self) -> int {
        self.curr_pos as int
    }

    /// The position never runs past the end of the input.
    pub open spec fn wf(&self) -> bool {
        0 <= self.pos() <= self.chars().len()
    }

    /// A cursor at the start of `code`.
    pub fn new(code: String) -> (s: Self)
        ensures
            s.chars() == code@,
            s.pos() == 0,
            s.wf(),
    {
        Stream { code, curr_pos: 0 }
    }

    /// Returns the next character and moves past it; `None` once exhausted.
    pub fn next(&mut self) -> (c: Option<char>)
        requires
            old(self).wf(),
        ensures
            final(self).chars() == old(self).chars(),
            final(self).wf(),
            old(self).pos() < old(self).chars().len() ==> c == Some(
                old(self).chars()[old(self).pos()],
            ) && final(self).pos() == old(self).pos() + 1,
            old(self).pos() >= old(self).chars().len() ==> c is None && final(self).pos() == old(
                self,
            ).pos(),
    {
        if self.curr_pos < self.code.as_str().unicode_len() {
            let c = self.code.as_str().get_char(self.curr_pos);
            self.curr_pos = self.curr_pos + 1;
            Some(c)
        } else {
            None
        }
    }

    /// Returns the next character without moving; `None` at end-of-input.
    pub fn peek(&self) -> (c: Option<char>)
        requires
            self.wf(),
        ensures
            self.pos() < self.chars().len() ==> c == Some(self.chars()[self.pos()]),
            self.pos() >= self.chars().len() ==> c is None,
    {
        if self.curr_pos < self.code.as_str().unicode_len() {
            Some(self.code.as_str().get_char(self.curr_pos))
        } else {
            None
        }
    }

    /// Whether a character remains to be read.
    pub fn has_more(&self) -> (b: bool)
        requires
            self.wf(),
        ensures
            b == (self.pos() < self.chars().len()),
    {
        self.curr_pos < self.code.as_str().unicode_len()
    }

    /// The current position as an index into the input.
    pub fn position(&self) -> (i: usize)
        ensures
            i as int == self.pos(),
    {
        self.curr_pos
    }

    /// The input's characters from `from` up to (excluding) `to`, as an
    /// owned string.
    pub fn extract(&self, from: usize, to: usize) -> (t: String)
        requires
            from <= to,
            to as int <= self.chars().len(),
        ensures
            t@ == self.chars().subrange(from as int, to as int),
    {
        String::from_str(self.code.as_str().substring_char(from, to))
    }
}

} // verus!
