use vstd::prelude::*;
use crate::errors::LexError;

verus! {

/// A read position over a borrowed array of characters.
pub struct Cursor<'cursor> {
    pub code: &'cursor [char],
    pub current: usize,
}

impl<'cursor> Cursor<'cursor> {
    /// The characters being read.
    pub open spec fn text(&self) -> Seq<char> {
        self.code@
    }

    /// The character `offset` places after the read position, if there is one.
    pub open spec fn spec_offset(&self, offset: int) -> Option<char> {
        if 0 <= self.current + offset < self.code@.len() {
            Some(self.code@[self.current + offset])
        } else {
            None
        }
    }

    /// Every offset into the text is a machine integer.
    pub proof fn lemma_text_fits(&self)
        ensures
            self.text().len() <= usize::MAX,
    {
        assert(vstd::slice::spec_slice_len(self.code) <= usize::MAX);
    }

    pub fn new(code: &'cursor [char]) -> (cursor: Self)
        ensures
            cursor.text() == code@,
            cursor.current == 0,
    {
        Cursor { code, current: 0 }
    }

    pub fn peek(&self) -> (next: Option<char>)
        ensures
            next == self.spec_offset(0),
    {
        if self.is_at_end() {
            None
        } else {
            self.offset(0)
        }
    }

    pub fn is_at_end(&self) -> (at_end: bool)
        ensures
            at_end == (self.current >= self.text().len()),
    {
        self.current >= self.code.len()
    }

    pub fn offset(&self, offset: usize) -> (found: Option<char>)
        ensures
            found == self.spec_offset(offset as int),
    {
        if self.current < self.code.len() && offset < self.code.len() - self.current {
            Some(self.code[self.current + offset])
        } else {
            None
        }
    }

    pub fn offset_result(&self, offset: usize) -> (found: Result<char, LexError>)
        ensures
            match self.spec_offset(offset as int) {
                Some(c) => found == Ok::<char, LexError>(c),
                None => found == Err::<char, LexError>(LexError::UnexpectedEof),
            },
    {
        match self.offset(offset) {
            Some(c) => Ok(c),
            None => Err(LexError::UnexpectedEof),
        }
    }
}

} // verus!
