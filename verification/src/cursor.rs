//! A position in a byte string.

use vstd::prelude::*;
use vstd::slice::slice_subrange;

use crate::error::ParseFailure;

verus! {

/// A reader of `input` that never moves past its end.
pub struct Cursor<'a> {
    input: &'a [u8],
    position: usize,
}

/// The byte `offset` places after `position`, if there is one.
pub open spec fn byte_at(input: Seq<u8>, position: usize, offset: nat) -> Option<u8> {
    if position + offset < input.len() {
        Some(input[position + offset])
    } else {
        None
    }
}

/// The byte `offset` places after `position` is `code`.
pub open spec fn reads(input: Seq<u8>, position: usize, offset: nat, code: char) -> bool {
    byte_at(input, position, offset) == Some(code as u8)
}

impl<'a> Cursor<'a> {
    /// The bytes that are read.
    pub closed spec fn input(&self) -> Seq<u8> {
        self.input@
    }

    /// The number of bytes consumed.
    pub closed spec fn pos(&self) -> usize {
        self.position
    }

    #[verifier::type_invariant]
    spec fn within_input(self) -> bool {
        self.position <= self.input@.len()
    }

    /// A cursor before the first byte of `input`.
    pub fn new(input: &'a [u8]) -> (cursor: Self)
        ensures
            cursor.input() == input@,
            cursor.pos() == 0,
    {
        Cursor { input, position: 0 }
    }

    /// The number of bytes consumed so far.
    pub fn position(&self) -> (position: usize)
        ensures
            position == self.pos(),
            position <= self.input().len(),
    {
        proof {
            use_type_invariant(self);
        }
        self.position
    }

    /// The byte `offset` places ahead, without consuming anything.
    pub fn peek(&self, offset: usize) -> (byte: Option<u8>)
        ensures
            byte == byte_at(self.input(), self.pos(), offset as nat),
            self.pos() <= self.input().len() <= usize::MAX,
    {
        proof {
            use_type_invariant(self);
        }
        if offset < self.input.len() - self.position {
            Some(self.input[self.position + offset])
        } else {
            None
        }
    }

    /// Reports whether the byte `offset` places ahead is `code`.
    pub fn reads(&self, offset: usize, code: char) -> (yes: bool)
        ensures
            yes == reads(self.input(), self.pos(), offset as nat, code),
            self.pos() <= self.input().len() <= usize::MAX,
    {
        match self.peek(offset) {
            Some(byte) => byte == code as u8,
            None => false,
        }
    }

    /// Consumes `amount` bytes, or nothing when fewer are left.
    pub fn advance(&mut self, amount: usize) -> (r: Result<(), ParseFailure>)
        ensures
            final(self).input() == old(self).input(),
            if old(self).pos() + amount <= old(self).input().len() {
                r == Ok::<(), ParseFailure>(()) && final(self).pos() == old(self).pos() + amount
            } else {
                r == Err::<(), ParseFailure>(
                    ParseFailure::AdvanceOutOfBounds {
                        offset: old(self).pos(),
                        amount,
                        len: old(self).input().len() as usize,
                    },
                ) && final(self).pos() == old(self).pos()
            },
            final(self).pos() <= final(self).input().len() <= usize::MAX,
    {
        proof {
            use_type_invariant(&*self);
        }
        if amount > self.input.len() - self.position {
            return Err(
                ParseFailure::AdvanceOutOfBounds {
                    offset: self.position,
                    amount,
                    len: self.input.len(),
                },
            );
        }
        self.position = self.position + amount;
        Ok(())
    }

    /// Consumes and returns one byte.
    pub fn next(&mut self) -> (r: Result<u8, ParseFailure>)
        ensures
            final(self).input() == old(self).input(),
            match byte_at(old(self).input(), old(self).pos(), 0) {
                Some(byte) => r == Ok::<u8, ParseFailure>(byte) && final(self).pos() == old(
                    self,
                ).pos() + 1,
                None => r == Err::<u8, ParseFailure>(
                    ParseFailure::UnexpectedEnd { offset: old(self).pos() },
                ) && final(self).pos() == old(self).pos(),
            },
            final(self).pos() <= final(self).input().len() <= usize::MAX,
    {
        match self.peek(0) {
            Some(byte) => {
                self.position = self.position + 1;
                Ok(byte)
            },
            None => Err(ParseFailure::UnexpectedEnd { offset: self.position }),
        }
    }

    /// The bytes from `start` up to `end`, if that is a range of the input.
    pub fn bytes(&self, start: usize, end: usize) -> (r: Option<&'a [u8]>)
        ensures
            if start <= end <= self.input().len() {
                r matches Some(bytes) && bytes@ == self.input().subrange(start as int, end as int)
            } else {
                r is None
            },
    {
        if start <= end && end <= self.input.len() {
            Some(slice_subrange(self.input, start, end))
        } else {
            None
        }
    }
}

} // verus!
