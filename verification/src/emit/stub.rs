//! The jump left behind at a protected function's original entry.

use vstd::prelude::*;

use crate::emit::address;
use crate::emit::address::{write_displacement, Rva};
use crate::emit::decoder;
use crate::emit::error::PeError;

verus! {

/// The length of a near jump. No other encoding is used: a stub that sometimes
/// changes its size would change what the bytes after it mean.
pub const STUB_LEN: u32 = 5;

/// The opcode of a near jump.
pub const JMP_NEAR: u8 = 0xe9;

/// A jump from a function's original entry to its copy. It stands at the start of a
/// span of `span_len` bytes, which the file has to hold in one piece; the rest of
/// the span stays as it is.
#[derive(Debug, Clone, Copy, PartialEq, Eq)]
pub struct Stub {
    pub from: Rva,
    pub to: Rva,
    pub span_len: u32,
}

/// The rewriter refuses the layout.
pub open spec fn refused(reason: &'static str) -> PeError {
    PeError::UnsupportedRewriteLayout { reason }
}

impl Stub {
    /// The distance that the jump covers, from its own end.
    pub open spec fn distance(self) -> int {
        self.to.0 - (self.from.0 + STUB_LEN)
    }

    /// Why the span cannot be written at `offset` in `len` bytes, or its last
    /// address.
    pub open spec fn last(self, offset: u32, len: nat) -> Result<Rva, PeError> {
        if self.span_len < STUB_LEN {
            Err(refused("the protected entry span is shorter than a near jump"))
        } else if offset + self.span_len > usize::MAX {
            Err(refused("the protected entry span overflows the file address width"))
        } else if offset + self.span_len > len {
            Err(refused("the entry of a protected function is not backed by file bytes"))
        } else {
            match address::after(self.from, self.span_len - 1) {
                Some(rva) => Ok(rva),
                None => Err(
                    refused("the protected entry span ends beyond the RVA address width"),
                ),
            }
        }
    }

    /// Why the stub cannot be written where its first byte has the file offset
    /// `offset` and its last one `last_offset`.
    pub open spec fn obstacle(self, offset: u32, last_offset: u32, len: nat) -> Option<PeError> {
        match self.last(offset, len) {
            Err(error) => Some(error),
            Ok(_) => if last_offset != offset + self.span_len - 1 {
                Some(refused("the protected entry span is not contiguous in the file"))
            } else if self.from.0 + STUB_LEN > u32::MAX {
                Some(refused("a protected function ends at the top of the address space"))
            } else if !address::fits_near(self.distance()) {
                Some(
                    refused(
                        "the mutated copy is out of reach of a near jump from the original entry",
                    ),
                )
            } else {
                None
            },
        }
    }

    /// The image with the stub written at `offset`.
    pub open spec fn written(self, data: Seq<u8>, offset: u32) -> Seq<u8> {
        address::overwritten(data, offset as int, decoder::near_jump(self.distance()))
    }

    /// A stub over the first bytes of a function.
    pub fn new(from: Rva, to: Rva) -> (stub: Stub)
        ensures
            stub == (Stub { from, to, span_len: STUB_LEN }),
    {
        Stub { from, to, span_len: STUB_LEN }
    }

    /// A stub over a span of `span_len` bytes.
    pub fn spanning(from: Rva, to: Rva, span_len: u32) -> (stub: Stub)
        ensures
            stub == (Stub { from, to, span_len }),
    {
        Stub { from, to, span_len }
    }

    /// Finds out whether the span has room for the jump.
    pub fn check_span(&self) -> (r: Result<(), PeError>)
        ensures
            r == (if self.span_len < STUB_LEN {
                Err(refused("the protected entry span is shorter than a near jump"))
            } else {
                Ok(())
            }),
    {
        if self.span_len < STUB_LEN {
            return Err(
                PeError::UnsupportedRewriteLayout {
                    reason: "the protected entry span is shorter than a near jump",
                },
            );
        }
        Ok(())
    }

    /// The last address of the span, for a span at file offset `offset` in an
    /// image of `len` bytes.
    pub fn last_rva(&self, offset: u32, len: usize) -> (r: Result<Rva, PeError>)
        ensures
            r == self.last(offset, len as nat),
    {
        self.check_span()?;
        let end = match (offset as usize).checked_add(self.span_len as usize) {
            Some(end) => end,
            None => return Err(
                PeError::UnsupportedRewriteLayout {
                    reason: "the protected entry span overflows the file address width",
                },
            ),
        };
        if end > len {
            return Err(
                PeError::UnsupportedRewriteLayout {
                    reason: "the entry of a protected function is not backed by file bytes",
                },
            );
        }
        match self.from.checked_add(self.span_len - 1) {
            Some(rva) => Ok(rva),
            None => Err(
                PeError::UnsupportedRewriteLayout {
                    reason: "the protected entry span ends beyond the RVA address width",
                },
            ),
        }
    }

    /// Writes the jump, and nothing beyond it. `offset` and `last_offset` are
    /// the file offsets of the first and the last address of the span.
    pub fn write(&self, offset: u32, last_offset: u32, data: &mut Vec<u8>) -> (r: Result<(), PeError>)
        ensures
            match self.obstacle(offset, last_offset, old(data)@.len()) {
                Some(error) => r == Err::<(), PeError>(error) && final(data)@ == old(data)@,
                None => r == Ok::<(), PeError>(()) && final(data)@ == self.written(
                    old(data)@,
                    offset,
                ),
            },
    {
        self.last_rva(offset, data.len())?;
        let start = offset as usize;
        let end: usize = start + self.span_len as usize;
        if last_offset as usize != end - 1 {
            return Err(
                PeError::UnsupportedRewriteLayout {
                    reason: "the protected entry span is not contiguous in the file",
                },
            );
        }
        let next = match self.from.checked_add(STUB_LEN) {
            Some(next) => next,
            None => return Err(
                PeError::UnsupportedRewriteLayout {
                    reason: "a protected function ends at the top of the address space",
                },
            ),
        };
        let displacement: i64 = self.to.0 as i64 - next.0 as i64;
        if displacement < -0x8000_0000 || displacement > 0x7fff_ffff {
            return Err(
                PeError::UnsupportedRewriteLayout {
                    reason: "the mutated copy is out of reach of a near jump from the original entry",
                },
            );
        }
        data.set(start, JMP_NEAR);
        write_displacement(data, start + 1, displacement as i32);
        assert(data@ =~= self.written(old(data)@, offset));
        Ok(())
    }
}

/// The distance that 32 bits stand for.
pub open spec fn signed(bits: u32) -> int {
    if bits < 0x8000_0000 {
        bits as int
    } else {
        bits - 0x1_0000_0000
    }
}

/// The number that four bytes hold, lowest first.
pub open spec fn from_little_endian(bytes: Seq<u8>) -> int {
    bytes[0] + 256 * bytes[1] + 65536 * bytes[2] + 16777216 * bytes[3]
}

/// The jump that a written stub holds leads to the copy: the distance it encodes,
/// counted from its end, reaches the target.
pub proof fn lemma_stub_reaches_copy(stub: Stub, data: Seq<u8>, offset: u32, last_offset: u32)
    requires
        stub.obstacle(offset, last_offset, data.len()) is None,
    ensures
        ({
            let image = stub.written(data, offset);
            let bits = from_little_endian(image.subrange(offset + 1, offset + 5));
            &&& image.len() == data.len()
            &&& image[offset as int] == JMP_NEAR
            &&& 0 <= bits <= u32::MAX
            &&& stub.from.0 + STUB_LEN + signed(bits as u32) == stub.to.0
        }),
{
    let image = stub.written(data, offset);
    let bits = address::two_complement(stub.distance());
    let stored = image.subrange(offset + 1, offset + 5);
    assert(stored =~= address::little_endian(bits));
    assert(from_little_endian(stored) == bits);
}

/// A stub leaves every byte outside its jump as it was: the rest of the original
/// code stays in the file.
pub proof fn lemma_stub_stays_in_span(stub: Stub, data: Seq<u8>, offset: u32, i: int)
    requires
        0 <= i < data.len(),
        i < offset || offset + STUB_LEN <= i,
    ensures
        stub.written(data, offset)[i] == data[i],
{
}

} // verus!
