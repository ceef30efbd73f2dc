//! A function encoded for a new address.

use vstd::prelude::*;
use vstd::slice::slice_subrange;

use crate::emit::address::Rva;
use crate::emit::decoder;
use crate::emit::decoder::decode_one;

verus! {

/// Code encoded for `rva`. `moved` tells where each original instruction went.
#[derive(Debug, PartialEq, Eq)]
pub struct Relocated {
    pub rva: Rva,
    pub bytes: Vec<u8>,
    pub moved: Vec<(Rva, Rva)>,
}

/// Where an instruction went and how long it is there, if it can be decoded.
#[derive(Debug, Clone, Copy, PartialEq, Eq, Structural)]
pub struct Measured {
    pub from: Rva,
    pub to: Rva,
    pub len: Option<usize>,
}

/// The first entry for `rva`.
pub open spec fn destination(moved: Seq<(Rva, Rva)>, rva: Rva) -> Option<Rva>
    decreases moved.len(),
{
    if moved.len() == 0 {
        None
    } else if moved[0].0 == rva {
        Some(moved[0].1)
    } else {
        destination(moved.drop_first(), rva)
    }
}

/// The length of the instruction at `to`, in `bytes` that stand at `base`.
pub open spec fn length_at(base: Rva, bytes: Seq<u8>, to: Rva) -> Option<usize> {
    let offset = to.0 - base.0;
    if offset < 0 || offset >= bytes.len() {
        None
    } else {
        let raw = decoder::decoded(bytes.skip(offset), to.0 as u64);
        if raw.invalid {
            None
        } else {
            Some(raw.len)
        }
    }
}

/// The length of the instruction at `to`, if it went anywhere.
pub open spec fn length_of(base: Rva, bytes: Seq<u8>, to: Option<Rva>) -> Option<usize> {
    match to {
        Some(to) => length_at(base, bytes, to),
        None => None,
    }
}

/// The measurements of all instructions that moved into `bytes` at `base`.
pub open spec fn measurements_of(base: Rva, bytes: Seq<u8>, moved: Seq<(Rva, Rva)>) -> Seq<
    Measured,
> {
    Seq::new(
        moved.len(),
        |i: int|
            Measured { from: moved[i].0, to: moved[i].1, len: length_at(base, bytes, moved[i].1) },
    )
}

/// The first measurement for `rva`.
pub open spec fn measurement(measured: Seq<Measured>, rva: Rva) -> Option<Measured>
    decreases measured.len(),
{
    if measured.len() == 0 {
        None
    } else if measured[0].from == rva {
        Some(measured[0])
    } else {
        measurement(measured.drop_first(), rva)
    }
}

/// The first measurement for `rva`.
pub fn find_measurement(measured: &[Measured], rva: Rva) -> (r: Option<Measured>)
    ensures
        r == measurement(measured@, rva),
{
    let mut index: usize = 0;
    assert(measured@.skip(0) =~= measured@);
    while index < measured.len()
        invariant
            index <= measured@.len(),
            measurement(measured@, rva) == measurement(measured@.skip(index as int), rva),
        decreases measured@.len() - index,
    {
        let ghost rest = measured@.skip(index as int);
        assert(rest.drop_first() =~= measured@.skip(index + 1));
        if measured[index].from == rva {
            return Some(measured[index]);
        }
        index += 1;
    }
    None
}

impl Relocated {
    /// The measurements of all instructions that moved.
    pub open spec fn measurements(&self) -> Seq<Measured> {
        measurements_of(self.rva, self.bytes@, self.moved@)
    }

    /// Where the instruction at `rva` went.
    pub fn new_rva(&self, rva: Rva) -> (r: Option<Rva>)
        ensures
            r == destination(self.moved@, rva),
    {
        let mut index: usize = 0;
        assert(self.moved@.skip(0) =~= self.moved@);
        while index < self.moved.len()
            invariant
                index <= self.moved@.len(),
                destination(self.moved@, rva) == destination(self.moved@.skip(index as int), rva),
            decreases self.moved@.len() - index,
        {
            let ghost rest = self.moved@.skip(index as int);
            assert(rest.drop_first() =~= self.moved@.skip(index + 1));
            if self.moved[index].0 == rva {
                return Some(self.moved[index].1);
            }
            index += 1;
        }
        None
    }

    /// The length of the instruction that now stands at `to`.
    pub fn len_at(&self, to: Rva) -> (r: Option<usize>)
        ensures
            r == length_at(self.rva, self.bytes@, to),
    {
        if to.0 < self.rva.0 {
            return None;
        }
        let offset: usize = (to.0 - self.rva.0) as usize;
        if offset >= self.bytes.len() {
            return None;
        }
        let rest = slice_subrange(self.bytes.as_slice(), offset, self.bytes.len());
        assert(rest@ =~= self.bytes@.skip(offset as int));
        let raw = decode_one(rest, to.0 as u64);
        if raw.invalid {
            None
        } else {
            Some(raw.len)
        }
    }

    /// The length that the instruction at `rva` has where it went.
    pub fn instruction_len(&self, rva: Rva) -> (r: Option<usize>)
        ensures
            r == length_of(self.rva, self.bytes@, destination(self.moved@, rva)),
    {
        match self.new_rva(rva) {
            Some(to) => self.len_at(to),
            None => None,
        }
    }

    /// The measurements of all instructions that moved.
    pub fn measure(&self) -> (measured: Vec<Measured>)
        ensures
            measured@ == self.measurements(),
    {
        let mut measured: Vec<Measured> = Vec::new();
        let mut index: usize = 0;
        while index < self.moved.len()
            invariant
                index <= self.moved@.len(),
                measured@ == self.measurements().take(index as int),
            decreases self.moved@.len() - index,
        {
            let (from, to) = self.moved[index];
            let len = self.len_at(to);
            measured.push(Measured { from, to, len });
            index += 1;
            assert(measured@ =~= self.measurements().take(index as int));
        }
        assert(measured@ =~= self.measurements());
        measured
    }
}

/// Every instruction that moved is measured: where it came from, where it went, and how
/// long what stands there is.
pub proof fn lemma_every_moved_instruction_is_measured(copy: Relocated, i: int)
    requires
        0 <= i < copy.moved@.len(),
    ensures
        copy.measurements().len() == copy.moved@.len(),
        copy.measurements()[i].from == copy.moved@[i].0,
        copy.measurements()[i].to == copy.moved@[i].1,
        ({
            let place = copy.moved@[i].1;
            let offset = place.0 - copy.rva.0;
            let raw = decoder::decoded(copy.bytes@.skip(offset), place.0 as u64);
            &&& copy.measurements()[i].len matches Some(len) ==> 0 <= offset < copy.bytes@.len()
                && !raw.invalid && len == raw.len
            &&& copy.measurements()[i].len is None ==> offset < 0 || copy.bytes@.len() <= offset
                || raw.invalid
        }),
{
}

} // verus!
