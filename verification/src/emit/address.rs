//! Addresses relative to the base of an image.

use vstd::prelude::*;

verus! {

/// An address relative to the base of an image.
#[derive(Debug, Clone, Copy, PartialEq, Eq, PartialOrd, Ord, Hash, Structural)]
pub struct Rva(pub u32);

/// The address `amount` bytes after `rva`, if there is one.
pub open spec fn after(rva: Rva, amount: int) -> Option<Rva> {
    if rva.0 + amount <= u32::MAX {
        Some(Rva((rva.0 + amount) as u32))
    } else {
        None
    }
}

impl Rva {
    /// The number of bytes from the image base.
    pub fn get(self) -> (value: u32)
        ensures
            value == self.0,
    {
        self.0
    }

    /// The address `amount` bytes further on.
    pub fn checked_add(self, amount: u32) -> (r: Option<Rva>)
        ensures
            r == after(self, amount as int),
    {
        match self.0.checked_add(amount) {
            Some(value) => Some(Rva(value)),
            None => None,
        }
    }

    /// The virtual address, for an image at `base`.
    pub fn to_va(self, base: u64) -> (r: Option<u64>)
        ensures
            r == (if base + self.0 <= u64::MAX {
                Some((base + self.0) as u64)
            } else {
                None
            }),
    {
        base.checked_add(self.0 as u64)
    }
}

/// The four bytes of `value`, lowest first.
pub open spec fn little_endian(value: u32) -> Seq<u8> {
    seq![
        (value % 256) as u8,
        (value / 256 % 256) as u8,
        (value / 65536 % 256) as u8,
        (value / 16777216) as u8,
    ]
}

/// A signed displacement as the 32 bits that encode it.
pub open spec fn two_complement(value: int) -> u32 {
    if value < 0 {
        (value + 0x1_0000_0000) as u32
    } else {
        value as u32
    }
}

/// A displacement that a near branch can hold.
pub open spec fn fits_near(value: int) -> bool {
    -0x8000_0000 <= value <= 0x7fff_ffff
}

/// The four bytes of a displacement, lowest first.
pub fn displacement_bytes(value: i32) -> (bytes: [u8; 4])
    ensures
        bytes@ == little_endian(two_complement(value as int)),
{
    let bits: u32 = if value < 0 {
        (value as i64 + 0x1_0000_0000) as u32
    } else {
        value as u32
    };
    let bytes: [u8; 4] = [
        (bits % 256) as u8,
        (bits / 256 % 256) as u8,
        (bits / 65536 % 256) as u8,
        (bits / 16777216) as u8,
    ];
    assert(bytes@ =~= little_endian(bits));
    bytes
}

/// `data` with `bytes` written over it from `offset` on.
pub open spec fn overwritten(data: Seq<u8>, offset: int, bytes: Seq<u8>) -> Seq<u8> {
    Seq::new(
        data.len(),
        |i: int|
            if offset <= i < offset + bytes.len() {
                bytes[i - offset]
            } else {
                data[i]
            },
    )
}

/// `data` with `length` bytes from `offset` on replaced by `fill`.
pub open spec fn filled(data: Seq<u8>, offset: int, length: int, fill: u8) -> Seq<u8> {
    Seq::new(
        data.len(),
        |i: int|
            if offset <= i < offset + length {
                fill
            } else {
                data[i]
            },
    )
}

/// Writes the four bytes of a displacement.
pub fn write_displacement(data: &mut Vec<u8>, offset: usize, value: i32)
    requires
        offset + 4 <= old(data)@.len(),
    ensures
        final(data)@ == overwritten(
            old(data)@,
            offset as int,
            little_endian(two_complement(value as int)),
        ),
{
    let bytes = displacement_bytes(value);
    assert(data.len() == data@.len());
    data.set(offset, bytes[0]);
    data.set(offset + 1, bytes[1]);
    data.set(offset + 2, bytes[2]);
    data.set(offset + 3, bytes[3]);
    assert(data@ =~= overwritten(old(data)@, offset as int, bytes@));
}

/// Replaces the bytes from `offset` up to `end` by `fill`.
pub fn fill_range(data: &mut Vec<u8>, offset: usize, end: usize, fill: u8)
    requires
        offset <= end <= old(data)@.len(),
    ensures
        final(data)@ == filled(old(data)@, offset as int, end - offset, fill),
{
    let mut index: usize = offset;
    assert(data@ =~= filled(old(data)@, offset as int, 0, fill));
    while index < end
        invariant
            offset <= index <= end <= data@.len(),
            data@ == filled(old(data)@, offset as int, index - offset, fill),
        decreases end - index,
    {
        data.set(index, fill);
        index += 1;
        assert(data@ =~= filled(old(data)@, offset as int, index - offset, fill));
    }
}

} // verus!
