//! Placing a generated instance of the virtual machine, and translating its
//! offsets to addresses of the image.

use vstd::prelude::*;

use crate::emit::address;
use crate::emit::address::Rva;
use crate::emit::code::{Architecture, RuntimeFunction};
use crate::emit::decoder;
use crate::emit::decoder::{decode_one, decodes_as};
use crate::emit::error::PeError;

verus! {

/// Why an instance could not be placed.
#[derive(Debug, PartialEq, Eq)]
pub enum VmPlacementError {
    /// The image base is not aligned to 64 KiB.
    ImageBaseAlignment,
    /// The virtual address of the place overflows.
    AddressOverflow,
    /// The instance exceeds the addresses of an image.
    RvaOverflow,
    /// What the generator reported.
    Instance(String),
    /// What the table of fixups reported.
    Relocations(PeError),
}

/// Why an instance could not be put into an image.
#[derive(Debug, PartialEq, Eq)]
pub enum VmEmbeddingError {
    /// The source of a leaf does not match executable bytes of the image, does not
    /// end in a return, or is already described to the unwinder.
    LeafSource,
    /// The image is not a 64-bit one.
    Architecture,
    Pe(PeError),
    Placement(VmPlacementError),
}

/// A range of offsets in an instance.
#[derive(Debug, Clone, Copy, PartialEq, Eq, Structural)]
pub struct OffsetRange {
    pub start: usize,
    pub end: usize,
}

/// A range of an instance, and the encoded unwind codes for it.
#[derive(Debug, PartialEq, Eq)]
pub struct CodedRange {
    pub range: OffsetRange,
    pub codes: Vec<u8>,
}

/// How an instance is unwound.
#[derive(Debug, PartialEq, Eq)]
pub struct InstanceUnwind {
    /// The parts of the processor. The second of them is unwound by
    /// `shifted_handler`, the others by the start of `handler`.
    pub processor: Vec<CodedRange>,
    pub handler: OffsetRange,
    pub shifted_handler: usize,
    pub entry: CodedRange,
    pub exit: Vec<CodedRange>,
    /// The offset of a return without a frame.
    pub empty_ret: usize,
}

/// A generated instance.
#[derive(Debug, PartialEq, Eq)]
pub struct NativeInstance {
    pub image: Vec<u8>,
    pub entry_offset: usize,
    /// Where the instance holds absolute addresses.
    pub absolute_address_offsets: Vec<usize>,
    pub unwind: Option<InstanceUnwind>,
}

/// How wide the word is that the loader adjusts.
#[derive(Debug, Clone, Copy, PartialEq, Eq, Structural)]
pub enum FixupKind {
    Dir64,
}

/// A place that the loader adjusts when the image moves.
#[derive(Debug, Clone, Copy, PartialEq, Eq, Structural)]
pub struct Fixup {
    pub rva: Rva,
    pub kind: FixupKind,
}

// ---------------------------------------------------------------------------
// Addresses
// ---------------------------------------------------------------------------

/// The virtual address of an instance. The base is aligned to 64 KiB, so that the
/// low bits of an address survive loading at another base.
pub open spec fn address_of(image_base: u64, rva: Rva) -> Result<u64, VmPlacementError> {
    if image_base % 0x10000 != 0 {
        Err(VmPlacementError::ImageBaseAlignment)
    } else if image_base + rva.0 > u64::MAX {
        Err(VmPlacementError::AddressOverflow)
    } else {
        Ok((image_base + rva.0) as u64)
    }
}

/// The virtual address of an instance.
pub fn placement_address(image_base: u64, rva: Rva) -> (r: Result<u64, VmPlacementError>)
    ensures
        r == address_of(image_base, rva),
{
    if image_base % 0x10000 != 0 {
        return Err(VmPlacementError::ImageBaseAlignment);
    }
    match rva.to_va(image_base) {
        Some(address) => Ok(address),
        None => Err(VmPlacementError::AddressOverflow),
    }
}

/// The address `offset` bytes into an instance at `rva`.
pub open spec fn at(rva: Rva, offset: int) -> Option<Rva> {
    if offset > u32::MAX {
        None
    } else {
        address::after(rva, offset)
    }
}

/// The address `offset` bytes into an instance at `rva`.
pub fn rva_at(rva: Rva, offset: usize) -> (r: Result<Rva, VmPlacementError>)
    ensures
        r == (match at(rva, offset as int) {
            Some(address) => Ok(address),
            None => Err(VmPlacementError::RvaOverflow),
        }),
{
    if offset > u32::MAX as usize {
        return Err(VmPlacementError::RvaOverflow);
    }
    match rva.checked_add(offset as u32) {
        Some(address) => Ok(address),
        None => Err(VmPlacementError::RvaOverflow),
    }
}

/// The fixups for the first `count` absolute addresses, up to the first that exceeds
/// the addresses of an image, and whether there is none such.
pub open spec fn fixups_at(rva: Rva, offsets: Seq<usize>, count: nat) -> (Seq<Fixup>, bool)
    decreases count,
{
    if count == 0 || count > offsets.len() {
        (Seq::empty(), true)
    } else {
        let before = fixups_at(rva, offsets, (count - 1) as nat);
        if !before.1 {
            before
        } else {
            match at(rva, offsets[count - 1] as int) {
                Some(address) => (
                    before.0.push(Fixup { rva: address, kind: FixupKind::Dir64 }),
                    true,
                ),
                None => (before.0, false),
            }
        }
    }
}

/// An address that exceeds those of an image ends the fixups.
proof fn lemma_fixups_prefix(rva: Rva, offsets: Seq<usize>, few: nat, many: nat)
    requires
        few <= many <= offsets.len(),
        !fixups_at(rva, offsets, few).1,
    ensures
        fixups_at(rva, offsets, many) == fixups_at(rva, offsets, few),
    decreases many,
{
    if few < many {
        lemma_fixups_prefix(rva, offsets, few, (many - 1) as nat);
    }
}

/// What links a placed instance to the image.
#[derive(Debug, PartialEq, Eq)]
pub struct Links {
    pub entry: Rva,
    /// The fixups for the absolute addresses, in order.
    pub fixups: Vec<Fixup>,
    /// Whether there is a fixup for every absolute address. Where one exceeds the
    /// addresses of an image, the fixups in front of it are there.
    pub complete: bool,
}

/// The entry of an instance at `rva`, its fixups, and whether they are all there.
pub open spec fn links_of(instance: NativeInstance, rva: Rva) -> Option<(Rva, Seq<Fixup>, bool)> {
    let offsets = instance.absolute_address_offsets@;
    let (fixups, complete) = fixups_at(rva, offsets, offsets.len());
    match (at(rva, instance.image@.len() as int), at(rva, instance.entry_offset as int)) {
        (Some(end), Some(entry)) => Some((entry, fixups, complete)),
        _ => None,
    }
}

/// Finds the entry of an instance at `rva`, and its fixups.
pub fn instance_links(instance: &NativeInstance, rva: Rva) -> (r: Result<Links, VmPlacementError>)
    ensures
        match links_of(*instance, rva) {
            Some((entry, fixups, complete)) => r matches Ok(links) && links.entry == entry
                && links.fixups@ == fixups && links.complete == complete,
            None => r == Err::<Links, VmPlacementError>(VmPlacementError::RvaOverflow),
        },
{
    match rva_at(rva, instance.image.len()) {
        Ok(_) => {},
        Err(error) => return Err(error),
    }
    let entry = match rva_at(rva, instance.entry_offset) {
        Ok(entry) => entry,
        Err(error) => return Err(error),
    };
    let mut fixups: Vec<Fixup> = Vec::new();
    let ghost offsets = instance.absolute_address_offsets@;
    let mut index: usize = 0;
    assert(fixups@ =~= Seq::empty());
    while index < instance.absolute_address_offsets.len()
        invariant
            index <= offsets.len(),
            offsets == instance.absolute_address_offsets@,
            at(rva, instance.image@.len() as int) is Some,
            at(rva, instance.entry_offset as int) == Some(entry),
            fixups_at(rva, offsets, index as nat) == (fixups@, true),
        decreases offsets.len() - index,
    {
        match rva_at(rva, instance.absolute_address_offsets[index]) {
            Ok(address) => fixups.push(Fixup { rva: address, kind: FixupKind::Dir64 }),
            Err(_) => {
                proof {
                    lemma_fixups_prefix(rva, offsets, (index + 1) as nat, offsets.len());
                }
                return Ok(Links { entry, fixups, complete: false });
            },
        }
        index += 1;
    }
    Ok(Links { entry, fixups, complete: true })
}

// ---------------------------------------------------------------------------
// The image of an instance
// ---------------------------------------------------------------------------

/// The image that is built, and the functions in it that are described to the
/// unwinder.
#[verifier::ext_equal]
pub struct Built {
    pub image: Seq<u8>,
    pub functions: Seq<RuntimeFunction>,
}

/// The bytes that pad `length` to a multiple of four.
pub open spec fn zeros_behind(length: nat) -> Seq<u8> {
    Seq::new((if length % 4 == 0 { 0 } else { 4 - length % 4 }) as nat, |i: int| 0u8)
}

/// `built` with `codes` put behind it as the unwind information of `range`.
pub open spec fn described(built: Built, rva: Rva, range: OffsetRange, codes: Seq<u8>) -> Option<
    Built,
> {
    match (
        at(rva, built.image.len() as int),
        at(rva, range.start as int),
        at(rva, range.end as int),
    ) {
        (Some(unwind_info), Some(begin), Some(end)) => Some(
            Built {
                image: built.image + codes,
                functions: built.functions.push(RuntimeFunction { begin, end, unwind_info }),
            },
        ),
        _ => None,
    }
}

/// The handler of part `index` of the processor.
pub open spec fn handler_of(unwind: InstanceUnwind, index: int) -> usize {
    if index == 1 {
        unwind.shifted_handler
    } else {
        unwind.handler.start
    }
}

/// `built` with the first `count` parts of the processor described: the codes, the
/// address of the handler, and no data for the handler.
pub open spec fn with_processor(
    built: Built,
    rva: Rva,
    unwind: InstanceUnwind,
    count: nat,
) -> Option<Built>
    decreases count,
{
    if count == 0 || count > unwind.processor@.len() {
        Some(built)
    } else {
        let index = count - 1;
        let part = unwind.processor@[index];
        match (
            with_processor(built, rva, unwind, index as nat),
            at(rva, handler_of(unwind, index) as int),
        ) {
            (Some(before), Some(handler)) => described(
                before,
                rva,
                part.range,
                part.codes@ + address::little_endian(handler.0) + address::little_endian(0),
            ),
            _ => None,
        }
    }
}

/// `built` with the first `count` ranges described.
pub open spec fn with_ranges(built: Built, rva: Rva, ranges: Seq<CodedRange>, count: nat) -> Option<
    Built,
>
    decreases count,
{
    if count == 0 || count > ranges.len() {
        Some(built)
    } else {
        match with_ranges(built, rva, ranges, (count - 1) as nat) {
            Some(before) => described(
                before,
                rva,
                ranges[count - 1].range,
                ranges[count - 1].codes@,
            ),
            None => None,
        }
    }
}

/// Unwind information without codes, and room behind it.
pub open spec fn empty_info() -> Seq<u8> {
    seq![1u8, 0, 0, 0, 0, 0, 0, 0]
}

/// `built` with the return without a frame and the handler described, which need no
/// codes.
pub open spec fn with_empty(built: Built, rva: Rva, unwind: InstanceUnwind) -> Option<Built> {
    match (
        at(rva, built.image.len() as int),
        at(rva, unwind.empty_ret as int),
        at(rva, unwind.empty_ret + 1),
        at(rva, unwind.handler.start as int),
        at(rva, unwind.handler.end as int),
    ) {
        (Some(unwind_info), Some(ret), Some(ret_end), Some(begin), Some(end)) => Some(
            Built {
                image: built.image + empty_info(),
                functions: built.functions.push(
                    RuntimeFunction { begin: ret, end: ret_end, unwind_info },
                ).push(RuntimeFunction { begin, end, unwind_info }),
            },
        ),
        _ => None,
    }
}

/// `built` with all of `unwind` put behind it.
pub open spec fn with_unwind(built: Built, rva: Rva, unwind: InstanceUnwind) -> Option<Built> {
    match with_processor(built, rva, unwind, unwind.processor@.len()) {
        None => None,
        Some(processor) => match described(
            processor,
            rva,
            unwind.entry.range,
            unwind.entry.codes@,
        ) {
            None => None,
            Some(entry) => match with_ranges(entry, rva, unwind.exit@, unwind.exit@.len()) {
                None => None,
                Some(exit) => with_empty(exit, rva, unwind),
            },
        },
    }
}

/// The image of an instance at `rva` with its unwind information.
pub open spec fn built_of(instance: NativeInstance, rva: Rva) -> Option<Built> {
    let image = instance.image@;
    let built = match instance.unwind {
        None => Some(Built { image, functions: Seq::empty() }),
        Some(unwind) => with_unwind(
            Built { image: image + zeros_behind(image.len()), functions: Seq::empty() },
            rva,
            unwind,
        ),
    };
    match built {
        Some(built) => if at(rva, built.image.len() as int) is Some {
            Some(built)
        } else {
            None
        },
        None => None,
    }
}

/// A missing address among the first parts is missing among all.
proof fn lemma_processor_prefix(
    built: Built,
    rva: Rva,
    unwind: InstanceUnwind,
    few: nat,
    many: nat,
)
    requires
        few <= many <= unwind.processor@.len(),
        with_processor(built, rva, unwind, few) is None,
    ensures
        with_processor(built, rva, unwind, many) is None,
    decreases many,
{
    if few < many {
        lemma_processor_prefix(built, rva, unwind, few, (many - 1) as nat);
    }
}

/// A missing address among the first ranges is missing among all.
proof fn lemma_ranges_prefix(
    built: Built,
    rva: Rva,
    ranges: Seq<CodedRange>,
    few: nat,
    many: nat,
)
    requires
        few <= many <= ranges.len(),
        with_ranges(built, rva, ranges, few) is None,
    ensures
        with_ranges(built, rva, ranges, many) is None,
    decreases many,
{
    if few < many {
        lemma_ranges_prefix(built, rva, ranges, few, (many - 1) as nat);
    }
}

/// An image in the making.
struct Builder {
    image: Vec<u8>,
    functions: Vec<RuntimeFunction>,
}

impl View for Builder {
    type V = Built;

    closed spec fn view(&self) -> Built {
        Built { image: self.image@, functions: self.functions@ }
    }
}

impl Builder {
    /// Describes `range`, with the information that will be put behind the image.
    fn describe(&mut self, rva: Rva, range: OffsetRange) -> (r: Result<(), VmPlacementError>)
        ensures
            match described(old(self)@, rva, range, Seq::empty()) {
                Some(built) => r == Ok::<(), VmPlacementError>(()) && final(self)@ == built,
                None => r == Err::<(), VmPlacementError>(VmPlacementError::RvaOverflow),
            },
    {
        let unwind_info = match rva_at(rva, self.image.len()) {
            Ok(unwind_info) => unwind_info,
            Err(error) => return Err(error),
        };
        let begin = match rva_at(rva, range.start) {
            Ok(begin) => begin,
            Err(error) => return Err(error),
        };
        let end = match rva_at(rva, range.end) {
            Ok(end) => end,
            Err(error) => return Err(error),
        };
        self.functions.push(RuntimeFunction { begin, end, unwind_info });
        assert(self@.image =~= old(self)@.image + Seq::<u8>::empty());
        Ok(())
    }

    /// Puts bytes behind the image.
    fn extend(&mut self, bytes: &[u8])
        ensures
            final(self)@.image == old(self)@.image + bytes@,
            final(self)@.functions == old(self)@.functions,
    {
        self.image.extend_from_slice(bytes);
    }

    /// Describes the parts of the processor.
    fn add_processor(&mut self, rva: Rva, unwind: &InstanceUnwind) -> (r: Result<
        (),
        VmPlacementError,
    >)
        ensures
            match with_processor(old(self)@, rva, *unwind, unwind.processor@.len()) {
                Some(built) => r == Ok::<(), VmPlacementError>(()) && final(self)@ == built,
                None => r == Err::<(), VmPlacementError>(VmPlacementError::RvaOverflow),
            },
    {
        let ghost start = self@;
        let mut index: usize = 0;
        while index < unwind.processor.len()
            invariant
                index <= unwind.processor@.len(),
                start == old(self)@,
                with_processor(start, rva, *unwind, index as nat) == Some(self@),
            decreases unwind.processor@.len() - index,
        {
            let ghost before = self@;
            let part = &unwind.processor[index];
            proof {
                if with_processor(start, rva, *unwind, (index + 1) as nat) is None {
                    lemma_processor_prefix(
                        start,
                        rva,
                        *unwind,
                        (index + 1) as nat,
                        unwind.processor@.len(),
                    );
                }
            }
            let offset = if index == 1 {
                unwind.shifted_handler
            } else {
                unwind.handler.start
            };
            let handler = match rva_at(rva, offset) {
                Ok(handler) => handler,
                Err(error) => return Err(error),
            };
            match self.describe(rva, part.range) {
                Ok(_) => {},
                Err(error) => return Err(error),
            }
            self.extend(part.codes.as_slice());
            let bytes = word_bytes(handler.0);
            self.extend(bytes.as_slice());
            let nothing = word_bytes(0);
            self.extend(nothing.as_slice());
            assert(self@.image =~= before.image + (part.codes@ + address::little_endian(handler.0)
                + address::little_endian(0)));
            index += 1;
        }
        Ok(())
    }

    /// Describes ranges.
    fn add_ranges(&mut self, rva: Rva, ranges: &[CodedRange]) -> (r: Result<(), VmPlacementError>)
        ensures
            match with_ranges(old(self)@, rva, ranges@, ranges@.len()) {
                Some(built) => r == Ok::<(), VmPlacementError>(()) && final(self)@ == built,
                None => r == Err::<(), VmPlacementError>(VmPlacementError::RvaOverflow),
            },
    {
        let ghost start = self@;
        let mut index: usize = 0;
        while index < ranges.len()
            invariant
                index <= ranges@.len(),
                start == old(self)@,
                with_ranges(start, rva, ranges@, index as nat) == Some(self@),
            decreases ranges@.len() - index,
        {
            proof {
                if with_ranges(start, rva, ranges@, (index + 1) as nat) is None {
                    lemma_ranges_prefix(start, rva, ranges@, (index + 1) as nat, ranges@.len());
                }
            }
            match self.add_range(rva, &ranges[index]) {
                Ok(_) => {},
                Err(error) => return Err(error),
            }
            index += 1;
        }
        Ok(())
    }

    /// Describes a range.
    fn add_range(&mut self, rva: Rva, coded: &CodedRange) -> (r: Result<(), VmPlacementError>)
        ensures
            match described(old(self)@, rva, coded.range, coded.codes@) {
                Some(built) => r == Ok::<(), VmPlacementError>(()) && final(self)@ == built,
                None => r == Err::<(), VmPlacementError>(VmPlacementError::RvaOverflow),
            },
    {
        match self.describe(rva, coded.range) {
            Ok(_) => {},
            Err(error) => return Err(error),
        }
        self.extend(coded.codes.as_slice());
        assert(self@.image =~= old(self)@.image + coded.codes@);
        Ok(())
    }

    /// Describes what needs no codes.
    fn add_empty(&mut self, rva: Rva, unwind: &InstanceUnwind) -> (r: Result<
        (),
        VmPlacementError,
    >)
        ensures
            match with_empty(old(self)@, rva, *unwind) {
                Some(built) => r == Ok::<(), VmPlacementError>(()) && final(self)@ == built,
                None => r == Err::<(), VmPlacementError>(VmPlacementError::RvaOverflow),
            },
    {
        let ghost before = self@;
        let ret_end = match unwind.empty_ret.checked_add(1) {
            Some(end) => end,
            None => return Err(VmPlacementError::RvaOverflow),
        };
        match self.describe(rva, OffsetRange { start: unwind.empty_ret, end: ret_end }) {
            Ok(_) => {},
            Err(error) => return Err(error),
        }
        match self.describe(rva, unwind.handler) {
            Ok(_) => {},
            Err(error) => return Err(error),
        }
        let info: [u8; 8] = [1, 0, 0, 0, 0, 0, 0, 0];
        self.extend(info.as_slice());
        proof {
            assert(info@ =~= empty_info());
            assert(self@.image =~= before.image + empty_info());
        }
        Ok(())
    }

    /// Puts all of `unwind` behind the image.
    fn add_unwind(&mut self, rva: Rva, unwind: &InstanceUnwind) -> (r: Result<
        (),
        VmPlacementError,
    >)
        ensures
            match with_unwind(old(self)@, rva, *unwind) {
                Some(built) => r == Ok::<(), VmPlacementError>(()) && final(self)@ == built,
                None => r == Err::<(), VmPlacementError>(VmPlacementError::RvaOverflow),
            },
    {
        match self.add_processor(rva, unwind) {
            Ok(_) => {},
            Err(error) => return Err(error),
        }
        match self.add_range(rva, &unwind.entry) {
            Ok(_) => {},
            Err(error) => return Err(error),
        }
        match self.add_ranges(rva, unwind.exit.as_slice()) {
            Ok(_) => {},
            Err(error) => return Err(error),
        }
        self.add_empty(rva, unwind)
    }
}

/// The four bytes of a word, lowest first.
fn word_bytes(value: u32) -> (bytes: [u8; 4])
    ensures
        bytes@ == address::little_endian(value),
{
    let bytes: [u8; 4] = [
        (value % 256) as u8,
        (value / 256 % 256) as u8,
        (value / 65536 % 256) as u8,
        (value / 16777216) as u8,
    ];
    assert(bytes@ =~= address::little_endian(value));
    bytes
}

/// Pads `image` with zeros to a multiple of four bytes.
fn pad_to_word(image: &mut Vec<u8>)
    ensures
        final(image)@ == old(image)@ + zeros_behind(old(image)@.len()),
{
    let ghost start = image@;
    let rest: usize = image.len() % 4;
    let count: usize = if rest == 0 {
        0
    } else {
        4 - rest
    };
    let mut added: usize = 0;
    assert(image@ =~= start + Seq::new(0, |i: int| 0u8));
    while added < count
        invariant
            added <= count,
            image@ == start + Seq::new(added as nat, |i: int| 0u8),
        decreases count - added,
    {
        image.push(0);
        added += 1;
        assert(image@ =~= start + Seq::new(added as nat, |i: int| 0u8));
    }
    assert(image@ =~= start + zeros_behind(start.len()));
}

/// An instance in its place: its bytes, its entry, its fixups and the functions in
/// it that are described to the unwinder.
#[derive(Debug, PartialEq, Eq)]
pub struct VmPlacement {
    image: Vec<u8>,
    functions: Vec<RuntimeFunction>,
    rva: Rva,
    entry: Rva,
    relocations: Vec<Fixup>,
}

/// The mathematical view of an instance in its place.
#[verifier::ext_equal]
pub struct PlacementView {
    pub image: Seq<u8>,
    pub functions: Seq<RuntimeFunction>,
    pub rva: Rva,
    pub entry: Rva,
    pub relocations: Seq<Fixup>,
}

impl View for VmPlacement {
    type V = PlacementView;

    closed spec fn view(&self) -> PlacementView {
        PlacementView {
            image: self.image@,
            functions: self.functions@,
            rva: self.rva,
            entry: self.entry,
            relocations: self.relocations@,
        }
    }
}

/// An instance in its place. `inserted` is what the table of fixups said to those of
/// the instance, one after the other. An absolute address that exceeds those of an
/// image is reported once the fixups in front of it were inserted.
pub open spec fn placed(
    generated: Result<NativeInstance, String>,
    image_base: u64,
    rva: Rva,
    inserted: Result<(), PeError>,
) -> Result<PlacementView, VmPlacementError> {
    match (address_of(image_base, rva), generated) {
        (Err(error), _) => Err(error),
        (_, Err(message)) => Err(VmPlacementError::Instance(message)),
        (Ok(address), Ok(instance)) => match (links_of(instance, rva), inserted) {
            (None, _) => Err(VmPlacementError::RvaOverflow),
            (_, Err(error)) => Err(VmPlacementError::Relocations(error)),
            (Some((entry, relocations, complete)), Ok(_)) => match built_of(instance, rva) {
                None => Err(VmPlacementError::RvaOverflow),
                Some(built) => if !complete {
                    Err(VmPlacementError::RvaOverflow)
                } else {
                    Ok(
                        PlacementView {
                            image: built.image,
                            functions: built.functions,
                            rva,
                            entry,
                            relocations,
                        },
                    )
                },
            },
        },
    }
}

impl VmPlacement {
    /// Puts an instance, which was generated for the address of `rva`, into its
    /// place. `rva` locates the whole instance, not its entry. `inserted` is what the
    /// table of fixups said to those of the instance.
    pub fn generate(
        generated: Result<NativeInstance, String>,
        image_base: u64,
        rva: Rva,
        inserted: Result<(), PeError>,
    ) -> (r: Result<VmPlacement, VmPlacementError>)
        ensures
            match placed(generated, image_base, rva, inserted) {
                Ok(view) => r matches Ok(placement) && placement@ == view,
                Err(error) => r == Err::<VmPlacement, VmPlacementError>(error),
            },
    {
        match placement_address(image_base, rva) {
            Ok(_) => {},
            Err(error) => return Err(error),
        }
        let instance = match generated {
            Ok(instance) => instance,
            Err(message) => return Err(VmPlacementError::Instance(message)),
        };
        let links = match instance_links(&instance, rva) {
            Ok(links) => links,
            Err(error) => return Err(error),
        };
        if let Err(error) = inserted {
            return Err(VmPlacementError::Relocations(error));
        }
        if !links.complete {
            return Err(VmPlacementError::RvaOverflow);
        }
        let mut builder = Builder { image: instance.image, functions: Vec::new() };
        assert(builder.functions@ =~= Seq::empty());
        if let Some(unwind) = &instance.unwind {
            pad_to_word(&mut builder.image);
            match builder.add_unwind(rva, unwind) {
                Ok(_) => {},
                Err(error) => return Err(error),
            }
        }
        match rva_at(rva, builder.image.len()) {
            Ok(_) => {},
            Err(error) => return Err(error),
        }
        Ok(
            VmPlacement {
                image: builder.image,
                functions: builder.functions,
                rva,
                entry: links.entry,
                relocations: links.fixups,
            },
        )
    }

    /// The bytes of the instance and of its unwind information.
    pub fn image(&self) -> (image: &[u8])
        ensures
            image@ == self@.image,
    {
        self.image.as_slice()
    }

    /// The functions that are described to the unwinder.
    pub fn functions(&self) -> (functions: &[RuntimeFunction])
        ensures
            functions@ == self@.functions,
    {
        self.functions.as_slice()
    }

    /// Where the instance stands.
    pub fn rva(&self) -> (rva: Rva)
        ensures
            rva == self@.rva,
    {
        self.rva
    }

    /// Where the instance is entered.
    pub fn entry_rva(&self) -> (rva: Rva)
        ensures
            rva == self@.entry,
    {
        self.entry
    }

    /// The places that the loader adjusts.
    pub fn relocations(&self) -> (relocations: &[Fixup])
        ensures
            relocations@ == self@.relocations,
    {
        self.relocations.as_slice()
    }
}

// ---------------------------------------------------------------------------
// The source of a leaf
// ---------------------------------------------------------------------------

/// The bit of a section that holds code.
pub const SECTION_EXECUTE: u32 = 0x2000_0000;

/// The byte of a return.
pub const RETURN: u8 = 0xc3;

/// An instruction that an instance was generated from.
#[derive(Debug)]
pub struct LeafSource {
    pub rva: Option<Rva>,
    pub bytes: Vec<u8>,
    /// The address that the instruction was decoded for.
    pub ip: u64,
    pub len: u8,
    pub raw: iced_x86::Instruction,
}

/// Where a section of the image is mapped.
#[derive(Debug, Clone, Copy, PartialEq, Eq, Structural)]
pub struct SectionRange {
    pub characteristics: u32,
    pub virtual_address: Rva,
    pub virtual_size: u32,
}

/// What is known of the image that an instance goes into.
#[derive(Debug, PartialEq, Eq)]
pub struct LeafImage {
    pub image_base: u64,
    pub sections: Vec<SectionRange>,
    /// The functions that are described to the unwinder.
    pub functions: Vec<RuntimeFunction>,
}

/// The section holds code, and all of the `len` bytes at `rva`.
pub open spec fn section_holds(section: SectionRange, rva: Rva, len: u8) -> bool {
    &&& section.characteristics & SECTION_EXECUTE != 0
    &&& section.virtual_address.0 <= rva.0
    &&& rva.0 + len <= section.virtual_address.0 + section.virtual_size
}

/// The function and the `len` bytes at `rva` have a byte in common.
pub open spec fn meets(function: RuntimeFunction, rva: Rva, len: u8) -> bool {
    rva.0 < function.end.0 && rva.0 + len > function.begin.0
}

impl LeafImage {
    /// Some section of code holds the bytes.
    pub open spec fn executes(&self, rva: Rva, len: u8) -> bool {
        exists|i: int|
            0 <= i < self.sections@.len() && section_holds(#[trigger] self.sections@[i], rva, len)
    }

    /// Some function that is described to the unwinder meets the bytes.
    pub open spec fn describes(&self, rva: Rva, len: u8) -> bool {
        exists|i: int|
            0 <= i < self.functions@.len() && meets(#[trigger] self.functions@[i], rva, len)
    }

    /// Reports whether some section of code holds the bytes.
    fn holds_code(&self, rva: Rva, len: u8) -> (yes: bool)
        ensures
            yes == self.executes(rva, len),
    {
        let mut index: usize = 0;
        while index < self.sections.len()
            invariant
                index <= self.sections@.len(),
                forall|i: int|
                    0 <= i < index ==> !section_holds(#[trigger] self.sections@[i], rva, len),
            decreases self.sections@.len() - index,
        {
            let section = self.sections[index];
            if section.characteristics & SECTION_EXECUTE != 0 && section.virtual_address.0 <= rva.0
                && rva.0 as u64 + len as u64 <= section.virtual_address.0 as u64
                + section.virtual_size as u64 {
                assert(section_holds(self.sections@[index as int], rva, len));
                return true;
            }
            index += 1;
        }
        false
    }

    /// Reports whether some function that is described to the unwinder meets the
    /// bytes.
    fn is_described(&self, rva: Rva, len: u8) -> (yes: bool)
        ensures
            yes == self.describes(rva, len),
    {
        let mut index: usize = 0;
        while index < self.functions.len()
            invariant
                index <= self.functions@.len(),
                forall|i: int| 0 <= i < index ==> !meets(#[trigger] self.functions@[i], rva, len),
            decreases self.functions@.len() - index,
        {
            let function = self.functions[index];
            if rva.0 < function.end.0 && rva.0 as u64 + len as u64 > function.begin.0 as u64 {
                assert(meets(self.functions@[index as int], rva, len));
                return true;
            }
            index += 1;
        }
        false
    }
}

/// The bytes of the image at `rva` are those of the source, which was decoded for
/// that place, and the image runs them without describing them to the unwinder.
/// `invalid` and `same` tell what the bytes decode to.
pub open spec fn is_leaf_source(
    source: LeafSource,
    rva: Rva,
    encoding: Seq<u8>,
    invalid: bool,
    same: bool,
    image: LeafImage,
) -> bool {
    &&& image.image_base + rva.0 == source.ip
    &&& encoding == source.bytes@
    &&& !invalid
    &&& same
    &&& image.executes(rva, source.len)
    &&& !image.describes(rva, source.len)
}

/// The verdict on one instruction of a leaf. `encoding` is what the image holds
/// there.
pub open spec fn leaf_verdict(
    source: LeafSource,
    encoding: Result<Vec<u8>, PeError>,
    image: LeafImage,
) -> Result<(), VmEmbeddingError> {
    match (source.rva, encoding) {
        (None, _) => Err(VmEmbeddingError::LeafSource),
        (_, Err(error)) => Err(VmEmbeddingError::Pe(error)),
        (Some(rva), Ok(bytes)) => if is_leaf_source(
            source,
            rva,
            bytes@,
            decoder::decoded(bytes@, source.ip).invalid,
            decoder::reads_as(bytes@, source.ip, source.raw),
            image,
        ) {
            Ok(())
        } else {
            Err(VmEmbeddingError::LeafSource)
        },
    }
}

/// Reports whether two slices hold the same bytes.
fn same_bytes(a: &[u8], b: &[u8]) -> (yes: bool)
    ensures
        yes == (a@ == b@),
{
    if a.len() != b.len() {
        return false;
    }
    let mut index: usize = 0;
    while index < a.len()
        invariant
            index <= a@.len(),
            a@.len() == b@.len(),
            forall|i: int| 0 <= i < index ==> a@[i] == b@[i],
        decreases a@.len() - index,
    {
        if a[index] != b[index] {
            assert(a@[index as int] != b@[index as int]);
            return false;
        }
        index += 1;
    }
    assert(a@ =~= b@);
    true
}

/// Finds out whether an instruction, of which it is known what the bytes of the
/// image decode to, can be the source of a leaf.
pub fn matches_image(
    source: &LeafSource,
    rva: Rva,
    encoding: &[u8],
    invalid: bool,
    same: bool,
    image: &LeafImage,
) -> (yes: bool)
    ensures
        yes == is_leaf_source(*source, rva, encoding@, invalid, same, *image),
{
    rva.to_va(image.image_base) == Some(source.ip) && same_bytes(encoding, source.bytes.as_slice())
        && !invalid && same && image.holds_code(rva, source.len) && !image.is_described(
        rva,
        source.len,
    )
}

/// Finds out whether an instruction can be the source of a leaf. `encoding` is what
/// the image holds there.
pub fn check_leaf_source(
    source: &LeafSource,
    encoding: Result<Vec<u8>, PeError>,
    image: &LeafImage,
) -> (r: Result<(), VmEmbeddingError>)
    ensures
        r == leaf_verdict(*source, encoding, *image),
{
    let rva = match source.rva {
        Some(rva) => rva,
        None => return Err(VmEmbeddingError::LeafSource),
    };
    let bytes = match encoding {
        Ok(bytes) => bytes,
        Err(error) => return Err(VmEmbeddingError::Pe(error)),
    };
    let invalid = decode_one(bytes.as_slice(), source.ip).invalid;
    let same = decodes_as(bytes.as_slice(), source.ip, &source.raw);
    if matches_image(source, rva, bytes.as_slice(), invalid, same, image) {
        Ok(())
    } else {
        Err(VmEmbeddingError::LeafSource)
    }
}

/// The address behind the last instruction of a leaf, where the return stands.
pub open spec fn return_of(sources: Seq<LeafSource>) -> Result<Rva, VmEmbeddingError> {
    if sources.len() == 0 {
        Err(VmEmbeddingError::LeafSource)
    } else {
        match sources.last().rva {
            None => Err(VmEmbeddingError::LeafSource),
            Some(rva) => match address::after(rva, sources.last().len as int) {
                None => Err(VmEmbeddingError::LeafSource),
                Some(behind) => Ok(behind),
            },
        }
    }
}

/// The address behind the last instruction of a leaf, where the return stands.
pub fn leaf_return(sources: &[LeafSource]) -> (r: Result<Rva, VmEmbeddingError>)
    ensures
        r == return_of(sources@),
{
    if sources.len() == 0 {
        return Err(VmEmbeddingError::LeafSource);
    }
    let last = &sources[sources.len() - 1];
    let rva = match last.rva {
        Some(rva) => rva,
        None => return Err(VmEmbeddingError::LeafSource),
    };
    match rva.checked_add(last.len as u32) {
        Some(behind) => Ok(behind),
        None => Err(VmEmbeddingError::LeafSource),
    }
}

/// The verdict on what the image holds behind a leaf.
pub open spec fn return_verdict(encoding: Result<Vec<u8>, PeError>) -> Result<
    (),
    VmEmbeddingError,
> {
    match encoding {
        Err(error) => Err(VmEmbeddingError::Pe(error)),
        Ok(bytes) => if bytes@ == seq![RETURN] {
            Ok(())
        } else {
            Err(VmEmbeddingError::LeafSource)
        },
    }
}

/// Finds out whether what the image holds behind a leaf is a return.
pub fn check_leaf_return(encoding: Result<Vec<u8>, PeError>) -> (r: Result<(), VmEmbeddingError>)
    ensures
        r == return_verdict(encoding),
{
    let bytes = match encoding {
        Ok(bytes) => bytes,
        Err(error) => return Err(VmEmbeddingError::Pe(error)),
    };
    if bytes.len() == 1 && bytes[0] == RETURN {
        assert(bytes@ =~= seq![RETURN]);
        return Ok(());
    }
    assert(bytes@ == seq![RETURN] ==> bytes@.len() == 1 && bytes@[0] == RETURN);
    Err(VmEmbeddingError::LeafSource)
}

/// Finds out whether an instance can go into an image of this architecture.
pub fn check_architecture(architecture: Architecture) -> (r: Result<(), VmEmbeddingError>)
    ensures
        r == (match architecture {
            Architecture::X64 => Ok(()),
            Architecture::X86 => Err(VmEmbeddingError::Architecture),
        }),
{
    match architecture {
        Architecture::X64 => Ok(()),
        Architecture::X86 => Err(VmEmbeddingError::Architecture),
    }
}

// ---------------------------------------------------------------------------
// The finished image
// ---------------------------------------------------------------------------

/// An image with an instance behind its sections. Nothing in the image leads to the
/// instance yet.
#[derive(Debug, PartialEq, Eq)]
pub struct VmPeArtifact {
    image: Vec<u8>,
    placement: VmPlacement,
}

impl VmPeArtifact {
    /// The bytes of the image.
    pub closed spec fn image(&self) -> Seq<u8> {
        self.image@
    }

    /// The instance in its place.
    pub closed spec fn instance(&self) -> VmPlacement {
        self.placement
    }

    /// An image and the instance that was put into it.
    pub fn new(image: Vec<u8>, placement: VmPlacement) -> (artifact: Self)
        ensures
            artifact.image() == image@,
            artifact.instance() == placement,
    {
        VmPeArtifact { image, placement }
    }

    /// The bytes of the image.
    pub fn bytes(&self) -> (bytes: &[u8])
        ensures
            bytes@ == self.image(),
    {
        self.image.as_slice()
    }

    /// The instance in its place.
    pub fn placement(&self) -> (placement: &VmPlacement)
        ensures
            *placement == self.instance(),
    {
        &self.placement
    }

    /// The bytes of the image.
    pub fn into_bytes(self) -> (bytes: Vec<u8>)
        ensures
            bytes@ == self.image(),
    {
        self.image
    }
}

// ---------------------------------------------------------------------------
// Laws
// ---------------------------------------------------------------------------

/// What is put behind an image leaves it as it was.
pub open spec fn extends(built: Built, more: Built) -> bool {
    &&& built.image.len() <= more.image.len()
    &&& more.image.take(built.image.len() as int) == built.image
    &&& built.functions.len() <= more.functions.len()
    &&& more.functions.take(built.functions.len() as int) == built.functions
}

/// Two extensions make one.
proof fn lemma_extends(a: Built, b: Built, c: Built)
    requires
        extends(a, b),
        extends(b, c),
    ensures
        extends(a, c),
{
    assert(c.image.take(a.image.len() as int) =~= b.image.take(a.image.len() as int));
    assert(c.functions.take(a.functions.len() as int) =~= b.functions.take(
        a.functions.len() as int,
    ));
}

/// Describing a range adds one function.
proof fn lemma_described(built: Built, rva: Rva, range: OffsetRange, codes: Seq<u8>)
    requires
        described(built, rva, range, codes) is Some,
    ensures
        extends(built, described(built, rva, range, codes)->0),
        described(built, rva, range, codes)->0.functions.len() == built.functions.len() + 1,
{
    let more = described(built, rva, range, codes)->0;
    assert(more.image.take(built.image.len() as int) =~= built.image);
    assert(more.functions.take(built.functions.len() as int) =~= built.functions);
}

/// Describing the processor adds one function for each part.
proof fn lemma_with_processor(built: Built, rva: Rva, unwind: InstanceUnwind, count: nat)
    requires
        count <= unwind.processor@.len(),
        with_processor(built, rva, unwind, count) is Some,
    ensures
        extends(built, with_processor(built, rva, unwind, count)->0),
        with_processor(built, rva, unwind, count)->0.functions.len() == built.functions.len()
            + count,
    decreases count,
{
    if count > 0 {
        let index = count - 1;
        lemma_with_processor(built, rva, unwind, index as nat);
        let before = with_processor(built, rva, unwind, index as nat)->0;
        let handler = at(rva, handler_of(unwind, index) as int)->0;
        let part = unwind.processor@[index];
        let codes = part.codes@ + address::little_endian(handler.0) + address::little_endian(0);
        lemma_described(before, rva, part.range, codes);
        lemma_extends(built, before, described(before, rva, part.range, codes)->0);
    } else {
        assert(built.image.take(built.image.len() as int) =~= built.image);
        assert(built.functions.take(built.functions.len() as int) =~= built.functions);
    }
}

/// Describing ranges adds one function for each.
proof fn lemma_with_ranges(built: Built, rva: Rva, ranges: Seq<CodedRange>, count: nat)
    requires
        count <= ranges.len(),
        with_ranges(built, rva, ranges, count) is Some,
    ensures
        extends(built, with_ranges(built, rva, ranges, count)->0),
        with_ranges(built, rva, ranges, count)->0.functions.len() == built.functions.len() + count,
    decreases count,
{
    if count > 0 {
        let index = (count - 1) as nat;
        lemma_with_ranges(built, rva, ranges, index);
        let before = with_ranges(built, rva, ranges, index)->0;
        lemma_described(before, rva, ranges[index as int].range, ranges[index as int].codes@);
        lemma_extends(
            built,
            before,
            described(before, rva, ranges[index as int].range, ranges[index as int].codes@)->0,
        );
    } else {
        assert(built.image.take(built.image.len() as int) =~= built.image);
        assert(built.functions.take(built.functions.len() as int) =~= built.functions);
    }
}

/// A placed instance starts with the generated bytes, and all of it lies within the
/// addresses of an image. Every absolute address of the instance has its fixup, in
/// order. One function is described for each part of the processor and for each way
/// in and out, and none where nothing is to be unwound.
pub proof fn lemma_placement_keeps_instance(
    instance: NativeInstance,
    image_base: u64,
    rva: Rva,
)
    requires
        placed(Ok(instance), image_base, rva, Ok(())) is Ok,
    ensures
        ({
            let view = placed(Ok(instance), image_base, rva, Ok(()))->Ok_0;
            &&& instance.image@.len() <= view.image.len()
            &&& view.image.take(instance.image@.len() as int) == instance.image@
            &&& rva.0 + view.image.len() <= u32::MAX
            &&& view.entry.0 == rva.0 + instance.entry_offset
            &&& view.relocations.len() == instance.absolute_address_offsets@.len()
            &&& forall|i: int|
                0 <= i < view.relocations.len() ==> (#[trigger] view.relocations[i]).rva.0 == rva.0
                    + instance.absolute_address_offsets@[i]
            &&& view.functions.len() == match instance.unwind {
                Some(unwind) => unwind.processor@.len() + unwind.exit@.len() + 3,
                None => 0,
            }
        }),
{
    let view = placed(Ok(instance), image_base, rva, Ok(()))->Ok_0;
    let offsets = instance.absolute_address_offsets@;
    lemma_fixups(rva, offsets, offsets.len());
    match instance.unwind {
        None => {
            assert(view.image.take(instance.image@.len() as int) =~= instance.image@);
        },
        Some(unwind) => {
            let start = Built {
                image: instance.image@ + zeros_behind(instance.image@.len()),
                functions: Seq::empty(),
            };
            let processor = with_processor(start, rva, unwind, unwind.processor@.len())->0;
            lemma_with_processor(start, rva, unwind, unwind.processor@.len());
            let entry = described(processor, rva, unwind.entry.range, unwind.entry.codes@)->0;
            lemma_described(processor, rva, unwind.entry.range, unwind.entry.codes@);
            lemma_extends(start, processor, entry);
            let exit = with_ranges(entry, rva, unwind.exit@, unwind.exit@.len())->0;
            lemma_with_ranges(entry, rva, unwind.exit@, unwind.exit@.len());
            lemma_extends(start, entry, exit);
            let all = with_empty(exit, rva, unwind)->0;
            assert(all.image.take(exit.image.len() as int) =~= exit.image);
            assert(all.functions.take(exit.functions.len() as int) =~= exit.functions);
            lemma_extends(start, exit, all);
            assert(view.image.take(instance.image@.len() as int) =~= start.image.take(
                instance.image@.len() as int,
            ));
            assert(start.image.take(instance.image@.len() as int) =~= instance.image@);
        },
    }
}

/// The fixups stand where the absolute addresses are.
proof fn lemma_fixups(rva: Rva, offsets: Seq<usize>, count: nat)
    requires
        count <= offsets.len(),
        fixups_at(rva, offsets, count).1,
    ensures
        fixups_at(rva, offsets, count).0.len() == count,
        forall|i: int|
            0 <= i < count ==> (#[trigger] fixups_at(rva, offsets, count).0[i]).rva.0 == rva.0
                + offsets[i],
    decreases count,
{
    if count > 0 {
        lemma_fixups(rva, offsets, (count - 1) as nat);
    }
}

/// A multiple of 64 KiB as the base keeps the low 16 bits of every address of the
/// instance, whatever such base the loader chooses.
pub proof fn lemma_low_bits_survive_loading(base: u64, other: u64, rva: Rva)
    requires
        address_of(base, rva) is Ok,
        address_of(other, rva) is Ok,
    ensures
        address_of(base, rva)->Ok_0 % 0x10000 == address_of(other, rva)->Ok_0 % 0x10000,
{
}

/// The number that the four bytes of `image` from `offset` on hold, the lowest first.
pub open spec fn word_at(image: Seq<u8>, offset: int) -> int {
    image[offset] + 256 * image[offset + 1] + 65536 * image[offset + 2] + 16777216 * image[offset
        + 3]
}

/// Function `index` is the one of `range`, and its unwind information starts with
/// `bytes`.
pub open spec fn is_described_by(
    more: Built,
    rva: Rva,
    index: int,
    range: OffsetRange,
    bytes: Seq<u8>,
) -> bool {
    let function = more.functions[index];
    let offset = function.unwind_info.0 - rva.0;
    &&& 0 <= index < more.functions.len()
    &&& function.begin.0 == rva.0 + range.start
    &&& function.end.0 == rva.0 + range.end
    &&& 0 <= offset
    &&& offset + bytes.len() <= more.image.len()
    &&& more.image.subrange(offset, offset + bytes.len()) == bytes
}

/// What is put behind an image leaves its functions described as they were.
proof fn lemma_stays_described(
    built: Built,
    more: Built,
    rva: Rva,
    index: int,
    range: OffsetRange,
    bytes: Seq<u8>,
)
    requires
        extends(built, more),
        is_described_by(built, rva, index, range, bytes),
    ensures
        is_described_by(more, rva, index, range, bytes),
{
    let offset = built.functions[index].unwind_info.0 - rva.0;
    assert(more.functions[index] == more.functions.take(built.functions.len() as int)[index]);
    assert(more.image.subrange(offset, offset + bytes.len()) =~= built.image.subrange(
        offset,
        offset + bytes.len(),
    )) by {
        assert forall|k: int| offset <= k < offset + bytes.len() implies #[trigger] more.image[k]
            == built.image[k] by {
            assert(more.image[k] == more.image.take(built.image.len() as int)[k]);
        }
    }
}

/// The function that describing a range adds is the one of the range.
proof fn lemma_newly_described(built: Built, rva: Rva, range: OffsetRange, codes: Seq<u8>)
    requires
        described(built, rva, range, codes) is Some,
    ensures
        is_described_by(
            described(built, rva, range, codes)->0,
            rva,
            built.functions.len() as int,
            range,
            codes,
        ),
{
    let more = described(built, rva, range, codes)->0;
    let start = built.image.len() as int;
    assert(more.image.subrange(start, start + codes.len()) =~= codes);
}

/// The unwind information of part `index`: the codes, the address of the handler,
/// and an empty word.
proof fn lemma_part_described(
    built: Built,
    rva: Rva,
    unwind: InstanceUnwind,
    count: nat,
    index: int,
)
    requires
        0 <= index < count <= unwind.processor@.len(),
        with_processor(built, rva, unwind, count) is Some,
    ensures
        at(rva, handler_of(unwind, index) as int) is Some,
        is_described_by(
            with_processor(built, rva, unwind, count)->0,
            rva,
            built.functions.len() + index,
            unwind.processor@[index].range,
            unwind.processor@[index].codes@ + address::little_endian(
                (at(rva, handler_of(unwind, index) as int)->0).0,
            ) + address::little_endian(0),
        ),
    decreases count,
{
    let last = count - 1;
    let before = with_processor(built, rva, unwind, last as nat)->0;
    let handler = at(rva, handler_of(unwind, last) as int)->0;
    let part = unwind.processor@[last];
    let codes = part.codes@ + address::little_endian(handler.0) + address::little_endian(0);
    lemma_with_processor(built, rva, unwind, last as nat);
    lemma_described(before, rva, part.range, codes);
    if index == last {
        lemma_newly_described(before, rva, part.range, codes);
    } else {
        lemma_part_described(built, rva, unwind, last as nat, index);
        lemma_stays_described(
            before,
            described(before, rva, part.range, codes)->0,
            rva,
            built.functions.len() + index,
            unwind.processor@[index].range,
            unwind.processor@[index].codes@ + address::little_endian(
                (at(rva, handler_of(unwind, index) as int)->0).0,
            ) + address::little_endian(0),
        );
    }
}

/// The unwind information of a range is its codes.
proof fn lemma_range_described(
    built: Built,
    rva: Rva,
    ranges: Seq<CodedRange>,
    count: nat,
    index: int,
)
    requires
        0 <= index < count <= ranges.len(),
        with_ranges(built, rva, ranges, count) is Some,
    ensures
        is_described_by(
            with_ranges(built, rva, ranges, count)->0,
            rva,
            built.functions.len() + index,
            ranges[index].range,
            ranges[index].codes@,
        ),
    decreases count,
{
    let last = (count - 1) as nat;
    let before = with_ranges(built, rva, ranges, last)->0;
    let coded = ranges[last as int];
    lemma_with_ranges(built, rva, ranges, last);
    lemma_described(before, rva, coded.range, coded.codes@);
    if index == last {
        lemma_newly_described(before, rva, coded.range, coded.codes@);
    } else {
        lemma_range_described(built, rva, ranges, last, index);
        lemma_stays_described(
            before,
            described(before, rva, coded.range, coded.codes@)->0,
            rva,
            built.functions.len() + index,
            ranges[index].range,
            ranges[index].codes@,
        );
    }
}

/// Four bytes, the lowest first, hold the number that was written.
proof fn lemma_word_of_little_endian(image: Seq<u8>, offset: int, value: u32)
    requires
        0 <= offset,
        offset + 4 <= image.len(),
        image.subrange(offset, offset + 4) == address::little_endian(value),
    ensures
        word_at(image, offset) == value,
{
    let bytes = image.subrange(offset, offset + 4);
    assert(bytes[0] == image[offset]);
    assert(bytes[1] == image[offset + 1]);
    assert(bytes[2] == image[offset + 2]);
    assert(bytes[3] == image[offset + 3]);
    assert(value / 65536 == value / 256 / 256);
    assert(value / 16777216 == value / 65536 / 256);
}

/// The unwinder finds part `i` of the processor: a function with the addresses of the
/// part, its codes, and behind them the address of its handler and an empty word. The
/// second part, and no other, has the shifted handler.
pub open spec fn part_is_found(
    image: Seq<u8>,
    functions: Seq<RuntimeFunction>,
    rva: Rva,
    unwind: InstanceUnwind,
    i: int,
) -> bool {
    let part = unwind.processor@[i];
    let codes = functions[i].unwind_info.0 - rva.0;
    let behind = codes + part.codes@.len();
    &&& functions[i].begin.0 == rva.0 + part.range.start
    &&& functions[i].end.0 == rva.0 + part.range.end
    &&& 0 <= codes
    &&& behind + 8 <= image.len()
    &&& image.subrange(codes, behind) == part.codes@
    &&& i == 1 ==> word_at(image, behind) == rva.0 + unwind.shifted_handler
    &&& i != 1 ==> word_at(image, behind) == rva.0 + unwind.handler.start
    &&& word_at(image, behind + 4) == 0
}

/// The unwinder finds a way in or out as function `i`: its addresses and its codes.
pub open spec fn way_is_found(
    image: Seq<u8>,
    functions: Seq<RuntimeFunction>,
    rva: Rva,
    way: CodedRange,
    i: int,
) -> bool {
    let codes = functions[i].unwind_info.0 - rva.0;
    &&& functions[i].begin.0 == rva.0 + way.range.start
    &&& functions[i].end.0 == rva.0 + way.range.end
    &&& 0 <= codes
    &&& codes + way.codes@.len() <= image.len()
    &&& image.subrange(codes, codes + way.codes@.len()) == way.codes@
}

/// Unwind information that starts with the codes of a part, a handler and an empty
/// word is that of the part.
proof fn lemma_part_is_found(
    all: Built,
    rva: Rva,
    unwind: InstanceUnwind,
    i: int,
    handler: Rva,
)
    requires
        0 <= i < unwind.processor@.len(),
        at(rva, handler_of(unwind, i) as int) == Some(handler),
        is_described_by(
            all,
            rva,
            i,
            unwind.processor@[i].range,
            unwind.processor@[i].codes@ + address::little_endian(handler.0)
                + address::little_endian(0),
        ),
    ensures
        part_is_found(all.image, all.functions, rva, unwind, i),
{
    let part = unwind.processor@[i];
    let bytes = part.codes@ + address::little_endian(handler.0) + address::little_endian(0);
    let codes = all.functions[i].unwind_info.0 - rva.0;
    let length = part.codes@.len() as int;
    let behind = codes + length;
    let whole = all.image.subrange(codes, codes + bytes.len());
    assert(bytes.len() == length + 8);
    assert(all.image.subrange(codes, behind) =~= whole.take(length));
    assert(bytes.take(length) =~= part.codes@);
    assert(all.image.subrange(behind, behind + 4) =~= whole.subrange(length, length + 4));
    assert(bytes.subrange(length, length + 4) =~= address::little_endian(handler.0));
    lemma_word_of_little_endian(all.image, behind, handler.0);
    assert(all.image.subrange(behind + 4, behind + 8) =~= whole.subrange(length + 4, length + 8));
    assert(bytes.subrange(length + 4, length + 8) =~= address::little_endian(0));
    lemma_word_of_little_endian(all.image, behind + 4, 0);
}

/// What the unwinder finds in a placed image: each part of the processor, the way in
/// and each way out, in this order and behind the instance. The return without a
/// frame and the handler come last, and share unwind information that has no codes.
#[verifier::rlimit(40)]
pub proof fn lemma_placed_unwind_information(
    instance: NativeInstance,
    image_base: u64,
    rva: Rva,
    unwind: InstanceUnwind,
)
    requires
        placed(Ok(instance), image_base, rva, Ok(())) is Ok,
        instance.unwind == Some(unwind),
    ensures
        ({
            let view = placed(Ok(instance), image_base, rva, Ok(()))->Ok_0;
            let parts = unwind.processor@.len();
            let ways_out = unwind.exit@.len();
            let leaf = view.functions[(parts + ways_out + 1) as int];
            let handler = view.functions[(parts + ways_out + 2) as int];
            let codes = leaf.unwind_info.0 - rva.0;
            &&& view.functions.len() == parts + ways_out + 3
            &&& forall|i: int|
                0 <= i < view.functions.len() ==> (#[trigger] view.functions[i]).unwind_info.0
                    >= rva.0 + instance.image@.len()
            &&& forall|i: int|
                0 <= i < parts ==> #[trigger] part_is_found(
                    view.image,
                    view.functions,
                    rva,
                    unwind,
                    i,
                )
            &&& way_is_found(view.image, view.functions, rva, unwind.entry, parts as int)
            &&& forall|i: int|
                0 <= i < ways_out ==> way_is_found(
                    view.image,
                    view.functions,
                    rva,
                    #[trigger] unwind.exit@[i],
                    parts + 1 + i,
                )
            &&& leaf.begin.0 == rva.0 + unwind.empty_ret
            &&& leaf.end.0 == rva.0 + unwind.empty_ret + 1
            &&& handler.begin.0 == rva.0 + unwind.handler.start
            &&& handler.end.0 == rva.0 + unwind.handler.end
            &&& handler.unwind_info == leaf.unwind_info
            &&& codes + 8 == view.image.len()
            &&& view.image[codes] == 1
            &&& forall|k: int| codes < k < codes + 8 ==> #[trigger] view.image[k] == 0
        }),
{
    let view = placed(Ok(instance), image_base, rva, Ok(()))->Ok_0;
    let all = Built { image: view.image, functions: view.functions };
    let parts = unwind.processor@.len();
    let ways_out = unwind.exit@.len();
    let start = Built {
        image: instance.image@ + zeros_behind(instance.image@.len()),
        functions: Seq::empty(),
    };
    let processor = with_processor(start, rva, unwind, parts)->0;
    lemma_with_processor(start, rva, unwind, parts);
    let entry = described(processor, rva, unwind.entry.range, unwind.entry.codes@)->0;
    lemma_described(processor, rva, unwind.entry.range, unwind.entry.codes@);
    lemma_newly_described(processor, rva, unwind.entry.range, unwind.entry.codes@);
    let exit = with_ranges(entry, rva, unwind.exit@, ways_out)->0;
    lemma_with_ranges(entry, rva, unwind.exit@, ways_out);
    assert(all == with_empty(exit, rva, unwind)->0);
    assert(all.image.take(exit.image.len() as int) =~= exit.image);
    assert(all.functions.take(exit.functions.len() as int) =~= exit.functions);
    assert(extends(exit, all));
    lemma_extends(entry, exit, all);
    lemma_extends(processor, entry, all);
    assert forall|i: int| 0 <= i < parts implies #[trigger] part_is_found(
        view.image,
        view.functions,
        rva,
        unwind,
        i,
    ) by {
        let part = unwind.processor@[i];
        let handler = at(rva, handler_of(unwind, i) as int)->0;
        let bytes = part.codes@ + address::little_endian(handler.0) + address::little_endian(0);
        lemma_part_described(start, rva, unwind, parts, i);
        lemma_stays_described(processor, all, rva, i, part.range, bytes);
        lemma_part_is_found(all, rva, unwind, i, handler);
    }
    lemma_stays_described(
        entry,
        all,
        rva,
        parts as int,
        unwind.entry.range,
        unwind.entry.codes@,
    );
    assert forall|i: int| 0 <= i < ways_out implies way_is_found(
        view.image,
        view.functions,
        rva,
        #[trigger] unwind.exit@[i],
        parts + 1 + i,
    ) by {
        let way = unwind.exit@[i];
        lemma_range_described(entry, rva, unwind.exit@, ways_out, i);
        lemma_stays_described(exit, all, rva, parts + 1 + i, way.range, way.codes@);
    }
    assert forall|i: int| 0 <= i < view.functions.len() implies (
    #[trigger] view.functions[i]).unwind_info.0 >= rva.0 + instance.image@.len() by {
        if i < parts {
            lemma_part_behind(start, rva, unwind, parts, i);
            assert(view.functions[i] == all.functions.take(processor.functions.len() as int)[i]);
        } else if i == parts {
            assert(view.functions[i] == all.functions.take(entry.functions.len() as int)[i]);
        } else if i <= parts + ways_out {
            lemma_range_behind(entry, rva, unwind.exit@, ways_out, i - parts - 1);
            assert(view.functions[i] == all.functions.take(exit.functions.len() as int)[i]);
        }
    }
}

/// The unwind information of a part stands behind what was built before.
proof fn lemma_part_behind(
    built: Built,
    rva: Rva,
    unwind: InstanceUnwind,
    count: nat,
    index: int,
)
    requires
        0 <= index < count <= unwind.processor@.len(),
        with_processor(built, rva, unwind, count) is Some,
    ensures
        with_processor(built, rva, unwind, count)->0.functions[built.functions.len()
            + index].unwind_info.0 >= rva.0 + built.image.len(),
    decreases count,
{
    let last = count - 1;
    lemma_with_processor(built, rva, unwind, last as nat);
    if index < last {
        lemma_part_behind(built, rva, unwind, last as nat, index);
    }
}

/// The unwind information of a range stands behind what was built before.
proof fn lemma_range_behind(
    built: Built,
    rva: Rva,
    ranges: Seq<CodedRange>,
    count: nat,
    index: int,
)
    requires
        0 <= index < count <= ranges.len(),
        with_ranges(built, rva, ranges, count) is Some,
    ensures
        with_ranges(built, rva, ranges, count)->0.functions[built.functions.len()
            + index].unwind_info.0 >= rva.0 + built.image.len(),
    decreases count,
{
    let last = (count - 1) as nat;
    lemma_with_ranges(built, rva, ranges, last);
    if index < last {
        lemma_range_behind(built, rva, ranges, last, index);
    }
}

/// An instruction of a leaf passes exactly where it has an address, the image holds its
/// bytes there, they decode to it, it was decoded for that place, all of it lies in
/// one section of code, and no function that is described to the unwinder has a byte
/// in common with it.
pub proof fn lemma_leaf_source_is_undescribed_code(
    source: LeafSource,
    bytes: Vec<u8>,
    image: LeafImage,
)
    ensures
        (leaf_verdict(source, Ok(bytes), image) is Ok) == {
            let start = (source.rva->0).0;
            &&& source.rva is Some
            &&& image.image_base + start == source.ip
            &&& bytes@ == source.bytes@
            &&& !decoder::decoded(bytes@, source.ip).invalid
            &&& decoder::reads_as(bytes@, source.ip, source.raw)
            &&& exists|s: int|
                0 <= s < image.sections@.len() && (#[trigger] image.sections@[s]).characteristics
                    & 0x2000_0000 != 0 && image.sections@[s].virtual_address.0 <= start && start
                    + source.len <= image.sections@[s].virtual_address.0
                    + image.sections@[s].virtual_size
            &&& forall|f: int|
                0 <= f < image.functions@.len() ==> (#[trigger] image.functions@[f]).end.0 <= start
                    || start + source.len <= image.functions@[f].begin.0
        },
{
    if source.rva is Some {
        let rva = source.rva->0;
        let start = rva.0;
        let in_code = exists|s: int|
            0 <= s < image.sections@.len() && (#[trigger] image.sections@[s]).characteristics
                & 0x2000_0000 != 0 && image.sections@[s].virtual_address.0 <= start && start
                + source.len <= image.sections@[s].virtual_address.0
                + image.sections@[s].virtual_size;
        let apart = forall|f: int|
            0 <= f < image.functions@.len() ==> (#[trigger] image.functions@[f]).end.0 <= start
                || start + source.len <= image.functions@[f].begin.0;
        if image.executes(rva, source.len) {
            let s = choose|s: int|
                0 <= s < image.sections@.len() && section_holds(
                    #[trigger] image.sections@[s],
                    rva,
                    source.len,
                );
            assert(image.sections@[s].characteristics & 0x2000_0000 != 0);
            assert(in_code);
        }
        if in_code {
            let s = choose|s: int|
                0 <= s < image.sections@.len() && (#[trigger] image.sections@[s]).characteristics
                    & 0x2000_0000 != 0 && image.sections@[s].virtual_address.0 <= start && start
                    + source.len <= image.sections@[s].virtual_address.0
                    + image.sections@[s].virtual_size;
            assert(section_holds(image.sections@[s], rva, source.len));
        }
        if image.describes(rva, source.len) {
            let f = choose|f: int|
                0 <= f < image.functions@.len() && meets(
                    #[trigger] image.functions@[f],
                    rva,
                    source.len,
                );
            assert(!(image.functions@[f].end.0 <= start || start + source.len
                <= image.functions@[f].begin.0));
        } else {
            assert forall|f: int| 0 <= f < image.functions@.len() implies (
            #[trigger] image.functions@[f]).end.0 <= start || start + source.len
                <= image.functions@[f].begin.0 by {
                assert(!meets(image.functions@[f], rva, source.len));
            }
        }
        assert(image.executes(rva, source.len) == in_code);
        assert(!image.describes(rva, source.len) == apart);
    }
}

/// A leaf has to be followed by a return, right behind its last instruction: what the
/// image holds there is the one byte of it.
pub proof fn lemma_leaf_is_followed_by_return(sources: Seq<LeafSource>, bytes: Vec<u8>)
    ensures
        (return_of(sources) is Ok) == (sources.len() > 0 && sources[sources.len() - 1].rva is Some
            && (sources[sources.len() - 1].rva->0).0 + sources[sources.len() - 1].len <= u32::MAX),
        return_of(sources) matches Ok(behind) ==> behind.0 == (sources[sources.len()
            - 1].rva->0).0 + sources[sources.len() - 1].len,
        (return_verdict(Ok(bytes)) is Ok) == (bytes@.len() == 1 && bytes@[0] == 0xc3),
{
    if sources.len() > 0 {
        assert(sources.last() == sources[sources.len() - 1]);
    }
    if bytes@.len() == 1 && bytes@[0] == 0xc3 {
        assert(bytes@ =~= seq![RETURN]);
    }
}

/// The address of a place is the base and the place together, wherever the base is a
/// multiple of 64 KiB and the sum is an address.
pub proof fn lemma_address_is_base_and_place(image_base: u64, rva: Rva)
    ensures
        (address_of(image_base, rva) is Ok) == (image_base % 65536 == 0 && image_base + rva.0
            <= 0xffff_ffff_ffff_ffff),
        address_of(image_base, rva) matches Ok(address) ==> address == image_base + rva.0,
{
}

/// The links of an instance: its entry lies at its offset, and each absolute address has
/// its fixup, in order, up to the first that exceeds the addresses of an image. They are
/// complete where there is none such.
pub proof fn lemma_links_are_those_of_the_instance(instance: NativeInstance, rva: Rva)
    ensures
        (links_of(instance, rva) is Some) == (rva.0 + instance.image@.len() <= u32::MAX && rva.0
            + instance.entry_offset <= u32::MAX),
        links_of(instance, rva) matches Some((entry, fixups, complete)) ==> {
            let offsets = instance.absolute_address_offsets@;
            &&& entry.0 == rva.0 + instance.entry_offset
            &&& fixups.len() <= offsets.len()
            &&& forall|i: int|
                0 <= i < fixups.len() ==> (#[trigger] fixups[i]).rva.0 == rva.0 + offsets[i]
            &&& complete == (fixups.len() == offsets.len())
            &&& !complete ==> rva.0 + offsets[fixups.len() as int] > u32::MAX
        },
{
    let offsets = instance.absolute_address_offsets@;
    lemma_fixups_up_to_overflow(rva, offsets, offsets.len());
}

/// Fixups are made up to the first offset that exceeds the addresses of an image.
proof fn lemma_fixups_up_to_overflow(rva: Rva, offsets: Seq<usize>, count: nat)
    requires
        count <= offsets.len(),
    ensures
        ({
            let (fixups, complete) = fixups_at(rva, offsets, count);
            &&& fixups.len() <= count
            &&& forall|i: int|
                0 <= i < fixups.len() ==> (#[trigger] fixups[i]).rva.0 == rva.0 + offsets[i]
            &&& complete == (fixups.len() == count)
            &&& !complete ==> rva.0 + offsets[fixups.len() as int] > u32::MAX
        }),
    decreases count,
{
    if count > 0 {
        lemma_fixups_up_to_overflow(rva, offsets, (count - 1) as nat);
    }
}

/// Unwind information starts on the next multiple of four behind an instance, and what
/// lies between is zeros.
pub proof fn lemma_instance_is_padded(length: nat)
    ensures
        (length + zeros_behind(length).len()) % 4 == 0,
        zeros_behind(length).len() < 4,
        forall|i: int| 0 <= i < zeros_behind(length).len() ==> #[trigger] zeros_behind(length)[i] == 0,
{
}

} // verus!
