//! References from code to data, and the names that nothing else refers to.

use vstd::prelude::*;
use vstd::slice::slice_subrange;

use crate::emit::address;
use crate::emit::address::Rva;
use crate::emit::decoder;
use crate::emit::decoder::{decode_one, Opcode, RawInstruction};
use crate::emit::error::{allocation_error, EmitError, SdkFailure};
use crate::emit::memory;
use crate::emit::memory::{Answered, Grants, Memory};

verus! {

/// A section with the bytes that the file holds of it.
#[derive(Debug, PartialEq, Eq)]
pub struct ImageSection {
    pub virtual_address: Rva,
    pub executable: bool,
    pub size_of_raw_data: u32,
    pub bytes: Vec<u8>,
}

/// An image: its base, its sections, and the ranges that are mapped.
#[derive(Debug, PartialEq, Eq)]
pub struct Image {
    pub base: u64,
    pub sections: Vec<ImageSection>,
    pub mapped: Vec<(Rva, Rva)>,
}

// ---------------------------------------------------------------------------
// Ordered sets of addresses
// ---------------------------------------------------------------------------

/// A number that orders pairs of an address and a number.
pub open spec fn rank(pair: (Rva, u32)) -> int {
    pair.0.0 * 0x1_0000_0000 + pair.1
}

/// The pairs are in ascending order, each once.
pub open spec fn ascending(pairs: Seq<(Rva, u32)>) -> bool {
    forall|i: int, j: int|
        0 <= i < j < pairs.len() ==> rank(#[trigger] pairs[i]) < rank(#[trigger] pairs[j])
}

/// Adds a pair to an ascending list, unless it is there.
fn insert_pair(pairs: &mut Vec<(Rva, u32)>, pair: (Rva, u32))
    requires
        ascending(old(pairs)@),
    ensures
        ascending(final(pairs)@),
        final(pairs)@.to_set() == old(pairs)@.to_set().insert(pair),
{
    let mut index: usize = 0;
    while index < pairs.len()
        invariant
            index <= pairs@.len(),
            pairs@ == old(pairs)@,
            ascending(pairs@),
            forall|i: int| 0 <= i < index ==> rank(#[trigger] pairs@[i]) < rank(pair),
        decreases pairs@.len() - index,
    {
        let other = pairs[index];
        if other.0.0 == pair.0.0 && other.1 == pair.1 {
            proof {
                assert(pairs@[index as int] == pair);
                assert(old(pairs)@.to_set().insert(pair) =~= old(pairs)@.to_set());
            }
            return;
        }
        if other.0.0 > pair.0.0 || (other.0.0 == pair.0.0 && other.1 > pair.1) {
            let ghost before = pairs@;
            pairs.insert(index, pair);
            proof {
                let after = pairs@;
                assert(rank(before[index as int]) > rank(pair));
                assert(after =~= before.take(index as int).push(pair) + before.skip(index as int));
                assert forall|i: int, j: int| 0 <= i < j < after.len() implies rank(
                    #[trigger] after[i],
                ) < rank(#[trigger] after[j]) by {
                    let i0 = if i < index {
                        i
                    } else {
                        i - 1
                    };
                    let j0 = if j < index {
                        j
                    } else {
                        j - 1
                    };
                    if i == index {
                        assert(after[j] == before[j - 1]);
                        if j - 1 > index {
                            assert(rank(before[index as int]) < rank(before[j - 1]));
                        }
                    } else if j == index {
                        assert(after[i] == before[i]);
                    } else {
                        assert(after[i] == before[i0]);
                        assert(after[j] == before[j0]);
                        assert(rank(before[i0]) < rank(before[j0]));
                    }
                }
                lemma_inserted_set(before, index as int, pair);
            }
            return;
        }
        index += 1;
    }
    let ghost before = pairs@;
    pairs.push(pair);
    proof {
        let after = pairs@;
        assert forall|i: int, j: int| 0 <= i < j < after.len() implies rank(#[trigger] after[i])
            < rank(#[trigger] after[j]) by {
            assert(after[i] == before[i]);
            if j < before.len() {
                assert(after[j] == before[j]);
                assert(rank(before[i]) < rank(before[j]));
            }
        }
        assert(after =~= before.insert(before.len() as int, pair));
        lemma_inserted_set(before, before.len() as int, pair);
    }
}

/// Inserting an item adds it to the set of items.
proof fn lemma_inserted_set<T>(items: Seq<T>, at: int, item: T)
    requires
        0 <= at <= items.len(),
    ensures
        items.insert(at, item).to_set() == items.to_set().insert(item),
{
    let after = items.insert(at, item);
    assert forall|x: T| after.to_set().contains(x) == items.to_set().insert(item).contains(x) by {
        if after.contains(x) {
            let i = choose|i: int| 0 <= i < after.len() && after[i] == x;
            if i < at {
                assert(items[i] == x);
            } else if i > at {
                assert(items[i - 1] == x);
            }
        }
        if items.contains(x) {
            let i = choose|i: int| 0 <= i < items.len() && items[i] == x;
            if i < at {
                assert(after[i] == x);
            } else {
                assert(after[i + 1] == x);
            }
        }
        if x == item {
            assert(after[at] == x);
        }
    }
    assert(after.to_set() =~= items.to_set().insert(item));
}

/// The addresses are in ascending order, each once.
pub open spec fn ascending_addresses(list: Seq<Rva>) -> bool {
    forall|i: int, j: int| 0 <= i < j < list.len() ==> (#[trigger] list[i]).0 < (#[trigger] list[j]).0
}

/// The addresses of `list` in ascending order, each once.
pub fn sorted_addresses(list: &[Rva]) -> (sorted: Vec<Rva>)
    ensures
        ascending_addresses(sorted@),
        sorted@.to_set() == list@.to_set(),
{
    let mut pairs: Vec<(Rva, u32)> = Vec::new();
    let mut index: usize = 0;
    let ghost none: Set<(Rva, u32)> = Set::empty();
    proof {
        assert(pairs@.to_set() =~= none);
    }
    while index < list.len()
        invariant
            index <= list@.len(),
            ascending(pairs@),
            forall|x: (Rva, u32)|
                pairs@.contains(x) <==> (x.1 == 0 && list@.take(index as int).contains(x.0)),
        decreases list@.len() - index,
    {
        let ghost before = pairs@;
        let ghost item = list@[index as int];
        insert_pair(&mut pairs, (list[index], 0));
        proof {
            let taken = list@.take(index as int);
            let more = list@.take(index + 1);
            assert(more =~= taken.push(item));
            assert forall|x: (Rva, u32)|
                pairs@.contains(x) <==> (x.1 == 0 && more.contains(x.0)) by {
                assert(pairs@.to_set().contains(x) == before.to_set().insert((item, 0)).contains(x));
                if more.contains(x.0) {
                    let i = choose|i: int| 0 <= i < more.len() && more[i] == x.0;
                    if i < index {
                        assert(taken[i] == x.0);
                    }
                }
                if taken.contains(x.0) {
                    let i = choose|i: int| 0 <= i < taken.len() && taken[i] == x.0;
                    assert(more[i] == x.0);
                }
                if x.0 == item {
                    assert(more[index as int] == x.0);
                }
            }
        }
        index += 1;
    }
    assert(list@.take(index as int) =~= list@);
    let mut sorted: Vec<Rva> = Vec::new();
    let mut next: usize = 0;
    while next < pairs.len()
        invariant
            next <= pairs@.len(),
            sorted@ == Seq::new(next as nat, |i: int| pairs@[i].0),
        decreases pairs@.len() - next,
    {
        sorted.push(pairs[next].0);
        next += 1;
        assert(sorted@ =~= Seq::new(next as nat, |i: int| pairs@[i].0));
    }
    proof {
        assert forall|i: int, j: int| 0 <= i < j < sorted@.len() implies (#[trigger] sorted@[i]).0
            < (#[trigger] sorted@[j]).0 by {
            assert(rank(pairs@[i]) < rank(pairs@[j]));
            assert(pairs@.contains(pairs@[i]));
            assert(pairs@.contains(pairs@[j]));
        }
        assert forall|x: Rva| sorted@.to_set().contains(x) == list@.to_set().contains(x) by {
            if sorted@.contains(x) {
                let i = choose|i: int| 0 <= i < sorted@.len() && sorted@[i] == x;
                assert(pairs@.contains(pairs@[i]));
            }
            if list@.contains(x) {
                assert(pairs@.contains((x, 0u32)));
                let i = choose|i: int| 0 <= i < pairs@.len() && pairs@[i] == (x, 0u32);
                assert(sorted@[i] == x);
            }
        }
        assert(sorted@.to_set() =~= list@.to_set());
    }
    sorted
}

// ---------------------------------------------------------------------------
// Names
// ---------------------------------------------------------------------------

/// `erasable` is the length of the longest start of the name that nothing refers
/// to.
pub open spec fn is_erasable(name: Rva, length: u32, references: Seq<Rva>, erasable: u32) -> bool {
    if name.0 + length > u32::MAX {
        erasable == 0
    } else {
        &&& erasable <= length
        &&& forall|i: int|
            0 <= i < references.len() ==> !(name.0 <= (#[trigger] references[i]).0 < name.0
                + erasable)
        &&& erasable < length ==> exists|i: int|
            0 <= i < references.len() && (#[trigger] references[i]).0 == name.0 + erasable
    }
}

/// The number of bytes of a name that can be erased.
pub fn erasable_name_length(name: Rva, length: u32, references: &[Rva]) -> (erasable: u32)
    ensures
        is_erasable(name, length, references@, erasable),
{
    let end = match name.checked_add(length) {
        Some(end) => end,
        None => return 0,
    };
    let mut erasable: u32 = length;
    let mut index: usize = 0;
    while index < references.len()
        invariant
            index <= references@.len(),
            name.0 + length == end.0,
            erasable <= length,
            forall|i: int|
                0 <= i < index ==> !(name.0 <= (#[trigger] references@[i]).0 < name.0 + erasable),
            erasable < length ==> exists|i: int|
                0 <= i < index && (#[trigger] references@[i]).0 == name.0 + erasable,
        decreases references@.len() - index,
    {
        let reference = references[index];
        if reference.0 >= name.0 && reference.0 < end.0 {
            let distance: u32 = reference.0 - name.0;
            if distance < erasable {
                erasable = distance;
                assert(references@[index as int].0 == name.0 + erasable);
            }
        }
        index += 1;
    }
    erasable
}

/// Which prefix of a name can be erased is settled by the references alone.
pub proof fn lemma_erasable_unique(name: Rva, length: u32, references: Seq<Rva>, a: u32, b: u32)
    requires
        is_erasable(name, length, references, a),
        is_erasable(name, length, references, b),
    ensures
        a == b,
{
}

/// A pair that has to be erased: a name, and the part of it that nothing refers to.
pub open spec fn erased_pair(
    names: Seq<(Rva, u32)>,
    references: Seq<Rva>,
    pair: (Rva, u32),
) -> bool {
    pair.1 != 0 && exists|i: int|
        0 <= i < names.len() && (#[trigger] names[i]).0 == pair.0 && is_erasable(
            pair.0,
            names[i].1,
            references,
            pair.1,
        )
}

/// No address that is referred to is ever erased.
pub proof fn lemma_erased_never_referenced(
    names: Seq<(Rva, u32)>,
    references: Seq<Rva>,
    pair: (Rva, u32),
    i: int,
)
    requires
        erased_pair(names, references, pair),
        0 <= i < references.len(),
    ensures
        !(pair.0.0 <= references[i].0 < pair.0.0 + pair.1),
{
}

/// The parts of the names that can be erased, in ascending order, each once.
pub fn names_to_erase(names: &[(Rva, u32)], references: &[Rva]) -> (erased: Vec<(Rva, u32)>)
    ensures
        ascending(erased@),
        forall|pair: (Rva, u32)|
            #[trigger] erased@.contains(pair) <==> erased_pair(names@, references@, pair),
{
    let mut erased: Vec<(Rva, u32)> = Vec::new();
    let mut index: usize = 0;
    while index < names.len()
        invariant
            index <= names@.len(),
            ascending(erased@),
            forall|pair: (Rva, u32)|
                #[trigger] erased@.contains(pair) <==> erased_pair(
                    names@.take(index as int),
                    references@,
                    pair,
                ),
        decreases names@.len() - index,
    {
        let (name, length) = names[index];
        let erasable = erasable_name_length(name, length, references);
        let ghost before = erased@;
        let ghost taken = names@.take(index as int);
        let ghost more = names@.take(index + 1);
        if erasable != 0 {
            insert_pair(&mut erased, (name, erasable));
        }
        proof {
            assert forall|pair: (Rva, u32)|
                #[trigger] erased@.contains(pair) <==> erased_pair(more, references@, pair) by {
                assert(erased@.contains(pair) == erased@.to_set().contains(pair));
                assert(before.contains(pair) == before.to_set().contains(pair));
                assert(before.contains(pair) <==> erased_pair(taken, references@, pair));
                if erased_pair(more, references@, pair) {
                    let i = choose|i: int|
                        0 <= i < more.len() && (#[trigger] more[i]).0 == pair.0 && is_erasable(
                            pair.0,
                            more[i].1,
                            references@,
                            pair.1,
                        );
                    if i < index {
                        assert(taken[i] == more[i]);
                        assert(erased_pair(taken, references@, pair));
                    } else {
                        lemma_erasable_unique(name, length, references@, pair.1, erasable);
                    }
                }
                if erased_pair(taken, references@, pair) {
                    let i = choose|i: int|
                        0 <= i < taken.len() && (#[trigger] taken[i]).0 == pair.0 && is_erasable(
                            pair.0,
                            taken[i].1,
                            references@,
                            pair.1,
                        );
                    assert(more[i] == taken[i]);
                }
                if pair == (name, erasable) && erasable != 0 {
                    assert(more[index as int] == (name, length));
                }
            }
        }
        index += 1;
    }
    assert(names@.take(index as int) =~= names@);
    erased
}

// ---------------------------------------------------------------------------
// Instructions that produce names
// ---------------------------------------------------------------------------

impl Image {
    /// The file bytes from `rva` to the end of its section.
    pub open spec fn bytes_at(&self, rva: Rva) -> Option<Seq<u8>> {
        bytes_in(self.sections@, rva)
    }

    /// `rva` is mapped.
    pub open spec fn maps(&self, rva: Rva) -> bool {
        covered(self.mapped@, rva)
    }

    /// The file bytes from `rva` to the end of its section.
    pub fn bytes_from(&self, rva: Rva) -> (r: Option<&[u8]>)
        ensures
            match r {
                Some(bytes) => self.bytes_at(rva) == Some(bytes@),
                None => self.bytes_at(rva) is None,
            },
    {
        let mut index: usize = 0;
        assert(self.sections@.skip(0) =~= self.sections@);
        while index < self.sections.len()
            invariant
                index <= self.sections@.len(),
                self.bytes_at(rva) == bytes_in(self.sections@.skip(index as int), rva),
            decreases self.sections@.len() - index,
        {
            let section = &self.sections[index];
            let ghost rest = self.sections@.skip(index as int);
            assert(rest.drop_first() =~= self.sections@.skip(index + 1));
            assert(rest[0] == self.sections@[index as int]);
            if section.virtual_address.0 <= rva.0 {
                let offset: usize = (rva.0 - section.virtual_address.0) as usize;
                if offset < section.bytes.len() {
                    let bytes = slice_subrange(
                        section.bytes.as_slice(),
                        offset,
                        section.bytes.len(),
                    );
                    assert(bytes@ =~= section.bytes@.skip(offset as int));
                    return Some(bytes);
                }
            }
            index += 1;
        }
        None
    }

    /// Reports whether `rva` is mapped.
    pub fn is_mapped(&self, rva: Rva) -> (yes: bool)
        ensures
            yes == self.maps(rva),
    {
        covers(self.mapped.as_slice(), rva)
    }
}

/// The bytes from `rva` on, in the first section that holds it.
pub open spec fn bytes_in(sections: Seq<ImageSection>, rva: Rva) -> Option<Seq<u8>>
    decreases sections.len(),
{
    if sections.len() == 0 {
        None
    } else {
        let offset = rva.0 - sections[0].virtual_address.0;
        if 0 <= offset < sections[0].bytes@.len() {
            Some(sections[0].bytes@.skip(offset))
        } else {
            bytes_in(sections.drop_first(), rva)
        }
    }
}

/// Some range holds `rva`.
pub open spec fn covered(ranges: Seq<(Rva, Rva)>, rva: Rva) -> bool {
    exists|i: int| 0 <= i < ranges.len() && (#[trigger] ranges[i]).0.0 <= rva.0 < ranges[i].1.0
}

/// Reports whether some range holds `rva`.
pub fn covers(ranges: &[(Rva, Rva)], rva: Rva) -> (yes: bool)
    ensures
        yes == covered(ranges@, rva),
{
    let mut index: usize = 0;
    while index < ranges.len()
        invariant
            index <= ranges@.len(),
            forall|i: int|
                0 <= i < index ==> !((#[trigger] ranges@[i]).0.0 <= rva.0 < ranges@[i].1.0),
        decreases ranges@.len() - index,
    {
        let (start, end) = ranges[index];
        if start.0 <= rva.0 && rva.0 < end.0 {
            assert(ranges@[index as int].0.0 <= rva.0 < ranges@[index as int].1.0);
            return true;
        }
        index += 1;
    }
    false
}

/// The extent of an instruction that produces the address of a name. `raw` is what
/// stands at `source`, if anything does.
pub open spec fn extent_of(source: Rva, raw: Option<RawInstruction>) -> Result<
    (Rva, Rva),
    EmitError,
> {
    match raw {
        None => Err(EmitError::SdkMarker(SdkFailure::NameProducerUnmapped { producer: source })),
        Some(raw) => if raw.invalid || raw.opcode == Opcode::Other {
            Err(EmitError::SdkMarker(SdkFailure::NameProducerUnsupported { producer: source }))
        } else if raw.len > u32::MAX {
            Err(
                EmitError::Layout {
                    rva: source,
                    reason: "name producer length exceeds the PE address width",
                },
            )
        } else {
            match address::after(source, raw.len as int) {
                Some(end) => Ok((source, end)),
                None => Err(
                    EmitError::Layout {
                        rva: source,
                        reason: "name producer extent exceeds the PE address width",
                    },
                ),
            }
        },
    }
}

/// The extent of an instruction that produces the address of a name.
pub fn producer_extent(source: Rva, raw: Option<RawInstruction>) -> (r: Result<
    (Rva, Rva),
    EmitError,
>)
    ensures
        r == extent_of(source, raw),
{
    let raw = match raw {
        Some(raw) => raw,
        None => return Err(
            EmitError::SdkMarker(SdkFailure::NameProducerUnmapped { producer: source }),
        ),
    };
    if raw.invalid || raw.opcode == Opcode::Other {
        return Err(
            EmitError::SdkMarker(SdkFailure::NameProducerUnsupported { producer: source }),
        );
    }
    if raw.len > u32::MAX as usize {
        return Err(
            EmitError::Layout {
                rva: source,
                reason: "name producer length exceeds the PE address width",
            },
        );
    }
    match source.checked_add(raw.len as u32) {
        Some(end) => Ok((source, end)),
        None => Err(
            EmitError::Layout {
                rva: source,
                reason: "name producer extent exceeds the PE address width",
            },
        ),
    }
}

/// What stands at `source` in the image.
pub open spec fn producer_at(image: Image, source: Rva) -> Option<RawInstruction> {
    match image.bytes_at(source) {
        Some(bytes) => Some(decoder::decoded(bytes, source.0 as u64)),
        None => None,
    }
}

/// The extents of all producers, or the first failure.
pub open spec fn extents_of(image: Image, sources: Seq<Rva>) -> Result<Seq<(Rva, Rva)>, EmitError>
    decreases sources.len(),
{
    if sources.len() == 0 {
        Ok(Seq::empty())
    } else {
        match extents_of(image, sources.drop_last()) {
            Err(error) => Err(error),
            Ok(before) => match extent_of(sources.last(), producer_at(image, sources.last())) {
                Err(error) => Err(error),
                Ok(extent) => Ok(before.push(extent)),
            },
        }
    }
}

/// A failure among the first producers is the failure of all of them.
proof fn lemma_extents_prefix(image: Image, sources: Seq<Rva>, count: int)
    requires
        0 <= count <= sources.len(),
        extents_of(image, sources.take(count)) is Err,
    ensures
        extents_of(image, sources) == extents_of(image, sources.take(count)),
    decreases sources.len() - count,
{
    if count == sources.len() {
        assert(sources.take(count) =~= sources);
    } else {
        assert(sources.take(count + 1).drop_last() =~= sources.take(count));
        lemma_extents_prefix(image, sources, count + 1);
    }
}

/// The ranges stand in order, with a gap between any two.
pub open spec fn separated(ranges: Seq<(Rva, Rva)>) -> bool {
    forall|i: int, j: int|
        0 <= i < j < ranges.len() ==> (#[trigger] ranges[i]).1.0 < (#[trigger] ranges[j]).0.0
}

/// `merged` holds the addresses that the ranges hold, in as few ranges as possible
/// and in order.
pub open spec fn is_merged(ranges: Seq<(Rva, Rva)>, merged: Seq<(Rva, Rva)>) -> bool {
    &&& separated(merged)
    &&& forall|i: int| 0 <= i < merged.len() ==> (#[trigger] merged[i]).0.0 < merged[i].1.0
    &&& forall|rva: Rva| #[trigger] covered(merged, rva) == covered(ranges, rva)
}

/// `ranges` and the range from `low` to `high` hold together what `others` and the
/// range from `start` to `end` hold.
spec fn same_cover(
    ranges: Seq<(Rva, Rva)>,
    low: Rva,
    high: Rva,
    others: Seq<(Rva, Rva)>,
    start: Rva,
    end: Rva,
) -> bool {
    forall|rva: Rva|
        (#[trigger] covered(ranges, rva) || low.0 <= rva.0 < high.0) == (covered(others, rva)
            || start.0 <= rva.0 < end.0)
}

/// `ranges` hold what `others` and the range from `start` to `end` hold.
spec fn full_cover(
    ranges: Seq<(Rva, Rva)>,
    others: Seq<(Rva, Rva)>,
    start: Rva,
    end: Rva,
) -> bool {
    forall|rva: Rva|
        #[trigger] covered(ranges, rva) == (covered(others, rva) || start.0 <= rva.0 < end.0)
}

/// Adds a range to ranges that stand in order with gaps between them.
fn merge_range(merged: Vec<(Rva, Rva)>, start: Rva, end: Rva) -> (r: Vec<(Rva, Rva)>)
    requires
        is_merged(merged@, merged@),
        start.0 < end.0,
    ensures
        is_merged(r@, r@),
        forall|rva: Rva|
            #[trigger] covered(r@, rva) == (covered(merged@, rva) || start.0 <= rva.0 < end.0),
{
    let mut r: Vec<(Rva, Rva)> = Vec::new();
    let mut low = start;
    let mut high = end;
    let mut placed = false;
    let mut index: usize = 0;
    while index < merged.len()
        invariant
            index <= merged@.len(),
            is_merged(merged@, merged@),
            start.0 < end.0,
            low.0 <= start.0,
            end.0 <= high.0,
            low.0 < high.0,
            is_merged(r@, r@),
            !placed ==> forall|i: int| 0 <= i < r@.len() ==> (#[trigger] r@[i]).1.0 < low.0,
            forall|i: int, j: int|
                0 <= i < r@.len() && index <= j < merged@.len() ==> (#[trigger] r@[i]).1.0 < (
                #[trigger] merged@[j]).0.0,
            placed ==> full_cover(r@, merged@.take(index as int), start, end),
            !placed ==> same_cover(r@, low, high, merged@.take(index as int), start, end),
        decreases merged@.len() - index,
    {
        let (first, last) = merged[index];
        let ghost before = r@;
        let ghost taken = merged@.take(index as int);
        let ghost more = merged@.take(index + 1);
        let ghost (low0, high0) = (low, high);
        assert(more =~= taken.push((first, last)));
        if placed {
            r.push((first, last));
            proof {
                lemma_push_merged(before, (first, last));
                lemma_full_cover_push(before, taken, start, end, (first, last));
            }
        } else if last.0 < low.0 {
            r.push((first, last));
            proof {
                lemma_push_merged(before, (first, last));
                lemma_same_cover_push(before, low, high, taken, start, end, (first, last));
            }
        } else if first.0 > high.0 {
            r.push((low, high));
            proof {
                lemma_push_merged(before, (low, high));
                lemma_cover_placed(before, low, high, taken, start, end);
            }
            let ghost middle = r@;
            r.push((first, last));
            proof {
                lemma_push_merged(middle, (first, last));
                lemma_full_cover_push(middle, taken, start, end, (first, last));
            }
            placed = true;
        } else {
            if first.0 < low.0 {
                low = first;
            }
            if last.0 > high.0 {
                high = last;
            }
            proof {
                lemma_joined_cover(r@, low0, high0, taken, (first, last), start, end, low, high);
            }
        }
        index += 1;
        assert(merged@.take(index as int) =~= more);
    }
    assert(merged@.take(index as int) =~= merged@);
    if !placed {
        let ghost before = r@;
        r.push((low, high));
        proof {
            lemma_push_merged(before, (low, high));
            lemma_cover_placed(before, low, high, merged@, start, end);
        }
    }
    r
}

/// The same range on both sides adds the same addresses.
proof fn lemma_full_cover_push(
    ranges: Seq<(Rva, Rva)>,
    others: Seq<(Rva, Rva)>,
    start: Rva,
    end: Rva,
    range: (Rva, Rva),
)
    requires
        full_cover(ranges, others, start, end),
    ensures
        full_cover(ranges.push(range), others.push(range), start, end),
{
    assert forall|rva: Rva|
        #[trigger] covered(ranges.push(range), rva) == (covered(others.push(range), rva) || start.0
            <= rva.0 < end.0) by {
        lemma_covered_push(ranges, range, rva);
        lemma_covered_push(others, range, rva);
        assert(covered(ranges, rva) == (covered(others, rva) || start.0 <= rva.0 < end.0));
    }
}

/// The same range on both sides adds the same addresses.
proof fn lemma_same_cover_push(
    ranges: Seq<(Rva, Rva)>,
    low: Rva,
    high: Rva,
    others: Seq<(Rva, Rva)>,
    start: Rva,
    end: Rva,
    range: (Rva, Rva),
)
    requires
        same_cover(ranges, low, high, others, start, end),
    ensures
        same_cover(ranges.push(range), low, high, others.push(range), start, end),
{
    assert forall|rva: Rva|
        (#[trigger] covered(ranges.push(range), rva) || low.0 <= rva.0 < high.0) == (covered(
            others.push(range),
            rva,
        ) || start.0 <= rva.0 < end.0) by {
        lemma_covered_push(ranges, range, rva);
        lemma_covered_push(others, range, rva);
        let a = covered(ranges, rva);
        let c = covered(others, rva);
        let b = low.0 <= rva.0 < high.0;
        let e = start.0 <= rva.0 < end.0;
        assert((a || b) == (c || e));
    }
}

/// Putting the range from `low` to `high` among the others.
proof fn lemma_cover_placed(
    ranges: Seq<(Rva, Rva)>,
    low: Rva,
    high: Rva,
    others: Seq<(Rva, Rva)>,
    start: Rva,
    end: Rva,
)
    requires
        same_cover(ranges, low, high, others, start, end),
    ensures
        full_cover(ranges.push((low, high)), others, start, end),
{
    assert forall|rva: Rva|
        #[trigger] covered(ranges.push((low, high)), rva) == (covered(others, rva) || start.0
            <= rva.0 < end.0) by {
        lemma_covered_push(ranges, (low, high), rva);
        let a = covered(ranges, rva);
        let c = covered(others, rva);
        let b = low.0 <= rva.0 < high.0;
        let e = start.0 <= rva.0 < end.0;
        assert((a || b) == (c || e));
    }
}

/// Joining a range that touches the one from `low` to `high`.
proof fn lemma_joined_cover(
    ranges: Seq<(Rva, Rva)>,
    low: Rva,
    high: Rva,
    others: Seq<(Rva, Rva)>,
    range: (Rva, Rva),
    start: Rva,
    end: Rva,
    new_low: Rva,
    new_high: Rva,
)
    requires
        same_cover(ranges, low, high, others, start, end),
        low.0 < high.0,
        range.0.0 < range.1.0,
        range.0.0 <= high.0,
        low.0 <= range.1.0,
        new_low == (if range.0.0 < low.0 {
            range.0
        } else {
            low
        }),
        new_high == (if range.1.0 > high.0 {
            range.1
        } else {
            high
        }),
    ensures
        same_cover(ranges, new_low, new_high, others.push(range), start, end),
{
    assert forall|rva: Rva|
        (#[trigger] covered(ranges, rva) || new_low.0 <= rva.0 < new_high.0) == (covered(
            others.push(range),
            rva,
        ) || start.0 <= rva.0 < end.0) by {
        lemma_covered_push(others, range, rva);
        let a = covered(ranges, rva);
        let b = low.0 <= rva.0 < high.0;
        let c = covered(others, rva);
        let e = start.0 <= rva.0 < end.0;
        let f = range.0.0 <= rva.0 < range.1.0;
        assert((a || b) == (c || e));
        assert((new_low.0 <= rva.0 < new_high.0) == (b || f));
        assert(covered(others.push(range), rva) == (c || f));
    }
}

/// What one more range adds.
proof fn lemma_covered_push(ranges: Seq<(Rva, Rva)>, range: (Rva, Rva), rva: Rva)
    ensures
        covered(ranges.push(range), rva) == (covered(ranges, rva) || range.0.0 <= rva.0
            < range.1.0),
{
    let more = ranges.push(range);
    if covered(ranges, rva) {
        let i = choose|i: int|
            0 <= i < ranges.len() && (#[trigger] ranges[i]).0.0 <= rva.0 < ranges[i].1.0;
        assert(more[i] == ranges[i]);
    }
    if range.0.0 <= rva.0 < range.1.0 {
        assert(more[ranges.len() as int] == range);
    }
    if covered(more, rva) {
        let i = choose|i: int|
            0 <= i < more.len() && (#[trigger] more[i]).0.0 <= rva.0 < more[i].1.0;
        if i < ranges.len() {
            assert(ranges[i] == more[i]);
        }
    }
}

/// A range behind all others keeps them in order.
proof fn lemma_push_merged(ranges: Seq<(Rva, Rva)>, range: (Rva, Rva))
    requires
        is_merged(ranges, ranges),
        range.0.0 < range.1.0,
        forall|i: int| 0 <= i < ranges.len() ==> (#[trigger] ranges[i]).1.0 < range.0.0,
    ensures
        is_merged(ranges.push(range), ranges.push(range)),
        forall|rva: Rva|
            #[trigger] covered(ranges.push(range), rva) == (covered(ranges, rva) || range.0.0
                <= rva.0 < range.1.0),
{
    let more = ranges.push(range);
    assert forall|i: int, j: int| 0 <= i < j < more.len() implies (#[trigger] more[i]).1.0 < (
    #[trigger] more[j]).0.0 by {
        assert(more[i] == ranges[i]);
        if j < ranges.len() {
            assert(more[j] == ranges[j]);
        }
    }
    assert forall|rva: Rva|
        #[trigger] covered(more, rva) == (covered(ranges, rva) || range.0.0 <= rva.0
            < range.1.0) by {
        lemma_covered_push(ranges, range, rva);
    }
    assert forall|i: int| 0 <= i < more.len() implies (#[trigger] more[i]).0.0 < more[i].1.0 by {
        if i < ranges.len() {
            assert(more[i] == ranges[i]);
        }
    }
}

/// Ranges that hold the same addresses, in order and with gaps between them.
/// Ranges that hold no address are dropped.
pub fn merge_extents(ranges: &[(Rva, Rva)]) -> (merged: Vec<(Rva, Rva)>)
    ensures
        is_merged(ranges@, merged@),
{
    let mut merged: Vec<(Rva, Rva)> = Vec::new();
    let mut index: usize = 0;
    while index < ranges.len()
        invariant
            index <= ranges@.len(),
            is_merged(merged@, merged@),
            forall|rva: Rva|
                #[trigger] covered(merged@, rva) == covered(ranges@.take(index as int), rva),
        decreases ranges@.len() - index,
    {
        let (start, end) = ranges[index];
        let ghost taken = ranges@.take(index as int);
        let ghost more = ranges@.take(index + 1);
        let ghost before = merged@;
        proof {
            assert(more =~= taken.push((start, end)));
        }
        if start.0 < end.0 {
            merged = merge_range(merged, start, end);
        }
        proof {
            assert forall|rva: Rva| #[trigger] covered(merged@, rva) == covered(more, rva) by {
                lemma_covered_push(taken, (start, end), rva);
                assert(covered(before, rva) == covered(taken, rva));
            }
        }
        index += 1;
    }
    assert(ranges@.take(index as int) =~= ranges@);
    merged
}

/// The extents of all producers, and the number of requests for room made to find
/// them: one for the extents, and one for the merged ones.
pub open spec fn producer_extents(g: Grants, asked: nat, image: Image, sources: Seq<Rva>) -> Answered<
    Seq<(Rva, Rva)>,
> {
    let count = sources.len();
    let asked1 = memory::counted(asked, count);
    if !memory::allows(g, asked, count) {
        memory::refused(asked1)
    } else {
        match extents_of(image, sources) {
            Err(error) => Answered { out: Err(error), asked: asked1 },
            Ok(extents) => memory::once(g, asked1, count, Ok(extents)),
        }
    }
}

/// The ranges of the instructions that produce names.
pub fn marker_reference_extents(
    image: &Image,
    marker_references: &[Rva],
    memory: &mut Memory,
) -> (r: Result<Vec<(Rva, Rva)>, EmitError>)
    ensures
        forall|g: Grants| #[trigger]
            final(memory).agrees(g) ==> old(memory).agrees(g) && ({
                let found = producer_extents(g, old(memory).asked(), *image, marker_references@);
                &&& final(memory).asked() == found.asked
                &&& match found.out {
                    Ok(extents) => r matches Ok(merged) && is_merged(extents, merged@),
                    Err(error) => r == Err::<Vec<(Rva, Rva)>, EmitError>(error),
                }
            }),
{
    let mut extents: Vec<(Rva, Rva)> = Vec::new();
    if !memory.reserve(&mut extents, marker_references.len()) {
        return Err(allocation_error());
    }
    let ghost reserved = *memory;
    let mut index: usize = 0;
    assert(marker_references@.take(0) =~= Seq::empty());
    while index < marker_references.len()
        invariant
            index <= marker_references@.len(),
            *memory == reserved,
            reserved.asked() == memory::counted(old(memory).asked(), marker_references@.len()),
            forall|g: Grants| #[trigger]
                reserved.agrees(g) ==> old(memory).agrees(g) && memory::allows(
                    g,
                    old(memory).asked(),
                    marker_references@.len(),
                ),
            extents@.len() == index,
            extents_of(*image, marker_references@.take(index as int)) == Ok::<
                Seq<(Rva, Rva)>,
                EmitError,
            >(extents@),
        decreases marker_references@.len() - index,
    {
        let source = marker_references[index];
        proof {
            let more = marker_references@.take(index + 1);
            assert(more.drop_last() =~= marker_references@.take(index as int));
            assert(more.last() == source);
        }
        let raw = match image.bytes_from(source) {
            Some(bytes) => Some(decode_one(bytes, source.0 as u64)),
            None => None,
        };
        match producer_extent(source, raw) {
            Ok(extent) => extents.push(extent),
            Err(error) => {
                proof {
                    lemma_extents_prefix(*image, marker_references@, index + 1);
                }
                return Err(error);
            },
        }
        index += 1;
    }
    assert(marker_references@.take(index as int) =~= marker_references@);
    let mut merged: Vec<(Rva, Rva)> = Vec::new();
    if !memory.reserve(&mut merged, extents.len()) {
        return Err(allocation_error());
    }
    let mut found = merge_extents(extents.as_slice());
    let ghost ranges = found@;
    merged.append(&mut found);
    assert(merged@ =~= ranges);
    Ok(merged)
}

// ---------------------------------------------------------------------------
// References from code
// ---------------------------------------------------------------------------

/// The address that an instruction materializes, relative to the image base.
pub open spec fn target_of(raw: RawInstruction, base: u64) -> Option<Rva> {
    let relative = |value: u64|
        {
            let offset = if value >= base {
                value - base
            } else {
                value as int
            };
            if offset <= u32::MAX {
                Some(Rva(offset as u32))
            } else {
                None
            }
        };
    match raw.opcode {
        Opcode::LeaMemory => if raw.ip_relative && raw.ip_relative_address <= u32::MAX {
            Some(Rva(raw.ip_relative_address as u32))
        } else {
            None
        },
        Opcode::MovImmediate64 => relative(raw.immediate64),
        Opcode::MovImmediate32 => relative(raw.immediate32 as u64),
        Opcode::Other => None,
    }
}

/// The address that an instruction materializes.
pub fn reference_target(raw: RawInstruction, base: u64) -> (target: Option<Rva>)
    ensures
        target == target_of(raw, base),
{
    let value: u64 = match raw.opcode {
        Opcode::LeaMemory => {
            if raw.ip_relative && raw.ip_relative_address <= u32::MAX as u64 {
                return Some(Rva(raw.ip_relative_address as u32));
            }
            return None;
        },
        Opcode::MovImmediate64 => raw.immediate64,
        Opcode::MovImmediate32 => raw.immediate32 as u64,
        Opcode::Other => return None,
    };
    let relative: u64 = if value >= base {
        value - base
    } else {
        value
    };
    if relative <= u32::MAX as u64 {
        Some(Rva(relative as u32))
    } else {
        None
    }
}

/// The mapped address that the instruction at offset `at` of a section refers to.
/// Code inside `excluded` refers to nothing.
pub open spec fn reference_at(
    image: Image,
    excluded: Seq<(Rva, Rva)>,
    start: Rva,
    bytes: Seq<u8>,
    at: int,
) -> Option<Rva> {
    let source = Rva((start.0 + at) as u32);
    if covered(excluded, source) {
        None
    } else {
        match target_of(decoder::decoded(bytes.skip(at), source.0 as u64), image.base) {
            Some(target) if image.maps(target) => Some(target),
            _ => None,
        }
    }
}

/// The references from the first `count` bytes of a section, decoding at every byte
/// that has an address. Room is asked for one reference at a time.
pub open spec fn references_in(
    g: Grants,
    asked: nat,
    image: Image,
    excluded: Seq<(Rva, Rva)>,
    start: Rva,
    bytes: Seq<u8>,
    count: nat,
) -> Answered<Seq<Rva>>
    decreases count,
{
    if count == 0 {
        Answered { out: Ok(Seq::empty()), asked }
    } else {
        let before = references_in(g, asked, image, excluded, start, bytes, (count - 1) as nat);
        match before.out {
            Err(error) => before,
            Ok(found) => if start.0 + (count - 1) > u32::MAX {
                Answered {
                    out: Err(
                        EmitError::Layout {
                            rva: start,
                            reason: "executable scan exceeds the PE address width",
                        },
                    ),
                    asked: before.asked,
                }
            } else {
                match reference_at(image, excluded, start, bytes, count - 1) {
                    Some(target) => memory::once(g, before.asked, 1, Ok(found.push(target))),
                    None => before,
                }
            },
        }
    }
}

/// The references from one section, or why it cannot be read.
pub open spec fn section_references(
    g: Grants,
    asked: nat,
    image: Image,
    excluded: Seq<(Rva, Rva)>,
    section: ImageSection,
) -> Answered<Seq<Rva>> {
    let start = section.virtual_address;
    let length = section.size_of_raw_data;
    if !section.executable {
        Answered { out: Ok(Seq::empty()), asked }
    } else if length > section.bytes@.len() {
        Answered {
            out: Err(
                EmitError::Layout {
                    rva: start,
                    reason: "executable section bytes are not fully file-backed",
                },
            ),
            asked,
        }
    } else {
        references_in(
            g,
            asked,
            image,
            excluded,
            start,
            section.bytes@.take(length as int),
            length as nat,
        )
    }
}

/// The references from the first `count` sections, or the first failure.
pub open spec fn all_references(
    g: Grants,
    asked: nat,
    image: Image,
    excluded: Seq<(Rva, Rva)>,
    count: nat,
) -> Answered<Seq<Rva>>
    decreases count,
{
    if count == 0 || count > image.sections@.len() {
        Answered { out: Ok(Seq::empty()), asked }
    } else {
        let before = all_references(g, asked, image, excluded, (count - 1) as nat);
        match before.out {
            Err(error) => before,
            Ok(found) => {
                let more = section_references(
                    g,
                    before.asked,
                    image,
                    excluded,
                    image.sections@[count - 1],
                );
                Answered {
                    out: match more.out {
                        Err(error) => Err(error),
                        Ok(added) => Ok(found + added),
                    },
                    asked: more.asked,
                }
            },
        }
    }
}

/// A failure in the first sections is the failure of all of them.
proof fn lemma_references_prefix(
    g: Grants,
    asked: nat,
    image: Image,
    excluded: Seq<(Rva, Rva)>,
    count: nat,
)
    requires
        count <= image.sections@.len(),
        all_references(g, asked, image, excluded, count).out is Err,
    ensures
        all_references(g, asked, image, excluded, image.sections@.len()) == all_references(
            g,
            asked,
            image,
            excluded,
            count,
        ),
    decreases image.sections@.len() - count,
{
    if count < image.sections@.len() {
        lemma_references_prefix(g, asked, image, excluded, count + 1);
    }
}

/// A failure at the first bytes is the failure of all of them.
proof fn lemma_scan_prefix(
    g: Grants,
    asked: nat,
    image: Image,
    excluded: Seq<(Rva, Rva)>,
    start: Rva,
    bytes: Seq<u8>,
    few: nat,
    many: nat,
)
    requires
        few <= many,
        references_in(g, asked, image, excluded, start, bytes, few).out is Err,
    ensures
        references_in(g, asked, image, excluded, start, bytes, many) == references_in(
            g,
            asked,
            image,
            excluded,
            start,
            bytes,
            few,
        ),
    decreases many,
{
    if few < many {
        lemma_scan_prefix(g, asked, image, excluded, start, bytes, few, (many - 1) as nat);
    }
}

/// References depend on the excluded addresses, not on how ranges hold them.
proof fn lemma_excluded_cover(
    g: Grants,
    asked: nat,
    image: Image,
    one: Seq<(Rva, Rva)>,
    other: Seq<(Rva, Rva)>,
    start: Rva,
    bytes: Seq<u8>,
    count: nat,
)
    requires
        forall|rva: Rva| #[trigger] covered(one, rva) == covered(other, rva),
    ensures
        references_in(g, asked, image, one, start, bytes, count) == references_in(
            g,
            asked,
            image,
            other,
            start,
            bytes,
            count,
        ),
    decreases count,
{
    if count > 0 {
        lemma_excluded_cover(g, asked, image, one, other, start, bytes, (count - 1) as nat);
        let source = Rva((start.0 + (count - 1)) as u32);
        assert(covered(one, source) == covered(other, source));
    }
}

/// References depend on the excluded addresses, not on how ranges hold them.
proof fn lemma_all_excluded_cover(
    g: Grants,
    asked: nat,
    image: Image,
    one: Seq<(Rva, Rva)>,
    other: Seq<(Rva, Rva)>,
    count: nat,
)
    requires
        forall|rva: Rva| #[trigger] covered(one, rva) == covered(other, rva),
    ensures
        all_references(g, asked, image, one, count) == all_references(
            g,
            asked,
            image,
            other,
            count,
        ),
    decreases count,
{
    if count > 0 && count <= image.sections@.len() {
        lemma_all_excluded_cover(g, asked, image, one, other, (count - 1) as nat);
        let before = all_references(g, asked, image, one, (count - 1) as nat);
        let section = image.sections@[count - 1];
        lemma_excluded_cover(
            g,
            before.asked,
            image,
            one,
            other,
            section.virtual_address,
            section.bytes@.take(section.size_of_raw_data as int),
            section.size_of_raw_data as nat,
        );
    }
}

/// The references from executable code, but for those from the instructions that
/// produce names, and the number of requests for room made to find them.
pub open spec fn image_references(g: Grants, asked: nat, image: Image, sources: Seq<Rva>) -> Answered<
    Seq<Rva>,
> {
    let producers = producer_extents(g, asked, image, sources);
    match producers.out {
        Err(error) => Answered { out: Err(error), asked: producers.asked },
        Ok(extents) => all_references(
            g,
            producers.asked,
            image,
            extents,
            image.sections@.len(),
        ),
    }
}

/// Adds the references from one section to `references`.
fn scan_section(
    image: &Image,
    excluded: &[(Rva, Rva)],
    section: &ImageSection,
    references: &mut Vec<Rva>,
    memory: &mut Memory,
) -> (r: Result<(), EmitError>)
    ensures
        forall|g: Grants| #[trigger]
            final(memory).agrees(g) ==> old(memory).agrees(g) && ({
                let found = section_references(
                    g,
                    old(memory).asked(),
                    *image,
                    excluded@,
                    *section,
                );
                &&& final(memory).asked() == found.asked
                &&& match found.out {
                    Ok(more) => r == Ok::<(), EmitError>(()) && final(references)@ == old(
                        references,
                    )@ + more,
                    Err(error) => r == Err::<(), EmitError>(error),
                }
            }),
{
    if !section.executable {
        assert(references@ =~= old(references)@ + Seq::<Rva>::empty());
        return Ok(());
    }
    let start = section.virtual_address;
    let length = section.size_of_raw_data as usize;
    if length > section.bytes.len() {
        return Err(
            EmitError::Layout {
                rva: start,
                reason: "executable section bytes are not fully file-backed",
            },
        );
    }
    let bytes = slice_subrange(section.bytes.as_slice(), 0, length);
    assert(bytes@ =~= section.bytes@.take(length as int));
    let ghost asked = memory.asked();
    let mut offset: usize = 0;
    let ghost mut found: Seq<Rva> = Seq::empty();
    assert(references@ =~= old(references)@ + found);
    while offset < length
        invariant
            offset <= length,
            length == section.size_of_raw_data,
            length == bytes@.len(),
            bytes@ == section.bytes@.take(length as int),
            length <= section.bytes@.len(),
            section.executable,
            start == section.virtual_address,
            asked == old(memory).asked(),
            references@ == old(references)@ + found,
            forall|g: Grants| #[trigger]
                memory.agrees(g) ==> old(memory).agrees(g) && references_in(
                    g,
                    asked,
                    *image,
                    excluded@,
                    start,
                    bytes@,
                    offset as nat,
                ) == (Answered { out: Ok::<Seq<Rva>, EmitError>(found), asked: memory.asked() }),
        decreases length - offset,
    {
        let source = match start.checked_add(offset as u32) {
            Some(source) => source,
            None => {
                proof {
                    assert forall|g: Grants| #[trigger] memory.agrees(g) implies references_in(
                        g,
                        asked,
                        *image,
                        excluded@,
                        start,
                        bytes@,
                        length as nat,
                    ) == references_in(
                        g,
                        asked,
                        *image,
                        excluded@,
                        start,
                        bytes@,
                        (offset + 1) as nat,
                    ) by {
                        lemma_scan_prefix(
                            g,
                            asked,
                            *image,
                            excluded@,
                            start,
                            bytes@,
                            (offset + 1) as nat,
                            length as nat,
                        );
                    }
                }
                return Err(
                    EmitError::Layout {
                        rva: start,
                        reason: "executable scan exceeds the PE address width",
                    },
                );
            },
        };
        if !covers(excluded, source) {
            let rest = slice_subrange(bytes, offset, length);
            assert(rest@ =~= bytes@.skip(offset as int));
            let raw = decode_one(rest, source.0 as u64);
            if let Some(target) = reference_target(raw, image.base) {
                if image.is_mapped(target) {
                    assert(reference_at(*image, excluded@, start, bytes@, offset as int) == Some(
                        target,
                    ));
                    if !memory.reserve(references, 1) {
                        proof {
                            assert forall|g: Grants| #[trigger]
                                memory.agrees(g) implies references_in(
                                g,
                                asked,
                                *image,
                                excluded@,
                                start,
                                bytes@,
                                length as nat,
                            ) == references_in(
                                g,
                                asked,
                                *image,
                                excluded@,
                                start,
                                bytes@,
                                (offset + 1) as nat,
                            ) by {
                                lemma_scan_prefix(
                                    g,
                                    asked,
                                    *image,
                                    excluded@,
                                    start,
                                    bytes@,
                                    (offset + 1) as nat,
                                    length as nat,
                                );
                            }
                        }
                        return Err(allocation_error());
                    }
                    references.push(target);
                    proof {
                        found = found.push(target);
                    }
                    assert(references@ =~= old(references)@ + found);
                }
            }
        }
        offset += 1;
    }
    Ok(())
}

/// Collects what executable code refers to, but for the instructions that produce
/// names.
pub fn collect_image_references(
    image: &Image,
    marker_references: &[Rva],
    memory: &mut Memory,
) -> (r: Result<Vec<Rva>, EmitError>)
    ensures
        forall|g: Grants| #[trigger]
            final(memory).agrees(g) ==> old(memory).agrees(g) && (Answered {
                out: memory::listed(r),
                asked: final(memory).asked(),
            }) == image_references(g, old(memory).asked(), *image, marker_references@),
{
    let extents = match marker_reference_extents(image, marker_references, memory) {
        Ok(extents) => extents,
        Err(error) => return Err(error),
    };
    let ghost first = *memory;
    let ghost list = extents_of(*image, marker_references@)->Ok_0;
    proof {
        let g = memory.lemma_some_grants();
        assert(memory.agrees(g));
        assert(is_merged(list, extents@));
    }
    let mut references: Vec<Rva> = Vec::new();
    let mut index: usize = 0;
    assert(references@ =~= Seq::empty());
    while index < image.sections.len()
        invariant
            index <= image.sections@.len(),
            is_merged(list, extents@),
            forall|g: Grants| #[trigger]
                first.agrees(g) ==> old(memory).agrees(g) && producer_extents(
                    g,
                    old(memory).asked(),
                    *image,
                    marker_references@,
                ) == (Answered {
                    out: Ok::<Seq<(Rva, Rva)>, EmitError>(list),
                    asked: first.asked(),
                }),
            forall|g: Grants| #[trigger]
                memory.agrees(g) ==> first.agrees(g) && all_references(
                    g,
                    first.asked(),
                    *image,
                    extents@,
                    index as nat,
                ) == (Answered {
                    out: Ok::<Seq<Rva>, EmitError>(references@),
                    asked: memory.asked(),
                }),
        decreases image.sections@.len() - index,
    {
        match scan_section(
            image,
            extents.as_slice(),
            &image.sections[index],
            &mut references,
            memory,
        ) {
            Ok(_) => {},
            Err(error) => {
                proof {
                    assert forall|g: Grants| #[trigger] memory.agrees(g) implies (Answered {
                        out: Err::<Seq<Rva>, EmitError>(error),
                        asked: memory.asked(),
                    }) == image_references(
                        g,
                        old(memory).asked(),
                        *image,
                        marker_references@,
                    ) by {
                        lemma_references_prefix(
                            g,
                            first.asked(),
                            *image,
                            extents@,
                            (index + 1) as nat,
                        );
                        lemma_all_excluded_cover(
                            g,
                            first.asked(),
                            *image,
                            extents@,
                            list,
                            image.sections@.len(),
                        );
                    }
                }
                return Err(error);
            },
        }
        index += 1;
    }
    proof {
        assert forall|g: Grants| #[trigger] memory.agrees(g) implies (Answered {
            out: Ok::<Seq<Rva>, EmitError>(references@),
            asked: memory.asked(),
        }) == image_references(g, old(memory).asked(), *image, marker_references@) by {
            lemma_all_excluded_cover(
                g,
                first.asked(),
                *image,
                extents@,
                list,
                image.sections@.len(),
            );
        }
    }
    Ok(references)
}

} // verus!
