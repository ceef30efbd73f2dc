//! Which references a scan of an image finds, place by place.

use vstd::prelude::*;

use crate::emit::address::Rva;
use crate::emit::decoder;
use crate::emit::decoder::{Opcode, RawInstruction};
use crate::emit::error::EmitError;
use crate::emit::markers::MarkerPlan;
use crate::emit::memory::Grants;
use crate::emit::references;
use crate::emit::references::{Image, ImageSection};
use crate::emit::rewrite;
use crate::emit::rewrite::Planned;
use crate::emit::sdk_protect;
use crate::emit::sdk_protect::{SdkProtectEvent, SdkProtecting};
use crate::emit::sdk_run::SdkRun;
use crate::emit::writing;

verus! {

/// The bytes that a section has in the file.
pub open spec fn file_bytes(section: ImageSection) -> Seq<u8> {
    section.bytes@.take(section.size_of_raw_data as int)
}

/// What stands at byte `at` of a section.
pub open spec fn instruction_at(section: ImageSection, at: int) -> RawInstruction {
    decoder::decoded(file_bytes(section).skip(at), (section.virtual_address.0 + at) as u64)
}

/// The address lies in the image.
pub open spec fn is_mapped(image: Image, target: Rva) -> bool {
    exists|i: int|
        0 <= i < image.mapped@.len() && (#[trigger] image.mapped@[i]).0.0 <= target.0
            < image.mapped@[i].1.0
}

/// One of the instructions at `sources` holds the address.
pub open spec fn is_produced(image: Image, sources: Seq<Rva>, rva: int) -> bool {
    exists|i: int|
        0 <= i < sources.len() && (#[trigger] sources[i]).0 <= rva < sources[i].0
            + references::producer_at(image, sources[i])->0.len
}

/// Executable code at byte `at` of section `s` refers to `target`, and is not part of
/// an instruction that produces a name.
pub open spec fn refers_to(
    image: Image,
    sources: Seq<Rva>,
    s: int,
    at: int,
    target: Rva,
) -> bool {
    let section = image.sections@[s];
    &&& section.executable
    &&& 0 <= at < section.size_of_raw_data
    &&& !is_produced(image, sources, section.virtual_address.0 + at)
    &&& references::target_of(instruction_at(section, at), image.base) == Some(target)
    &&& is_mapped(image, target)
}

/// The bytes at an address are those of the first section that holds it, from the
/// address on. An address that no section holds has none.
pub proof fn lemma_bytes_are_those_of_the_section(image: Image, rva: Rva)
    ensures
        match image.bytes_at(rva) {
            Some(bytes) => exists|s: int| #[trigger]
                holds_byte(image.sections@[s], rva) && 0 <= s < image.sections@.len() && (forall|
                    t: int,
                |
                    0 <= t < s ==> !holds_byte(#[trigger] image.sections@[t], rva)) && bytes.len()
                    == image.sections@[s].bytes@.len() - (rva.0
                    - image.sections@[s].virtual_address.0) && forall|k: int|
                    0 <= k < bytes.len() ==> #[trigger] bytes[k] == image.sections@[s].bytes@[rva.0
                        - image.sections@[s].virtual_address.0 + k],
            None => forall|s: int|
                0 <= s < image.sections@.len() ==> !holds_byte(#[trigger] image.sections@[s], rva),
        },
{
    lemma_bytes_in(image.sections@, rva);
}

/// The section has a byte at the address.
pub open spec fn holds_byte(section: ImageSection, rva: Rva) -> bool {
    section.virtual_address.0 <= rva.0 < section.virtual_address.0 + section.bytes@.len()
}

/// The first section that holds an address gives its bytes.
proof fn lemma_bytes_in(sections: Seq<ImageSection>, rva: Rva)
    ensures
        match references::bytes_in(sections, rva) {
            Some(bytes) => exists|s: int| #[trigger]
                holds_byte(sections[s], rva) && 0 <= s < sections.len() && (forall|t: int|
                    0 <= t < s ==> !holds_byte(#[trigger] sections[t], rva)) && bytes.len()
                    == sections[s].bytes@.len() - (rva.0 - sections[s].virtual_address.0)
                    && forall|k: int|
                    0 <= k < bytes.len() ==> #[trigger] bytes[k] == sections[s].bytes@[rva.0
                        - sections[s].virtual_address.0 + k],
            None => forall|s: int|
                0 <= s < sections.len() ==> !holds_byte(#[trigger] sections[s], rva),
        },
    decreases sections.len(),
{
    if sections.len() > 0 {
        if holds_byte(sections[0], rva) {
            assert(holds_byte(sections[0], rva));
        } else {
            let rest = sections.drop_first();
            lemma_bytes_in(rest, rva);
            match references::bytes_in(rest, rva) {
                Some(bytes) => {
                    let s = choose|s: int| #[trigger]
                        holds_byte(rest[s], rva) && 0 <= s < rest.len() && (forall|t: int|
                            0 <= t < s ==> !holds_byte(#[trigger] rest[t], rva)) && bytes.len()
                            == rest[s].bytes@.len() - (rva.0 - rest[s].virtual_address.0)
                            && forall|k: int|
                            0 <= k < bytes.len() ==> #[trigger] bytes[k] == rest[s].bytes@[rva.0
                                - rest[s].virtual_address.0 + k];
                    assert(sections[s + 1] == rest[s]);
                    assert(holds_byte(sections[s + 1], rva));
                    assert forall|t: int| 0 <= t < s + 1 implies !holds_byte(
                        #[trigger] sections[t],
                        rva,
                    ) by {
                        if t > 0 {
                            assert(sections[t] == rest[t - 1]);
                        }
                    }
                },
                None => {
                    assert forall|s: int| 0 <= s < sections.len() implies !holds_byte(
                        #[trigger] sections[s],
                        rva,
                    ) by {
                        if s > 0 {
                            assert(sections[s] == rest[s - 1]);
                        }
                    }
                },
            }
        }
    }
}

/// The producer at `source` can be measured: a supported instruction stands there,
/// and it ends within the addresses of an image.
pub open spec fn is_measurable(image: Image, source: Rva) -> bool {
    match references::producer_at(image, source) {
        Some(raw) => !raw.invalid && raw.opcode != Opcode::Other && raw.len <= u32::MAX && source.0
            + raw.len <= u32::MAX,
        None => false,
    }
}

/// The extents of the producers are those of the instructions that stand there, each
/// of them, in order. They are found where every producer can be measured, and only
/// there.
pub proof fn lemma_every_producer_has_its_extent(image: Image, sources: Seq<Rva>)
    ensures
        (references::extents_of(image, sources) is Ok) == (forall|i: int|
            0 <= i < sources.len() ==> is_measurable(image, #[trigger] sources[i])),
        references::extents_of(image, sources) matches Ok(extents) ==> {
            &&& extents.len() == sources.len()
            &&& forall|i: int|
                0 <= i < sources.len() ==> (#[trigger] extents[i]).0 == sources[i]
                    && extents[i].1.0 == sources[i].0 + references::producer_at(
                    image,
                    sources[i],
                )->0.len
        },
    decreases sources.len(),
{
    if sources.len() > 0 {
        let front = sources.drop_last();
        let last = sources.len() - 1;
        lemma_every_producer_has_its_extent(image, front);
        assert(sources.last() == sources[last]);
        if references::extents_of(image, front) is Ok && is_measurable(image, sources[last]) {
            assert forall|i: int| 0 <= i < sources.len() implies is_measurable(
                image,
                #[trigger] sources[i],
            ) by {
                if i < last {
                    assert(front[i] == sources[i]);
                }
            }
        }
        if forall|i: int| 0 <= i < sources.len() ==> is_measurable(image, #[trigger] sources[i]) {
            assert forall|i: int| 0 <= i < front.len() implies is_measurable(
                image,
                #[trigger] front[i],
            ) by {
                assert(front[i] == sources[i]);
            }
        }
        match references::extents_of(image, sources) {
            Ok(extents) => {
                let before = references::extents_of(image, front)->Ok_0;
                assert forall|i: int| 0 <= i < sources.len() implies (#[trigger] extents[i]).0
                    == sources[i] && extents[i].1.0 == sources[i].0 + references::producer_at(
                    image,
                    sources[i],
                )->0.len by {
                    if i < last {
                        assert(extents[i] == before[i]);
                        assert(front[i] == sources[i]);
                    }
                }
            },
            Err(_) => {},
        }
    }
}

/// The extents hold what the producers hold.
proof fn lemma_excluded_is_produced(
    image: Image,
    sources: Seq<Rva>,
    extents: Seq<(Rva, Rva)>,
    rva: Rva,
)
    requires
        references::extents_of(image, sources) == Ok::<Seq<(Rva, Rva)>, EmitError>(extents),
    ensures
        references::covered(extents, rva) == is_produced(image, sources, rva.0 as int),
{
    lemma_every_producer_has_its_extent(image, sources);
    if references::covered(extents, rva) {
        let i = choose|i: int|
            0 <= i < extents.len() && (#[trigger] extents[i]).0.0 <= rva.0 < extents[i].1.0;
        assert(sources[i].0 <= rva.0);
    }
    if is_produced(image, sources, rva.0 as int) {
        let i = choose|i: int|
            0 <= i < sources.len() && (#[trigger] sources[i]).0 <= rva.0 < sources[i].0
                + references::producer_at(image, sources[i])->0.len;
        assert(extents[i].0.0 <= rva.0);
    }
}

/// A section can be scanned: all of its bytes are in the file and have addresses.
pub open spec fn is_scannable(section: ImageSection) -> bool {
    section.executable ==> section.size_of_raw_data <= section.bytes@.len()
        && section.virtual_address.0 + section.size_of_raw_data <= u32::MAX + 1
}

/// What the bytes of one section give.
proof fn lemma_section_scan(
    g: Grants,
    asked: nat,
    image: Image,
    extents: Seq<(Rva, Rva)>,
    start: Rva,
    bytes: Seq<u8>,
    count: nat,
)
    ensures
        references::references_in(g, asked, image, extents, start, bytes, count).out matches Ok(
            found,
        ) ==> {
            &&& count > 0 ==> start.0 + count <= u32::MAX + 1
            &&& forall|at: int|
                0 <= at < count ==> ((#[trigger] references::reference_at(
                    image,
                    extents,
                    start,
                    bytes,
                    at,
                )) matches Some(target) ==> found.contains(target))
            &&& forall|k: int|
                0 <= k < found.len() ==> exists|at: int|
                    0 <= at < count && #[trigger] references::reference_at(
                        image,
                        extents,
                        start,
                        bytes,
                        at,
                    ) == Some(#[trigger] found[k])
        },
        (forall|n: nat, size: nat| #[trigger] g(n, size)) && start.0 + count <= u32::MAX + 1
            ==> references::references_in(g, asked, image, extents, start, bytes, count).out is Ok,
    decreases count,
{
    if count > 0 {
        let less = (count - 1) as nat;
        lemma_section_scan(g, asked, image, extents, start, bytes, less);
        let before = references::references_in(g, asked, image, extents, start, bytes, less);
        let after = references::references_in(g, asked, image, extents, start, bytes, count);
        if after.out is Ok {
            let found = after.out->Ok_0;
            let earlier = before.out->Ok_0;
            let here = references::reference_at(image, extents, start, bytes, less as int);
            assert(here is None ==> found == earlier);
            assert(here is Some ==> found == earlier.push(here->0));
            assert forall|at: int| 0 <= at < count implies ((#[trigger] references::reference_at(
                image,
                extents,
                start,
                bytes,
                at,
            )) matches Some(target) ==> found.contains(target)) by {
                if references::reference_at(image, extents, start, bytes, at) is Some {
                    let target = references::reference_at(image, extents, start, bytes, at)->0;
                    if at < less {
                        assert(earlier.contains(target));
                        let k = choose|k: int| 0 <= k < earlier.len() && earlier[k] == target;
                        assert(found[k] == target);
                    } else {
                        assert(found[earlier.len() as int] == target);
                    }
                }
            }
            assert forall|k: int| 0 <= k < found.len() implies exists|at: int|
                0 <= at < count && #[trigger] references::reference_at(
                    image,
                    extents,
                    start,
                    bytes,
                    at,
                ) == Some(#[trigger] found[k]) by {
                if k < earlier.len() {
                    assert(found[k] == earlier[k]);
                    let at = choose|at: int|
                        0 <= at < less && #[trigger] references::reference_at(
                            image,
                            extents,
                            start,
                            bytes,
                            at,
                        ) == Some(earlier[k]);
                    assert(references::reference_at(image, extents, start, bytes, at) == Some(
                        found[k],
                    ));
                } else {
                    assert(references::reference_at(image, extents, start, bytes, less as int)
                        == Some(found[k]));
                }
            }
        }
    }
}

/// The reference at byte `at` of section `s`, with the producers left out.
pub open spec fn seen(image: Image, extents: Seq<(Rva, Rva)>, s: int, at: int) -> Option<Rva> {
    references::reference_at(
        image,
        extents,
        image.sections@[s].virtual_address,
        file_bytes(image.sections@[s]),
        at,
    )
}

/// The target is seen at some byte of one of the first sections.
pub open spec fn seen_somewhere(
    image: Image,
    extents: Seq<(Rva, Rva)>,
    count: nat,
    target: Rva,
) -> bool {
    exists|s: int, at: int|
        0 <= s < count && image.sections@[s].executable && 0 <= at
            < image.sections@[s].size_of_raw_data && #[trigger] seen(image, extents, s, at) == Some(
            target,
        )
}

/// What the first sections give.
proof fn lemma_sections_scan(
    g: Grants,
    asked: nat,
    image: Image,
    extents: Seq<(Rva, Rva)>,
    count: nat,
)
    requires
        count <= image.sections@.len(),
    ensures
        references::all_references(g, asked, image, extents, count).out matches Ok(found) ==> {
            &&& forall|s: int, at: int|
                0 <= s < count && image.sections@[s].executable && 0 <= at
                    < image.sections@[s].size_of_raw_data ==> ((#[trigger] seen(
                    image,
                    extents,
                    s,
                    at,
                )) matches Some(target) ==> found.contains(target))
            &&& forall|k: int|
                0 <= k < found.len() ==> seen_somewhere(
                    image,
                    extents,
                    count,
                    #[trigger] found[k],
                )
            &&& forall|s: int| 0 <= s < count ==> is_scannable(#[trigger] image.sections@[s])
        },
        (forall|n: nat, size: nat| #[trigger] g(n, size)) && (forall|s: int|
            0 <= s < count ==> is_scannable(#[trigger] image.sections@[s]))
            ==> references::all_references(g, asked, image, extents, count).out is Ok,
    decreases count,
{
    if count > 0 {
        let less = (count - 1) as nat;
        let section = image.sections@[less as int];
        let before = references::all_references(g, asked, image, extents, less);
        let more = references::section_references(g, before.asked, image, extents, section);
        let after = references::all_references(g, asked, image, extents, count);
        lemma_sections_scan(g, asked, image, extents, less);
        lemma_section_scan(
            g,
            before.asked,
            image,
            extents,
            section.virtual_address,
            file_bytes(section),
            section.size_of_raw_data as nat,
        );
        if after.out is Ok {
            let found = after.out->Ok_0;
            let earlier = before.out->Ok_0;
            let added = more.out->Ok_0;
            assert(found == earlier + added);
            assert forall|s: int, at: int|
                0 <= s < count && image.sections@[s].executable && 0 <= at
                    < image.sections@[s].size_of_raw_data implies ((#[trigger] seen(
                image,
                extents,
                s,
                at,
            )) matches Some(target) ==> found.contains(target)) by {
                if seen(image, extents, s, at) is Some {
                    let target = seen(image, extents, s, at)->0;
                    if s < less {
                        assert(earlier.contains(target));
                        let k = choose|k: int| 0 <= k < earlier.len() && earlier[k] == target;
                        assert(found[k] == target);
                    } else {
                        assert(added.contains(target));
                        let k = choose|k: int| 0 <= k < added.len() && added[k] == target;
                        assert(found[earlier.len() + k] == target);
                    }
                }
            }
            assert forall|k: int| 0 <= k < found.len() implies seen_somewhere(
                image,
                extents,
                count,
                #[trigger] found[k],
            ) by {
                if k < earlier.len() {
                    assert(found[k] == earlier[k]);
                    assert(seen_somewhere(image, extents, less, earlier[k]));
                } else {
                    let a = k - earlier.len();
                    assert(found[k] == added[a]);
                    let at = choose|at: int|
                        0 <= at < section.size_of_raw_data && #[trigger] references::reference_at(
                            image,
                            extents,
                            section.virtual_address,
                            file_bytes(section),
                            at,
                        ) == Some(added[a]);
                    assert(seen(image, extents, less as int, at) == Some(found[k]));
                }
            }
        }
    }
}

/// A scan of an image finds a target exactly where executable code of some section,
/// at any byte of it, refers to the target, unless that code is part of an
/// instruction that produces a name.
pub proof fn lemma_scan_finds_every_reference(
    g: Grants,
    asked: nat,
    image: Image,
    sources: Seq<Rva>,
    target: Rva,
)
    requires
        references::image_references(g, asked, image, sources).out is Ok,
    ensures
        references::image_references(g, asked, image, sources).out->Ok_0.contains(target)
            == exists|s: int, at: int|
            0 <= s < image.sections@.len() && #[trigger] refers_to(image, sources, s, at, target),
{
    let producers = references::producer_extents(g, asked, image, sources);
    let extents = producers.out->Ok_0;
    let found = references::image_references(g, asked, image, sources).out->Ok_0;
    lemma_sections_scan(g, producers.asked, image, extents, image.sections@.len());
    assert forall|s: int, at: int|
        0 <= s < image.sections@.len() && image.sections@[s].executable && 0 <= at
            < image.sections@[s].size_of_raw_data implies (#[trigger] seen(image, extents, s, at)
        == Some(target)) == refers_to(image, sources, s, at, target) by {
        let section = image.sections@[s];
        assert(is_scannable(section));
        let source = Rva((section.virtual_address.0 + at) as u32);
        lemma_excluded_is_produced(image, sources, extents, source);
        assert(is_mapped(image, target) == image.maps(target));
    }
    if found.contains(target) {
        let k = choose|k: int| 0 <= k < found.len() && found[k] == target;
        assert(seen_somewhere(image, extents, image.sections@.len(), found[k]));
        let (s, at) = choose|s: int, at: int|
            0 <= s < image.sections@.len() && image.sections@[s].executable && 0 <= at
                < image.sections@[s].size_of_raw_data && #[trigger] seen(image, extents, s, at)
                == Some(found[k]);
        assert(seen(image, extents, s, at) == Some(target));
        assert(refers_to(image, sources, s, at, target));
    }
    if exists|s: int, at: int|
        0 <= s < image.sections@.len() && #[trigger] refers_to(image, sources, s, at, target) {
        let (s, at) = choose|s: int, at: int|
            0 <= s < image.sections@.len() && #[trigger] refers_to(image, sources, s, at, target);
        assert(seen(image, extents, s, at) == Some(target));
    }
}

/// A scan succeeds where the producers can be measured, the executable sections can
/// be scanned, and the allocator grants every request.
pub proof fn lemma_scan_succeeds(g: Grants, asked: nat, image: Image, sources: Seq<Rva>)
    requires
        forall|n: nat, size: nat| #[trigger] g(n, size),
        forall|i: int| 0 <= i < sources.len() ==> is_measurable(image, #[trigger] sources[i]),
        forall|s: int|
            0 <= s < image.sections@.len() ==> is_scannable(#[trigger] image.sections@[s]),
    ensures
        references::image_references(g, asked, image, sources).out is Ok,
{
    lemma_every_producer_has_its_extent(image, sources);
    let producers = references::producer_extents(g, asked, image, sources);
    lemma_sections_scan(
        g,
        producers.asked,
        image,
        producers.out->Ok_0,
        image.sections@.len(),
    );
}

/// Merging ranges neither loses an address nor adds one, and leaves a gap between any
/// two ranges.
pub proof fn lemma_merging_keeps_addresses(
    ranges: Seq<(Rva, Rva)>,
    merged: Seq<(Rva, Rva)>,
    i: int,
    j: int,
    rva: u32,
)
    requires
        references::is_merged(ranges, merged),
    ensures
        0 <= i < ranges.len() && ranges[i].0.0 <= rva < ranges[i].1.0 ==> exists|m: int|
            0 <= m < merged.len() && (#[trigger] merged[m]).0.0 <= rva < merged[m].1.0,
        0 <= i < merged.len() && merged[i].0.0 <= rva < merged[i].1.0 ==> exists|m: int|
            0 <= m < ranges.len() && (#[trigger] ranges[m]).0.0 <= rva < ranges[m].1.0,
        0 <= i < merged.len() ==> merged[i].0.0 < merged[i].1.0,
        0 <= i < j < merged.len() ==> merged[i].1.0 < merged[j].0.0,
{
    assert(references::covered(merged, Rva(rva)) == references::covered(ranges, Rva(rva)));
}

/// As much of a name is erased as nothing refers to: a start of the name without a
/// reference into it is erased whole.
pub proof fn lemma_unreferenced_start_is_erased(
    name: Rva,
    length: u32,
    found: Seq<Rva>,
    erasable: u32,
    part: u32,
)
    requires
        references::is_erasable(name, length, found, erasable),
        name.0 + length <= u32::MAX,
        part <= length,
        forall|i: int|
            0 <= i < found.len() ==> !(name.0 <= (#[trigger] found[i]).0 < name.0 + part),
    ensures
        part <= erasable <= length,
{
}

// ---------------------------------------------------------------------------
// What is erased
// ---------------------------------------------------------------------------

/// Some executable code that does not produce a name refers to the address.
pub open spec fn is_referred_to(image: Image, sources: Seq<Rva>, rva: Rva) -> bool {
    exists|s: int, at: int|
        0 <= s < image.sections@.len() && #[trigger] refers_to(image, sources, s, at, rva)
}

/// The instructions that produce names count as often as there are, in any order.
proof fn lemma_same_sources(image: Image, sources: Seq<Rva>, others: Seq<Rva>, rva: Rva)
    requires
        sources.to_set() == others.to_set(),
    ensures
        is_referred_to(image, sources, rva) == is_referred_to(image, others, rva),
{
    lemma_produced_by_either(image, sources, others);
    lemma_produced_by_either(image, others, sources);
    assert forall|s: int, at: int| refers_to(image, sources, s, at, rva) == #[trigger] refers_to(
        image,
        others,
        s,
        at,
        rva,
    ) by {
        let place = image.sections@[s].virtual_address.0 + at;
        assert(is_produced(image, sources, place) == is_produced(image, others, place));
    }
    if is_referred_to(image, sources, rva) {
        let (s, at) = choose|s: int, at: int|
            0 <= s < image.sections@.len() && #[trigger] refers_to(image, sources, s, at, rva);
        assert(refers_to(image, others, s, at, rva));
    }
    if is_referred_to(image, others, rva) {
        let (s, at) = choose|s: int, at: int|
            0 <= s < image.sections@.len() && #[trigger] refers_to(image, others, s, at, rva);
        assert(refers_to(image, sources, s, at, rva));
    }
}

/// What one list of instructions produces, a list with all of them produces.
proof fn lemma_produced_by_either(image: Image, sources: Seq<Rva>, others: Seq<Rva>)
    requires
        sources.to_set() == others.to_set(),
    ensures
        forall|place: int| #[trigger]
            is_produced(image, sources, place) ==> is_produced(image, others, place),
{
    assert forall|place: int| #[trigger]
        is_produced(image, sources, place) implies is_produced(image, others, place) by {
        let i = choose|i: int|
            0 <= i < sources.len() && (#[trigger] sources[i]).0 <= place < sources[i].0
                + references::producer_at(image, sources[i])->0.len;
        assert(sources.to_set().contains(sources[i]));
        assert(others.to_set().contains(sources[i]));
        let j = choose|j: int| 0 <= j < others.len() && others[j] == sources[i];
        assert(others[j].0 <= place);
    }
}

/// Once the sections were read, everything is planned that a run has to write: each
/// jump, and the patch of each closing marker. A name is erased as a whole where no
/// executable code refers into it but the instructions that pass it, and no byte that
/// other code refers to is erased.
pub proof fn lemma_unreferenced_names_are_erased<R>(
    g: Grants,
    asked: nat,
    plan: MarkerPlan,
    run: SdkRun<R>,
    image: Image,
    next: SdkProtecting<R>,
    asked1: nat,
)
    requires
        sdk_protect::protects(
            g,
            asked,
            SdkProtecting::<R>::ReadImage { plan, run },
            SdkProtectEvent::Sections(image),
            next,
            asked1,
        ),
        next is Locate,
    ensures
        ({
            let edits = next->edits@;
            let sources = plan.name_references@;
            &&& forall|i: int|
                0 <= i < run.stubs@.len() ==> edits.contains(
                    Planned::Jump(#[trigger] run.stubs@[i]),
                )
            &&& forall|i: int|
                0 <= i < plan.end_patches@.len() ==> edits.contains(
                    Planned::End(#[trigger] plan.end_patches@[i]),
                )
            &&& forall|i: int|
                0 <= i < plan.names@.len() && (#[trigger] plan.names@[i]).1 > 0
                    && plan.names@[i].0.0 + plan.names@[i].1 <= u32::MAX && (forall|rva: Rva|
                    plan.names@[i].0.0 <= rva.0 < plan.names@[i].0.0 + plan.names@[i].1
                        ==> !#[trigger] is_referred_to(image, sources, rva)) ==> edits.contains(
                    Planned::Name(plan.names@[i].0, plan.names@[i].1),
                )
            &&& forall|k: int, rva: Rva|
                0 <= k < edits.len() && #[trigger] is_erased(edits[k], rva) ==> !#[trigger]
                    is_referred_to(image, sources, rva)
        }),
{
    let edits = next->edits@;
    let sources = plan.name_references@;
    let producers = choose|producers: Seq<Rva>|
        {
            let collected = #[trigger] references::image_references(g, asked, image, producers);
            &&& references::ascending_addresses(producers)
            &&& producers.to_set() == plan.name_references@.to_set()
            &&& asked1 == collected.asked
            &&& match collected.out {
                Err(error) => next == SdkProtecting::<R>::Failed(error),
                Ok(found) => next matches SdkProtecting::Locate { plan: plan1, run: run1, edits }
                    && plan1 == plan && run1 == run && exists|names: Seq<(Rva, u32)>|
                    {
                        &&& references::ascending(names)
                        &&& forall|pair: (Rva, u32)| #[trigger]
                            names.contains(pair) <==> references::erased_pair(
                                plan.names@,
                                found,
                                pair,
                            )
                        &&& edits@ == #[trigger] rewrite::planned(
                            run.stubs@,
                            plan.end_patches@,
                            names,
                        )
                    },
            }
        };
    let found = references::image_references(g, asked, image, producers).out->Ok_0;
    let names = choose|names: Seq<(Rva, u32)>|
        {
            &&& references::ascending(names)
            &&& forall|pair: (Rva, u32)| #[trigger]
                names.contains(pair) <==> references::erased_pair(plan.names@, found, pair)
            &&& edits == #[trigger] rewrite::planned(run.stubs@, plan.end_patches@, names)
        };
    writing::lemma_everything_is_planned(run.stubs@, plan.end_patches@, names);
    assert forall|rva: Rva| #[trigger] found.contains(rva) == is_referred_to(
        image,
        sources,
        rva,
    ) by {
        lemma_scan_finds_every_reference(g, asked, image, producers, rva);
        lemma_same_sources(image, producers, sources, rva);
    }
    assert forall|i: int| 0 <= i < run.stubs@.len() implies edits.contains(
        Planned::Jump(#[trigger] run.stubs@[i]),
    ) by {
        assert(edits[i] == Planned::Jump(run.stubs@[i]));
    }
    assert forall|i: int| 0 <= i < plan.end_patches@.len() implies edits.contains(
        Planned::End(#[trigger] plan.end_patches@[i]),
    ) by {
        assert(edits[run.stubs@.len() + i] == Planned::End(plan.end_patches@[i]));
    }
    assert forall|i: int|
        0 <= i < plan.names@.len() && (#[trigger] plan.names@[i]).1 > 0 && plan.names@[i].0.0
            + plan.names@[i].1 <= u32::MAX && (forall|rva: Rva|
            plan.names@[i].0.0 <= rva.0 < plan.names@[i].0.0 + plan.names@[i].1
                ==> !#[trigger] is_referred_to(image, sources, rva)) implies edits.contains(
        Planned::Name(plan.names@[i].0, plan.names@[i].1),
    ) by {
        let pair = plan.names@[i];
        assert forall|k: int| 0 <= k < found.len() implies !(pair.0.0 <= (#[trigger] found[k]).0
            < pair.0.0 + pair.1) by {
            assert(found.contains(found[k]));
        }
        assert(references::is_erasable(pair.0, pair.1, found, pair.1));
        assert(references::erased_pair(plan.names@, found, pair));
        assert(names.contains(pair));
        let k = choose|k: int| 0 <= k < names.len() && names[k] == pair;
        assert(edits[run.stubs@.len() + plan.end_patches@.len() + k] == Planned::Name(
            pair.0,
            pair.1,
        ));
    }
    assert forall|k: int, rva: Rva|
        0 <= k < edits.len() && #[trigger] is_erased(edits[k], rva) implies !#[trigger]
        is_referred_to(image, sources, rva) by {
        let front = run.stubs@.len() + plan.end_patches@.len();
        if k < run.stubs@.len() {
            assert(edits[k] == Planned::Jump(run.stubs@[k]));
        } else if k < front {
            assert(edits[k] == Planned::End(plan.end_patches@[k - run.stubs@.len()]));
        } else {
            let pair = names[k - front];
            assert(edits[k] == Planned::Name(pair.0, pair.1));
            assert(names.contains(pair));
            assert(references::erased_pair(plan.names@, found, pair));
            if found.contains(rva) {
                let m = choose|m: int| 0 <= m < found.len() && found[m] == rva;
                references::lemma_erased_never_referenced(plan.names@, found, pair, m);
            }
        }
    }
}

/// The edit erases the byte at the address as part of a name.
pub open spec fn is_erased(edit: Planned, rva: Rva) -> bool {
    edit matches Planned::Name(start, length) && start.0 <= rva.0 < start.0 + length
}

} // verus!
