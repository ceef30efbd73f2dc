//! Putting an instance of the virtual machine into an image, step by step.

use vstd::prelude::*;

use crate::emit::address::Rva;
use crate::emit::code::Architecture;
use crate::emit::error::PeError;
use crate::emit::vm;
use crate::emit::vm::{
    check_architecture, check_leaf_return, check_leaf_source, instance_links, leaf_return,
    placement_address, Fixup, LeafImage, LeafSource, NativeInstance, VmEmbeddingError, VmPlacement,
    VmPlacementError,
};

verus! {

/// How far the embedding has come. Each state but the last two names what has to be
/// done next. With `leaf`, the instance stands for a function of the image and is
/// described to the unwinder.
pub enum Embedding {
    /// Find out what the image is made for and what is known of it.
    Inspect { sources: Vec<LeafSource>, leaf: bool },
    /// Read what the image holds at the instruction `index`.
    ReadSource { sources: Vec<LeafSource>, image: LeafImage, index: usize },
    /// Read the byte that the image holds at `behind`.
    ReadReturn { image: LeafImage, behind: Rva },
    /// Find out where the next section goes.
    FindPlace { image_base: u64, leaf: bool },
    /// Generate the instance for `address`.
    Generate { image_base: u64, rva: Rva, address: u64, leaf: bool },
    /// Put the fixups into the table of fixups, one after the other.
    InsertFixups { image_base: u64, rva: Rva, instance: NativeInstance, fixups: Vec<Fixup> },
    /// Append the instance and its fixups, and for a leaf its unwind information.
    Append(VmPlacement),
    Failed(VmEmbeddingError),
}

/// The result of what a state asked for.
pub enum EmbedEvent {
    Inspected { architecture: Architecture, image: LeafImage },
    Bytes(Result<Vec<u8>, PeError>),
    Place(Result<Rva, PeError>),
    Generated(Result<NativeInstance, String>),
    Inserted(Result<(), PeError>),
}

/// What follows once the first `index` instructions were tested.
pub open spec fn after_sources(sources: Vec<LeafSource>, image: LeafImage, index: int) -> Embedding {
    if index < sources@.len() {
        if sources@[index].rva is None {
            Embedding::Failed(VmEmbeddingError::LeafSource)
        } else {
            Embedding::ReadSource { sources, image, index: index as usize }
        }
    } else {
        match vm::return_of(sources@) {
            Err(error) => Embedding::Failed(error),
            Ok(behind) => Embedding::ReadReturn { image, behind },
        }
    }
}

/// What follows once the place of the instance was found.
pub open spec fn after_place(image_base: u64, leaf: bool, place: Result<Rva, PeError>) -> Embedding {
    match place {
        Err(error) => Embedding::Failed(VmEmbeddingError::Pe(error)),
        Ok(rva) => match vm::address_of(image_base, rva) {
            Err(error) => Embedding::Failed(VmEmbeddingError::Placement(error)),
            Ok(address) => Embedding::Generate { image_base, rva, address, leaf },
        },
    }
}

/// `next` follows once the instance was generated.
pub open spec fn after_generation(
    image_base: u64,
    rva: Rva,
    generated: Result<NativeInstance, String>,
    next: Embedding,
) -> bool {
    match generated {
        Err(message) => next == Embedding::Failed(
            VmEmbeddingError::Placement(VmPlacementError::Instance(message)),
        ),
        Ok(generated) => match vm::links_of(generated, rva) {
            None => next == Embedding::Failed(
                VmEmbeddingError::Placement(VmPlacementError::RvaOverflow),
            ),
            Some((entry, links, complete)) => match next {
                Embedding::InsertFixups { image_base: base1, rva: rva1, instance, fixups } => base1
                    == image_base && rva1 == rva && instance == generated && fixups@ == links,
                _ => false,
            },
        },
    }
}

/// `next` is the state that follows `state` once `event` has happened. An event
/// that was not asked for changes nothing.
pub open spec fn embeds(state: Embedding, event: EmbedEvent, next: Embedding) -> bool {
    match (state, event) {
        (
            Embedding::Inspect { sources, leaf },
            EmbedEvent::Inspected { architecture, image },
        ) => next == (match architecture {
            Architecture::X86 => Embedding::Failed(VmEmbeddingError::Architecture),
            Architecture::X64 => if leaf {
                after_sources(sources, image, 0)
            } else {
                Embedding::FindPlace { image_base: image.image_base, leaf }
            },
        }),
        (Embedding::ReadSource { sources, image, index }, EmbedEvent::Bytes(encoding)) => next == (
        match vm::leaf_verdict(sources@[index as int], encoding, image) {
            Err(error) => Embedding::Failed(error),
            Ok(_) => after_sources(sources, image, index + 1),
        }),
        (Embedding::ReadReturn { image, behind }, EmbedEvent::Bytes(encoding)) => next == (
        match vm::return_verdict(encoding) {
            Err(error) => Embedding::Failed(error),
            Ok(_) => Embedding::FindPlace { image_base: image.image_base, leaf: true },
        }),
        (Embedding::FindPlace { image_base, leaf }, EmbedEvent::Place(place)) => next
            == after_place(image_base, leaf, place),
        (
            Embedding::Generate { image_base, rva, address, leaf },
            EmbedEvent::Generated(generated),
        ) => after_generation(image_base, rva, generated, next),
        (
            Embedding::InsertFixups { image_base, rva, instance, fixups },
            EmbedEvent::Inserted(inserted),
        ) => match vm::placed(Ok(instance), image_base, rva, inserted) {
            Err(error) => next == Embedding::Failed(VmEmbeddingError::Placement(error)),
            Ok(view) => next matches Embedding::Append(placement) && placement@ == view,
        },
        _ => next == state,
    }
}

/// What is known in each state: an instruction that is to be read has an address,
/// and a place has one that an instance can be generated for.
pub open spec fn embedding_wf(state: Embedding) -> bool {
    match state {
        Embedding::ReadSource { sources, image, index } => index < sources@.len()
            && sources@[index as int].rva is Some,
        Embedding::Generate { image_base, rva, address, leaf } => vm::address_of(image_base, rva)
            == Ok::<u64, VmPlacementError>(address),
        _ => true,
    }
}

/// Goes on with the instruction `index`.
fn proceed(sources: Vec<LeafSource>, image: LeafImage, index: usize) -> (next: Embedding)
    ensures
        next == after_sources(sources, image, index as int),
        embedding_wf(next),
{
    if index < sources.len() {
        if sources[index].rva.is_none() {
            return Embedding::Failed(VmEmbeddingError::LeafSource);
        }
        return Embedding::ReadSource { sources, image, index };
    }
    match leaf_return(sources.as_slice()) {
        Err(error) => Embedding::Failed(error),
        Ok(behind) => Embedding::ReadReturn { image, behind },
    }
}

/// Takes the embedding of an instance a step further.
pub fn append_instance(state: Embedding, event: EmbedEvent) -> (next: Embedding)
    requires
        embedding_wf(state),
    ensures
        embedding_wf(next),
        embeds(state, event, next),
{
    match (state, event) {
        (Embedding::Inspect { sources, leaf }, EmbedEvent::Inspected { architecture, image }) => {
            if let Err(error) = check_architecture(architecture) {
                return Embedding::Failed(error);
            }
            if leaf {
                proceed(sources, image, 0)
            } else {
                Embedding::FindPlace { image_base: image.image_base, leaf }
            }
        },
        (Embedding::ReadSource { sources, image, index }, EmbedEvent::Bytes(encoding)) => {
            assert(sources.len() == sources@.len());
            match check_leaf_source(&sources[index], encoding, &image) {
                Err(error) => Embedding::Failed(error),
                Ok(_) => proceed(sources, image, index + 1),
            }
        },
        (Embedding::ReadReturn { image, behind: _ }, EmbedEvent::Bytes(encoding)) => {
            match check_leaf_return(encoding) {
                Err(error) => Embedding::Failed(error),
                Ok(_) => Embedding::FindPlace { image_base: image.image_base, leaf: true },
            }
        },
        (Embedding::FindPlace { image_base, leaf }, EmbedEvent::Place(place)) => {
            let rva = match place {
                Ok(rva) => rva,
                Err(error) => return Embedding::Failed(VmEmbeddingError::Pe(error)),
            };
            match placement_address(image_base, rva) {
                Err(error) => Embedding::Failed(VmEmbeddingError::Placement(error)),
                Ok(address) => Embedding::Generate { image_base, rva, address, leaf },
            }
        },
        (
            Embedding::Generate { image_base, rva, address: _, leaf: _ },
            EmbedEvent::Generated(generated),
        ) => {
            let instance = match generated {
                Ok(instance) => instance,
                Err(message) => return Embedding::Failed(
                    VmEmbeddingError::Placement(VmPlacementError::Instance(message)),
                ),
            };
            match instance_links(&instance, rva) {
                Err(error) => Embedding::Failed(VmEmbeddingError::Placement(error)),
                Ok(links) => Embedding::InsertFixups {
                    image_base,
                    rva,
                    instance,
                    fixups: links.fixups,
                },
            }
        },
        (
            Embedding::InsertFixups { image_base, rva, instance, fixups: _ },
            EmbedEvent::Inserted(inserted),
        ) => match VmPlacement::generate(Ok(instance), image_base, rva, inserted) {
            Err(error) => Embedding::Failed(VmEmbeddingError::Placement(error)),
            Ok(placement) => Embedding::Append(placement),
        },
        (state, _) => state,
    }
}

/// An instance is placed only behind a test of every instruction of its leaf: each of
/// them is read in turn, and only once the last has passed is the return behind it
/// read.
pub proof fn lemma_every_source_is_tested(
    sources: Vec<LeafSource>,
    image: LeafImage,
    index: usize,
    bytes: Vec<u8>,
    next: Embedding,
)
    requires
        index < sources@.len(),
        embeds(
            Embedding::ReadSource { sources, image, index },
            EmbedEvent::Bytes(Ok(bytes)),
            next,
        ),
    ensures
        vm::leaf_verdict(sources@[index as int], Ok(bytes), image) is Err ==> next is Failed,
        vm::leaf_verdict(sources@[index as int], Ok(bytes), image) is Ok && index + 1
            < sources@.len() && sources@[index + 1].rva is Some ==> next == (
        Embedding::ReadSource { sources, image, index: (index + 1) as usize }),
        vm::leaf_verdict(sources@[index as int], Ok(bytes), image) is Ok && index + 1
            < sources@.len() && sources@[index + 1].rva is None ==> next is Failed,
        next is ReadReturn ==> index + 1 == sources@.len(),
        next matches Embedding::ReadReturn { image: image1, behind } ==> image1 == image
            && sources@[index as int].rva is Some && behind.0 == (
        sources@[index as int].rva->0).0 + sources@[index as int].len,
        !(next is FindPlace) && !(next is Generate) && !(next is InsertFixups) && !(
        next is Append),
{
    assert(sources@.last() == sources@[sources@.len() - 1]);
}

/// Where a leaf is embedded, its instructions and the return behind them are tested
/// before a place is looked for.
pub proof fn lemma_leaf_is_tested_first(
    sources: Vec<LeafSource>,
    image: LeafImage,
    next: Embedding,
)
    requires
        embeds(
            Embedding::Inspect { sources, leaf: true },
            EmbedEvent::Inspected { architecture: Architecture::X64, image },
            next,
        ),
    ensures
        next is ReadSource || next is Failed,
        (next is ReadSource) == (sources@.len() > 0 && sources@[0].rva is Some),
        next is ReadSource ==> next == (Embedding::ReadSource { sources, image, index: 0 }),
{
}

} // verus!
