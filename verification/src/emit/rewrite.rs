//! Writing over the original bytes of an image.

use vstd::prelude::*;

use crate::emit::address;
use crate::emit::address::Rva;
use crate::emit::error::{EmitError, PeError};
use crate::emit::markers;
use crate::emit::markers::{apply_end_patch, erase_sdk_name, EndPatch};
use crate::emit::stub;
use crate::emit::stub::{Stub, STUB_LEN};

verus! {

/// Something to write over the original bytes. The offsets are where the reader of
/// the image finds the bytes in the file, or why it does not.
#[derive(Debug, PartialEq, Eq)]
pub enum Edit {
    /// A jump to a copy. The offsets are those of the first and the last byte.
    Jump { stub: Stub, offset: Result<u32, PeError>, last_offset: Result<u32, PeError> },
    /// A closing marker.
    End { patch: EndPatch, offset: Result<u32, PeError> },
    /// A name that nothing refers to any more.
    Name { rva: Rva, length: u32, offset: Result<u32, PeError> },
}

/// Something to write, before its place in the file is known.
#[derive(Debug, Clone, Copy, PartialEq, Eq)]
pub enum Planned {
    Jump(Stub),
    End(EndPatch),
    Name(Rva, u32),
}

/// What a run writes: the jumps first, then the closing markers, then the names.
pub open spec fn planned(
    stubs: Seq<Stub>,
    patches: Seq<EndPatch>,
    names: Seq<(Rva, u32)>,
) -> Seq<Planned> {
    stubs.map_values(|stub: Stub| Planned::Jump(stub)) + patches.map_values(
        |patch: EndPatch| Planned::End(patch),
    ) + names.map_values(|name: (Rva, u32)| Planned::Name(name.0, name.1))
}

/// Plans what a run writes.
pub fn plan_edits(stubs: &[Stub], patches: &[EndPatch], names: &[(Rva, u32)]) -> (edits: Vec<
    Planned,
>)
    ensures
        edits@ == planned(stubs@, patches@, names@),
{
    let mut edits: Vec<Planned> = Vec::new();
    let ghost jumps = stubs@.map_values(|stub: Stub| Planned::Jump(stub));
    let ghost ends = patches@.map_values(|patch: EndPatch| Planned::End(patch));
    let ghost erased = names@.map_values(|name: (Rva, u32)| Planned::Name(name.0, name.1));
    let mut index: usize = 0;
    while index < stubs.len()
        invariant
            index <= stubs@.len(),
            jumps == stubs@.map_values(|stub: Stub| Planned::Jump(stub)),
            edits@ == jumps.take(index as int),
        decreases stubs@.len() - index,
    {
        edits.push(Planned::Jump(stubs[index]));
        index += 1;
        assert(edits@ =~= jumps.take(index as int));
    }
    let mut index: usize = 0;
    assert(edits@ =~= jumps + ends.take(0));
    while index < patches.len()
        invariant
            index <= patches@.len(),
            ends == patches@.map_values(|patch: EndPatch| Planned::End(patch)),
            edits@ == jumps + ends.take(index as int),
        decreases patches@.len() - index,
    {
        edits.push(Planned::End(patches[index]));
        index += 1;
        assert(edits@ =~= jumps + ends.take(index as int));
    }
    let mut index: usize = 0;
    assert(edits@ =~= jumps + ends + erased.take(0));
    while index < names.len()
        invariant
            index <= names@.len(),
            erased == names@.map_values(|name: (Rva, u32)| Planned::Name(name.0, name.1)),
            edits@ == jumps + ends + erased.take(index as int),
        decreases names@.len() - index,
    {
        edits.push(Planned::Name(names[index].0, names[index].1));
        index += 1;
        assert(edits@ =~= jumps + ends + erased.take(index as int));
    }
    assert(edits@ =~= planned(stubs@, patches@, names@));
    edits
}

/// Where the reader of the image finds the bytes of an edit in the file. Only a
/// jump is asked for its last byte.
#[derive(Debug, PartialEq, Eq)]
pub struct Located {
    pub offset: Result<u32, PeError>,
    pub last_offset: Result<u32, PeError>,
}

/// A planned edit whose place was found.
pub open spec fn edit_at(planned: Planned, located: Located) -> Edit {
    match planned {
        Planned::Jump(stub) => Edit::Jump {
            stub,
            offset: located.offset,
            last_offset: located.last_offset,
        },
        Planned::End(patch) => Edit::End { patch, offset: located.offset },
        Planned::Name(rva, length) => Edit::Name { rva, length, offset: located.offset },
    }
}

/// The planned edits, each with its place.
pub open spec fn edits_at(planned: Seq<Planned>, located: Seq<Located>) -> Seq<Edit> {
    Seq::new(planned.len(), |i: int| edit_at(planned[i], located[i]))
}

/// Gives each planned edit its place.
pub fn locate_edits(planned: &[Planned], located: Vec<Located>) -> (edits: Vec<Edit>)
    requires
        planned@.len() == located@.len(),
    ensures
        edits@ == edits_at(planned@, located@),
{
    let ghost all = located@;
    let mut edits: Vec<Edit> = Vec::new();
    let mut index: usize = 0;
    for place in iter: located
        invariant
            iter.seq() == all,
            all.len() == planned@.len(),
            index == iter.index(),
            edits@ == edits_at(planned@, all).take(index as int),
    {
        let edit = match planned[index] {
            Planned::Jump(stub) => Edit::Jump {
                stub,
                offset: place.offset,
                last_offset: place.last_offset,
            },
            Planned::End(patch) => Edit::End { patch, offset: place.offset },
            Planned::Name(rva, length) => Edit::Name { rva, length, offset: place.offset },
        };
        edits.push(edit);
        index += 1;
        assert(edits@ =~= edits_at(planned@, all).take(index as int));
    }
    assert(edits@ =~= edits_at(planned@, all));
    edits
}

/// `data` with a jump written, or why it cannot be.
pub open spec fn jump_written(
    data: Seq<u8>,
    stub: Stub,
    offset: Result<u32, PeError>,
    last_offset: Result<u32, PeError>,
) -> Result<Seq<u8>, EmitError> {
    if stub.span_len < STUB_LEN {
        Err(
            EmitError::Pe(
                stub::refused("the protected entry span is shorter than a near jump"),
            ),
        )
    } else {
        match offset {
            Err(error) => Err(EmitError::Pe(error)),
            Ok(offset) => match (stub.last(offset, data.len()), last_offset) {
                (Err(error), _) => Err(EmitError::Pe(error)),
                (_, Err(error)) => Err(EmitError::Pe(error)),
                (_, Ok(last_offset)) => match stub.obstacle(offset, last_offset, data.len()) {
                    Some(error) => Err(EmitError::Pe(error)),
                    None => Ok(stub.written(data, offset)),
                },
            },
        }
    }
}

/// `data` with one thing written over it, or why that cannot be done.
pub open spec fn edited(data: Seq<u8>, edit: Edit) -> Result<Seq<u8>, EmitError> {
    match edit {
        Edit::Jump { stub, offset, last_offset } => jump_written(data, stub, offset, last_offset),
        Edit::End { patch, offset } => match offset {
            Err(error) => Err(EmitError::Pe(error)),
            Ok(offset) => match markers::file_range(
                markers::patch_extent(patch).0,
                offset,
                markers::patch_extent(patch).1,
                data.len(),
                "SDK End patch range overflows the host address width",
                "SDK End patch is not file-backed",
            ) {
                Some(error) => Err(error),
                None => Ok(
                    address::filled(
                        data,
                        offset as int,
                        markers::patch_extent(patch).1 as int,
                        markers::patch_fill(patch),
                    ),
                ),
            },
        },
        Edit::Name { rva, length, offset } => match offset {
            Err(error) => Err(EmitError::Pe(error)),
            Ok(offset) => match markers::file_range(
                rva,
                offset,
                length,
                data.len(),
                "SDK marker name range overflows the host address width",
                "SDK marker name is not file-backed",
            ) {
                Some(error) => Err(error),
                None => Ok(address::filled(data, offset as int, length as int, 0)),
            },
        },
    }
}

/// Writes a jump.
fn write_jump(
    data: &mut Vec<u8>,
    stub: Stub,
    offset: Result<u32, PeError>,
    last_offset: Result<u32, PeError>,
) -> (r: Result<(), EmitError>)
    ensures
        match jump_written(old(data)@, stub, offset, last_offset) {
            Ok(bytes) => r == Ok::<(), EmitError>(()) && final(data)@ == bytes,
            Err(error) => r == Err::<(), EmitError>(error) && final(data)@ == old(data)@,
        },
{
    if let Err(error) = stub.check_span() {
        return Err(EmitError::Pe(error));
    }
    let offset = match offset {
        Ok(offset) => offset,
        Err(error) => return Err(EmitError::Pe(error)),
    };
    if let Err(error) = stub.last_rva(offset, data.len()) {
        return Err(EmitError::Pe(error));
    }
    let last_offset = match last_offset {
        Ok(last_offset) => last_offset,
        Err(error) => return Err(EmitError::Pe(error)),
    };
    match stub.write(offset, last_offset, data) {
        Ok(_) => Ok(()),
        Err(error) => Err(EmitError::Pe(error)),
    }
}

/// Writes one thing over the bytes of an image.
pub fn apply_edit(data: &mut Vec<u8>, edit: Edit) -> (r: Result<(), EmitError>)
    ensures
        match edited(old(data)@, edit) {
            Ok(bytes) => r == Ok::<(), EmitError>(()) && final(data)@ == bytes,
            Err(error) => r == Err::<(), EmitError>(error) && final(data)@ == old(data)@,
        },
{
    match edit {
        Edit::Jump { stub, offset, last_offset } => write_jump(data, stub, offset, last_offset),
        Edit::End { patch, offset } => match offset {
            Err(error) => Err(EmitError::Pe(error)),
            Ok(offset) => apply_end_patch(patch, offset, data),
        },
        Edit::Name { rva, length, offset } => match offset {
            Err(error) => Err(EmitError::Pe(error)),
            Ok(offset) => erase_sdk_name(rva, length, offset, data),
        },
    }
}

/// The bytes after each edit in turn, up to the first that fails, and that failure.
pub open spec fn all_edited(data: Seq<u8>, edits: Seq<Edit>) -> (Seq<u8>, Option<EmitError>)
    decreases edits.len(),
{
    if edits.len() == 0 {
        (data, None)
    } else {
        match edited(data, edits[0]) {
            Err(error) => (data, Some(error)),
            Ok(after) => all_edited(after, edits.drop_first()),
        }
    }
}

/// Writes everything over the bytes of an image, in order.
pub fn rewrite(data: &mut Vec<u8>, edits: Vec<Edit>) -> (r: Result<(), EmitError>)
    ensures
        ({
            let (bytes, failure) = all_edited(old(data)@, edits@);
            &&& final(data)@ == bytes
            &&& match failure {
                Some(error) => r == Err::<(), EmitError>(error),
                None => r == Ok::<(), EmitError>(()),
            }
        }),
{
    let ghost all = edits@;
    let ghost start = data@;
    assert(all.skip(0) =~= all);
    for edit in iter: edits
        invariant
            iter.seq() == all,
            start == old(data)@,
            all_edited(start, all) == all_edited(data@, all.skip(iter.index() as int)),
    {
        proof {
            let rest = all.skip(iter.index() as int);
            assert(rest[0] == edit);
            assert(rest.drop_first() =~= all.skip(iter.index() as int + 1));
        }
        match apply_edit(data, edit) {
            Ok(_) => {},
            Err(error) => return Err(error),
        }
    }
    assert(all.skip(all.len() as int) =~= Seq::empty());
    Ok(())
}

/// The range of file bytes that an edit may change.
pub open spec fn edit_range(edit: Edit) -> Option<(int, int)> {
    match edit {
        Edit::Jump { stub, offset, last_offset } => match offset {
            Ok(offset) => Some((offset as int, offset + STUB_LEN)),
            Err(_) => None,
        },
        Edit::End { patch, offset } => match offset {
            Ok(offset) => Some((offset as int, offset + markers::patch_extent(patch).1)),
            Err(_) => None,
        },
        Edit::Name { rva, length, offset } => match offset {
            Ok(offset) => Some((offset as int, offset + length)),
            Err(_) => None,
        },
    }
}

/// The byte lies in the range of the edit.
pub open spec fn touches(edit: Edit, i: int) -> bool {
    edit_range(edit) matches Some(range) && range.0 <= i < range.1
}

/// Rewriting keeps the length of the image, and every byte outside the spans of the
/// edits.
pub proof fn lemma_rewrite_touches_spans_only(data: Seq<u8>, edits: Seq<Edit>, i: int)
    requires
        0 <= i < data.len(),
        forall|k: int| 0 <= k < edits.len() ==> !touches(#[trigger] edits[k], i),
    ensures
        all_edited(data, edits).0.len() == data.len(),
        all_edited(data, edits).0[i] == data[i],
    decreases edits.len(),
{
    if edits.len() > 0 {
        assert(!touches(edits[0], i));
        match edited(data, edits[0]) {
            Ok(after) => {
                assert forall|k: int| 0 <= k < edits.drop_first().len() implies !touches(
                    #[trigger] edits.drop_first()[k],
                    i,
                ) by {
                    assert(edits.drop_first()[k] == edits[k + 1]);
                }
                lemma_rewrite_touches_spans_only(after, edits.drop_first(), i);
            },
            Err(_) => {},
        }
    }
}

} // verus!
