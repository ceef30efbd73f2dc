//! Protecting functions of an image, from their entries to the last byte that is
//! written over.

use vstd::prelude::*;

use crate::emit::address;
use crate::emit::address::Rva;
use crate::emit::code::Architecture;
use crate::emit::error::{EmitError, PeError};
use crate::emit::layout;
use crate::emit::layout::FUNCTION_ALIGNMENT;
use crate::emit::protect;
use crate::emit::protect::{prepare, Event, Preparing, Run};
use crate::emit::rewrite;
use crate::emit::rewrite::{locate_edits, plan_edits, Located, Planned};

verus! {

/// How far the protection of an image has come. Each state but the last two names
/// what has to be done next.
#[derive(Debug, PartialEq, Eq)]
pub enum Protecting<R> {
    /// Find out what the image is made for, and where its next section goes.
    Inspect { entries: Vec<Rva> },
    /// Do what `function` asks for.
    Prepare {
        entries: Vec<Rva>,
        run: Run<R>,
        index: usize,
        offset: u32,
        placement: Rva,
        function: Preparing<R>,
    },
    /// Find where the file holds the bytes of each edit.
    Locate { entries: Vec<Rva>, run: Run<R>, edits: Vec<Planned> },
    /// The original bytes are written over: append the code and describe it.
    Append { entries: Vec<Rva>, run: Run<R>, data: Vec<u8> },
    Failed(EmitError),
}

/// The result of what a state asked for.
#[derive(Debug, PartialEq, Eq)]
pub enum ProtectEvent<R> {
    Inspected { architecture: Architecture, code_rva: Result<Rva, PeError> },
    Function(Event<R>),
    /// The bytes of the image, and the place of each edit.
    Places { data: Vec<u8>, places: Vec<Located> },
}

/// A copy does not fit behind the code so far.
pub open spec fn no_room(entry: Rva) -> EmitError {
    EmitError::Layout {
        rva: entry,
        reason: "the appended section does not fit in the RVA space",
    }
}

/// The next copy has a place.
pub open spec fn has_place<R>(run: Run<R>) -> bool {
    protect::next_offset(run.code@) <= u32::MAX && address::after(
        run.code_rva,
        protect::next_offset(run.code@),
    ) is Some
}

/// `next` goes on with the function `index`, or with what follows the last one.
pub open spec fn continues<R>(entries: Vec<Rva>, run: Run<R>, index: int, next: Protecting<R>) -> bool {
    if index >= entries@.len() {
        if run.outcome.protected@.len() == 0 {
            next == Protecting::<R>::Failed(EmitError::NothingProtected)
        } else {
            next matches Protecting::Locate { entries: entries1, run: run1, edits } && entries1
                == entries && run1 == run && edits@ == rewrite::planned(
                run.stubs@,
                Seq::empty(),
                Seq::empty(),
            )
        }
    } else if !has_place(run) {
        next == Protecting::<R>::Failed(no_room(entries@[index]))
    } else {
        next == (Protecting::<R>::Prepare {
            entries,
            run,
            index: index as usize,
            offset: protect::next_offset(run.code@) as u32,
            placement: address::after(run.code_rva, protect::next_offset(run.code@))->0,
            function: Preparing::<R>::Decode,
        })
    }
}

/// `next` follows once the function has come to `function`.
pub open spec fn goes_on<R>(
    entries: Vec<Rva>,
    run: Run<R>,
    index: usize,
    offset: u32,
    placement: Rva,
    function: Preparing<R>,
    next: Protecting<R>,
) -> bool {
    let entry = entries@[index as int];
    match function {
        Preparing::Ready(ready) => exists|after: Run<R>|
            run.accepts(entry, offset, placement, ready, after) && #[trigger] continues(
                entries,
                after,
                index + 1,
                next,
            ),
        Preparing::Skipped(reason) => exists|after: Run<R>|
            run.skips(entry, reason, after) && #[trigger] continues(
                entries,
                after,
                index + 1,
                next,
            ),
        _ => next == (Protecting::<R>::Prepare { entries, run, index, offset, placement, function }),
    }
}

/// `next` is the state that follows `state` once `event` has happened. An event
/// that was not asked for changes nothing.
pub open spec fn protects<R>(
    state: Protecting<R>,
    event: ProtectEvent<R>,
    next: Protecting<R>,
) -> bool {
    match (state, event) {
        (
            Protecting::Inspect { entries },
            ProtectEvent::Inspected { architecture, code_rva },
        ) => if architecture != Architecture::X64 {
            next == Protecting::<R>::Failed(EmitError::UnsupportedArchitecture { architecture })
        } else {
            match code_rva {
                Err(error) => next == Protecting::<R>::Failed(EmitError::Pe(error)),
                Ok(code_rva) => exists|run: Run<R>|
                    run.starts(code_rva) && #[trigger] continues(entries, run, 0, next),
            }
        },
        (
            Protecting::Prepare { entries, run, index, offset, placement, function },
            ProtectEvent::Function(event),
        ) => exists|after: Preparing<R>| #[trigger]
            protect::follows(function, event, entries@[index as int], placement, after) && goes_on(
                entries,
                run,
                index,
                offset,
                placement,
                after,
                next,
            ),
        (
            Protecting::Locate { entries, run, edits },
            ProtectEvent::Places { data, places },
        ) => if places@.len() == edits@.len() {
            let (bytes, failure) = rewrite::all_edited(data@, rewrite::edits_at(edits@, places@));
            match failure {
                Some(error) => next == Protecting::<R>::Failed(error),
                None => next matches Protecting::Append { entries: entries1, run: run1, data: data1 }
                    && entries1 == entries && run1 == run && data1@ == bytes,
            }
        } else {
            next == state
        },
        _ => next == state,
    }
}

/// Every entry is in exactly one of the two lists, and both keep the order of the
/// entries.
pub open spec fn divided(entries: Seq<Rva>, moved: Seq<Rva>, left: Seq<Rva>) -> bool
    decreases entries.len(),
{
    if entries.len() == 0 {
        moved.len() == 0 && left.len() == 0
    } else {
        ||| moved.len() > 0 && moved.last() == entries.last() && divided(
            entries.drop_last(),
            moved.drop_last(),
            left,
        )
        ||| left.len() > 0 && left.last() == entries.last() && divided(
            entries.drop_last(),
            moved,
            left.drop_last(),
        )
    }
}

/// The entries of the functions that were moved.
pub open spec fn moved_entries<R>(run: Run<R>) -> Seq<Rva> {
    Seq::new(run.outcome.protected@.len(), |i: int| run.outcome.protected@[i].original)
}

/// The entries of the functions that were left alone.
pub open spec fn left_entries<R>(run: Run<R>) -> Seq<Rva> {
    Seq::new(run.outcome.skipped@.len(), |i: int| run.outcome.skipped@[i].rva)
}

/// The run accounts for the first `count` entries.
pub open spec fn accounts<R>(entries: Seq<Rva>, run: Run<R>, count: int) -> bool {
    divided(entries.take(count), moved_entries(run), left_entries(run))
}

/// As many entries are accounted for as there are.
pub proof fn lemma_divided(entries: Seq<Rva>, moved: Seq<Rva>, left: Seq<Rva>)
    requires
        divided(entries, moved, left),
    ensures
        moved.len() + left.len() == entries.len(),
        forall|i: int|
            0 <= i < entries.len() ==> moved.contains(#[trigger] entries[i]) || left.contains(
                entries[i],
            ),
    decreases entries.len(),
{
    if entries.len() > 0 {
        let shorter = entries.drop_last();
        let in_moved = moved.len() > 0 && moved.last() == entries.last() && divided(
            shorter,
            moved.drop_last(),
            left,
        );
        if in_moved {
            lemma_divided(shorter, moved.drop_last(), left);
        } else {
            lemma_divided(shorter, moved, left.drop_last());
        }
        assert forall|i: int| 0 <= i < entries.len() implies moved.contains(#[trigger] entries[i])
            || left.contains(entries[i]) by {
            if i == entries.len() - 1 {
                if in_moved {
                    assert(moved[moved.len() - 1] == entries[i]);
                } else {
                    assert(left[left.len() - 1] == entries[i]);
                }
            } else {
                assert(shorter[i] == entries[i]);
                if in_moved {
                    if moved.drop_last().contains(entries[i]) {
                        let k = choose|k: int|
                            0 <= k < moved.len() - 1 && moved.drop_last()[k] == entries[i];
                        assert(moved[k] == entries[i]);
                    }
                } else if left.drop_last().contains(entries[i]) {
                    let k = choose|k: int|
                        0 <= k < left.len() - 1 && left.drop_last()[k] == entries[i];
                    assert(left[k] == entries[i]);
                }
            }
        }
    }
}

/// What is known in each state: the run is sound, it accounts for every entry so
/// far, and the function that is being prepared has the next place. Once the
/// functions are done, it accounts for all of them, some function was protected, and
/// the edits are the jumps of the run.
pub open spec fn protecting_wf<R>(state: Protecting<R>) -> bool {
    match state {
        Protecting::Inspect { .. } => true,
        Protecting::Failed(_) => true,
        Protecting::Prepare { entries, run, index, offset, placement, function } => {
            &&& run.wf()
            &&& accounts(entries@, run, index as int)
            &&& index < entries@.len()
            &&& offset == protect::next_offset(run.code@)
            &&& address::after(run.code_rva, offset as int) == Some(placement)
            &&& !(function is Ready)
            &&& !(function is Skipped)
        },
        Protecting::Locate { entries, run, edits } => {
            &&& run.wf()
            &&& accounts(entries@, run, entries@.len() as int)
            &&& run.outcome.protected@.len() > 0
            &&& edits@ == rewrite::planned(run.stubs@, Seq::empty(), Seq::empty())
        },
        Protecting::Append { entries, run, .. } => {
            &&& run.wf()
            &&& accounts(entries@, run, entries@.len() as int)
            &&& run.outcome.protected@.len() > 0
        },
    }
}

/// Goes on with the function `index`.
fn proceed<R>(entries: Vec<Rva>, run: Run<R>, index: usize) -> (next: Protecting<R>)
    requires
        run.wf(),
        index <= entries@.len(),
        accounts(entries@, run, index as int),
    ensures
        continues(entries, run, index as int, next),
        protecting_wf(next),
{
    if index >= entries.len() {
        let run = match run.finish() {
            Ok(run) => run,
            Err(error) => return Protecting::Failed(error),
        };
        let edits = plan_edits(run.stubs.as_slice(), &[], &[]);
        assert(rewrite::planned(run.stubs@, Seq::empty(), Seq::empty()) =~= edits@);
        return Protecting::Locate { entries, run, edits };
    }
    let entry = entries[index];
    proof {
        layout::lemma_aligned(run.code@.len() as int, FUNCTION_ALIGNMENT as int);
    }
    if run.code.len() > (u32::MAX / FUNCTION_ALIGNMENT * FUNCTION_ALIGNMENT) as usize {
        return Protecting::Failed(
            EmitError::Layout {
                rva: entry,
                reason: "the appended section does not fit in the RVA space",
            },
        );
    }
    match run.place(entry) {
        Err(error) => Protecting::Failed(error),
        Ok((offset, placement)) => Protecting::Prepare {
            entries,
            run,
            index,
            offset,
            placement,
            function: Preparing::Decode,
        },
    }
}

/// Takes the function that is being prepared a step further.
fn prepare_function<R>(
    entries: Vec<Rva>,
    run: Run<R>,
    index: usize,
    offset: u32,
    placement: Rva,
    function: Preparing<R>,
    event: Event<R>,
) -> (next: Protecting<R>)
    requires
        protecting_wf(
            Protecting::Prepare { entries, run, index, offset, placement, function },
        ),
    ensures
        protecting_wf(next),
        exists|after: Preparing<R>| #[trigger]
            protect::follows(function, event, entries@[index as int], placement, after) && goes_on(
                entries,
                run,
                index,
                offset,
                placement,
                after,
                next,
            ),
{
    let entry = entries[index];
    let after = prepare(function, event, entry, placement);
    proof {
        protect::lemma_ready_fits(function, event, entry, placement, after);
        assert(entries.len() == entries@.len());
    }
    let mut run = run;
    let ghost before = run;
    let ghost taken = entries@.take(index as int);
    let ghost more = entries@.take(index + 1);
    assert(more.drop_last() =~= taken);
    match after {
        Preparing::Ready(ready) => {
            run.accept(entry, offset, placement, ready);
            proof {
                assert(moved_entries(run).drop_last() =~= moved_entries(before));
                assert(left_entries(run) =~= left_entries(before));
            }
            proceed(entries, run, index + 1)
        },
        Preparing::Skipped(reason) => {
            run.skip(entry, reason);
            proof {
                assert(moved_entries(run) =~= moved_entries(before));
                assert(left_entries(run).drop_last() =~= left_entries(before));
            }
            proceed(entries, run, index + 1)
        },
        after => Protecting::Prepare { entries, run, index, offset, placement, function: after },
    }
}

/// Takes the protection of an image a step further: rewrites each function, moves
/// it into a new section and points its original entry at the copy. A function that
/// fails a test is left alone and accounted for.
pub fn protect<R>(state: Protecting<R>, event: ProtectEvent<R>) -> (next: Protecting<R>)
    requires
        protecting_wf(state),
    ensures
        protecting_wf(next),
        protects(state, event, next),
{
    match (state, event) {
        (Protecting::Inspect { entries }, ProtectEvent::Inspected { architecture, code_rva }) => {
            if architecture != Architecture::X64 {
                return Protecting::Failed(EmitError::UnsupportedArchitecture { architecture });
            }
            let code_rva = match code_rva {
                Ok(code_rva) => code_rva,
                Err(error) => return Protecting::Failed(EmitError::Pe(error)),
            };
            match Run::start(architecture, code_rva) {
                Err(error) => Protecting::Failed(error),
                Ok(run) => {
                    assert(entries@.take(0) =~= Seq::empty());
                    proceed(entries, run, 0)
                },
            }
        },
        (
            Protecting::Prepare { entries, run, index, offset, placement, function },
            ProtectEvent::Function(event),
        ) => prepare_function(entries, run, index, offset, placement, function, event),
        (Protecting::Locate { entries, run, edits }, ProtectEvent::Places { data, places }) => {
            if places.len() != edits.len() {
                return Protecting::Locate { entries, run, edits };
            }
            let located = locate_edits(edits.as_slice(), places);
            let mut data = data;
            match rewrite::rewrite(&mut data, located) {
                Err(error) => Protecting::Failed(error),
                Ok(_) => Protecting::Append { entries, run, data },
            }
        },
        (state, _) => state,
    }
}

} // verus!
