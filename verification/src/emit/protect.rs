//! Moving whole functions into an appended section.

use vstd::prelude::*;

use crate::emit::address;
use crate::emit::address::Rva;
use crate::emit::code::{Architecture, Epilogue, Function, RuntimeFunction};
use crate::emit::error::{EmitError, SkipReason};
use crate::emit::layout;
use crate::emit::layout::{
    align_up, epilogues_measure_the_same, has_absolute_fixups, pad_to, prologue_measures_the_same,
    FUNCTION_ALIGNMENT,
};
use crate::emit::relocated::{Measured, Relocated};
use crate::emit::stub::{Stub, STUB_LEN};
use crate::emit::unwind::{NewFunction, UnwindInfo};

verus! {

/// The choices for one run. `S` is the seed and `M` the choices of the rewriter.
#[derive(Debug, PartialEq, Eq)]
pub struct Options<S, M> {
    pub seed: S,
    /// The name of the appended section with the copies.
    pub code_section: String,
    /// The name of the appended section with the unwind information.
    pub pdata_section: String,
    pub mutation: M,
}

impl<S, M> Options<S, M> {
    /// The usual section names.
    pub fn new(seed: S, mutation: M) -> (options: Self)
        ensures
            options.seed == seed,
            options.code_section@ == ".vmpc"@,
            options.pdata_section@ == ".vmpx"@,
            options.mutation == mutation,
    {
        Options {
            seed,
            code_section: ".vmpc".to_string(),
            pdata_section: ".vmpx".to_string(),
            mutation,
        }
    }
}

/// One function that was rewritten and moved. `R` is what the rewriter reports.
#[derive(Debug, PartialEq, Eq)]
pub struct Protected<R> {
    /// The entry in the input image, where the stub now stands.
    pub original: Rva,
    /// The entry of the copy.
    pub relocated: Rva,
    /// The length of the copy in bytes.
    pub length: u32,
    pub report: R,
}

/// One function that was left alone, and why.
#[derive(Debug, PartialEq, Eq)]
pub struct Skipped {
    pub rva: Rva,
    pub reason: SkipReason,
}

/// What became of each function.
#[derive(Debug, PartialEq, Eq)]
pub struct Outcome<R> {
    pub protected: Vec<Protected<R>>,
    pub skipped: Vec<Skipped>,
}

/// A function that passed every test and is ready to be placed.
#[derive(Debug, PartialEq, Eq)]
pub struct Ready<R> {
    pub bytes: Vec<u8>,
    pub runtime_function: NewFunction,
    pub protected: Protected<R>,
}

/// How far one function has come. Each state but the last two names what has to be
/// done next.
#[derive(Debug, PartialEq, Eq)]
pub enum Preparing<R> {
    /// Decode the function.
    Decode,
    /// Read the unwind information of `range`, and see that it can be written.
    ReadUnwind { function: Function, range: RuntimeFunction },
    /// Find the epilogues.
    FindEpilogues { function: Function, unwind: UnwindInfo },
    /// Rewrite the function outside the frozen ranges.
    Mutate {
        function: Function,
        unwind: UnwindInfo,
        epilogues: Vec<Epilogue>,
        frozen: Vec<(Rva, Rva)>,
    },
    /// Encode the rewritten function for its new address.
    Relocate { function: Function, unwind: UnwindInfo, epilogues: Vec<Epilogue>, report: R },
    Ready(Ready<R>),
    Skipped(SkipReason),
}

/// The result of what a state asked for.
#[derive(Debug, PartialEq, Eq)]
pub enum Event<R> {
    Decoded(Result<Function, String>),
    Unwind(Result<UnwindInfo, String>),
    Epilogues(Vec<Epilogue>),
    /// The rewritten function, the report, and whether nothing changed.
    Mutated(Result<(Function, R, bool), String>),
    Relocated(Result<Relocated, String>),
}

/// Why a decoded function is not eligible.
pub open spec fn decoded_obstacle(function: Function, entry: Rva) -> Option<SkipReason> {
    if function.issues@.len() != 0 {
        Some(SkipReason::Incomplete(function.issues))
    } else {
        match function.unwind {
            None => Some(SkipReason::NoUnwindData),
            Some(range) => if range.begin != entry {
                Some(SkipReason::NotAFunctionEntry { covering: range.begin })
            } else {
                None
            },
        }
    }
}

/// The length of a function that starts at `entry`.
pub open spec fn extent(range: RuntimeFunction, entry: Rva) -> u32 {
    if range.end.0 >= entry.0 {
        (range.end.0 - entry.0) as u32
    } else {
        0
    }
}

/// Why a function cannot be moved.
pub open spec fn moving_obstacle(function: Function, range: RuntimeFunction, entry: Rva) -> Option<
    SkipReason,
> {
    if layout::absolute_fixups(function.code()) {
        Some(SkipReason::HasAbsoluteFixups)
    } else if extent(range, entry) < STUB_LEN {
        Some(SkipReason::TooShortForStub { length: extent(range, entry) })
    } else {
        None
    }
}

/// The ranges that must not be rewritten: the prologue, then every epilogue.
pub open spec fn frozen_ranges(entry: Rva, size_of_prolog: u8, epilogues: Seq<Epilogue>) -> Seq<
    (Rva, Rva),
> {
    let rest = Seq::new(epilogues.len(), |i: int| (epilogues[i].begin, epilogues[i].end));
    match address::after(entry, size_of_prolog as int) {
        Some(end) => seq![(entry, end)] + rest,
        None => rest,
    }
}

/// Why an encoded copy cannot be used.
pub open spec fn copy_obstacle(
    function: Function,
    measured: Seq<Measured>,
    length: nat,
    epilogues: Seq<Epilogue>,
    entry: Rva,
    placement: Rva,
    size_of_prolog: u8,
) -> Option<SkipReason> {
    if !layout::prologue_layout(function.code(), measured, entry, placement, size_of_prolog) {
        Some(SkipReason::PrologueMoved)
    } else if !layout::epilogue_shapes(function.code(), measured, epilogues) {
        Some(SkipReason::EpilogueMoved)
    } else if length > u32::MAX || address::after(placement, length as int) is None {
        Some(SkipReason::PrologueMoved)
    } else {
        None
    }
}

/// `next` is the state that follows `state` once `event` has happened. An event
/// that was not asked for changes nothing.
pub open spec fn follows<R>(
    state: Preparing<R>,
    event: Event<R>,
    entry: Rva,
    placement: Rva,
    next: Preparing<R>,
) -> bool {
    match (state, event) {
        (Preparing::Decode, Event::Decoded(Err(message))) => next == Preparing::<R>::Skipped(
            SkipReason::NotDecodable(message),
        ),
        (Preparing::Decode, Event::Decoded(Ok(function))) => match decoded_obstacle(
            function,
            entry,
        ) {
            Some(reason) => next == Preparing::<R>::Skipped(reason),
            None => next == (Preparing::<R>::ReadUnwind { function, range: function.unwind->0 }),
        },
        (Preparing::ReadUnwind { function, range }, Event::Unwind(Err(message))) => next
            == Preparing::<R>::Skipped(SkipReason::UnwindNotReEmittable(message)),
        (Preparing::ReadUnwind { function, range }, Event::Unwind(Ok(unwind))) =>
            match moving_obstacle(function, range, entry) {
                Some(reason) => next == Preparing::<R>::Skipped(reason),
                None => next == (Preparing::<R>::FindEpilogues { function, unwind }),
            },
        (Preparing::FindEpilogues { function, unwind }, Event::Epilogues(found)) => match next {
            Preparing::Mutate { function: function1, unwind: unwind1, epilogues, frozen } =>
                function1 == function && unwind1 == unwind && epilogues == found && frozen@
                    == frozen_ranges(entry, unwind.size_of_prolog, found@),
            _ => false,
        },
        (
            Preparing::Mutate { function, unwind, epilogues, frozen },
            Event::Mutated(Err(message)),
        ) => next == Preparing::<R>::Skipped(SkipReason::MutationFailed(message)),
        (
            Preparing::Mutate { function, unwind, epilogues, frozen },
            Event::Mutated(Ok((mutated, report, noop))),
        ) => if noop {
            next == Preparing::<R>::Skipped(SkipReason::NothingToDo)
        } else {
            next == (Preparing::<R>::Relocate { function: mutated, unwind, epilogues, report })
        },
        (
            Preparing::Relocate { function, unwind, epilogues, report },
            Event::Relocated(Err(message)),
        ) => next == Preparing::<R>::Skipped(SkipReason::NotDecodable(message)),
        (
            Preparing::Relocate { function, unwind, epilogues, report },
            Event::Relocated(Ok(relocated)),
        ) => finished(
            function,
            relocated.bytes,
            relocated.measurements(),
            unwind,
            epilogues@,
            report,
            entry,
            placement,
            next,
        ),
        _ => next == state,
    }
}

/// `next` is the last state of a function whose copy was encoded and measured.
pub open spec fn finished<R>(
    function: Function,
    bytes: Vec<u8>,
    measured: Seq<Measured>,
    unwind: UnwindInfo,
    epilogues: Seq<Epilogue>,
    report: R,
    entry: Rva,
    placement: Rva,
    next: Preparing<R>,
) -> bool {
    match copy_obstacle(
        function,
        measured,
        bytes@.len(),
        epilogues,
        entry,
        placement,
        unwind.size_of_prolog,
    ) {
        Some(reason) => next == Preparing::<R>::Skipped(reason),
        None => next == Preparing::<R>::Ready(
            Ready {
                bytes,
                runtime_function: NewFunction {
                    begin: placement,
                    end: Rva((placement.0 + bytes@.len()) as u32),
                    unwind,
                },
                protected: Protected {
                    original: entry,
                    relocated: placement,
                    length: bytes@.len() as u32,
                    report,
                },
            },
        ),
    }
}

/// Settles a function whose copy was encoded and measured.
pub fn finish_copy<R>(
    function: &Function,
    bytes: Vec<u8>,
    measured: &[Measured],
    unwind: UnwindInfo,
    epilogues: &[Epilogue],
    report: R,
    entry: Rva,
    placement: Rva,
) -> (next: Preparing<R>)
    ensures
        finished(
            *function,
            bytes,
            measured@,
            unwind,
            epilogues@,
            report,
            entry,
            placement,
            next,
        ),
{
    if !prologue_measures_the_same(function, measured, entry, placement, unwind.size_of_prolog) {
        return Preparing::Skipped(SkipReason::PrologueMoved);
    }
    if !epilogues_measure_the_same(function, measured, epilogues) {
        return Preparing::Skipped(SkipReason::EpilogueMoved);
    }
    let len = bytes.len();
    if len > u32::MAX as usize {
        return Preparing::Skipped(SkipReason::PrologueMoved);
    }
    let length = len as u32;
    let end = match placement.checked_add(length) {
        Some(end) => end,
        None => return Preparing::Skipped(SkipReason::PrologueMoved),
    };
    Preparing::Ready(
        Ready {
            bytes,
            runtime_function: NewFunction { begin: placement, end, unwind },
            protected: Protected { original: entry, relocated: placement, length, report },
        },
    )
}

/// The ranges that must not be rewritten.
pub fn freeze(entry: Rva, size_of_prolog: u8, epilogues: &[Epilogue]) -> (frozen: Vec<(Rva, Rva)>)
    ensures
        frozen@ == frozen_ranges(entry, size_of_prolog, epilogues@),
{
    let mut frozen: Vec<(Rva, Rva)> = Vec::new();
    if let Some(end) = entry.checked_add(size_of_prolog as u32) {
        frozen.push((entry, end));
    }
    let ghost head = frozen@;
    let mut index: usize = 0;
    while index < epilogues.len()
        invariant
            index <= epilogues@.len(),
            frozen@ == head + Seq::new(
                index as nat,
                |i: int| (epilogues@[i].begin, epilogues@[i].end),
            ),
        decreases epilogues@.len() - index,
    {
        frozen.push((epilogues[index].begin, epilogues[index].end));
        index += 1;
        assert(frozen@ =~= head + Seq::new(
            index as nat,
            |i: int| (epilogues@[i].begin, epilogues@[i].end),
        ));
    }
    assert(frozen@ =~= frozen_ranges(entry, size_of_prolog, epilogues@));
    frozen
}

/// Takes one function a step further. Everything that can be known without
/// rewriting is asked first.
pub fn prepare<R>(state: Preparing<R>, event: Event<R>, entry: Rva, placement: Rva) -> (next:
    Preparing<R>)
    ensures
        follows(state, event, entry, placement, next),
{
    match (state, event) {
        (Preparing::Decode, Event::Decoded(decoded)) => {
            let function = match decoded {
                Ok(function) => function,
                Err(message) => return Preparing::Skipped(SkipReason::NotDecodable(message)),
            };
            if !function.is_complete() {
                return Preparing::Skipped(SkipReason::Incomplete(function.issues));
            }
            match function.unwind {
                None => Preparing::Skipped(SkipReason::NoUnwindData),
                Some(range) => if range.begin != entry {
                    Preparing::Skipped(SkipReason::NotAFunctionEntry { covering: range.begin })
                } else {
                    Preparing::ReadUnwind { function, range }
                },
            }
        },
        (Preparing::ReadUnwind { function, range }, Event::Unwind(parsed)) => {
            let unwind = match parsed {
                Ok(unwind) => unwind,
                Err(message) => return Preparing::Skipped(
                    SkipReason::UnwindNotReEmittable(message),
                ),
            };
            if has_absolute_fixups(&function) {
                return Preparing::Skipped(SkipReason::HasAbsoluteFixups);
            }
            let length: u32 = if range.end.0 >= entry.0 {
                range.end.0 - entry.0
            } else {
                0
            };
            if length < STUB_LEN {
                return Preparing::Skipped(SkipReason::TooShortForStub { length });
            }
            Preparing::FindEpilogues { function, unwind }
        },
        (Preparing::FindEpilogues { function, unwind }, Event::Epilogues(epilogues)) => {
            let frozen = freeze(entry, unwind.size_of_prolog, epilogues.as_slice());
            Preparing::Mutate { function, unwind, epilogues, frozen }
        },
        (
            Preparing::Mutate { function: _, unwind, epilogues, frozen: _ },
            Event::Mutated(mutated),
        ) => match mutated {
            Ok((function, report, noop)) => if noop {
                Preparing::Skipped(SkipReason::NothingToDo)
            } else {
                Preparing::Relocate { function, unwind, epilogues, report }
            },
            Err(message) => Preparing::Skipped(SkipReason::MutationFailed(message)),
        },
        (
            Preparing::Relocate { function, unwind, epilogues, report },
            Event::Relocated(relocated),
        ) => {
            let relocated = match relocated {
                Ok(relocated) => relocated,
                Err(message) => return Preparing::Skipped(SkipReason::NotDecodable(message)),
            };
            let measured = relocated.measure();
            finish_copy(
                &function,
                relocated.bytes,
                measured.as_slice(),
                unwind,
                epilogues.as_slice(),
                report,
                entry,
                placement,
            )
        },
        (state, _) => state,
    }
}

/// One protection run: the code of the appended section so far, and what goes with
/// it.
#[derive(Debug, PartialEq, Eq)]
pub struct Run<R> {
    pub code_rva: Rva,
    pub code: Vec<u8>,
    pub stubs: Vec<Stub>,
    pub runtime_functions: Vec<NewFunction>,
    pub outcome: Outcome<R>,
}

/// The offset of the next function in the appended section.
pub open spec fn next_offset(code: Seq<u8>) -> int {
    layout::aligned(code.len() as int, FUNCTION_ALIGNMENT as int)
}

impl<R> Run<R> {
    /// One stub, one unwind entry and one account for each function, all of them
    /// about the same copy. The copies lie in the section in order, on aligned
    /// addresses, and do not overlap.
    pub open spec fn wf(&self) -> bool {
        let count = self.outcome.protected@.len();
        &&& self.stubs@.len() == count
        &&& self.runtime_functions@.len() == count
        &&& forall|i: int| 0 <= i < count ==> #[trigger] self.placed(i)
        &&& forall|i: int, j: int|
            0 <= i < j < count ==> (#[trigger] self.runtime_functions@[i]).end.0 <= (
            #[trigger] self.runtime_functions@[j]).begin.0
    }

    /// The stub, the unwind entry and the account of function `i` agree.
    pub open spec fn placed(&self, i: int) -> bool {
        let stub = self.stubs@[i];
        let entry = self.runtime_functions@[i];
        let account = self.outcome.protected@[i];
        &&& stub == (Stub { from: account.original, to: account.relocated, span_len: STUB_LEN })
        &&& entry.begin == account.relocated
        &&& entry.end.0 == account.relocated.0 + account.length
        &&& account.relocated.0 >= self.code_rva.0
        &&& (account.relocated.0 - self.code_rva.0) % (FUNCTION_ALIGNMENT as int) == 0
        &&& account.relocated.0 - self.code_rva.0 + account.length <= self.code@.len()
    }

    /// Starts a run whose section will stand at `code_rva`.
    pub fn start(architecture: Architecture, code_rva: Rva) -> (r: Result<Run<R>, EmitError>)
        ensures
            match r {
                Ok(run) => architecture == Architecture::X64 && run.starts(code_rva),
                Err(error) => architecture != Architecture::X64 && error
                    == (EmitError::UnsupportedArchitecture { architecture }),
            },
    {
        if architecture != Architecture::X64 {
            return Err(EmitError::UnsupportedArchitecture { architecture });
        }
        Ok(
            Run {
                code_rva,
                code: Vec::new(),
                stubs: Vec::new(),
                runtime_functions: Vec::new(),
                outcome: Outcome { protected: Vec::new(), skipped: Vec::new() },
            },
        )
    }

    /// Where the next function goes: its offset in the section, and its address.
    pub fn place(&self, entry: Rva) -> (r: Result<(u32, Rva), EmitError>)
        requires
            next_offset(self.code@) <= u32::MAX,
        ensures
            r == (match address::after(self.code_rva, next_offset(self.code@)) {
                Some(placement) => Ok((next_offset(self.code@) as u32, placement)),
                None => Err(
                    EmitError::Layout {
                        rva: entry,
                        reason: "the appended section does not fit in the RVA space",
                    },
                ),
            }),
    {
        proof {
            layout::lemma_aligned(self.code@.len() as int, FUNCTION_ALIGNMENT as int);
        }
        let offset = align_up(self.code.len() as u32, FUNCTION_ALIGNMENT);
        match self.code_rva.checked_add(offset) {
            Some(placement) => Ok((offset, placement)),
            None => Err(
                EmitError::Layout {
                    rva: entry,
                    reason: "the appended section does not fit in the RVA space",
                },
            ),
        }
    }

    /// `after` is this run with a prepared function taken in.
    pub open spec fn accepts(
        &self,
        entry: Rva,
        offset: u32,
        placement: Rva,
        ready: Ready<R>,
        after: Self,
    ) -> bool {
        &&& after.code_rva == self.code_rva
        &&& after.code@ == layout::padded(self.code@, offset as int) + ready.bytes@
        &&& after.stubs@ == self.stubs@.push(
            Stub { from: entry, to: placement, span_len: STUB_LEN },
        )
        &&& after.runtime_functions@ == self.runtime_functions@.push(ready.runtime_function)
        &&& after.outcome.protected@ == self.outcome.protected@.push(ready.protected)
        &&& after.outcome.skipped@ == self.outcome.skipped@
    }

    /// `after` is this run with the note that a function was left alone.
    pub open spec fn skips(&self, rva: Rva, reason: SkipReason, after: Self) -> bool {
        &&& after.code_rva == self.code_rva
        &&& after.code == self.code
        &&& after.stubs == self.stubs
        &&& after.runtime_functions == self.runtime_functions
        &&& after.outcome.protected == self.outcome.protected
        &&& after.outcome.skipped@ == self.outcome.skipped@.push(Skipped { rva, reason })
    }

    /// Nothing was done yet; the section will stand at `code_rva`.
    pub open spec fn starts(&self, code_rva: Rva) -> bool {
        &&& self.code_rva == code_rva
        &&& self.code@.len() == 0
        &&& self.stubs@.len() == 0
        &&& self.runtime_functions@.len() == 0
        &&& self.outcome.protected@.len() == 0
        &&& self.outcome.skipped@.len() == 0
    }

    /// Takes a prepared function in, at the place that was found for it.
    pub fn accept(&mut self, entry: Rva, offset: u32, placement: Rva, ready: Ready<R>)
        ensures
            old(self).accepts(entry, offset, placement, ready, *final(self)),
            old(self).wf() && ready.fits(entry, placement) && offset == next_offset(old(self).code@)
                && address::after(old(self).code_rva, offset as int) == Some(placement)
                ==> final(self).wf(),
    {
        let ghost bytes = ready.bytes@;
        pad_to(&mut self.code, offset as usize);
        let mut added = ready.bytes;
        self.code.append(&mut added);
        self.stubs.push(Stub::new(entry, placement));
        self.runtime_functions.push(ready.runtime_function);
        self.outcome.protected.push(ready.protected);
        proof {
            let before = *old(self);
            if before.wf() && ready.fits(entry, placement) && offset == next_offset(before.code@)
                && address::after(before.code_rva, offset as int) == Some(placement) {
                layout::lemma_aligned(before.code@.len() as int, FUNCTION_ALIGNMENT as int);
                let count = before.outcome.protected@.len() as int;
                assert(self.code@.len() == offset + bytes.len());
                assert forall|i: int| 0 <= i < count + 1 implies #[trigger] self.placed(i) by {
                    if i < count {
                        assert(before.placed(i));
                    }
                }
                assert forall|i: int, j: int| 0 <= i < j < count + 1 implies (
                #[trigger] self.runtime_functions@[i]).end.0 <= (
                #[trigger] self.runtime_functions@[j]).begin.0 by {
                    if j == count {
                        assert(before.placed(i));
                    } else {
                        assert(before.runtime_functions@[i].end.0
                            <= before.runtime_functions@[j].begin.0);
                    }
                }
            }
        }
    }

    /// Notes that a function was left alone.
    pub fn skip(&mut self, rva: Rva, reason: SkipReason)
        ensures
            old(self).skips(rva, reason, *final(self)),
            old(self).wf() ==> final(self).wf(),
    {
        self.outcome.skipped.push(Skipped { rva, reason });
        proof {
            if old(self).wf() {
                assert forall|i: int| 0 <= i < self.outcome.protected@.len() implies #[trigger]
                    self.placed(i) by {
                    assert(old(self).placed(i));
                }
            }
        }
    }

    /// Ends the run. A run that protected nothing has no output worth writing.
    pub fn finish(self) -> (r: Result<Run<R>, EmitError>)
        ensures
            r == (if self.outcome.protected@.len() == 0 {
                Err(EmitError::NothingProtected)
            } else {
                Ok(self)
            }),
    {
        if self.outcome.protected.len() == 0 {
            return Err(EmitError::NothingProtected);
        }
        Ok(self)
    }
}

impl<R> Ready<R> {
    /// The copy of the function at `entry` was encoded for `placement`.
    pub open spec fn fits(self, entry: Rva, placement: Rva) -> bool {
        &&& self.protected.original == entry
        &&& self.protected.relocated == placement
        &&& self.protected.length == self.bytes@.len()
        &&& self.runtime_function.begin == placement
        &&& self.runtime_function.end.0 == placement.0 + self.bytes@.len()
    }
}

/// A function that is ready was prepared for the entry and the place asked for,
/// and what it records of its length is the length of its code.
pub proof fn lemma_ready_fits<R>(
    state: Preparing<R>,
    event: Event<R>,
    entry: Rva,
    placement: Rva,
    next: Preparing<R>,
)
    requires
        follows(state, event, entry, placement, next),
        !(state is Ready),
    ensures
        next matches Preparing::Ready(ready) ==> ready.fits(entry, placement),
{
}

/// A function is not moved when it holds addresses that the loader fixes up, or is
/// too short for the stub.
pub proof fn lemma_unmovable_is_skipped<R>(
    function: Function,
    range: RuntimeFunction,
    unwind: UnwindInfo,
    entry: Rva,
    placement: Rva,
    next: Preparing<R>,
)
    requires
        layout::absolute_fixups(function.code()) || extent(range, entry) < STUB_LEN,
        follows(
            Preparing::ReadUnwind { function, range },
            Event::Unwind(Ok(unwind)),
            entry,
            placement,
            next,
        ),
    ensures
        next is Skipped,
{
}

} // verus!
