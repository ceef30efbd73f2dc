//! A run over the marked regions of an image.

use vstd::prelude::*;

use crate::emit::address;
use crate::emit::address::Rva;
use crate::emit::calls::SdkStub;
use crate::emit::code::RuntimeFunction;
use crate::emit::error;
use crate::emit::error::{allocation_error, EmitError, MarkerCompilationType};
use crate::emit::layout;
use crate::emit::layout::{pad_to, FUNCTION_ALIGNMENT};
use crate::emit::markers::BeginMarker;
use crate::emit::memory;
use crate::emit::memory::{Grants, Memory};
use crate::emit::sdk;
use crate::emit::sdk::{SdkReady, SdkSite};
use crate::emit::stub::{Stub, STUB_LEN};
use crate::emit::unwind::NewFunction;

verus! {

/// One region that was rewritten and moved. `R` is what the rewriter reports.
#[derive(Debug, PartialEq, Eq)]
pub struct SdkMutation<R> {
    /// The call of the opening marker.
    pub begin: Rva,
    /// The covering function.
    pub function: Rva,
    /// Where the copy stands.
    pub relocated: Rva,
    /// The length of the copy without its stubs.
    pub length: u32,
    /// The closing markers that the region reaches.
    pub reached_ends: Vec<Rva>,
    pub sdk_stubs: Vec<SdkStub>,
    pub report: R,
}

/// A run in progress: the section that is built, and what has to be written besides
/// it.
#[derive(Debug, PartialEq, Eq)]
pub struct SdkRun<R> {
    pub code_rva: Rva,
    pub code: Vec<u8>,
    pub stubs: Vec<Stub>,
    pub runtime_functions: Vec<NewFunction>,
    pub outcome: Vec<SdkMutation<R>>,
}

/// The offset of the next copy in a section of `length` bytes.
pub open spec fn offset_behind(length: int, rva: Rva) -> Result<u32, EmitError> {
    if length > u32::MAX {
        Err(
            EmitError::Layout {
                rva,
                reason: "the appended SDK code exceeds the PE address width",
            },
        )
    } else if length + FUNCTION_ALIGNMENT - 1 > u32::MAX {
        Err(
            EmitError::Layout {
                rva,
                reason: "aligning the appended SDK code exceeds the PE address width",
            },
        )
    } else {
        Ok(layout::aligned(length, FUNCTION_ALIGNMENT as int) as u32)
    }
}

/// The offset of the next copy in a section of `length` bytes.
pub fn code_offset(length: usize, rva: Rva) -> (r: Result<u32, EmitError>)
    ensures
        r == offset_behind(length as int, rva),
{
    if length > u32::MAX as usize {
        return Err(
            EmitError::Layout {
                rva,
                reason: "the appended SDK code exceeds the PE address width",
            },
        );
    }
    match (length as u32).checked_add(FUNCTION_ALIGNMENT - 1) {
        Some(rounded) => Ok(rounded / FUNCTION_ALIGNMENT * FUNCTION_ALIGNMENT),
        None => Err(
            EmitError::Layout {
                rva,
                reason: "aligning the appended SDK code exceeds the PE address width",
            },
        ),
    }
}

/// The first function whose extent holds `rva`.
pub open spec fn function_at(functions: Seq<RuntimeFunction>, rva: Rva) -> Option<RuntimeFunction>
    decreases functions.len(),
{
    if functions.len() == 0 {
        None
    } else if functions[0].begin.0 <= rva.0 < functions[0].end.0 {
        Some(functions[0])
    } else {
        function_at(functions.drop_first(), rva)
    }
}

/// The first function whose extent holds `rva`.
pub fn covering_function(functions: &[RuntimeFunction], rva: Rva) -> (r: Option<RuntimeFunction>)
    ensures
        r == function_at(functions@, rva),
{
    let mut index: usize = 0;
    assert(functions@.skip(0) =~= functions@);
    while index < functions.len()
        invariant
            index <= functions@.len(),
            function_at(functions@, rva) == function_at(functions@.skip(index as int), rva),
        decreases functions@.len() - index,
    {
        let ghost rest = functions@.skip(index as int);
        assert(rest.drop_first() =~= functions@.skip(index + 1));
        if functions[index].begin.0 <= rva.0 && rva.0 < functions[index].end.0 {
            return Some(functions[index]);
        }
        index += 1;
    }
    None
}

/// The marker asks for something that can be done.
pub open spec fn supported(begin: BeginMarker) -> bool {
    &&& !begin.lock_to_key
    &&& begin.compilation_type == MarkerCompilationType::Default || begin.compilation_type
        == MarkerCompilationType::Mutation
}

/// A region that was selected: the function that covers it, the offset of its copy
/// in the section, and what is to be moved where.
#[derive(Debug, Clone, Copy, PartialEq, Eq, Structural)]
pub struct Selection {
    pub runtime: RuntimeFunction,
    pub offset: u32,
    pub site: SdkSite,
}

impl<R> SdkRun<R> {
    /// A region of the function at `function` was moved.
    pub open spec fn moved(&self, function: Rva) -> bool {
        exists|i: int|
            0 <= i < self.outcome@.len() && (#[trigger] self.outcome@[i]).function == function
    }

    /// One stub, one unwind entry and one account for each region, all of them
    /// about the same copy. No function occurs twice. The copies lie in the section
    /// in order, on aligned addresses, and do not overlap.
    pub open spec fn wf(&self) -> bool {
        let count = self.outcome@.len();
        &&& self.stubs@.len() == count
        &&& self.runtime_functions@.len() == count
        &&& forall|i: int| 0 <= i < count ==> #[trigger] self.placed(i)
        &&& forall|i: int, j: int|
            0 <= i < j < count ==> (#[trigger] self.outcome@[i]).function != (
            #[trigger] self.outcome@[j]).function
        &&& forall|i: int, j: int|
            0 <= i < j < count ==> (#[trigger] self.runtime_functions@[i]).end.0 <= (
            #[trigger] self.runtime_functions@[j]).begin.0
    }

    /// The stub, the unwind entry and the account of region `i` agree.
    pub open spec fn placed(&self, i: int) -> bool {
        let stub = self.stubs@[i];
        let entry = self.runtime_functions@[i];
        let account = self.outcome@[i];
        &&& stub.to == account.relocated
        &&& stub.span_len >= STUB_LEN
        &&& entry.begin == account.relocated
        &&& entry.end.0 == account.relocated.0 + account.length
        &&& account.relocated.0 >= self.code_rva.0
        &&& (account.relocated.0 - self.code_rva.0) % (FUNCTION_ALIGNMENT as int) == 0
        &&& account.relocated.0 - self.code_rva.0 + account.length <= self.code@.len()
    }

    /// Nothing was moved yet; the section will stand at `code_rva`.
    pub open spec fn starts(&self, code_rva: Rva) -> bool {
        &&& self.code_rva == code_rva
        &&& self.code@.len() == 0
        &&& self.stubs@.len() == 0
        &&& self.runtime_functions@.len() == 0
        &&& self.outcome@.len() == 0
    }

    /// The place of the copy is the next one, and its function was not touched yet.
    pub open spec fn fresh(&self, selected: Selection) -> bool {
        &&& !self.moved(selected.runtime.begin)
        &&& selected.offset == layout::aligned(self.code@.len() as int, FUNCTION_ALIGNMENT as int)
        &&& address::after(self.code_rva, selected.offset as int) == Some(selected.site.placement)
    }

    /// Starts a run over `count` regions whose section will stand at `code_rva`.
    pub fn start(code_rva: Rva, count: usize, memory: &mut Memory) -> (r: Result<
        SdkRun<R>,
        EmitError,
    >)
        ensures
            forall|g: Grants| #[trigger]
                final(memory).agrees(g) ==> old(memory).agrees(g) && ({
                    let (granted, asked) = memory::repeated(
                        g,
                        old(memory).asked(),
                        count as nat,
                        3,
                    );
                    &&& final(memory).asked() == asked
                    &&& if granted {
                        r matches Ok(run) && run.starts(code_rva)
                    } else {
                        r == Err::<SdkRun<R>, EmitError>(error::out_of_memory())
                    }
                }),
    {
        proof {
            reveal_with_fuel(memory::repeated, 4);
        }
        let mut run = SdkRun {
            code_rva,
            code: Vec::new(),
            stubs: Vec::new(),
            runtime_functions: Vec::new(),
            outcome: Vec::new(),
        };
        if !memory.reserve(&mut run.stubs, count) || !memory.reserve(
            &mut run.runtime_functions,
            count,
        ) || !memory.reserve(&mut run.outcome, count) {
            return Err(allocation_error());
        }
        Ok(run)
    }

    /// What a marker selects, and where its copy goes.
    pub open spec fn selection(
        &self,
        begin: BeginMarker,
        functions: Seq<RuntimeFunction>,
    ) -> Result<Selection, EmitError> {
        let rva = begin.site.call;
        if !supported(begin) {
            Err(
                EmitError::UnsupportedSdkMarker {
                    rva,
                    compilation_type: begin.compilation_type,
                    lock_to_key: begin.lock_to_key,
                },
            )
        } else {
            match function_at(functions, rva) {
                None => Err(EmitError::SdkMarkerOutsideRuntimeFunction { rva }),
                Some(runtime) => if self.moved(runtime.begin) {
                    Err(EmitError::MultipleSdkBegins { function: runtime.begin })
                } else {
                    match offset_behind(self.code@.len() as int, runtime.begin) {
                        Err(error) => Err(error),
                        Ok(offset) => match address::after(self.code_rva, offset as int) {
                            None => Err(
                                EmitError::Layout {
                                    rva: runtime.begin,
                                    reason: "the appended SDK code does not fit in the RVA space",
                                },
                            ),
                            Some(placement) => Ok(
                                Selection {
                                    runtime,
                                    offset,
                                    site: SdkSite {
                                        entry: runtime.begin,
                                        placement,
                                        begin: begin.site,
                                    },
                                },
                            ),
                        },
                    }
                },
            }
        }
    }

    /// Reports whether a region of the function was moved.
    pub fn has_moved(&self, function: Rva) -> (yes: bool)
        ensures
            yes == self.moved(function),
    {
        let mut index: usize = 0;
        while index < self.outcome.len()
            invariant
                index <= self.outcome@.len(),
                forall|i: int|
                    0 <= i < index ==> (#[trigger] self.outcome@[i]).function != function,
            decreases self.outcome@.len() - index,
        {
            if self.outcome[index].function == function {
                assert(self.outcome@[index as int].function == function);
                return true;
            }
            index += 1;
        }
        false
    }

    /// Finds out what a marker selects, and where its copy goes. `functions` are
    /// those that the image describes to the unwinder.
    pub fn select(&self, begin: BeginMarker, functions: &[RuntimeFunction]) -> (r: Result<
        Selection,
        EmitError,
    >)
        ensures
            r == self.selection(begin, functions@),
    {
        let rva = begin.site.call;
        if begin.lock_to_key || !(begin.compilation_type == MarkerCompilationType::Default
            || begin.compilation_type == MarkerCompilationType::Mutation) {
            return Err(
                EmitError::UnsupportedSdkMarker {
                    rva,
                    compilation_type: begin.compilation_type,
                    lock_to_key: begin.lock_to_key,
                },
            );
        }
        let runtime = match covering_function(functions, rva) {
            Some(runtime) => runtime,
            None => return Err(EmitError::SdkMarkerOutsideRuntimeFunction { rva }),
        };
        if self.has_moved(runtime.begin) {
            return Err(EmitError::MultipleSdkBegins { function: runtime.begin });
        }
        let offset = match code_offset(self.code.len(), runtime.begin) {
            Ok(offset) => offset,
            Err(error) => return Err(error),
        };
        match self.code_rva.checked_add(offset) {
            Some(placement) => Ok(
                Selection {
                    runtime,
                    offset,
                    site: SdkSite { entry: runtime.begin, placement, begin: begin.site },
                },
            ),
            None => Err(
                EmitError::Layout {
                    rva: runtime.begin,
                    reason: "the appended SDK code does not fit in the RVA space",
                },
            ),
        }
    }

    /// Why a copy cannot be put at its offset.
    pub open spec fn placing_problem(&self, selected: Selection, length: nat) -> Option<EmitError> {
        let padding = selected.offset - self.code@.len();
        if padding < 0 {
            Some(
                EmitError::Layout {
                    rva: selected.runtime.begin,
                    reason: "the aligned SDK code offset moved backwards",
                },
            )
        } else if padding + length > usize::MAX {
            Some(
                EmitError::Layout {
                    rva: selected.runtime.begin,
                    reason: "the appended SDK code length overflows the host address width",
                },
            )
        } else {
            None
        }
    }

    /// The bytes that a copy of `length` bytes adds, with the gap in front of it.
    pub open spec fn growth(&self, selected: Selection, length: nat) -> nat {
        (selected.offset - self.code@.len() + length) as nat
    }

    /// `after` is this run with a finished copy taken in.
    pub open spec fn accepts(&self, selected: Selection, done: SdkReady<R>, after: Self) -> bool {
        let ready = done.ready;
        &&& after.code_rva == self.code_rva
        &&& after.code@ == layout::padded(self.code@, selected.offset as int) + ready.bytes@
        &&& after.stubs@ == self.stubs@.push(
            Stub {
                from: ready.protected.original,
                to: selected.site.placement,
                span_len: (selected.site.begin.next.0 - ready.protected.original.0) as u32,
            },
        )
        &&& after.runtime_functions@ == self.runtime_functions@.push(ready.runtime_function)
        &&& after.outcome@ == self.outcome@.push(
            SdkMutation {
                begin: selected.site.begin.call,
                function: selected.runtime.begin,
                relocated: ready.protected.relocated,
                length: ready.protected.length,
                reached_ends: done.reached_ends,
                sdk_stubs: done.sdk_stubs,
                report: ready.protected.report,
            },
        )
    }

    /// Takes a finished copy in, at the place that was found for it.
    pub fn accept(&mut self, selected: Selection, done: SdkReady<R>, memory: &mut Memory) -> (r:
        Result<(), EmitError>)
        requires
            done.ready.protected.original.0 <= selected.site.begin.next.0,
        ensures
            final(self).code_rva == old(self).code_rva,
            forall|g: Grants| #[trigger]
                final(memory).agrees(g) ==> old(memory).agrees(g) && match old(
                    self,
                ).placing_problem(selected, done.ready.bytes@.len()) {
                    Some(error) => {
                        &&& r == Err::<(), EmitError>(error)
                        &&& *final(self) == *old(self)
                        &&& final(memory).asked() == old(memory).asked()
                    },
                    None => {
                        let additional = old(self).growth(selected, done.ready.bytes@.len());
                        &&& final(memory).asked() == memory::counted(
                            old(memory).asked(),
                            additional,
                        )
                        &&& if memory::allows(g, old(memory).asked(), additional) {
                            r == Ok::<(), EmitError>(()) && old(self).accepts(
                                selected,
                                done,
                                *final(self),
                            )
                        } else {
                            &&& r == Err::<(), EmitError>(error::out_of_memory())
                            &&& final(self).code@ == old(self).code@
                            &&& final(self).stubs == old(self).stubs
                            &&& final(self).runtime_functions == old(self).runtime_functions
                            &&& final(self).outcome == old(self).outcome
                        }
                    },
                },
            r is Ok && old(self).wf() && old(self).fresh(selected) && done.fits(selected.site)
                && sdk::room(selected.site.begin) >= STUB_LEN ==> final(self).wf(),
    {
        let length = self.code.len();
        let ghost bytes = done.ready.bytes@;
        let offset = selected.offset as usize;
        if offset < length {
            return Err(
                EmitError::Layout {
                    rva: selected.runtime.begin,
                    reason: "the aligned SDK code offset moved backwards",
                },
            );
        }
        let additional = match (offset - length).checked_add(done.ready.bytes.len()) {
            Some(additional) => additional,
            None => return Err(
                EmitError::Layout {
                    rva: selected.runtime.begin,
                    reason: "the appended SDK code length overflows the host address width",
                },
            ),
        };
        if !memory.reserve(&mut self.code, additional) {
            return Err(allocation_error());
        }
        pad_to(&mut self.code, offset);
        let mut added = done.ready.bytes;
        self.code.append(&mut added);
        let original = done.ready.protected.original;
        self.stubs.push(
            Stub::spanning(
                original,
                selected.site.placement,
                selected.site.begin.next.0 - original.0,
            ),
        );
        self.runtime_functions.push(done.ready.runtime_function);
        self.outcome.push(
            SdkMutation {
                begin: selected.site.begin.call,
                function: selected.runtime.begin,
                relocated: done.ready.protected.relocated,
                length: done.ready.protected.length,
                reached_ends: done.reached_ends,
                sdk_stubs: done.sdk_stubs,
                report: done.ready.protected.report,
            },
        );
        proof {
            let before = *old(self);
            if before.wf() && before.fresh(selected) && done.fits(selected.site) && sdk::room(
                selected.site.begin,
            ) >= STUB_LEN {
                layout::lemma_aligned(before.code@.len() as int, FUNCTION_ALIGNMENT as int);
                let count = before.outcome@.len() as int;
                assert(self.code@.len() == offset + bytes.len());
                assert forall|i: int| 0 <= i < count + 1 implies #[trigger] self.placed(i) by {
                    if i < count {
                        assert(before.placed(i));
                    }
                }
                assert forall|i: int, j: int| 0 <= i < j < count + 1 implies (
                #[trigger] self.outcome@[i]).function != (
                #[trigger] self.outcome@[j]).function by {
                    assert(self.outcome@[i] == before.outcome@[i]);
                    if j < count {
                        assert(self.outcome@[j] == before.outcome@[j]);
                    }
                }
                assert forall|i: int, j: int| 0 <= i < j < count + 1 implies (
                #[trigger] self.runtime_functions@[i]).end.0 <= (
                #[trigger] self.runtime_functions@[j]).begin.0 by {
                    if j == count {
                        assert(before.placed(i));
                    } else {
                        assert(before.runtime_functions@[i].end.0
                            <= before.runtime_functions@[j].begin.0);
                    }
                }
            }
        }
        Ok(())
    }
}

/// What a marker selects has its place right behind the code so far, on the next
/// aligned address, and its function was not touched yet.
pub proof fn lemma_selection_fresh<R>(
    run: SdkRun<R>,
    begin: BeginMarker,
    functions: Seq<RuntimeFunction>,
)
    requires
        run.selection(begin, functions) is Ok,
    ensures
        run.fresh(run.selection(begin, functions)->Ok_0),
        run.selection(begin, functions)->Ok_0.site.begin == begin.site,
        run.placing_problem(run.selection(begin, functions)->Ok_0, 0) is None,
{
    layout::lemma_aligned(run.code@.len() as int, FUNCTION_ALIGNMENT as int);
}

} // verus!
