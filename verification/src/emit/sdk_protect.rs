//! Protecting all marked regions of an image, from the markers to the last byte
//! that is written over.

use vstd::prelude::*;

use crate::emit::address::Rva;
use crate::emit::code::RuntimeFunction;
use crate::emit::error;
use crate::emit::error::{EmitError, PeError, SdkFailure};
use crate::emit::markers;
use crate::emit::markers::{collect_sdk_markers, ApiMarker, MarkerPlan, SdkMarker};
use crate::emit::memory;
use crate::emit::memory::{Grants, Memory};
use crate::emit::references;
use crate::emit::references::{collect_image_references, names_to_erase, sorted_addresses, Image};
use crate::emit::rewrite;
use crate::emit::rewrite::{locate_edits, plan_edits, Located, Planned};
use crate::emit::sdk;
use crate::emit::sdk::{prepare_sdk, SdkEvent, SdkPreparing};
use crate::emit::sdk_run;
use crate::emit::sdk_run::{SdkRun, Selection};

verus! {

/// How far the protection of an image has come. Each state but the last two names
/// what has to be done next.
#[derive(Debug, PartialEq, Eq)]
pub enum SdkProtecting<R> {
    /// Find the markers.
    FindMarkers,
    /// Do what `region` asks for.
    Prepare {
        plan: MarkerPlan,
        functions: Vec<RuntimeFunction>,
        run: SdkRun<R>,
        index: usize,
        selected: Selection,
        region: SdkPreparing<R>,
    },
    /// Read the sections of the image.
    ReadImage { plan: MarkerPlan, run: SdkRun<R> },
    /// Find where the file holds the bytes of each edit.
    Locate { plan: MarkerPlan, run: SdkRun<R>, edits: Vec<Planned> },
    /// The original bytes are written over: append the code and describe it.
    Append { plan: MarkerPlan, run: SdkRun<R>, data: Vec<u8> },
    Failed(EmitError),
}

/// The result of what a state asked for.
#[derive(Debug, PartialEq, Eq)]
pub enum SdkProtectEvent<R> {
    /// The address of the next section, the markers that were found, and the
    /// functions that the image describes to the unwinder.
    Markers {
        code_rva: Result<Rva, PeError>,
        api: Result<Vec<ApiMarker>, String>,
        spelled: Result<Vec<SdkMarker>, String>,
        functions: Vec<RuntimeFunction>,
    },
    Region(SdkEvent<R>),
    Sections(Image),
    /// The bytes of the image, and the place of each edit.
    Places { data: Vec<u8>, places: Vec<Located> },
}

// ---------------------------------------------------------------------------
// The steps
// ---------------------------------------------------------------------------

/// `next` goes on with the marker `index` of the plan, or with what follows the
/// last one.
pub open spec fn continues<R>(
    plan: MarkerPlan,
    functions: Vec<RuntimeFunction>,
    run: SdkRun<R>,
    index: int,
    next: SdkProtecting<R>,
) -> bool {
    if index >= plan.begins@.len() {
        next == (SdkProtecting::<R>::ReadImage { plan, run })
    } else {
        match run.selection(plan.begins@[index], functions@) {
            Err(error) => next == SdkProtecting::<R>::Failed(error),
            Ok(selected) => next == (SdkProtecting::<R>::Prepare {
                plan,
                functions,
                run,
                index: index as usize,
                selected,
                region: SdkPreparing::<R>::Decode,
            }),
        }
    }
}

/// `next` follows once the markers were found, after `asked1` requests. Room is asked
/// for what the plan holds, and for every opening marker in each of three lists.
pub open spec fn found<R>(
    g: Grants,
    asked: nat,
    code_rva: Rva,
    api: Seq<ApiMarker>,
    spelled: Seq<SdkMarker>,
    functions: Vec<RuntimeFunction>,
    next: SdkProtecting<R>,
    asked1: nat,
) -> bool {
    let sorted = markers::plan_of(g, asked, api, spelled);
    match sorted.out {
        Err(error) => asked1 == sorted.asked && next == SdkProtecting::<R>::Failed(error),
        Ok(view) => {
            let (granted, started) = memory::repeated(g, sorted.asked, view.begins.len(), 3);
            &&& asked1 == started
            &&& if granted {
                exists|plan: MarkerPlan, run: SdkRun<R>|
                    {
                        &&& plan@ == view
                        &&& run.starts(code_rva)
                        &&& #[trigger] continues(plan, functions, run, 0, next)
                    }
            } else {
                next == SdkProtecting::<R>::Failed(error::out_of_memory())
            }
        },
    }
}

/// `next` follows once the region has come to `region`, after `asked1` requests. Room
/// is asked for a finished copy and the gap in front of it.
pub open spec fn goes_on<R>(
    g: Grants,
    asked: nat,
    plan: MarkerPlan,
    functions: Vec<RuntimeFunction>,
    run: SdkRun<R>,
    index: usize,
    selected: Selection,
    region: SdkPreparing<R>,
    next: SdkProtecting<R>,
    asked1: nat,
) -> bool {
    match region {
        SdkPreparing::Failed(error) => asked1 == asked && next == SdkProtecting::<R>::Failed(error),
        SdkPreparing::Ready(done) => match run.placing_problem(selected, done.ready.bytes@.len()) {
            Some(error) => asked1 == asked && next == SdkProtecting::<R>::Failed(error),
            None => {
                let additional = run.growth(selected, done.ready.bytes@.len());
                &&& asked1 == memory::counted(asked, additional)
                &&& if memory::allows(g, asked, additional) {
                    exists|after: SdkRun<R>|
                        run.accepts(selected, done, after) && #[trigger] continues(
                            plan,
                            functions,
                            after,
                            index + 1,
                            next,
                        )
                } else {
                    next == SdkProtecting::<R>::Failed(error::out_of_memory())
                }
            },
        },
        _ => asked1 == asked && next == (SdkProtecting::<R>::Prepare {
            plan,
            functions,
            run,
            index,
            selected,
            region,
        }),
    }
}

/// `next` follows once the region that is being prepared has taken a step, after
/// `asked1` requests.
pub open spec fn region_steps<R>(
    g: Grants,
    asked: nat,
    plan: MarkerPlan,
    functions: Vec<RuntimeFunction>,
    run: SdkRun<R>,
    index: usize,
    selected: Selection,
    region: SdkPreparing<R>,
    event: SdkEvent<R>,
    next: SdkProtecting<R>,
    asked1: nat,
) -> bool {
    exists|after: SdkPreparing<R>, between: nat|
        {
            &&& #[trigger] sdk::advances(
                g,
                asked,
                region,
                event,
                selected.site,
                plan.ends@,
                after,
                between,
            )
            &&& goes_on(
                g,
                between,
                plan,
                functions,
                run,
                index,
                selected,
                after,
                next,
                asked1,
            )
        }
}

/// `next` follows once the sections were read, after `asked1` requests: names that
/// nothing else refers to are erased.
pub open spec fn scanned<R>(
    g: Grants,
    asked: nat,
    plan: MarkerPlan,
    run: SdkRun<R>,
    image: Image,
    next: SdkProtecting<R>,
    asked1: nat,
) -> bool {
    exists|producers: Seq<Rva>|
        {
            let collected = #[trigger] references::image_references(g, asked, image, producers);
            &&& references::ascending_addresses(producers)
            &&& producers.to_set() == plan.name_references@.to_set()
            &&& asked1 == collected.asked
            &&& match collected.out {
                Err(error) => next == SdkProtecting::<R>::Failed(error),
                Ok(found) => next matches SdkProtecting::Locate { plan: plan1, run: run1, edits }
                    && plan1 == plan && run1 == run && exists|names: Seq<(Rva, u32)>|
                    {
                        &&& references::ascending(names)
                        &&& forall|pair: (Rva, u32)| #[trigger]
                            names.contains(pair) <==> references::erased_pair(
                                plan.names@,
                                found,
                                pair,
                            )
                        &&& edits@ == #[trigger] rewrite::planned(
                            run.stubs@,
                            plan.end_patches@,
                            names,
                        )
                    },
            }
        }
}

/// `next` follows once the edits were located.
pub open spec fn placed<R>(
    plan: MarkerPlan,
    run: SdkRun<R>,
    edits: Seq<Planned>,
    data: Vec<u8>,
    places: Seq<Located>,
    next: SdkProtecting<R>,
) -> bool {
    let (bytes, failure) = rewrite::all_edited(data@, rewrite::edits_at(edits, places));
    match failure {
        Some(error) => next == SdkProtecting::<R>::Failed(error),
        None => next matches SdkProtecting::Append { plan: plan1, run: run1, data: data1 } && plan1
            == plan && run1 == run && data1@ == bytes,
    }
}

/// `next` is the state that follows `state` once `event` has happened, and `asked1`
/// the number of requests for room made by then. An event that was not asked for
/// changes nothing.
pub open spec fn protects<R>(
    g: Grants,
    asked: nat,
    state: SdkProtecting<R>,
    event: SdkProtectEvent<R>,
    next: SdkProtecting<R>,
    asked1: nat,
) -> bool {
    match (state, event) {
        (
            SdkProtecting::FindMarkers,
            SdkProtectEvent::Markers { code_rva, api, spelled, functions },
        ) => match (code_rva, api, spelled) {
            (Err(error), _, _) => asked1 == asked && next == SdkProtecting::<R>::Failed(
                EmitError::Pe(error),
            ),
            (_, Err(message), _) => asked1 == asked && next == SdkProtecting::<R>::Failed(
                sdk::reported(message),
            ),
            (_, _, Err(message)) => asked1 == asked && next == SdkProtecting::<R>::Failed(
                sdk::reported(message),
            ),
            (Ok(code_rva), Ok(api), Ok(spelled)) => found(
                g,
                asked,
                code_rva,
                api@,
                spelled@,
                functions,
                next,
                asked1,
            ),
        },
        (
            SdkProtecting::Prepare { plan, functions, run, index, selected, region },
            SdkProtectEvent::Region(event),
        ) => region_steps(
            g,
            asked,
            plan,
            functions,
            run,
            index,
            selected,
            region,
            event,
            next,
            asked1,
        ),
        (SdkProtecting::ReadImage { plan, run }, SdkProtectEvent::Sections(image)) => scanned(
            g,
            asked,
            plan,
            run,
            image,
            next,
            asked1,
        ),
        (
            SdkProtecting::Locate { plan, run, edits },
            SdkProtectEvent::Places { data, places },
        ) => asked1 == asked && if places@.len() == edits@.len() {
            placed(plan, run, edits@, data, places@, next)
        } else {
            next == state
        },
        _ => asked1 == asked && next == state,
    }
}

/// The run accounts for the first `count` opening markers, one by one.
pub open spec fn accounts<R>(plan: MarkerPlan, run: SdkRun<R>, count: int) -> bool {
    &&& run.outcome@.len() == count
    &&& count <= plan.begins@.len()
    &&& forall|i: int|
        0 <= i < count ==> (#[trigger] run.outcome@[i]).begin == plan.begins@[i].site.call
}

/// What is known in each state. A plan has an opening marker. The run is sound and
/// accounts for the opening markers so far, all of them once the regions are done. The region that is being prepared
/// was selected by its marker.
pub open spec fn protecting_wf<R>(state: SdkProtecting<R>) -> bool {
    match state {
        SdkProtecting::FindMarkers => true,
        SdkProtecting::Failed(_) => true,
        SdkProtecting::Prepare { plan, functions, run, index, selected, region } => {
            &&& run.wf()
            &&& plan.begins@.len() > 0
            &&& accounts(plan, run, index as int)
            &&& index < plan.begins@.len()
            &&& run.selection(plan.begins@[index as int], functions@) == Ok::<Selection, EmitError>(
                selected,
            )
            &&& sdk::state_wf(region, selected.site)
        },
        SdkProtecting::ReadImage { plan, run } => {
            &&& run.wf()
            &&& plan.begins@.len() > 0
            &&& accounts(plan, run, plan.begins@.len() as int)
        },
        SdkProtecting::Locate { plan, run, .. } => {
            &&& run.wf()
            &&& plan.begins@.len() > 0
            &&& accounts(plan, run, plan.begins@.len() as int)
        },
        SdkProtecting::Append { plan, run, .. } => {
            &&& run.wf()
            &&& plan.begins@.len() > 0
            &&& accounts(plan, run, plan.begins@.len() as int)
        },
    }
}

/// Goes on with the marker `index` of the plan.
fn proceed<R>(
    plan: MarkerPlan,
    functions: Vec<RuntimeFunction>,
    run: SdkRun<R>,
    index: usize,
) -> (next: SdkProtecting<R>)
    requires
        run.wf(),
        plan.begins@.len() > 0,
        accounts(plan, run, index as int),
    ensures
        continues(plan, functions, run, index as int, next),
        protecting_wf(next),
{
    if index >= plan.begins.len() {
        return SdkProtecting::ReadImage { plan, run };
    }
    match run.select(plan.begins[index], functions.as_slice()) {
        Err(error) => SdkProtecting::Failed(error),
        Ok(selected) => SdkProtecting::Prepare {
            plan,
            functions,
            run,
            index,
            selected,
            region: SdkPreparing::Decode,
        },
    }
}

/// Starts with the markers of an image.
fn start<R>(
    code_rva: Rva,
    api: &[ApiMarker],
    spelled: &[SdkMarker],
    functions: Vec<RuntimeFunction>,
    memory: &mut Memory,
) -> (next: SdkProtecting<R>)
    ensures
        protecting_wf(next),
        forall|g: Grants| #[trigger]
            final(memory).agrees(g) ==> old(memory).agrees(g) && found(
                g,
                old(memory).asked(),
                code_rva,
                api@,
                spelled@,
                functions,
                next,
                final(memory).asked(),
            ),
{
    let plan = match collect_sdk_markers(api, spelled, memory) {
        Ok(plan) => plan,
        Err(error) => return SdkProtecting::Failed(error),
    };
    let run: SdkRun<R> = match SdkRun::start(code_rva, plan.begins.len(), memory) {
        Ok(run) => run,
        Err(error) => return SdkProtecting::Failed(error),
    };
    proof {
        let g = memory.lemma_some_grants();
        assert(memory.agrees(g));
    }
    proceed(plan, functions, run, 0)
}

/// Takes the region that is being prepared a step further.
fn prepare_region<R>(
    plan: MarkerPlan,
    functions: Vec<RuntimeFunction>,
    run: SdkRun<R>,
    index: usize,
    selected: Selection,
    region: SdkPreparing<R>,
    event: SdkEvent<R>,
    memory: &mut Memory,
) -> (next: SdkProtecting<R>)
    requires
        protecting_wf(
            SdkProtecting::Prepare { plan, functions, run, index, selected, region },
        ),
    ensures
        protecting_wf(next),
        forall|g: Grants| #[trigger]
            final(memory).agrees(g) ==> old(memory).agrees(g) && region_steps(
                g,
                old(memory).asked(),
                plan,
                functions,
                run,
                index,
                selected,
                region,
                event,
                next,
                final(memory).asked(),
            ),
{
    let after = prepare_sdk(region, event, selected.site, plan.ends.as_slice(), memory);
    proof {
        let g = memory.lemma_some_grants();
        assert(memory.agrees(g));
        sdk::lemma_sdk_states(
            g,
            old(memory).asked(),
            region,
            event,
            selected.site,
            plan.ends@,
            after,
            memory.asked(),
        );
        sdk_run::lemma_selection_fresh(run, plan.begins@[index as int], functions@);
        assert(plan.begins.len() == plan.begins@.len());
    }
    match after {
        SdkPreparing::Failed(error) => SdkProtecting::Failed(error),
        SdkPreparing::Ready(done) => {
            let mut run = run;
            match run.accept(selected, done, memory) {
                Err(error) => SdkProtecting::Failed(error),
                Ok(_) => {
                    proof {
                        let g = memory.lemma_some_grants();
                        assert(memory.agrees(g));
                    }
                    proceed(plan, functions, run, index + 1)
                },
            }
        },
        after => SdkProtecting::Prepare { plan, functions, run, index, selected, region: after },
    }
}

/// Plans what is written over.
fn scan<R>(plan: MarkerPlan, run: SdkRun<R>, image: &Image, memory: &mut Memory) -> (next:
    SdkProtecting<R>)
    requires
        run.wf(),
        plan.begins@.len() > 0,
        accounts(plan, run, plan.begins@.len() as int),
    ensures
        protecting_wf(next),
        forall|g: Grants| #[trigger]
            final(memory).agrees(g) ==> old(memory).agrees(g) && scanned(
                g,
                old(memory).asked(),
                plan,
                run,
                *image,
                next,
                final(memory).asked(),
            ),
{
    let producers = sorted_addresses(plan.name_references.as_slice());
    match collect_image_references(image, producers.as_slice(), memory) {
        Err(error) => SdkProtecting::Failed(error),
        Ok(found) => {
            let names = names_to_erase(plan.names.as_slice(), found.as_slice());
            let edits = plan_edits(
                run.stubs.as_slice(),
                plan.end_patches.as_slice(),
                names.as_slice(),
            );
            SdkProtecting::Locate { plan, run, edits }
        },
    }
}

/// Takes the protection of an image a step further: moves each marked region into a
/// new section, turns each opening marker into a jump to the copy, and clears the
/// closing markers and the names.
pub fn protect_direct_sdk_mutation<R>(
    state: SdkProtecting<R>,
    event: SdkProtectEvent<R>,
    memory: &mut Memory,
) -> (next: SdkProtecting<R>)
    requires
        protecting_wf(state),
    ensures
        protecting_wf(next),
        forall|g: Grants| #[trigger]
            final(memory).agrees(g) ==> old(memory).agrees(g) && protects(
                g,
                old(memory).asked(),
                state,
                event,
                next,
                final(memory).asked(),
            ),
{
    match (state, event) {
        (
            SdkProtecting::FindMarkers,
            SdkProtectEvent::Markers { code_rva, api, spelled, functions },
        ) => {
            let code_rva = match code_rva {
                Ok(code_rva) => code_rva,
                Err(error) => return SdkProtecting::Failed(EmitError::Pe(error)),
            };
            let api = match api {
                Ok(api) => api,
                Err(message) => return SdkProtecting::Failed(
                    EmitError::SdkMarker(SdkFailure::Tool(message)),
                ),
            };
            let spelled = match spelled {
                Ok(spelled) => spelled,
                Err(message) => return SdkProtecting::Failed(
                    EmitError::SdkMarker(SdkFailure::Tool(message)),
                ),
            };
            start(code_rva, api.as_slice(), spelled.as_slice(), functions, memory)
        },
        (
            SdkProtecting::Prepare { plan, functions, run, index, selected, region },
            SdkProtectEvent::Region(event),
        ) => prepare_region(plan, functions, run, index, selected, region, event, memory),
        (SdkProtecting::ReadImage { plan, run }, SdkProtectEvent::Sections(image)) => scan(
            plan,
            run,
            &image,
            memory,
        ),
        (SdkProtecting::Locate { plan, run, edits }, SdkProtectEvent::Places { data, places }) => {
            if places.len() != edits.len() {
                return SdkProtecting::Locate { plan, run, edits };
            }
            let located = locate_edits(edits.as_slice(), places);
            let mut data = data;
            match rewrite::rewrite(&mut data, located) {
                Err(error) => SdkProtecting::Failed(error),
                Ok(_) => SdkProtecting::Append { plan, run, data },
            }
        },
        (state, _) => state,
    }
}

} // verus!
