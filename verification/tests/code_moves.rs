//! Moving functions and marked regions, step by step.

use vmp::emit::address::{displacement_bytes, Rva};
use vmp::emit::calls::{
    install_sdk_stubs, patch_exit_bridges, patch_sdk_call, rel32, relocated_offset, sdk_stub_bytes,
    SdkApi, SdkApiCall, SdkStub,
};
use vmp::emit::code::{
    Architecture, BasicBlock, BlockId, CompileStage, DecodeIssue, Epilogue, Function,
    MachineInstruction, OperandRef, RuntimeFunction, Terminator,
};
use vmp::emit::error::{EmitError, MarkerCompilationType, PeError, SdkFailure, SkipReason};
use vmp::emit::layout::{align_up, has_absolute_fixups, pad_to, prologue_kept_its_layout};
use vmp::emit::markers::{
    collect_sdk_markers, end_patch, sdk_name_length, ApiMarker, BeginMarker, EndPatch, MarkerSite,
    SdkMarker,
};
use vmp::emit::memory::Memory;
use vmp::emit::protect::{prepare, Event, Options, Preparing, Run};
use vmp::emit::references::{
    collect_image_references, erasable_name_length, marker_reference_extents, merge_extents,
    names_to_erase, sorted_addresses, Image, ImageSection,
};
use vmp::emit::relocated::Relocated;
use vmp::emit::rewrite::{plan_edits, rewrite, Edit, Planned};
use vmp::emit::sdk::{prepare_sdk, MarkerRegion, SdkEvent, SdkPreparing, SdkSite};
use vmp::emit::sdk_run::{code_offset, SdkRun};
use vmp::emit::slice::build_region_slice;
use vmp::emit::stub::Stub;
use vmp::emit::unwind::{chainable_unwind, follow_chain, ChainWalk, UnwindInfo};

fn instruction(rva: u32, bytes: &[u8]) -> MachineInstruction {
    MachineInstruction::decoded(Rva(rva), bytes)
}

fn block(start: u32, end: u32, instructions: Vec<MachineInstruction>) -> BasicBlock {
    BasicBlock {
        id: BlockId(0),
        start: Rva(start),
        end: Rva(end),
        instructions,
        terminator: Terminator::Return,
        successors: Vec::new(),
        predecessors: Vec::new(),
    }
}

fn function_of(blocks: Vec<BasicBlock>, unwind: Option<RuntimeFunction>) -> Function {
    Function {
        architecture: Architecture::X64,
        entry: Rva(0x1000),
        blocks,
        entry_block: BlockId(0),
        unwind,
        issues: Vec::new(),
        stage: CompileStage::Decoded,
    }
}

fn failure<T>(r: Result<T, EmitError>) -> SdkFailure {
    match r {
        Err(EmitError::SdkMarker(failure)) => failure,
        _ => panic!("a failure to protect a region is expected"),
    }
}

fn reason<T>(r: Result<T, EmitError>) -> &'static str {
    match r {
        Err(EmitError::Layout { reason, .. }) => reason,
        _ => panic!("a failure of the layout is expected"),
    }
}

// The covering function: an opening marker call of six bytes, two instructions, a
// closing marker call of six bytes and a return.
const BEGIN: MarkerSite = MarkerSite {
    call: Rva(0x1000),
    next: Rva(0x1006),
    load: None,
    static_marker: false,
};

const END: MarkerSite = MarkerSite {
    call: Rva(0x1008),
    next: Rva(0x100e),
    load: None,
    static_marker: false,
};

const RANGE: RuntimeFunction = RuntimeFunction {
    begin: Rva(0x1000),
    end: Rva(0x100f),
    unwind_info: Rva(0x5000),
};

const SITE: SdkSite = SdkSite {
    entry: Rva(0x1000),
    placement: Rva(0x9000),
    begin: BEGIN,
};

fn covering() -> Function {
    function_of(
        vec![block(
            0x1000,
            0x100f,
            vec![
                instruction(0x1000, &[0xff, 0x15, 0, 0, 0, 0]),
                instruction(0x1006, &[0x90]),
                instruction(0x1007, &[0x90]),
                instruction(0x1008, &[0xff, 0x15, 0, 0, 0, 0]),
                instruction(0x100e, &[0xc3]),
            ],
        )],
        Some(RANGE),
    )
}

fn step(state: SdkPreparing<u32>, event: SdkEvent<u32>) -> SdkPreparing<u32> {
    prepare_sdk(state, event, SITE, &[END], &mut Memory::new())
}

fn failed(state: SdkPreparing<u32>) -> EmitError {
    match state {
        SdkPreparing::Failed(error) => error,
        other => panic!("a failure is expected, not {:?}", other),
    }
}

fn up_to_neutralized() -> SdkPreparing<u32> {
    let state = step(SdkPreparing::Decode, SdkEvent::Decoded(Ok(covering())));
    assert!(matches!(state, SdkPreparing::ReadUnwind { range: RANGE, .. }));
    let state = step(state, SdkEvent::Unwind(Ok(UnwindInfo::leaf())));
    assert!(matches!(state, SdkPreparing::FindCalls { .. }));
    let state = step(
        state,
        SdkEvent::Calls(Ok(vec![
            SdkApiCall {
                api: SdkApi::IsProtected,
                call_rva: Rva(0x1006),
                load_rva: None,
                tail_call: false,
            },
            SdkApiCall {
                api: SdkApi::FreeString,
                call_rva: Rva(0x4000),
                load_rva: None,
                tail_call: false,
            },
        ])),
    );
    match &state {
        SdkPreparing::RecoverRegion { end_starts, .. } => assert_eq!(end_starts, &[Rva(0x1008)]),
        other => panic!("unexpected {:?}", other),
    }
    let state = step(
        state,
        SdkEvent::Region(Ok(MarkerRegion {
            instructions: vec![Rva(0x1006), Rva(0x1007)],
            reached_ends: vec![Rva(0x1008)],
        })),
    );
    match &state {
        SdkPreparing::FindEpilogues { plan, .. } => {
            assert_eq!(plan.calls.len(), 1);
            assert_eq!(plan.calls[0].api, SdkApi::IsProtected);
            assert_eq!(plan.sites, [END]);
            assert_eq!(plan.insertion_points, [Rva(0x1006), Rva(0x1007)]);
            assert_eq!(plan.mutation_targets, [Rva(0x1006), Rva(0x1007)]);
        }
        other => panic!("unexpected {:?}", other),
    }
    let state = step(state, SdkEvent::Epilogues(Vec::new()));
    match &state {
        SdkPreparing::Neutralize { end_sites, .. } => {
            assert_eq!(end_sites, &[(Rva(0x1008), None)])
        }
        other => panic!("unexpected {:?}", other),
    }
    step(state, SdkEvent::Neutralized(Ok(covering())))
}

#[test]
fn a_marked_region_becomes_a_slice_with_a_bridge_and_stubs() {
    let state = up_to_neutralized();
    let state = step(
        state,
        SdkEvent::Epilogues(vec![Epilogue {
            begin: Rva(0x100e),
            end: Rva(0x100f),
        }]),
    );
    match &state {
        SdkPreparing::Mutate {
            epilogues, frozen, ..
        } => {
            assert!(epilogues.is_empty());
            assert_eq!(frozen, &[(Rva(0x100e), Rva(0x100f))]);
        }
        other => panic!("unexpected {:?}", other),
    }
    let state = step(state, SdkEvent::Mutated(Ok((covering(), 7, false))));
    match &state {
        SdkPreparing::Relocate { slice, .. } => {
            assert_eq!(slice.blocks.len(), 1);
            assert_eq!(slice.blocks[0].start, Rva(0x1006));
            assert_eq!(slice.blocks[0].end, Rva(0x100d));
            let bytes: Vec<&[u8]> = slice.blocks[0]
                .instructions
                .iter()
                .map(|instruction| instruction.bytes.as_slice())
                .collect();
            // from 0x1008 a jump to 0x100e covers one byte behind its own end
            assert_eq!(bytes, [&[0x90u8][..], &[0x90], &[0xe9, 1, 0, 0, 0]]);
        }
        other => panic!("unexpected {:?}", other),
    }
    let state = step(
        state,
        SdkEvent::Relocated(Ok(Relocated {
            rva: Rva(0x9000),
            bytes: vec![
                0xe8, 0, 0, 0, 0, // the call
                0x90, 0xe9, 0, 0, 0, 0,
            ],
            moved: vec![
                (Rva(0x1006), Rva(0x9000)),
                (Rva(0x1007), Rva(0x9005)),
                (Rva(0x1008), Rva(0x9006)),
            ],
        })),
    );
    let done = match state {
        SdkPreparing::Ready(done) => done,
        other => panic!("unexpected {:?}", other),
    };
    assert_eq!(done.reached_ends, [Rva(0x1008)]);
    assert_eq!(
        done.sdk_stubs,
        [SdkStub {
            api: SdkApi::IsProtected,
            rva: Rva(0x900b)
        }]
    );
    assert_eq!(done.ready.protected.original, Rva(0x1000));
    assert_eq!(done.ready.protected.relocated, Rva(0x9000));
    assert_eq!(done.ready.protected.length, 11);
    assert_eq!(done.ready.protected.report, 7);
    assert_eq!(done.ready.runtime_function.begin, Rva(0x9000));
    assert_eq!(done.ready.runtime_function.end, Rva(0x900b));
    assert_eq!(done.ready.runtime_function.unwind.flags, 4);
    assert_eq!(done.ready.runtime_function.unwind.chained, Some(RANGE));
    // the bridge leads from 0x9006 back to 0x100e
    let mut expected = vec![0xe8, 6, 0, 0, 0, 0x90, 0xe9];
    expected.extend_from_slice(&displacement_bytes(0x100e - 0x900b));
    expected.extend_from_slice(&[0xb8, 1, 0, 0, 0, 0xc3]);
    assert_eq!(done.ready.bytes, expected);
}

#[test]
fn an_event_that_was_not_asked_for_changes_nothing() {
    let state = step(SdkPreparing::Decode, SdkEvent::Epilogues(Vec::new()));
    assert_eq!(state, SdkPreparing::Decode);
}

#[test]
fn every_outside_failure_of_a_region_is_reported() {
    let tool = || "tool".to_string();
    let reported = EmitError::SdkMarker(SdkFailure::Tool(tool()));
    assert_eq!(failed(step(SdkPreparing::Decode, SdkEvent::Decoded(Err(tool())))), reported);
    let read = step(SdkPreparing::Decode, SdkEvent::Decoded(Ok(covering())));
    assert_eq!(failed(step(read, SdkEvent::Unwind(Err(tool())))), reported);
    assert_eq!(
        failed(step(up_to_neutralized_minus_one(), SdkEvent::Neutralized(Err(tool())))),
        reported
    );
}

fn up_to_neutralized_minus_one() -> SdkPreparing<u32> {
    match up_to_neutralized() {
        SdkPreparing::FindFrozen { covering, plan } => SdkPreparing::Neutralize {
            covering,
            plan,
            end_sites: vec![(Rva(0x1008), None)],
        },
        other => panic!("unexpected {:?}", other),
    }
}

#[test]
fn a_covering_function_must_be_complete_described_and_start_at_the_entry() {
    let mut incomplete = covering();
    incomplete.issues.push(DecodeIssue {
        rva: Rva(0x1000),
        reason: "unknown".to_string(),
    });
    assert_eq!(
        failed(step(SdkPreparing::Decode, SdkEvent::Decoded(Ok(incomplete)))),
        EmitError::SdkMarker(SdkFailure::IncompleteFunction { entry: Rva(0x1000) })
    );
    let mut bare = covering();
    bare.unwind = None;
    assert_eq!(
        failed(step(SdkPreparing::Decode, SdkEvent::Decoded(Ok(bare)))),
        EmitError::SdkMarkerOutsideRuntimeFunction { rva: Rva(0x1000) }
    );
    let mut shifted = covering();
    shifted.unwind = Some(RuntimeFunction {
        begin: Rva(0xff0),
        ..RANGE
    });
    assert_eq!(
        failed(step(SdkPreparing::Decode, SdkEvent::Decoded(Ok(shifted)))),
        EmitError::SdkMarker(SdkFailure::CoveringStart {
            begin: Rva(0xff0),
            entry: Rva(0x1000)
        })
    );
}

fn begin_error(site: SdkSite, size_of_prolog: u8) -> EmitError {
    let mut unwind = UnwindInfo::leaf();
    unwind.size_of_prolog = size_of_prolog;
    let state: SdkPreparing<u32> = SdkPreparing::ReadUnwind {
        function: covering(),
        range: RANGE,
    };
    failed(prepare_sdk(
        state,
        SdkEvent::Unwind(Ok(unwind)),
        site,
        &[END],
        &mut Memory::new(),
    ))
}

#[test]
fn the_opening_marker_must_leave_the_prologue_alone_and_have_room() {
    assert_eq!(
        begin_error(SITE, 6),
        EmitError::SdkMarker(SdkFailure::BeginInPrologue)
    );
    let late = SdkSite {
        begin: MarkerSite {
            call: Rva(0x1008),
            next: Rva(0x100e),
            ..BEGIN
        },
        ..SITE
    };
    assert_eq!(
        begin_error(late, 3),
        EmitError::SdkMarker(SdkFailure::PrologueInsideInstruction)
    );
    let split = SdkSite {
        begin: MarkerSite {
            load: Some(Rva(0x1006)),
            call: Rva(0x1008),
            next: Rva(0x100e),
            static_marker: false,
        },
        ..SITE
    };
    assert_eq!(
        begin_error(split, 6),
        EmitError::SdkMarker(SdkFailure::SplitRegisterMarker {
            load: Rva(0x1006),
            call: Rva(0x1008)
        })
    );
    let short = SdkSite {
        begin: MarkerSite {
            next: Rva(0x1004),
            ..BEGIN
        },
        ..SITE
    };
    assert_eq!(
        begin_error(short, 0),
        EmitError::SdkMarker(SdkFailure::NoRoomForJump {
            call: Rva(0x1000),
            available: 4
        })
    );
    let high = SdkSite {
        entry: Rva(u32::MAX),
        ..SITE
    };
    assert!(matches!(
        begin_error(high, 1),
        EmitError::Layout {
            rva: Rva(u32::MAX),
            reason: "covering prologue end exceeds the PE address width"
        }
    ));
}

#[test]
fn a_region_needs_its_closing_marker_whole_epilogues_and_a_change() {
    let state = match up_to_neutralized() {
        SdkPreparing::FindFrozen { covering, plan } => SdkPreparing::RecoverRegion {
            covering,
            calls: plan.calls,
            end_starts: vec![Rva(0x1008)],
        },
        other => panic!("unexpected {:?}", other),
    };
    let region = MarkerRegion {
        instructions: vec![Rva(0x1006)],
        reached_ends: vec![Rva(0x2000)],
    };
    assert_eq!(
        failed(step(state, SdkEvent::Region(Ok(region)))),
        EmitError::SdkMarker(SdkFailure::MissingContinuation { end: Rva(0x2000) })
    );
    let partial = Epilogue {
        begin: Rva(0x1007),
        end: Rva(0x100f),
    };
    assert_eq!(
        failed(step(up_to_neutralized(), SdkEvent::Epilogues(vec![partial]))),
        EmitError::SdkMarker(SdkFailure::PartialEpilogue {
            begin: Rva(0x1007),
            end: Rva(0x100f)
        })
    );
    let state = step(up_to_neutralized(), SdkEvent::Epilogues(Vec::new()));
    assert_eq!(
        failed(step(state, SdkEvent::Mutated(Ok((covering(), 0, true))))),
        EmitError::SdkMarker(SdkFailure::NothingMutated)
    );
    let state = step(up_to_neutralized(), SdkEvent::Epilogues(Vec::new()));
    let mut fixed = covering();
    fixed.blocks[0].instructions[1].refs.push(OperandRef::Absolute {
        target: Rva(0x7000),
    });
    assert_eq!(
        failed(step(state, SdkEvent::Mutated(Ok((fixed, 0, false))))),
        EmitError::SdkMarker(SdkFailure::AbsoluteFixups)
    );
}

#[test]
fn a_slice_keeps_what_was_inserted_behind_selected_instructions() {
    let inserted = MachineInstruction {
        rva: None,
        bytes: vec![0x66, 0x90],
        refs: Vec::new(),
    };
    let stray = MachineInstruction {
        rva: None,
        bytes: vec![0xcc],
        refs: Vec::new(),
    };
    let function = function_of(
        vec![
            block(0x1010, 0x1011, vec![instruction(0x1010, &[0xc3])]),
            block(
                0x1000,
                0x1002,
                vec![instruction(0x1000, &[0x90]), inserted, instruction(0x1001, &[0x91]), stray],
            ),
        ],
        None,
    );
    let slice = build_region_slice(
        &function,
        Rva(0x1000),
        &[Rva(0x1000), Rva(0x1010)],
        &[],
        &mut Memory::new(),
    )
    .expect("the region is decoded");
    let bytes: Vec<&[u8]> = slice.blocks[0]
        .instructions
        .iter()
        .map(|instruction| instruction.bytes.as_slice())
        .collect();
    assert_eq!(bytes, [&[0x90u8][..], &[0x66, 0x90], &[0xc3]]);
    assert_eq!(slice.blocks[0].end, Rva(0x1011));
    assert_eq!(slice.blocks[0].terminator, Terminator::Halt);
}

#[test]
fn a_slice_is_refused_with_its_reason() {
    let function = covering();
    let memory = &mut Memory::new();
    assert_eq!(
        failure(build_region_slice(&function, Rva(0x1006), &[Rva(0x1007)], &[], memory)),
        SdkFailure::EntryNotSelected { entry: Rva(0x1006) }
    );
    assert_eq!(
        failure(build_region_slice(
            &function,
            Rva(0x1007),
            &[Rva(0x1006), Rva(0x1007)],
            &[],
            memory
        )),
        SdkFailure::ReachesBeforeBegin
    );
    assert_eq!(
        failure(build_region_slice(
            &function,
            Rva(0x1006),
            &[Rva(0x1006), Rva(0x1fff)],
            &[],
            memory
        )),
        SdkFailure::UndecodedSelection
    );
    assert_eq!(
        failure(build_region_slice(
            &function,
            Rva(0x1006),
            &[Rva(0x1006)],
            &[(Rva(0), Rva(0xf000_0000))],
            memory
        )),
        SdkFailure::BridgeUnreachable { marker: Rva(0) }
    );
    let top = function_of(
        vec![block(
            u32::MAX,
            u32::MAX,
            vec![instruction(u32::MAX, &[0x90])],
        )],
        None,
    );
    assert_eq!(
        failure(build_region_slice(&top, Rva(u32::MAX), &[Rva(u32::MAX)], &[], memory)),
        SdkFailure::RegionEndOverflows
    );
}

fn copy(bytes: &[u8]) -> Relocated {
    Relocated {
        rva: Rva(0x9000),
        bytes: bytes.to_vec(),
        moved: vec![(Rva(0x1000), Rva(0x9000)), (Rva(0x1100), Rva(0x8000))],
    }
}

#[test]
fn places_in_a_copy_are_found_or_refused() {
    let copy = copy(&[0x90; 8]);
    assert_eq!(relocated_offset(&copy, Rva(0x9003), 5, Rva(0x1000)), Ok(3));
    assert_eq!(
        failure(relocated_offset(&copy, Rva(0x8fff), 5, Rva(0x1000))),
        SdkFailure::SiteUnderflows { site: Rva(0x1000) }
    );
    assert_eq!(
        failure(relocated_offset(&copy, Rva(0x9001), usize::MAX, Rva(0x1000))),
        SdkFailure::SiteOverflows { site: Rva(0x1000) }
    );
    assert_eq!(
        failure(relocated_offset(&copy, Rva(0x9004), 5, Rva(0x1000))),
        SdkFailure::SiteOutside { site: Rva(0x1000) }
    );
    assert_eq!(rel32(Rva(0x9000), 5, Rva(0x1000), Rva(1)), Ok(-0x8005));
    assert_eq!(
        reason(rel32(Rva(u32::MAX), 5, Rva(0), Rva(1))),
        "SDK call next address exceeds the PE address width"
    );
    assert_eq!(
        reason(rel32(Rva(0), 5, Rva(u32::MAX), Rva(1))),
        "SDK fallback stub is outside rel32 range"
    );
}

#[test]
fn bridges_are_checked_before_they_are_written() {
    assert_eq!(
        failure(patch_exit_bridges(&mut copy(&[0x90]), &[(Rva(0x2000), Rva(0x3000))])),
        SdkFailure::BridgeNotRelocated { marker: Rva(0x2000) }
    );
    assert_eq!(
        failure(patch_exit_bridges(&mut copy(&[]), &[(Rva(0x1000), Rva(0x3000))])),
        SdkFailure::BridgeNotMeasured { marker: Rva(0x1000) }
    );
    assert_eq!(
        failure(patch_exit_bridges(&mut copy(&[0x90]), &[(Rva(0x1000), Rva(0x3000))])),
        SdkFailure::BridgeLength {
            marker: Rva(0x1000),
            length: 1
        }
    );
    let mut patched = copy(&[0xe8, 0, 0, 0, 0, 0xcc]);
    assert_eq!(patch_exit_bridges(&mut patched, &[(Rva(0x1000), Rva(0x9006))]), Ok(()));
    assert_eq!(patched.bytes, [0xe9, 1, 0, 0, 0, 0xcc]);
}

fn call(load_rva: Option<Rva>, tail_call: bool) -> SdkApiCall {
    SdkApiCall {
        api: SdkApi::DecryptStringA,
        call_rva: Rva(0x1000),
        load_rva,
        tail_call,
    }
}

#[test]
fn a_call_is_redirected_and_padded() {
    // call [rip+0] has six bytes
    let mut direct = copy(&[0xff, 0x15, 0, 0, 0, 0, 0xcc]);
    assert_eq!(patch_sdk_call(&mut direct, call(None, false), Rva(0x9010)), Ok(()));
    assert_eq!(direct.bytes, [0xe8, 0x0b, 0, 0, 0, 0x90, 0xcc]);
    let mut tail = copy(&[0xff, 0x25, 0, 0, 0, 0, 0xcc]);
    assert_eq!(patch_sdk_call(&mut tail, call(None, true), Rva(0x9010)), Ok(()));
    assert_eq!(tail.bytes, [0xe9, 0x0b, 0, 0, 0, 0x90, 0xcc]);
    // mov rax, [rip+0] becomes lea rax, [rip+..]
    let mut load = copy(&[0x48, 0x8b, 0x05, 0, 0, 0, 0, 0xcc]);
    assert_eq!(
        patch_sdk_call(&mut load, call(Some(Rva(0x1000)), false), Rva(0x9010)),
        Ok(())
    );
    assert_eq!(load.bytes, [0x48, 0x8d, 0x05, 9, 0, 0, 0, 0xcc]);
}

#[test]
fn a_call_that_changed_is_refused() {
    let site = Some(Rva(0x1000));
    let target = Rva(0x9010);
    assert_eq!(
        failure(patch_sdk_call(&mut copy(&[0x90]), call(Some(Rva(0x2000)), false), target)),
        SdkFailure::LoadNotRelocated { load: Rva(0x2000) }
    );
    assert_eq!(
        failure(patch_sdk_call(&mut copy(&[]), call(site, false), target)),
        SdkFailure::LoadNotMeasured { load: Rva(0x1000) }
    );
    assert_eq!(
        failure(patch_sdk_call(&mut copy(&[0x90]), call(site, false), target)),
        SdkFailure::LoadLength {
            load: Rva(0x1000),
            length: 1
        }
    );
    // lea rax, [rip+0] is as long, but no load
    assert_eq!(
        failure(patch_sdk_call(
            &mut copy(&[0x48, 0x8d, 0x05, 0, 0, 0, 0]),
            call(site, false),
            target
        )),
        SdkFailure::LoadNotCanonical { load: Rva(0x1000) }
    );
    let mut absent = call(None, false);
    absent.call_rva = Rva(0x2000);
    assert_eq!(
        failure(patch_sdk_call(&mut copy(&[0x90]), absent, target)),
        SdkFailure::CallNotRelocated { call: Rva(0x2000) }
    );
    assert_eq!(
        failure(patch_sdk_call(&mut copy(&[]), call(None, false), target)),
        SdkFailure::CallNotMeasured { call: Rva(0x1000) }
    );
    assert_eq!(
        failure(patch_sdk_call(&mut copy(&[0x90]), call(None, false), target)),
        SdkFailure::CallLength {
            call: Rva(0x1000),
            length: 1
        }
    );
}

#[test]
fn one_stub_serves_all_calls_of_a_function() {
    let mut copy = Relocated {
        rva: Rva(0x9000),
        bytes: vec![0xe8, 0, 0, 0, 0, 0xe8, 0, 0, 0, 0, 0xe8, 0, 0, 0, 0],
        moved: vec![
            (Rva(1), Rva(0x9000)),
            (Rva(2), Rva(0x9005)),
            (Rva(3), Rva(0x900a)),
        ],
    };
    let calls = [
        SdkApiCall {
            api: SdkApi::FreeString,
            call_rva: Rva(1),
            load_rva: None,
            tail_call: false,
        },
        SdkApiCall {
            api: SdkApi::DecryptStringW,
            call_rva: Rva(2),
            load_rva: None,
            tail_call: false,
        },
        SdkApiCall {
            api: SdkApi::FreeString,
            call_rva: Rva(3),
            load_rva: None,
            tail_call: false,
        },
    ];
    let stubs = install_sdk_stubs(&mut copy, &calls, Rva(0x900f), &mut Memory::new())
        .expect("all calls are near");
    assert_eq!(
        stubs,
        [
            SdkStub {
                api: SdkApi::FreeString,
                rva: Rva(0x900f)
            },
            SdkStub {
                api: SdkApi::DecryptStringW,
                rva: Rva(0x9012)
            },
        ]
    );
    assert_eq!(
        copy.bytes,
        [
            0xe8, 0x0a, 0, 0, 0, 0xe8, 8, 0, 0, 0, 0xe8, 0, 0, 0, 0, // the calls
            0x31, 0xc0, 0xc3, 0x48, 0x89, 0xc8, 0xc3,
        ]
    );
    assert_eq!(sdk_stub_bytes(SdkApi::DecryptStringA), [0x48, 0x89, 0xc8, 0xc3]);
}

#[test]
fn stubs_beyond_the_addresses_are_refused() {
    assert_eq!(
        reason(install_sdk_stubs(
            &mut copy(&[]),
            &[
                call(None, false),
                SdkApiCall {
                    api: SdkApi::FreeString,
                    ..call(None, false)
                }
            ],
            Rva(u32::MAX),
            &mut Memory::new()
        )),
        "SDK fallback stub address exceeds the PE address width"
    );
}

#[test]
fn offsets_of_copies_are_aligned() {
    assert_eq!(code_offset(0, Rva(1)), Ok(0));
    assert_eq!(code_offset(1, Rva(1)), Ok(16));
    assert_eq!(code_offset(16, Rva(1)), Ok(16));
    assert_eq!(code_offset(17, Rva(1)), Ok(32));
    assert_eq!(align_up(17, 16), 32);
    assert_eq!(align_up(32, 16), 32);
    let mut buffer = vec![1];
    pad_to(&mut buffer, 3);
    assert_eq!(buffer, [1, 0xcc, 0xcc]);
    pad_to(&mut buffer, 1);
    assert_eq!(buffer.len(), 3);
}

fn begin(compilation_type: MarkerCompilationType, lock_to_key: bool) -> BeginMarker {
    BeginMarker {
        site: BEGIN,
        compilation_type,
        lock_to_key,
    }
}

fn ready() -> vmp::emit::sdk::SdkReady<u32> {
    let state = step(up_to_neutralized(), SdkEvent::Epilogues(Vec::new()));
    let state = step(state, SdkEvent::Mutated(Ok((covering(), 7, false))));
    let state = step(
        state,
        SdkEvent::Relocated(Ok(Relocated {
            rva: Rva(0x9000),
            bytes: vec![0xe8, 0, 0, 0, 0, 0x90, 0xe9, 0, 0, 0, 0],
            moved: vec![
                (Rva(0x1006), Rva(0x9000)),
                (Rva(0x1007), Rva(0x9005)),
                (Rva(0x1008), Rva(0x9006)),
            ],
        })),
    );
    match state {
        SdkPreparing::Ready(done) => done,
        other => panic!("unexpected {:?}", other),
    }
}

#[test]
fn a_run_selects_and_accepts_one_region_per_function() {
    let memory = &mut Memory::new();
    let mut run: SdkRun<u32> = SdkRun::start(Rva(0x9000), 2, memory).expect("there is memory");
    let marker = begin(MarkerCompilationType::Mutation, false);
    let selected = run.select(marker, &[RANGE]).expect("the marker is covered");
    assert_eq!(selected.offset, 0);
    assert_eq!(selected.site, SITE);
    assert_eq!(run.accept(selected, ready(), memory), Ok(()));
    assert_eq!(run.code.len(), 17);
    assert_eq!(run.outcome[0].begin, Rva(0x1000));
    assert_eq!(run.outcome[0].function, Rva(0x1000));
    assert_eq!(run.outcome[0].length, 11);
    assert_eq!(
        run.stubs,
        [Stub {
            from: Rva(0x1000),
            to: Rva(0x9000),
            span_len: 6
        }]
    );
    assert_eq!(
        run.select(marker, &[RANGE]),
        Err(EmitError::MultipleSdkBegins {
            function: Rva(0x1000)
        })
    );
    let other = RuntimeFunction {
        begin: Rva(0x2000),
        end: Rva(0x3000),
        unwind_info: Rva(0x5000),
    };
    let mut second = marker;
    second.site.call = Rva(0x2000);
    let next = run.select(second, &[RANGE, other]).expect("another function");
    assert_eq!(next.offset, 32);
    assert_eq!(next.site.placement, Rva(0x9020));
    // the place that was found before is taken
    assert_eq!(
        reason(run.accept(selected, ready(), memory)),
        "the aligned SDK code offset moved backwards"
    );
}

#[test]
fn a_run_refuses_markers_with_their_reason() {
    let run: SdkRun<u32> =
        SdkRun::start(Rva(u32::MAX), 1, &mut Memory::new()).expect("there is memory");
    assert_eq!(
        run.select(begin(MarkerCompilationType::Ultra, false), &[RANGE]),
        Err(EmitError::UnsupportedSdkMarker {
            rva: Rva(0x1000),
            compilation_type: MarkerCompilationType::Ultra,
            lock_to_key: false
        })
    );
    assert_eq!(
        run.select(begin(MarkerCompilationType::Default, true), &[RANGE]),
        Err(EmitError::UnsupportedSdkMarker {
            rva: Rva(0x1000),
            compilation_type: MarkerCompilationType::Default,
            lock_to_key: true
        })
    );
    assert_eq!(
        run.select(begin(MarkerCompilationType::Default, false), &[]),
        Err(EmitError::SdkMarkerOutsideRuntimeFunction { rva: Rva(0x1000) })
    );
    let full = SdkRun::<u32> {
        code_rva: Rva(u32::MAX),
        code: vec![0],
        stubs: Vec::new(),
        runtime_functions: Vec::new(),
        outcome: Vec::new(),
    };
    assert_eq!(
        reason(full.select(begin(MarkerCompilationType::Default, false), &[RANGE])),
        "the appended SDK code does not fit in the RVA space"
    );
}

fn whole(bytes: &[u8], unwind: Option<RuntimeFunction>) -> Function {
    let end = 0x1000 + bytes.len() as u32;
    let instructions = bytes
        .iter()
        .enumerate()
        .map(|(index, byte)| instruction(0x1000 + index as u32, &[*byte]))
        .collect();
    function_of(vec![block(0x1000, end, instructions)], unwind)
}

fn go(state: Preparing<u8>, event: Event<u8>) -> Preparing<u8> {
    prepare(state, event, Rva(0x1000), Rva(0x9000))
}

fn skipped(state: Preparing<u8>) -> SkipReason {
    match state {
        Preparing::Skipped(reason) => reason,
        other => panic!("a skip is expected, not {:?}", other),
    }
}

fn movable() -> Function {
    whole(&[0x90, 0x90, 0x90, 0x90, 0x90, 0xc3], Some(RANGE))
}

#[test]
fn a_function_is_moved_when_nothing_speaks_against_it() {
    let state = go(Preparing::Decode, Event::Decoded(Ok(movable())));
    let mut unwind = UnwindInfo::leaf();
    unwind.size_of_prolog = 1;
    let state = go(state, Event::Unwind(Ok(unwind)));
    let epilogue = Epilogue {
        begin: Rva(0x1005),
        end: Rva(0x1006),
    };
    let state = go(state, Event::Epilogues(vec![epilogue]));
    match &state {
        Preparing::Mutate { frozen, .. } => assert_eq!(
            frozen,
            &[(Rva(0x1000), Rva(0x1001)), (Rva(0x1005), Rva(0x1006))]
        ),
        other => panic!("unexpected {:?}", other),
    }
    let state = go(state, Event::Mutated(Ok((movable(), 3, false))));
    let state = go(
        state,
        Event::Relocated(Ok(Relocated {
            rva: Rva(0x9000),
            bytes: vec![0x90, 0x90, 0xc3],
            moved: vec![(Rva(0x1000), Rva(0x9000)), (Rva(0x1005), Rva(0x9002))],
        })),
    );
    let done = match state {
        Preparing::Ready(done) => done,
        other => panic!("unexpected {:?}", other),
    };
    assert_eq!(done.protected.length, 3);
    assert_eq!(done.protected.report, 3);
    let mut run: Run<u8> = Run::start(Architecture::X64, Rva(0x9000)).expect("a 64-bit image");
    let (offset, placement) = run.place(Rva(0x1000)).expect("there is room");
    assert_eq!((offset, placement), (0, Rva(0x9000)));
    run.accept(Rva(0x1000), offset, placement, done);
    run.skip(Rva(0x2000), SkipReason::NothingToDo);
    assert_eq!(run.place(Rva(0x3000)), Ok((16, Rva(0x9010))));
    let run = run.finish().expect("something was protected");
    assert_eq!(run.code, [0x90, 0x90, 0xc3]);
    assert_eq!(run.stubs, [Stub::new(Rva(0x1000), Rva(0x9000))]);
    assert_eq!(run.runtime_functions[0].end, Rva(0x9003));
    assert_eq!(run.outcome.skipped[0].rva, Rva(0x2000));
}

#[test]
fn sections_have_their_usual_names() {
    let options = Options::new(7u64, "none");
    assert_eq!(options.seed, 7);
    assert_eq!(options.code_section, ".vmpc");
    assert_eq!(options.pdata_section, ".vmpx");
    assert_eq!(options.mutation, "none");
}

#[test]
fn every_reason_to_leave_a_function_alone() {
    assert_eq!(
        skipped(go(Preparing::Decode, Event::Decoded(Err("bad".to_string())))),
        SkipReason::NotDecodable("bad".to_string())
    );
    let mut incomplete = movable();
    incomplete.issues.push(DecodeIssue {
        rva: Rva(0x1001),
        reason: "path".to_string(),
    });
    assert!(matches!(
        skipped(go(Preparing::Decode, Event::Decoded(Ok(incomplete)))),
        SkipReason::Incomplete(_)
    ));
    assert_eq!(
        skipped(go(Preparing::Decode, Event::Decoded(Ok(whole(&[0xc3], None))))),
        SkipReason::NoUnwindData
    );
    let inner = RuntimeFunction {
        begin: Rva(0xf00),
        ..RANGE
    };
    assert_eq!(
        skipped(go(
            Preparing::Decode,
            Event::Decoded(Ok(whole(&[0xc3], Some(inner))))
        )),
        SkipReason::NotAFunctionEntry {
            covering: Rva(0xf00)
        }
    );
    let read = || go(Preparing::Decode, Event::Decoded(Ok(movable())));
    assert_eq!(
        skipped(go(read(), Event::Unwind(Err("v2".to_string())))),
        SkipReason::UnwindNotReEmittable("v2".to_string())
    );
    let short = RuntimeFunction {
        end: Rva(0x1004),
        ..RANGE
    };
    let state = go(Preparing::Decode, Event::Decoded(Ok(whole(&[0xc3], Some(short)))));
    assert_eq!(
        skipped(go(state, Event::Unwind(Ok(UnwindInfo::leaf())))),
        SkipReason::TooShortForStub { length: 4 }
    );
    let mut fixed = movable();
    fixed.blocks[0].instructions[0].refs.push(OperandRef::Absolute { target: Rva(1) });
    assert!(has_absolute_fixups(&fixed));
    let state = go(Preparing::Decode, Event::Decoded(Ok(fixed)));
    assert_eq!(
        skipped(go(state, Event::Unwind(Ok(UnwindInfo::leaf())))),
        SkipReason::HasAbsoluteFixups
    );
    let mutate = || {
        let state = go(read(), Event::Unwind(Ok(UnwindInfo::leaf())));
        go(
            state,
            Event::Epilogues(vec![Epilogue {
                begin: Rva(0x1005),
                end: Rva(0x1006),
            }]),
        )
    };
    assert_eq!(
        skipped(go(mutate(), Event::Mutated(Err("seed".to_string())))),
        SkipReason::MutationFailed("seed".to_string())
    );
    assert_eq!(
        skipped(go(mutate(), Event::Mutated(Ok((movable(), 0, true))))),
        SkipReason::NothingToDo
    );
    let relocate = || go(mutate(), Event::Mutated(Ok((movable(), 0, false))));
    assert_eq!(
        skipped(go(relocate(), Event::Relocated(Err("far".to_string())))),
        SkipReason::NotDecodable("far".to_string())
    );
    let elsewhere = Relocated {
        rva: Rva(0x9000),
        bytes: vec![0xc3],
        moved: Vec::new(),
    };
    assert_eq!(
        skipped(go(relocate(), Event::Relocated(Ok(elsewhere)))),
        SkipReason::EpilogueMoved
    );
    assert!(!prologue_kept_its_layout(
        &movable(),
        &Relocated {
            rva: Rva(0x9000),
            bytes: vec![0x90],
            moved: vec![(Rva(0x1000), Rva(0x9001))],
        },
        Rva(0x1000),
        Rva(0x9000),
        1
    ));
}

#[test]
fn a_run_refuses_other_images_and_an_empty_result() {
    assert_eq!(
        Run::<u8>::start(Architecture::X86, Rva(0x9000)).map(|_| ()),
        Err(EmitError::UnsupportedArchitecture {
            architecture: Architecture::X86
        })
    );
    let run: Run<u8> = Run::start(Architecture::X64, Rva(0x9000)).expect("a 64-bit image");
    assert_eq!(run.finish().map(|_| ()), Err(EmitError::NothingProtected));
    let mut high: Run<u8> = Run::start(Architecture::X64, Rva(u32::MAX)).expect("a 64-bit image");
    high.code.push(0);
    assert_eq!(
        reason(high.place(Rva(0x1000))),
        "the appended section does not fit in the RVA space"
    );
}

#[test]
fn chains_of_unwind_information_are_followed_to_their_end() {
    let link = |chained: Option<RuntimeFunction>| UnwindInfo {
        chained,
        ..UnwindInfo::leaf()
    };
    let next = RuntimeFunction {
        unwind_info: Rva(0x6000),
        ..RANGE
    };
    let walk = chainable_unwind(Ok(link(Some(next))));
    assert!(matches!(walk, ChainWalk::Read { next: Rva(0x6000), links: 0, .. }));
    assert_eq!(
        follow_chain(walk, Ok(link(None))),
        ChainWalk::Done(link(Some(next)))
    );
    let mut walk = chainable_unwind(Ok(link(Some(next))));
    for _ in 0..16 {
        walk = follow_chain(walk, Ok(link(Some(next))));
        assert!(matches!(walk, ChainWalk::Read { .. }));
    }
    assert_eq!(
        follow_chain(walk, Ok(link(Some(next)))),
        ChainWalk::Failed(EmitError::SdkMarker(SdkFailure::ChainTooDeep))
    );
    let handled = UnwindInfo {
        flags: 1,
        ..UnwindInfo::leaf()
    };
    assert_eq!(
        chainable_unwind(Ok(handled)),
        ChainWalk::Failed(EmitError::SdkMarker(SdkFailure::LanguageHandlers))
    );
    let framed = UnwindInfo {
        frame_register: 5,
        ..UnwindInfo::leaf()
    };
    assert_eq!(
        follow_chain(chainable_unwind(Ok(link(Some(next)))), Ok(framed)),
        ChainWalk::Failed(EmitError::SdkMarker(SdkFailure::FrameStateChanges))
    );
}

#[test]
fn markers_are_sorted_by_what_they_ask_for() {
    let api = [
        ApiMarker::Begin {
            load_rva: None,
            call_rva: Rva(0x1000),
            next_rva: Rva(0x1006),
            name: Some((Rva(0x3000), sdk_name_length(Some(b"name")))),
            name_reference_rva: Some(Rva(0xff0)),
            compilation_type: MarkerCompilationType::Mutation,
            lock_to_key: false,
        },
        ApiMarker::End {
            load_rva: None,
            call_rva: Rva(0x1008),
            next_rva: Rva(0x100e),
        },
    ];
    let spelled = [SdkMarker::End {
        rva: Rva(0x2000),
        next_rva: Rva(0x2010),
    }];
    let plan = collect_sdk_markers(&api, &spelled, &mut Memory::new()).expect("markers are sound");
    assert_eq!(plan.begins, [begin(MarkerCompilationType::Mutation, false)]);
    assert_eq!(plan.ends.len(), 2);
    assert_eq!(plan.names, [(Rva(0x3000), 5)]);
    assert_eq!(plan.name_references, [Rva(0xff0)]);
    assert_eq!(
        plan.end_patches,
        [
            EndPatch::ApiSpan {
                rva: Rva(0x1008),
                length: 6
            },
            EndPatch::StaticPayload {
                rva: Rva(0x2002),
                length: 14
            },
        ]
    );
    assert_eq!(
        collect_sdk_markers(&api[1..], &[], &mut Memory::new()).map(|_| ()),
        Err(EmitError::NoSdkMarkers)
    );
    let unbounded = [ApiMarker::Begin {
        load_rva: None,
        call_rva: Rva(0x1000),
        next_rva: Rva(0x1006),
        name: Some((Rva(0x3000), None)),
        name_reference_rva: None,
        compilation_type: MarkerCompilationType::Default,
        lock_to_key: false,
    }];
    assert_eq!(
        failure(collect_sdk_markers(&unbounded, &[], &mut Memory::new())),
        SdkFailure::UnboundedName { name: Rva(0x3000) }
    );
}

#[test]
fn end_patches_beyond_the_addresses_are_refused() {
    let end = MarkerSite {
        call: Rva(u32::MAX),
        next: Rva(0),
        load: None,
        static_marker: true,
    };
    assert_eq!(
        reason(end_patch(end)),
        "static SDK End payload exceeds the PE address width"
    );
    let inverted = MarkerSite {
        call: Rva(0x1000),
        next: Rva(0xfff),
        load: None,
        static_marker: false,
    };
    assert_eq!(reason(end_patch(inverted)), "SDK End patch range is inverted");
}

#[test]
fn edits_are_written_in_order_up_to_the_first_failure() {
    let edits = || {
        vec![
            Edit::Jump {
                stub: Stub::spanning(Rva(0x1000), Rva(0x1010), 6),
                offset: Ok(1),
                last_offset: Ok(6),
            },
            Edit::End {
                patch: EndPatch::ApiSpan {
                    rva: Rva(0x1008),
                    length: 2,
                },
                offset: Ok(8),
            },
            Edit::Name {
                rva: Rva(0x2000),
                length: 3,
                offset: Ok(11),
            },
        ]
    };
    let mut data = vec![0x11u8; 16];
    assert_eq!(rewrite(&mut data, edits()), Ok(()));
    assert_eq!(
        data,
        [
            0x11, 0xe9, 0x0b, 0, 0, 0, 0x11, 0x11, 0x90, 0x90, 0x11, 0, 0, 0, 0x11, 0x11
        ]
    );
    let mut data = vec![0x11u8; 9];
    assert_eq!(
        reason(rewrite(&mut data, edits())),
        "SDK End patch is not file-backed"
    );
    assert_eq!(data, [0x11, 0xe9, 0x0b, 0, 0, 0, 0x11, 0x11, 0x11]);
    let unmapped = Edit::Name {
        rva: Rva(0x2000),
        length: 1,
        offset: Err(PeError::Image("unmapped".to_string())),
    };
    assert_eq!(
        rewrite(&mut data, vec![unmapped]),
        Err(EmitError::Pe(PeError::Image("unmapped".to_string())))
    );
}

#[test]
fn jumps_come_before_markers_and_names() {
    let stub = Stub::new(Rva(1), Rva(2));
    let patch = EndPatch::StaticPayload {
        rva: Rva(3),
        length: 4,
    };
    assert_eq!(
        plan_edits(&[stub], &[patch], &[(Rva(5), 6)]),
        [
            Planned::Jump(stub),
            Planned::End(patch),
            Planned::Name(Rva(5), 6)
        ]
    );
}

fn layout_reason(r: Result<(), PeError>) -> &'static str {
    match r {
        Err(PeError::UnsupportedRewriteLayout { reason }) => reason,
        _ => panic!("a refused layout is expected"),
    }
}

#[test]
fn a_stub_that_does_not_fit_is_refused_with_its_reason() {
    let data = &mut vec![0u8; 8];
    let short = Stub::spanning(Rva(0x1000), Rva(0x2000), 4);
    assert_eq!(
        layout_reason(short.write(0, 3, data)),
        "the protected entry span is shorter than a near jump"
    );
    let stub = Stub::new(Rva(0x1000), Rva(0x2000));
    assert_eq!(
        layout_reason(stub.write(4, 8, data)),
        "the entry of a protected function is not backed by file bytes"
    );
    assert_eq!(
        layout_reason(stub.write(0, 5, data)),
        "the protected entry span is not contiguous in the file"
    );
    assert_eq!(
        layout_reason(Stub::new(Rva(0), Rva(0xf000_0000)).write(0, 4, data)),
        "the mutated copy is out of reach of a near jump from the original entry"
    );
    assert_eq!(
        layout_reason(Stub::new(Rva(u32::MAX - 4), Rva(0)).write(0, 4, data)),
        "a protected function ends at the top of the address space"
    );
    assert_eq!(
        layout_reason(Stub::new(Rva(u32::MAX - 3), Rva(0)).write(0, 4, data)),
        "the protected entry span ends beyond the RVA address width"
    );
    assert_eq!(*data, [0u8; 8]);
}

fn image(bytes: &[u8]) -> Image {
    Image {
        base: 0x0040_0000,
        sections: vec![ImageSection {
            virtual_address: Rva(0x1000),
            executable: true,
            size_of_raw_data: bytes.len() as u32,
            bytes: bytes.to_vec(),
        }],
        mapped: vec![(Rva(0x1000), Rva(0x8000))],
    }
}

// lea rax, [rip+0x1000], at 0x1000: it refers to 0x2007
const LEA: [u8; 7] = [0x48, 0x8d, 0x05, 0x00, 0x10, 0x00, 0x00];

#[test]
fn references_are_found_outside_the_producers_of_marker_names() {
    let image = image(&LEA);
    let all = collect_image_references(&image, &[], &mut Memory::new()).expect("a sound image");
    assert!(all.contains(&Rva(0x2007)));
    assert_eq!(erasable_name_length(Rva(0x2000), 12, &all), 7);
    let others = collect_image_references(&image, &[Rva(0x1000)], &mut Memory::new())
        .expect("a sound image");
    assert!(!others.contains(&Rva(0x2007)));
    assert_eq!(
        marker_reference_extents(&image, &[Rva(0x1000)], &mut Memory::new()),
        Ok(vec![(Rva(0x1000), Rva(0x1007))])
    );
}

#[test]
fn immediate_moves_refer_to_addresses() {
    // mov ecx, 0x2000
    let relative = image(&[0xb9, 0x00, 0x20, 0x00, 0x00]);
    let found = collect_image_references(&relative, &[], &mut Memory::new()).expect("sound");
    assert!(found.contains(&Rva(0x2000)));
    // mov rcx, 0x402000, with the image at 0x400000
    let absolute = image(&[0x48, 0xb9, 0x00, 0x20, 0x40, 0, 0, 0, 0, 0]);
    let found = collect_image_references(&absolute, &[], &mut Memory::new()).expect("sound");
    assert!(found.contains(&Rva(0x2000)));
    assert_eq!(
        marker_reference_extents(&absolute, &[Rva(0x1000)], &mut Memory::new()),
        Ok(vec![(Rva(0x1000), Rva(0x100a))])
    );
}

#[test]
fn a_producer_must_be_mapped_and_supported() {
    let image = image(&[0xc3]);
    assert_eq!(
        failure(marker_reference_extents(&image, &[Rva(0x9000)], &mut Memory::new())),
        SdkFailure::NameProducerUnmapped {
            producer: Rva(0x9000)
        }
    );
    assert_eq!(
        failure(marker_reference_extents(&image, &[Rva(0x1000)], &mut Memory::new())),
        SdkFailure::NameProducerUnsupported {
            producer: Rva(0x1000)
        }
    );
}

#[test]
fn extents_are_merged_and_addresses_sorted() {
    assert_eq!(
        merge_extents(&[
            (Rva(20), Rva(30)),
            (Rva(1), Rva(5)),
            (Rva(5), Rva(9)),
            (Rva(25), Rva(26)),
        ]),
        [(Rva(1), Rva(9)), (Rva(20), Rva(30))]
    );
    assert_eq!(
        sorted_addresses(&[Rva(3), Rva(1), Rva(3), Rva(2)]),
        [Rva(1), Rva(2), Rva(3)]
    );
}

#[test]
fn names_are_erased_up_to_what_is_referred_to() {
    assert_eq!(
        names_to_erase(
            &[(Rva(0x3000), 4), (Rva(0x2000), 8), (Rva(0x2000), 8), (Rva(0x4000), 2)],
            &[Rva(0x2003), Rva(0x4000)]
        ),
        [(Rva(0x2000), 3), (Rva(0x3000), 4)]
    );
    assert_eq!(erasable_name_length(Rva(u32::MAX), 2, &[]), 0);
}

#[test]
fn room_is_granted_for_nothing_and_refused_beyond_the_address_width() {
    let mut memory = Memory::new();
    let mut items = vec![1u8, 2];
    assert!(memory.reserve(&mut items, 0));
    assert!(memory.reserve(&mut items, 100));
    assert!(!memory.reserve(&mut items, usize::MAX - 1));
    assert!(!memory.reserve(&mut items, usize::MAX));
    assert_eq!(items, [1, 2]);
}
