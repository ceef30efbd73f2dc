//! Placing code: what is accepted and what is refused.

use vmp::emit::address::Rva;
use vmp::emit::code::{
    Architecture, BasicBlock, BlockId, CompileStage, Edge, EdgeKind, EdgeTarget, Epilogue, Function,
    MachineInstruction, RuntimeFunction, Terminator,
};
use vmp::emit::error::EmitError;
use vmp::emit::layout::{
    epilogues_kept_their_shape, prologue_has_valid_boundary, prologue_kept_its_layout,
};
use vmp::emit::markers::{end_patch, EndPatch, MarkerSite};
use vmp::emit::references::erasable_name_length;
use vmp::emit::region::{validate_region_entries, validate_register_marker_span};
use vmp::emit::relocated::Relocated;
use vmp::emit::sdk_run::code_offset;
use vmp::emit::stub::{Stub, STUB_LEN};
use vmp::emit::unwind::{
    chained_slice_unwind, validate_chain_frame_state, validate_chainable_unwind_info, UnwindInfo,
};

fn decode(rva: Rva, bytes: &[u8]) -> Vec<MachineInstruction> {
    let mut decoder = iced_x86::Decoder::with_ip(
        64,
        bytes,
        u64::from(rva.get()),
        iced_x86::DecoderOptions::NONE,
    );
    let mut instructions = Vec::new();
    while decoder.can_decode() {
        let raw = decoder.decode();
        let offset = usize::try_from(raw.ip() - u64::from(rva.get()))
            .expect("test instruction offset fits");
        instructions.push(MachineInstruction::decoded(
            Rva(u32::try_from(raw.ip()).expect("test RVA fits")),
            &bytes[offset..offset + raw.len()],
        ));
    }
    instructions
}

fn nop(rva: Rva) -> MachineInstruction {
    MachineInstruction::decoded(rva, &[0x90])
}

fn function(bytes: &[u8]) -> Function {
    let end = Rva(0x1000 + u32::try_from(bytes.len()).expect("small fixture"));
    Function {
        architecture: Architecture::X64,
        entry: Rva(0x1000),
        blocks: vec![BasicBlock {
            id: BlockId(0),
            start: Rva(0x1000),
            end,
            instructions: decode(Rva(0x1000), bytes),
            terminator: Terminator::Return,
            successors: Vec::new(),
            predecessors: Vec::new(),
        }],
        entry_block: BlockId(0),
        unwind: None,
        issues: Vec::new(),
        stage: CompileStage::Decoded,
    }
}

#[test]
fn a_prologue_rejects_a_shortened_final_instruction_extent() {
    let function = function(&[0xff, 0x15, 0, 0, 0, 0]);
    let relocated = Relocated {
        rva: Rva(0x2000),
        bytes: vec![0x90],
        moved: vec![(Rva(0x1000), Rva(0x2000))],
    };

    assert!(!prologue_kept_its_layout(
        &function,
        &relocated,
        Rva(0x1000),
        Rva(0x2000),
        6,
    ));
}

#[test]
fn a_prologue_boundary_inside_an_original_instruction_is_invalid() {
    let function = function(&[0xff, 0x15, 0, 0, 0, 0]);

    assert!(!prologue_has_valid_boundary(&function, Rva(0x1000), 1));
}

#[test]
fn an_epilogue_rejects_a_changed_final_instruction_extent() {
    let function = function(&[0xc3]);
    let relocated = Relocated {
        rva: Rva(0x2000),
        bytes: vec![0x66, 0xc3],
        moved: vec![(Rva(0x1000), Rva(0x2000))],
    };

    assert!(!epilogues_kept_their_shape(
        &function,
        &relocated,
        &[Epilogue {
            begin: Rva(0x1000),
            end: Rva(0x1001),
        }],
    ));
}

#[test]
fn an_epilogue_rejects_a_missing_instruction_mapping() {
    let function = function(&[0x48, 0x83, 0xc4, 0x20, 0xc3]);
    let relocated = Relocated {
        rva: Rva(0x2000),
        bytes: vec![0x48, 0x83, 0xc4, 0x20, 0xc3],
        moved: vec![(Rva(0x1000), Rva(0x2000))],
    };

    assert!(!epilogues_kept_their_shape(
        &function,
        &relocated,
        &[Epilogue {
            begin: Rva(0x1000),
            end: Rva(0x1005),
        }],
    ));
}

#[test]
fn an_epilogue_rejects_a_widened_gap_between_instructions() {
    let function = function(&[0x48, 0x83, 0xc4, 0x20, 0xc3]);
    let relocated = Relocated {
        rva: Rva(0x2000),
        bytes: vec![0x48, 0x83, 0xc4, 0x20, 0x90, 0xc3],
        moved: vec![(Rva(0x1000), Rva(0x2000)), (Rva(0x1004), Rva(0x2005))],
    };

    assert!(!epilogues_kept_their_shape(
        &function,
        &relocated,
        &[Epilogue {
            begin: Rva(0x1000),
            end: Rva(0x1005),
        }],
    ));
}

#[test]
fn an_unchanged_epilogue_keeps_its_shape() {
    let function = function(&[0x48, 0x83, 0xc4, 0x20, 0xc3]);
    let relocated = Relocated {
        rva: Rva(0x2000),
        bytes: vec![0x48, 0x83, 0xc4, 0x20, 0xc3],
        moved: vec![(Rva(0x1000), Rva(0x2000)), (Rva(0x1004), Rva(0x2004))],
    };

    assert!(epilogues_kept_their_shape(
        &function,
        &relocated,
        &[Epilogue {
            begin: Rva(0x1000),
            end: Rva(0x1005),
        }],
    ));
}

#[test]
fn an_epilogue_ignores_a_missing_mapping_after_its_range() {
    let function = function(&[0xc3, 0xeb, 0x00]);
    let relocated = Relocated {
        rva: Rva(0x2000),
        bytes: vec![0xc3, 0xe9, 0x00, 0x00, 0x00, 0x00],
        moved: vec![(Rva(0x1000), Rva(0x2000))],
    };

    assert!(epilogues_kept_their_shape(
        &function,
        &relocated,
        &[Epilogue {
            begin: Rva(0x1000),
            end: Rva(0x1001),
        }],
    ));
}

#[test]
fn code_offset_rejects_lengths_above_the_pe_address_width() {
    assert!(matches!(
        code_offset(usize::MAX, Rva(0x1000)),
        Err(EmitError::Layout {
            rva: Rva(0x1000),
            ..
        })
    ));
    assert!(matches!(
        code_offset(u32::MAX as usize, Rva(0x2000)),
        Err(EmitError::Layout {
            rva: Rva(0x2000),
            ..
        })
    ));
}

#[test]
fn region_validation_rejects_an_external_predecessor() {
    let function = Function {
        architecture: Architecture::X64,
        entry: Rva(0x1000),
        blocks: vec![
            BasicBlock {
                id: BlockId(0),
                start: Rva(0x1000),
                end: Rva(0x1001),
                instructions: vec![nop(Rva(0x1000))],
                terminator: Terminator::Jump,
                successors: Vec::new(),
                predecessors: Vec::new(),
            },
            BasicBlock {
                id: BlockId(1),
                start: Rva(0x2000),
                end: Rva(0x2001),
                instructions: vec![nop(Rva(0x2000))],
                terminator: Terminator::Return,
                successors: Vec::new(),
                predecessors: vec![BlockId(0), BlockId(2)],
            },
            BasicBlock {
                id: BlockId(2),
                start: Rva(0x3000),
                end: Rva(0x3001),
                instructions: vec![nop(Rva(0x3000))],
                terminator: Terminator::Jump,
                successors: Vec::new(),
                predecessors: Vec::new(),
            },
        ],
        entry_block: BlockId(0),
        unwind: None,
        issues: Vec::new(),
        stage: CompileStage::Decoded,
    };
    let error = validate_region_entries(&function, Rva(0x1000), Rva(0x2000), &[Rva(0x2000)], &[])
        .expect_err("the second predecessor bypasses the Begin marker");
    assert!(matches!(error, EmitError::SdkMarker(_)));
}

#[test]
fn region_validation_accepts_a_shared_complete_return_epilogue() {
    let function = Function {
        architecture: Architecture::X64,
        entry: Rva(0x1000),
        blocks: vec![
            BasicBlock {
                id: BlockId(0),
                start: Rva(0x1000),
                end: Rva(0x1002),
                instructions: vec![nop(Rva(0x1000)), nop(Rva(0x1001))],
                terminator: Terminator::Jump,
                successors: Vec::new(),
                predecessors: Vec::new(),
            },
            BasicBlock {
                id: BlockId(1),
                start: Rva(0x2000),
                end: Rva(0x2005),
                instructions: decode(Rva(0x2000), &[0x48, 0x83, 0xc4, 0x28, 0xc3]),
                terminator: Terminator::Return,
                successors: Vec::new(),
                predecessors: vec![BlockId(0), BlockId(2)],
            },
            BasicBlock {
                id: BlockId(2),
                start: Rva(0x3000),
                end: Rva(0x3001),
                instructions: vec![nop(Rva(0x3000))],
                terminator: Terminator::Jump,
                successors: Vec::new(),
                predecessors: Vec::new(),
            },
        ],
        entry_block: BlockId(0),
        unwind: None,
        issues: Vec::new(),
        stage: CompileStage::Decoded,
    };

    validate_region_entries(
        &function,
        Rva(0x1000),
        Rva(0x1001),
        &[Rva(0x1001), Rva(0x2000), Rva(0x2004)],
        &[Epilogue {
            begin: Rva(0x2000),
            end: Rva(0x2005),
        }],
    )
    .expect("a complete shared return epilogue remains safe for external predecessors");
}

#[test]
fn region_validation_rejects_a_continuation_backedge() {
    let mut function = Function {
        architecture: Architecture::X64,
        entry: Rva(0x1000),
        blocks: vec![
            BasicBlock {
                id: BlockId(0),
                start: Rva(0x1000),
                end: Rva(0x1001),
                instructions: vec![nop(Rva(0x1000))],
                terminator: Terminator::FallThrough,
                successors: vec![Edge {
                    kind: EdgeKind::FallThrough,
                    target: EdgeTarget::Block(BlockId(1)),
                }],
                predecessors: Vec::new(),
            },
            BasicBlock {
                id: BlockId(1),
                start: Rva(0x2000),
                end: Rva(0x2001),
                instructions: vec![nop(Rva(0x2000))],
                terminator: Terminator::Return,
                successors: Vec::new(),
                predecessors: vec![BlockId(0), BlockId(2)],
            },
            BasicBlock {
                id: BlockId(2),
                start: Rva(0x3000),
                end: Rva(0x3001),
                instructions: vec![nop(Rva(0x3000))],
                terminator: Terminator::Jump,
                successors: vec![Edge {
                    kind: EdgeKind::Jump,
                    target: EdgeTarget::Block(BlockId(1)),
                }],
                predecessors: Vec::new(),
            },
        ],
        entry_block: BlockId(0),
        unwind: None,
        issues: Vec::new(),
        stage: CompileStage::Decoded,
    };
    function.blocks[0].instructions.push(nop(Rva(0x1001)));
    let error = validate_region_entries(&function, Rva(0x1000), Rva(0x2000), &[Rva(0x2000)], &[])
        .expect_err("an End continuation must not re-enter selected code");
    assert!(matches!(error, EmitError::SdkMarker(_)));
}

#[test]
fn register_marker_span_rejects_an_interior_block_entry() {
    let function = Function {
        architecture: Architecture::X64,
        entry: Rva(0x1000),
        blocks: vec![
            BasicBlock {
                id: BlockId(0),
                start: Rva(0x1000),
                end: Rva(0x1001),
                instructions: vec![nop(Rva(0x1000))],
                terminator: Terminator::FallThrough,
                successors: Vec::new(),
                predecessors: Vec::new(),
            },
            BasicBlock {
                id: BlockId(1),
                start: Rva(0x1001),
                end: Rva(0x1002),
                instructions: vec![nop(Rva(0x1001))],
                terminator: Terminator::Return,
                successors: Vec::new(),
                predecessors: vec![BlockId(0), BlockId(2)],
            },
        ],
        entry_block: BlockId(0),
        unwind: None,
        issues: Vec::new(),
        stage: CompileStage::Decoded,
    };
    let error = validate_register_marker_span(&function, Rva(0x1000), Rva(0x1001))
        .expect_err("the call is a separately addressable block entry");
    assert!(matches!(error, EmitError::SdkMarker(_)));
}

#[test]
fn version_two_unwind_is_not_chainable_for_a_relocated_slice() {
    let mut unwind = UnwindInfo::leaf();
    unwind.version = 2;
    let error = validate_chainable_unwind_info(&unwind)
        .expect_err("version-two epilogue metadata is location-dependent");
    assert!(matches!(error, EmitError::SdkMarker(_)));
}

#[test]
fn chained_slice_unwind_preserves_the_original_frame_state() {
    let mut original = UnwindInfo::leaf();
    original.frame_register = 5;
    original.frame_offset = 3;
    let runtime = RuntimeFunction {
        begin: Rva(0x1000),
        end: Rva(0x1100),
        unwind_info: Rva(0x2000),
    };
    let chained = chained_slice_unwind(&original, runtime);
    assert_eq!(chained.frame_register, 5);
    assert_eq!(chained.frame_offset, 3);
    assert_eq!(chained.chained, Some(runtime));
}

#[test]
fn cpp_marker_name_erasure_stops_at_an_interior_reference() {
    assert_eq!(erasable_name_length(Rva(0x2000), 13, &[Rva(0x2006)]), 6);
}

#[test]
fn cpp_marker_name_erasure_is_suppressed_by_an_ordinary_start_reference() {
    assert_eq!(erasable_name_length(Rva(0x2000), 13, &[Rva(0x2000)]), 0);
}

#[test]
fn cpp_marker_name_erasure_keeps_the_full_unshared_extent() {
    assert_eq!(erasable_name_length(Rva(0x2000), 13, &[]), 13);
}

#[test]
fn chained_unwind_rejects_a_frame_state_mismatch() {
    let mut current = UnwindInfo::leaf();
    current.frame_register = 5;
    current.frame_offset = 3;
    let target = UnwindInfo::leaf();
    let error = validate_chain_frame_state(&current, &target)
        .expect_err("one established frame must be consistent across the chain");
    assert!(matches!(error, EmitError::SdkMarker(_)));
}

#[test]
fn register_end_patch_preserves_the_iat_load_and_neutralizes_only_the_call() {
    assert_eq!(
        end_patch(MarkerSite {
            load: Some(Rva(0x1000)),
            call: Rva(0x1007),
            next: Rva(0x1009),
            static_marker: false,
        })
        .expect("valid End patch"),
        EndPatch::ApiSpan {
            rva: Rva(0x1007),
            length: 2,
        }
    );
}

#[test]
fn a_forward_jump_encodes_its_displacement() {
    // 0x1000 -> 0x2000 is +0x1000 from the address after the jump
    let stub = Stub::new(Rva(0x1000), Rva(0x2000));
    let displacement = i64::from(stub.to.get()) - i64::from(stub.from.get() + STUB_LEN);
    assert_eq!(displacement, 0x0ffb);
    let mut data = vec![0u8; 8];
    stub.write(0, 4, &mut data).expect("the jump fits");
    assert_eq!(data, [0xe9, 0xfb, 0x0f, 0, 0, 0, 0, 0]);
}

#[test]
fn a_backward_jump_encodes_a_negative_displacement() {
    let stub = Stub::new(Rva(0x2000), Rva(0x1000));
    let displacement = i64::from(stub.to.get()) - i64::from(stub.from.get() + STUB_LEN);
    assert_eq!(displacement, -0x1005);
    let mut data = vec![0u8; 8];
    stub.write(0, 4, &mut data).expect("the jump fits");
    assert_eq!(data, [0xe9, 0xfb, 0xef, 0xff, 0xff, 0, 0, 0]);
}
