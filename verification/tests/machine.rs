//! Placing instances of the virtual machine, and the probe.

use vmp::emit::address::Rva;
use vmp::emit::code::{Architecture, RuntimeFunction};
use vmp::emit::error::PeError;
use vmp::emit::vm::{
    check_architecture, check_leaf_return, check_leaf_source, instance_links, leaf_return,
    matches_image, placement_address, CodedRange, Fixup, FixupKind, InstanceUnwind, LeafImage,
    LeafSource, NativeInstance, OffsetRange, SectionRange, VmEmbeddingError, VmPeArtifact,
    VmPlacement, VmPlacementError,
};
use vmp::probe::{accumulate, transform};

fn instance(unwind: Option<InstanceUnwind>) -> NativeInstance {
    NativeInstance {
        image: vec![0xaa; 5],
        entry_offset: 2,
        absolute_address_offsets: vec![1, 3],
        unwind,
    }
}

fn coded(start: usize, end: usize, codes: &[u8]) -> CodedRange {
    CodedRange {
        range: OffsetRange { start, end },
        codes: codes.to_vec(),
    }
}

#[test]
fn an_instance_is_placed_at_an_aligned_base() {
    assert_eq!(placement_address(0x1_4000_0000, Rva(0x2000)), Ok(0x1_4000_2000));
    assert_eq!(
        placement_address(0x1_4000_1000, Rva(0x2000)),
        Err(VmPlacementError::ImageBaseAlignment)
    );
    assert_eq!(
        placement_address(0xffff_ffff_ffff_0000, Rva(0x10000)),
        Err(VmPlacementError::AddressOverflow)
    );
}

#[test]
fn an_instance_keeps_its_bytes_entry_and_fixups() {
    let placement = VmPlacement::generate(Ok(instance(None)), 0x1_4000_0000, Rva(0x2000), Ok(()))
        .expect("the instance fits");
    assert_eq!(placement.image(), [0xaa; 5]);
    assert_eq!(placement.rva(), Rva(0x2000));
    assert_eq!(placement.entry_rva(), Rva(0x2002));
    assert_eq!(
        placement.relocations(),
        [
            Fixup {
                rva: Rva(0x2001),
                kind: FixupKind::Dir64
            },
            Fixup {
                rva: Rva(0x2003),
                kind: FixupKind::Dir64
            },
        ]
    );
    assert!(placement.functions().is_empty());
    let links = instance_links(&instance(None), Rva(0x2000)).expect("the instance fits");
    assert_eq!(links.entry, Rva(0x2002));
    assert!(links.complete);
    let artifact = VmPeArtifact::new(vec![1, 2, 3], placement);
    assert_eq!(artifact.bytes(), [1, 2, 3]);
    assert_eq!(artifact.placement().entry_rva(), Rva(0x2002));
    assert_eq!(artifact.into_bytes(), [1, 2, 3]);
}

#[test]
fn unwind_information_stands_behind_an_instance() {
    let unwind = InstanceUnwind {
        processor: vec![coded(0, 1, &[1, 1]), coded(1, 2, &[2])],
        handler: OffsetRange { start: 3, end: 4 },
        shifted_handler: 4,
        entry: coded(2, 3, &[7, 7]),
        exit: vec![coded(4, 5, &[9])],
        empty_ret: 1,
    };
    let placement =
        VmPlacement::generate(Ok(instance(Some(unwind))), 0x1_4000_0000, Rva(0x2000), Ok(()))
            .expect("the instance fits");
    assert_eq!(
        placement.image(),
        [
            0xaa, 0xaa, 0xaa, 0xaa, 0xaa, 0, 0, 0, // the instance and its padding
            1, 1, 0x03, 0x20, 0, 0, 0, 0, 0, 0, // the first part and its handler
            2, 0x04, 0x20, 0, 0, 0, 0, 0, 0, // the second part and its handler
            7, 7, // the way in
            9, // the way out
            1, 0, 0, 0, 0, 0, 0, 0, // nothing to unwind
        ]
    );
    let function = |begin: u32, end: u32, unwind_info: u32| RuntimeFunction {
        begin: Rva(begin),
        end: Rva(end),
        unwind_info: Rva(unwind_info),
    };
    assert_eq!(
        placement.functions(),
        [
            function(0x2000, 0x2001, 0x2008),
            function(0x2001, 0x2002, 0x2012),
            function(0x2002, 0x2003, 0x201b),
            function(0x2004, 0x2005, 0x201d),
            function(0x2001, 0x2002, 0x201e),
            function(0x2003, 0x2004, 0x201e),
        ]
    );
}

#[test]
fn an_instance_that_does_not_fit_is_refused() {
    let place = |generated, rva, inserted| {
        VmPlacement::generate(generated, 0x1_4000_0000, rva, inserted).map(|_| ())
    };
    assert_eq!(
        place(Err("generator".to_string()), Rva(0), Ok(())),
        Err(VmPlacementError::Instance("generator".to_string()))
    );
    assert_eq!(
        place(Ok(instance(None)), Rva(u32::MAX - 4), Ok(())),
        Err(VmPlacementError::RvaOverflow)
    );
    assert_eq!(
        place(Ok(instance(None)), Rva(0), Err(PeError::Image("twice".to_string()))),
        Err(VmPlacementError::Relocations(PeError::Image("twice".to_string())))
    );
    let mut far = instance(None);
    far.absolute_address_offsets.push(usize::MAX);
    let links = instance_links(&far, Rva(0)).expect("the image and the entry fit");
    assert_eq!(links.fixups.len(), 2);
    assert!(!links.complete);
    assert_eq!(place(Ok(far), Rva(0), Ok(())), Err(VmPlacementError::RvaOverflow));
    let mut far = instance(None);
    far.absolute_address_offsets.push(usize::MAX);
    // the table refused a fixup in front of the address that does not fit
    assert_eq!(
        place(Ok(far), Rva(0), Err(PeError::Image("twice".to_string()))),
        Err(VmPlacementError::Relocations(PeError::Image("twice".to_string())))
    );
}

fn source(bytes: &[u8], ip: u64) -> LeafSource {
    let raw =
        iced_x86::Decoder::with_ip(64, bytes, ip, iced_x86::DecoderOptions::NONE).decode();
    LeafSource {
        rva: Some(Rva(0x1000)),
        bytes: bytes.to_vec(),
        ip,
        len: raw.len() as u8,
        raw,
    }
}

fn leaf_image() -> LeafImage {
    LeafImage {
        image_base: 0x40_0000,
        sections: vec![SectionRange {
            characteristics: 0x6000_0020,
            virtual_address: Rva(0x1000),
            virtual_size: 0x100,
        }],
        functions: Vec::new(),
    }
}

// xor eax, eax
const XOR: [u8; 2] = [0x31, 0xc0];

#[test]
fn the_source_of_a_leaf_matches_the_image() {
    let good = source(&XOR, 0x40_1000);
    assert_eq!(check_leaf_source(&good, Ok(XOR.to_vec()), &leaf_image()), Ok(()));
    // xor ecx, ecx is another instruction
    assert_eq!(
        check_leaf_source(&good, Ok(vec![0x31, 0xc9]), &leaf_image()),
        Err(VmEmbeddingError::LeafSource)
    );
    let mut other = source(&[0x31, 0xc9], 0x40_1000);
    other.bytes = XOR.to_vec();
    assert_eq!(
        check_leaf_source(&other, Ok(XOR.to_vec()), &leaf_image()),
        Err(VmEmbeddingError::LeafSource)
    );
    let moved = source(&XOR, 0x40_2000);
    assert_eq!(
        check_leaf_source(&moved, Ok(XOR.to_vec()), &leaf_image()),
        Err(VmEmbeddingError::LeafSource)
    );
    let mut nowhere = source(&XOR, 0x40_1000);
    nowhere.rva = None;
    assert_eq!(
        check_leaf_source(&nowhere, Ok(XOR.to_vec()), &leaf_image()),
        Err(VmEmbeddingError::LeafSource)
    );
    assert_eq!(
        check_leaf_source(&good, Err(PeError::Image("hole".to_string())), &leaf_image()),
        Err(VmEmbeddingError::Pe(PeError::Image("hole".to_string())))
    );
}

#[test]
fn the_source_of_a_leaf_is_code_without_unwind_information() {
    let good = source(&XOR, 0x40_1000);
    let mut data = leaf_image();
    data.sections[0].characteristics = 0x4000_0040;
    assert_eq!(
        check_leaf_source(&good, Ok(XOR.to_vec()), &data),
        Err(VmEmbeddingError::LeafSource)
    );
    let mut small = leaf_image();
    small.sections[0].virtual_size = 1;
    assert_eq!(
        check_leaf_source(&good, Ok(XOR.to_vec()), &small),
        Err(VmEmbeddingError::LeafSource)
    );
    let mut described = leaf_image();
    described.functions.push(RuntimeFunction {
        begin: Rva(0x1001),
        end: Rva(0x1010),
        unwind_info: Rva(0x3000),
    });
    assert_eq!(
        check_leaf_source(&good, Ok(XOR.to_vec()), &described),
        Err(VmEmbeddingError::LeafSource)
    );
    assert!(matches_image(&good, Rva(0x1000), &XOR, false, true, &leaf_image()));
    assert!(!matches_image(&good, Rva(0x1000), &XOR, true, true, &leaf_image()));
    assert!(!matches_image(&good, Rva(0x1000), &XOR, false, false, &leaf_image()));
}

#[test]
fn a_leaf_ends_in_a_return() {
    assert_eq!(leaf_return(&[source(&XOR, 0x40_1000)]), Ok(Rva(0x1002)));
    assert_eq!(leaf_return(&[]), Err(VmEmbeddingError::LeafSource));
    let mut high = source(&XOR, 0x40_1000);
    high.rva = Some(Rva(u32::MAX));
    assert_eq!(leaf_return(&[high]), Err(VmEmbeddingError::LeafSource));
    assert_eq!(check_leaf_return(Ok(vec![0xc3])), Ok(()));
    assert_eq!(check_leaf_return(Ok(vec![0xc2])), Err(VmEmbeddingError::LeafSource));
    assert_eq!(check_leaf_return(Ok(Vec::new())), Err(VmEmbeddingError::LeafSource));
    assert_eq!(
        check_leaf_return(Err(PeError::Image("hole".to_string()))),
        Err(VmEmbeddingError::Pe(PeError::Image("hole".to_string())))
    );
}

#[test]
fn instances_go_into_64_bit_images() {
    assert_eq!(check_architecture(Architecture::X64), Ok(()));
    assert_eq!(
        check_architecture(Architecture::X86),
        Err(VmEmbeddingError::Architecture)
    );
}

#[test]
fn the_probe_computes_its_numbers() {
    assert_eq!(accumulate(&[2, 3, 5, 7, 11, 13]), 87);
    assert_eq!(accumulate(&[13, 5, 2, 11, 3, 7]), 87);
    assert_eq!(accumulate(&[]), 0);
    assert_eq!(accumulate(&[u32::MAX, 1]), u32::MAX - 1);
    assert_eq!(transform(87), 1205323519);
}
