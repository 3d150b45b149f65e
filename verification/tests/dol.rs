use romhack::assembler::Instruction;
use romhack::dol::{patch_instructions, DolFile, DolSection};
use romhack::errors::PatchError;

fn sample() -> DolFile {
    DolFile {
        text_sections: vec![DolSection { address: 0x80003000, data: vec![0u8; 16] }],
        data_sections: vec![DolSection { address: 0x80010000, data: vec![0xAAu8; 8] }],
        bss_address: 0x80020000,
        bss_size: 0x100,
        entry_point: 0x80003000,
    }
}

#[test]
fn container_bytes_round_trip_through_the_parser() {
    let bytes = sample().to_bytes().unwrap();
    let back = DolFile::parse(&bytes).unwrap();
    assert_eq!(back.text_sections.len(), 1);
    assert_eq!(back.text_sections[0].address, 0x80003000);
    assert_eq!(back.text_sections[0].data, vec![0u8; 16]);
    assert_eq!(back.data_sections.len(), 1);
    assert_eq!(back.data_sections[0].data, vec![0xAAu8; 8]);
    assert_eq!(back.bss_address, 0x80020000);
    assert_eq!(back.bss_size, 0x100);
    assert_eq!(back.entry_point, 0x80003000);
}

#[test]
fn header_layout_is_bit_exact() {
    let bytes = sample().to_bytes().unwrap();
    assert_eq!(bytes.len(), 0x100 + 16 + 8);
    // first text offset: right after the 0x100-byte header
    assert_eq!(&bytes[0x00..0x04], &[0x00, 0x00, 0x01, 0x00]);
    // first data offset: after the text region
    assert_eq!(&bytes[0x1C..0x20], &[0x00, 0x00, 0x01, 0x10]);
    // load addresses
    assert_eq!(&bytes[0x48..0x4C], &[0x80, 0x00, 0x30, 0x00]);
    assert_eq!(&bytes[0x64..0x68], &[0x80, 0x01, 0x00, 0x00]);
    // sizes
    assert_eq!(&bytes[0x90..0x94], &[0x00, 0x00, 0x00, 0x10]);
    assert_eq!(&bytes[0xAC..0xB0], &[0x00, 0x00, 0x00, 0x08]);
    // zero-fill bookkeeping and entry
    assert_eq!(&bytes[0xD8..0xDC], &[0x80, 0x02, 0x00, 0x00]);
    assert_eq!(&bytes[0xDC..0xE0], &[0x00, 0x00, 0x01, 0x00]);
    assert_eq!(&bytes[0xE0..0xE4], &[0x80, 0x00, 0x30, 0x00]);
}

#[test]
fn append_then_patch_inside_the_new_region_succeeds() {
    let mut original = sample();
    let appended = DolFile {
        text_sections: vec![DolSection { address: 0x80100000, data: vec![0u8; 8] }],
        data_sections: Vec::new(),
        bss_address: 0,
        bss_size: 0,
        entry_point: 0,
    };
    original.append(appended);
    let patch = [Instruction { address: 0x80100004, data: 0x60000000 }];
    assert!(original.patch(&patch).is_ok());
    let bytes = original.to_bytes().unwrap();
    // the appended region's bytes follow the original text region
    let appended_start = 0x100 + 16;
    assert_eq!(
        &bytes[appended_start + 4..appended_start + 8],
        &[0x60, 0x00, 0x00, 0x00]
    );
}

#[test]
fn patch_outside_every_region_is_a_hard_error() {
    let mut original = sample();
    let patch = [Instruction { address: 0x90000000, data: 0 }];
    let r = original.patch(&patch);
    assert!(matches!(r, Err(PatchError::AddressNotMapped(0x90000000))));
}

#[test]
fn patch_overwrites_the_word_big_endian() {
    let mut original = sample();
    let patch = [Instruction { address: 0x80003008, data: 0x1234ABCD }];
    original.patch(&patch).unwrap();
    assert_eq!(&original.text_sections[0].data[8..12], &[0x12, 0x34, 0xAB, 0xCD]);
}

#[test]
fn patch_instructions_merges_patches_and_serialises() {
    let original = sample();
    let appended = DolFile {
        text_sections: vec![DolSection { address: 0x80100000, data: vec![0u8; 8] }],
        data_sections: Vec::new(),
        bss_address: 0,
        bss_size: 0,
        entry_point: 0,
    };
    let hook = [Instruction { address: 0x80003000, data: 0x48000005 }];
    let bytes = patch_instructions(original, appended, &hook).unwrap();
    // the hooked word in the original region
    assert_eq!(&bytes[0x100..0x104], &[0x48, 0x00, 0x00, 0x05]);
    // both containers' regions are present
    let merged = DolFile::parse(&bytes).unwrap();
    assert_eq!(merged.text_sections.len(), 2);
}

#[test]
fn more_regions_than_the_header_holds_cannot_be_written() {
    let mut d = sample();
    for i in 0..7 {
        d.text_sections.push(DolSection { address: 0x81000000 + i * 0x100, data: vec![0u8; 4] });
    }
    assert!(matches!(d.to_bytes(), Err(PatchError::TooManyRegions)));
}

#[test]
fn truncated_containers_fail_to_parse() {
    let r = DolFile::parse(&vec![0u8; 0x40]);
    assert!(matches!(r, Err(PatchError::BadContainer)));
}
