use romhack::errors::MapError;
use romhack::framework_map::{create, parse};
use romhack::linker::LinkedSection;
use romhack::objects::SectionKind;

fn section(name: &str, kind: SectionKind, address: u32, len: u32, member: &str) -> LinkedSection {
    LinkedSection {
        section_name: name.to_owned(),
        kind,
        address,
        len,
        sym_offset: 0,
        member_name: member.to_owned(),
    }
}

#[test]
fn matching_rows_are_read_into_the_table() {
    let text = b"  00000000 000100 80003100  4 main \tmain.o\n";
    let t = parse(text).unwrap();
    assert_eq!(t.lookup("main"), Some(0x80003100));
}

#[test]
fn non_matching_lines_are_silently_ignored() {
    let text = b"stray line\n  00000000 000100 80003100  4 main \tmain.o\nanother stray\n";
    let t = parse(text).unwrap();
    assert_eq!(t.lookup("main"), Some(0x80003100));
    assert_eq!(t.lookup("stray"), None);
}

#[test]
fn corrupt_address_field_fails_the_whole_parse() {
    let text = b"  00000000 000100 80zz3100  4 main \tmain.o\n";
    let r = parse(text);
    assert!(matches!(r, Err(MapError::BadAddress(_))));
}

#[test]
fn section_markers_are_skipped() {
    let text = b"  00000000 000100 80003100  4 .text \tmain.o\n";
    let t = parse(text).unwrap();
    assert_eq!(t.len(), 0);
}

#[test]
fn later_rows_overwrite_earlier_ones() {
    let text = b"  00000000 000100 80003100  4 f \ta.o\n  00000000 000100 80003200  4 f \tb.o\n";
    let t = parse(text).unwrap();
    assert_eq!(t.lookup("f"), Some(0x80003200));
}

#[test]
fn matched_names_go_through_the_legacy_demangler() {
    let text = b"  00000000 000100 80003100  4 draw__7JKRScrnFv \tscrn.o\n";
    let t = parse(text).unwrap();
    assert_eq!(t.lookup("JKRScrn::draw"), Some(0x80003100));
    assert_eq!(t.lookup("draw__7JKRScrnFv"), None);
}

#[test]
fn writer_emits_the_header_and_one_row_per_section() {
    let secs = vec![section("main", SectionKind::DataSection, 0x80003100, 0x100, "main.o")];
    let out = create(&secs, None).unwrap();
    assert_eq!(
        out,
        ".text section layout\n  00000000 000100 80003100  4 main \tmain.o\n"
    );
}

#[test]
fn writer_widens_the_length_field_when_it_must() {
    let secs = vec![section("big", SectionKind::DataSection, 0x80003100, 0x1234567, "big.o")];
    let out = create(&secs, None).unwrap();
    assert!(out.contains(" 1234567 "));
}

#[test]
fn compiled_code_sections_are_demangled_with_the_new_scheme() {
    let secs = vec![
        section(".text._ZN4main4mainE", SectionKind::TextSection, 0x80003000, 0x40, "mod.o"),
    ];
    let out = create(&secs, None).unwrap();
    // the raw mangled name never appears; its demangling does
    assert!(out.contains("main::main"));
    assert!(!out.contains("_ZN4main4mainE"));
}

#[test]
fn written_rows_read_back_with_the_same_address() {
    let secs = vec![
        section("gadget", SectionKind::DataSection, 0x80003100, 0x100, "main.o"),
        section("widget", SectionKind::DataSection, 0x80004000, 0x80, "other.o"),
    ];
    let out = create(&secs, None).unwrap();
    let t = parse(out.as_bytes()).unwrap();
    assert_eq!(t.lookup("gadget"), Some(0x80003100));
    assert_eq!(t.lookup("widget"), Some(0x80004000));
}

#[test]
fn sym_offset_shifts_the_written_address() {
    let mut s = section("shifted", SectionKind::DataSection, 0x80003000, 0x100, "m.o");
    s.sym_offset = 0x20;
    let out = create(&vec![s], None).unwrap();
    let t = parse(out.as_bytes()).unwrap();
    assert_eq!(t.lookup("shifted"), Some(0x80003020));
}

#[test]
fn appended_legacy_map_is_redemangled_below_one_blank_line() {
    let secs = vec![section("main", SectionKind::DataSection, 0x80003100, 0x100, "main.o")];
    let legacy = b"  4 draw__7JKRScrnFv  rest\n".to_vec();
    let out = create(&secs, Some(&legacy)).unwrap();
    assert_eq!(
        out,
        ".text section layout\n  00000000 000100 80003100  4 main \tmain.o\n\n  4 JKRScrn::draw  rest\n"
    );
}

#[test]
fn invalid_text_fails_the_reader() {
    let bad = vec![0xFFu8, 0xFE, 0x00];
    let r = parse(&bad);
    assert!(matches!(r, Err(MapError::InvalidUtf8)));
}

#[test]
fn invalid_text_in_the_legacy_map_is_an_error() {
    let secs = Vec::new();
    let bad = vec![0xFFu8, 0xFE];
    let r = create(&secs, Some(&bad));
    assert!(matches!(r, Err(MapError::InvalidUtf8)));
}
