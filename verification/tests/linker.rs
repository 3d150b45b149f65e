use romhack::errors::LinkError;
use romhack::linker::link;
use romhack::symtab::SymbolTable;

fn be16(v: u16) -> [u8; 2] {
    v.to_be_bytes()
}

fn be32(v: u32) -> [u8; 4] {
    v.to_be_bytes()
}

/// A minimal big-endian 32-bit relocatable object: one code section with
/// two symbols and one self-relative branch fixup.
fn tiny_object() -> Vec<u8> {
    let mut o: Vec<u8> = Vec::new();
    // identification: 32-bit, big-endian, current version
    o.extend_from_slice(&[0x7F, b'E', b'L', b'F', 1, 2, 1, 0, 0, 0, 0, 0, 0, 0, 0, 0]);
    o.extend_from_slice(&be16(1)); // relocatable
    o.extend_from_slice(&be16(20)); // the target machine
    o.extend_from_slice(&be32(1)); // version
    o.extend_from_slice(&be32(0)); // entry
    o.extend_from_slice(&be32(0)); // program headers
    let code_off: u32 = 52;
    let rela_off: u32 = code_off + 8;
    let symtab_off: u32 = rela_off + 12;
    let strtab_off: u32 = symtab_off + 48;
    let strtab: &[u8] = b"\0init\0callee\0";
    let shstrtab_off: u32 = strtab_off + strtab.len() as u32;
    let shstrtab: &[u8] = b"\0.text\0.rela.text\0.symtab\0.strtab\0.shstrtab\0";
    let shoff: u32 = shstrtab_off + shstrtab.len() as u32;
    o.extend_from_slice(&be32(shoff));
    o.extend_from_slice(&be32(0)); // flags
    o.extend_from_slice(&be16(52)); // header size
    o.extend_from_slice(&be16(0)); // phentsize
    o.extend_from_slice(&be16(0)); // phnum
    o.extend_from_slice(&be16(40)); // shentsize
    o.extend_from_slice(&be16(6)); // shnum
    o.extend_from_slice(&be16(5)); // shstrndx
    assert_eq!(o.len(), 52);
    // code: `bl .` then `blr`
    o.extend_from_slice(&be32(0x48000001));
    o.extend_from_slice(&be32(0x4E800020));
    // one explicit-addend fixup: self-relative branch at offset 0 to symbol 2
    o.extend_from_slice(&be32(0)); // offset
    o.extend_from_slice(&be32((2 << 8) | 10)); // symbol and kind
    o.extend_from_slice(&be32(0)); // addend
    // symbols: null, init at 0, callee at 4, both global functions in section 1
    o.extend_from_slice(&[0u8; 16]);
    o.extend_from_slice(&be32(1)); // name "init"
    o.extend_from_slice(&be32(0));
    o.extend_from_slice(&be32(0));
    o.extend_from_slice(&[0x12, 0, 0, 1]);
    o.extend_from_slice(&be32(6)); // name "callee"
    o.extend_from_slice(&be32(4));
    o.extend_from_slice(&be32(0));
    o.extend_from_slice(&[0x12, 0, 0, 1]);
    o.extend_from_slice(strtab);
    o.extend_from_slice(shstrtab);
    assert_eq!(o.len(), shoff as usize);
    // section headers: null, .text, .rela.text, .symtab, .strtab, .shstrtab
    o.extend_from_slice(&[0u8; 40]);
    let mut shdr = |name: u32, typ: u32, flags: u32, off: u32, size: u32, link: u32, info: u32,
                    align: u32, entsize: u32| {
        let mut h: Vec<u8> = Vec::new();
        for v in [name, typ, flags, 0, off, size, link, info, align, entsize] {
            h.extend_from_slice(&be32(v));
        }
        h
    };
    let text_h = shdr(1, 1, 6, code_off, 8, 0, 0, 4, 0);
    let rela_h = shdr(7, 4, 0, rela_off, 12, 3, 1, 4, 12);
    let symtab_h = shdr(18, 2, 0, symtab_off, 48, 4, 1, 4, 16);
    let strtab_h = shdr(26, 3, 0, strtab_off, strtab.len() as u32, 0, 0, 1, 0);
    let shstr_h = shdr(34, 3, 0, shstrtab_off, shstrtab.len() as u32, 0, 0, 1, 0);
    for h in [text_h, rela_h, symtab_h, strtab_h, shstr_h] {
        o.extend_from_slice(&h);
    }
    o
}

/// Wraps one object into an archive.
fn tiny_archive(member: &[u8]) -> Vec<u8> {
    let mut a: Vec<u8> = Vec::new();
    a.extend_from_slice(b"!<arch>\n");
    let mut header = Vec::new();
    header.extend_from_slice(b"mod.o/          ");
    header.extend_from_slice(b"0           ");
    header.extend_from_slice(b"0     ");
    header.extend_from_slice(b"0     ");
    header.extend_from_slice(b"644     ");
    let size = format!("{:<10}", member.len());
    header.extend_from_slice(size.as_bytes());
    header.extend_from_slice(b"`\n");
    assert_eq!(header.len(), 60);
    a.extend_from_slice(&header);
    a.extend_from_slice(member);
    if a.len() % 2 == 1 {
        a.push(b'\n');
    }
    a
}

#[test]
fn linking_assigns_addresses_and_applies_relocations() {
    let archives = vec![tiny_archive(&tiny_object())];
    let known = SymbolTable::new();
    let linked = link(&archives, 0x80004000, &vec!["init".to_owned()], &known).unwrap();
    assert_eq!(linked.symbol_table.lookup("init"), Some(0x80004000));
    assert_eq!(linked.symbol_table.lookup("callee"), Some(0x80004004));
    assert_eq!(linked.sections.len(), 1);
    assert_eq!(linked.sections[0].address, 0x80004000);
    assert_eq!(linked.sections[0].len, 8);
    assert_eq!(linked.sections[0].section_name, ".text");
    assert_eq!(linked.sections[0].member_name, "mod.o");
    // the branch at the section start now reaches `callee`, four bytes on
    assert_eq!(linked.dol.text_sections.len(), 1);
    assert_eq!(linked.dol.text_sections[0].address, 0x80004000);
    assert_eq!(&linked.dol.text_sections[0].data[0..4], &[0x48, 0x00, 0x00, 0x05]);
    assert_eq!(linked.dol.entry_point, 0x80004000);
}

#[test]
fn identical_inputs_link_to_identical_results() {
    let archives = vec![tiny_archive(&tiny_object())];
    let known = SymbolTable::new();
    let entries = vec!["init".to_owned()];
    let l1 = link(&archives, 0x80004000, &entries, &known).unwrap();
    let l2 = link(&archives, 0x80004000, &entries, &known).unwrap();
    assert_eq!(l1.symbol_table.len(), l2.symbol_table.len());
    for i in 0..l1.symbol_table.len() {
        assert_eq!(l1.symbol_table.entry_at(i), l2.symbol_table.entry_at(i));
    }
    assert_eq!(l1.sections.len(), l2.sections.len());
    for i in 0..l1.sections.len() {
        assert_eq!(l1.sections[i].section_name, l2.sections[i].section_name);
        assert_eq!(l1.sections[i].address, l2.sections[i].address);
        assert_eq!(l1.sections[i].len, l2.sections[i].len);
    }
    assert_eq!(l1.dol.to_bytes().unwrap(), l2.dol.to_bytes().unwrap());
}

#[test]
fn entries_must_resolve_in_the_fresh_units() {
    let archives = vec![tiny_archive(&tiny_object())];
    let mut known = SymbolTable::new();
    known.insert_first_wins("start".to_owned(), 0x80001000);
    // `start` is in the game table, but in no freshly compiled unit
    let r = link(&archives, 0x80004000, &vec!["start".to_owned()], &known);
    match r {
        Err(LinkError::EntrySymbolNotFound(name)) => assert_eq!(name, "start"),
        _ => panic!("expected the missing-entry error"),
    }
}

#[test]
fn fresh_definitions_shadow_the_game_table() {
    let archives = vec![tiny_archive(&tiny_object())];
    let mut known = SymbolTable::new();
    known.insert_first_wins("callee".to_owned(), 0xDEAD0000);
    let linked = link(&archives, 0x80004000, &vec!["init".to_owned()], &known).unwrap();
    // the branch still reaches the freshly linked `callee`
    assert_eq!(&linked.dol.text_sections[0].data[0..4], &[0x48, 0x00, 0x00, 0x05]);
    assert_eq!(linked.symbol_table.lookup("callee"), Some(0x80004004));
}

/// A big-endian relocatable object with one data section and one
/// zero-fill section, and a global symbol in each.
fn data_object() -> Vec<u8> {
    let mut o: Vec<u8> = Vec::new();
    o.extend_from_slice(&[0x7F, b'E', b'L', b'F', 1, 2, 1, 0, 0, 0, 0, 0, 0, 0, 0, 0]);
    o.extend_from_slice(&be16(1));
    o.extend_from_slice(&be16(20));
    o.extend_from_slice(&be32(1));
    o.extend_from_slice(&be32(0));
    o.extend_from_slice(&be32(0));
    let data_off: u32 = 52;
    let symtab_off: u32 = data_off + 4;
    let strtab: &[u8] = b"\0table\0buffer\0";
    let strtab_off: u32 = symtab_off + 48;
    let shstrtab: &[u8] = b"\0.data\0.bss\0.symtab\0.strtab\0.shstrtab\0";
    let shstrtab_off: u32 = strtab_off + strtab.len() as u32;
    let shoff: u32 = shstrtab_off + shstrtab.len() as u32;
    o.extend_from_slice(&be32(shoff));
    o.extend_from_slice(&be32(0));
    o.extend_from_slice(&be16(52));
    o.extend_from_slice(&be16(0));
    o.extend_from_slice(&be16(0));
    o.extend_from_slice(&be16(40));
    o.extend_from_slice(&be16(6));
    o.extend_from_slice(&be16(5));
    o.extend_from_slice(&[0xCA, 0xFE, 0xBA, 0xBE]);
    o.extend_from_slice(&[0u8; 16]);
    o.extend_from_slice(&be32(1)); // "table" in .data
    o.extend_from_slice(&be32(0));
    o.extend_from_slice(&be32(0));
    o.extend_from_slice(&[0x11, 0, 0, 1]);
    o.extend_from_slice(&be32(7)); // "buffer" in .bss
    o.extend_from_slice(&be32(0));
    o.extend_from_slice(&be32(0));
    o.extend_from_slice(&[0x11, 0, 0, 2]);
    o.extend_from_slice(strtab);
    o.extend_from_slice(shstrtab);
    assert_eq!(o.len(), shoff as usize);
    o.extend_from_slice(&[0u8; 40]);
    let mut shdr = |name: u32, typ: u32, flags: u32, off: u32, size: u32, link: u32, info: u32,
                    align: u32, entsize: u32| {
        let mut h: Vec<u8> = Vec::new();
        for v in [name, typ, flags, 0, off, size, link, info, align, entsize] {
            h.extend_from_slice(&be32(v));
        }
        h
    };
    let data_h = shdr(1, 1, 3, data_off, 4, 0, 0, 4, 0);
    let bss_h = shdr(7, 8, 3, symtab_off, 8, 0, 0, 4, 0);
    let symtab_h = shdr(12, 2, 0, symtab_off, 48, 4, 1, 4, 16);
    let strtab_h = shdr(20, 3, 0, strtab_off, strtab.len() as u32, 0, 0, 1, 0);
    let shstr_h = shdr(28, 3, 0, shstrtab_off, shstrtab.len() as u32, 0, 0, 1, 0);
    for h in [data_h, bss_h, symtab_h, strtab_h, shstr_h] {
        o.extend_from_slice(&h);
    }
    o
}

#[test]
fn data_and_zero_fill_sections_are_laid_out_after_code() {
    let archives = vec![tiny_archive(&data_object())];
    let known = SymbolTable::new();
    let linked = link(&archives, 0x80004000, &Vec::new(), &known).unwrap();
    assert_eq!(linked.symbol_table.lookup("table"), Some(0x80004000));
    assert_eq!(linked.symbol_table.lookup("buffer"), Some(0x80004004));
    // no code: the data region starts at the base, the zero-fill region
    // is materialised as zero bytes right after it
    assert_eq!(linked.dol.text_sections.len(), 0);
    assert_eq!(linked.dol.data_sections.len(), 2);
    assert_eq!(linked.dol.data_sections[0].address, 0x80004000);
    assert_eq!(linked.dol.data_sections[0].data, vec![0xCA, 0xFE, 0xBA, 0xBE]);
    assert_eq!(linked.dol.data_sections[1].address, 0x80004004);
    assert_eq!(linked.dol.data_sections[1].data, vec![0u8; 8]);
    // the section list keeps layout order: data before zero-fill
    assert_eq!(linked.sections.len(), 2);
    assert_eq!(linked.sections[0].section_name, ".data");
    assert_eq!(linked.sections[1].section_name, ".bss");
}

/// The tiny object with its second symbol left undefined.
fn object_with_undefined_callee() -> Vec<u8> {
    let mut o = tiny_object();
    // the defining-section field of the `callee` symbol
    o[118] = 0;
    o[119] = 0;
    o
}

#[test]
fn unresolved_relocations_name_the_missing_symbol() {
    let archives = vec![tiny_archive(&object_with_undefined_callee())];
    let known = SymbolTable::new();
    let r = link(&archives, 0x80004000, &vec!["init".to_owned()], &known);
    match r {
        Err(LinkError::UndefinedSymbol(name)) => assert_eq!(name, "callee"),
        _ => panic!("expected the undefined-symbol error"),
    }
}

#[test]
fn undefined_symbols_fall_back_to_the_game_table() {
    let archives = vec![tiny_archive(&object_with_undefined_callee())];
    let mut known = SymbolTable::new();
    known.insert_first_wins("callee".to_owned(), 0x80005000);
    let linked = link(&archives, 0x80004000, &vec!["init".to_owned()], &known).unwrap();
    // the branch now reaches the pre-existing address, 0x1000 bytes on
    assert_eq!(&linked.dol.text_sections[0].data[0..4], &[0x48, 0x00, 0x10, 0x01]);
}

#[test]
fn unknown_relocation_kinds_are_never_skipped() {
    let mut object = tiny_object();
    // the relocation's kind byte
    object[67] = 99;
    let archives = vec![tiny_archive(&object)];
    let known = SymbolTable::new();
    let r = link(&archives, 0x80004000, &vec!["init".to_owned()], &known);
    assert!(matches!(r, Err(LinkError::UnsupportedRelocation(99))));
}

#[test]
fn layout_past_the_address_boundary_is_a_hard_error() {
    let archives = vec![tiny_archive(&tiny_object())];
    let known = SymbolTable::new();
    let r = link(&archives, 0xFFFF_FFFC, &vec!["init".to_owned()], &known);
    assert!(matches!(r, Err(LinkError::AddressOverflow)));
}

#[test]
fn garbage_archives_are_hard_errors() {
    let archives = vec![vec![1u8, 2, 3, 4]];
    let known = SymbolTable::new();
    let r = link(&archives, 0x80004000, &Vec::new(), &known);
    assert!(matches!(r, Err(LinkError::BadArchive)));
}
