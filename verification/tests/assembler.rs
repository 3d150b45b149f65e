use romhack::assembler::Assembler;
use romhack::errors::AsmError;
use romhack::symtab::SymbolTable;

fn fresh_with(entries: &[(&str, u32)]) -> SymbolTable {
    let mut t = SymbolTable::new();
    for (name, addr) in entries {
        t.insert_first_wins((*name).to_owned(), *addr);
    }
    t
}

#[test]
fn nop_always_encodes_to_the_fixed_word() {
    let known = SymbolTable::new();
    let mut assembler = Assembler::new(SymbolTable::new(), &known);
    let out = assembler.assemble_all_lines(&["nop"]).unwrap();
    assert_eq!(out.len(), 1);
    assert_eq!(out[0].address, 0);
    assert_eq!(out[0].data, 0x60000000);
}

#[test]
fn bl_at_known_pc_encodes_relative_branch_with_link() {
    let fresh = fresh_with(&[("foo", 0x80002000)]);
    let known = SymbolTable::new();
    let mut assembler = Assembler::new(fresh, &known);
    let out = assembler.assemble_all_lines(&["0x80001000:", "bl foo"]).unwrap();
    assert_eq!(out.len(), 1);
    assert_eq!(out[0].address, 0x80001000);
    assert_eq!(out[0].data, 0x48001001);
}

#[test]
fn plain_branch_clears_the_link_bit() {
    let fresh = fresh_with(&[("foo", 0x80001010)]);
    let known = SymbolTable::new();
    let mut assembler = Assembler::new(fresh, &known);
    let out = assembler.assemble_all_lines(&["0x80001000:", "b foo"]).unwrap();
    assert_eq!(out[0].data, 0x48000010);
}

#[test]
fn lis_encodes_register_and_immediate() {
    let known = SymbolTable::new();
    let mut assembler = Assembler::new(SymbolTable::new(), &known);
    let out = assembler.assemble_all_lines(&["lis r3, 0x1234"]).unwrap();
    assert_eq!(out[0].data, 0x3C601234);
}

#[test]
fn label_expression_evaluates_left_to_right_modulo_word() {
    let fresh = fresh_with(&[("sym", 0x8)]);
    let known = SymbolTable::new();
    let mut assembler = Assembler::new(fresh, &known);
    let out = assembler.assemble_all_lines(&["0x10+0x20-[sym]:", "nop"]).unwrap();
    assert_eq!(out[0].address, 0x28);
}

#[test]
fn label_expression_wraps_below_zero() {
    let known = SymbolTable::new();
    let mut assembler = Assembler::new(SymbolTable::new(), &known);
    let out = assembler.assemble_all_lines(&["0 - 4:", "nop"]).unwrap();
    assert_eq!(out[0].address, 0xFFFF_FFFC);
}

#[test]
fn grouping_of_terms_does_not_matter() {
    let known = SymbolTable::new();
    let mut a1 = Assembler::new(fresh_with(&[("c", 7)]), &known);
    let mut a2 = Assembler::new(fresh_with(&[("c", 7)]), &known);
    let o1 = a1.assemble_all_lines(&["1 + 2 - [c]:", "nop"]).unwrap();
    let o2 = a2.assemble_all_lines(&["2 - [c] + 1:", "nop"]).unwrap();
    assert_eq!(o1[0].address, o2[0].address);
    assert_eq!(o1[0].address, 1u32.wrapping_add(2).wrapping_sub(7));
}

#[test]
fn comments_and_blank_lines_do_not_advance_the_counter() {
    let known = SymbolTable::new();
    let mut assembler = Assembler::new(SymbolTable::new(), &known);
    let out = assembler
        .assemble_all_lines(&["; a comment", "", "   ", "nop ; trailing", "nop"])
        .unwrap();
    assert_eq!(out.len(), 2);
    assert_eq!(out[0].address, 0);
    assert_eq!(out[1].address, 4);
}

#[test]
fn u32_lines_emit_the_literal_verbatim() {
    let known = SymbolTable::new();
    let mut assembler = Assembler::new(SymbolTable::new(), &known);
    let out = assembler.assemble_all_lines(&["u32 0xDEAD_BEEF"]).unwrap();
    assert_eq!(out[0].data, 0xDEADBEEF);
}

#[test]
fn unknown_mnemonics_are_hard_errors_quoting_the_line() {
    let known = SymbolTable::new();
    let mut assembler = Assembler::new(SymbolTable::new(), &known);
    let r = assembler.assemble_all_lines(&["frobnicate r1"]);
    match r {
        Err(AsmError::UnknownInstruction(line)) => assert_eq!(line, "frobnicate r1"),
        _ => panic!("expected the unknown-instruction error"),
    }
}

#[test]
fn unresolvable_operands_are_hard_errors_naming_the_symbol() {
    let known = SymbolTable::new();
    let mut assembler = Assembler::new(SymbolTable::new(), &known);
    let r = assembler.assemble_all_lines(&["b nowhere"]);
    match r {
        Err(AsmError::SymbolNotFound(sym)) => assert_eq!(sym, "nowhere"),
        _ => panic!("expected the symbol-not-found error"),
    }
}

#[test]
fn fresh_symbols_take_precedence_over_the_game_table() {
    let fresh = fresh_with(&[("hook", 0x80001004)]);
    let known = fresh_with(&[("hook", 0x80002000)]);
    let mut assembler = Assembler::new(fresh, &known);
    let out = assembler.assemble_all_lines(&["0x80001000:", "b hook"]).unwrap();
    // displacement 4, not 0x1000: the fresh link's address was used
    assert_eq!(out[0].data, 0x48000004);
}

#[test]
fn game_table_resolves_what_the_fresh_link_lacks() {
    let fresh = SymbolTable::new();
    let known = fresh_with(&[("game_fn", 0x80001008)]);
    let mut assembler = Assembler::new(fresh, &known);
    let out = assembler.assemble_all_lines(&["0x80001000:", "bl game_fn"]).unwrap();
    assert_eq!(out[0].data, 0x48000009);
}

#[test]
fn resolve_symbol_reads_literals_first() {
    let known = SymbolTable::new();
    let assembler = Assembler::new(SymbolTable::new(), &known);
    assert_eq!(assembler.resolve_symbol("0x1234").unwrap(), 0x1234);
    assert_eq!(assembler.resolve_symbol("4_096").unwrap(), 4096);
}

#[test]
fn lis_rejects_operands_that_are_not_registers() {
    let known = SymbolTable::new();
    let mut assembler = Assembler::new(SymbolTable::new(), &known);
    let r = assembler.assemble_all_lines(&["lis q3, 1"]);
    assert!(matches!(r, Err(AsmError::BadRegister(_))));
}

#[test]
fn lis_without_an_immediate_is_missing_an_operand() {
    let known = SymbolTable::new();
    let mut assembler = Assembler::new(SymbolTable::new(), &known);
    let r = assembler.assemble_all_lines(&["lis r3"]);
    assert!(matches!(r, Err(AsmError::MissingOperand)));
}

#[test]
fn unterminated_brackets_are_malformed_naming_the_fragment() {
    let known = SymbolTable::new();
    let mut assembler = Assembler::new(SymbolTable::new(), &known);
    let r = assembler.assemble_all_lines(&["[sym:", "nop"]);
    match r {
        Err(AsmError::MalformedExpression(frag)) => assert_eq!(frag, "[sym"),
        _ => panic!("expected the malformed-expression error"),
    }
}

#[test]
fn stray_characters_in_labels_are_malformed_naming_the_fragment() {
    let known = SymbolTable::new();
    let mut assembler = Assembler::new(SymbolTable::new(), &known);
    let r = assembler.assemble_all_lines(&["1 ? 2:", "nop"]);
    match r {
        Err(AsmError::MalformedExpression(frag)) => assert_eq!(frag, "? 2"),
        _ => panic!("expected the malformed-expression error"),
    }
}

#[test]
fn bad_literals_in_u32_lines_are_errors() {
    let known = SymbolTable::new();
    let mut assembler = Assembler::new(SymbolTable::new(), &known);
    let r = assembler.assemble_all_lines(&["u32 0xZZ"]);
    assert!(matches!(r, Err(AsmError::BadLiteral(_))));
}

#[test]
fn nested_brackets_resolve_the_inner_text() {
    // the bracket scanner honours nesting; the inner text is the symbol
    let fresh = fresh_with(&[("a[0]", 0x20)]);
    let known = SymbolTable::new();
    let mut assembler = Assembler::new(fresh, &known);
    let out = assembler.assemble_all_lines(&["[[a[0]]]:", "nop"]).err();
    // "[a[0]]" is not a defined symbol, so this is a resolution error
    assert!(matches!(out, Some(AsmError::SymbolNotFound(_))));
}
