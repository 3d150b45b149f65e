use romhack::demangle::demangle;
use romhack::literal::{parse_i64_literal, parse_u32_literal};

#[test]
fn member_functions_become_class_colon_name() {
    assert_eq!(demangle("draw__7JKRScrnFv").unwrap(), "JKRScrn::draw");
    assert_eq!(demangle("update__12JKRHeapStateFUl").unwrap(), "JKRHeapState::update");
}

#[test]
fn free_functions_lose_their_signature() {
    assert_eq!(demangle("OSReport__FPCce").unwrap(), "OSReport");
}

#[test]
fn names_outside_the_scheme_are_kept_raw() {
    assert!(demangle("main").is_none());
    assert!(demangle("no_trailing_scheme__").is_none());
    assert!(demangle("x__9ShortNamF").is_none());
}

#[test]
fn demangling_is_idempotent() {
    let once = demangle("draw__7JKRScrnFv").unwrap();
    assert!(demangle(once.as_str()).is_none());
}

#[test]
fn literals_read_decimal_and_hex_with_separators() {
    assert_eq!(parse_u32_literal("0x8040_1000").unwrap(), 0x80401000);
    assert_eq!(parse_u32_literal("4096").unwrap(), 4096);
    assert_eq!(parse_i64_literal("0xFFFF").unwrap(), 0xFFFF);
    assert!(parse_u32_literal("").is_err());
    assert!(parse_u32_literal("0x").is_err());
    assert!(parse_u32_literal("12ab").is_err());
}

#[test]
fn literal_values_wrap_into_their_target_width() {
    // the full value is kept in 64 bits and truncated where it is used
    assert_eq!(parse_u32_literal("0x1_0000_0001").unwrap(), 1);
}
