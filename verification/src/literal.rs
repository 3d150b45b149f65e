//! Integer literals of the patch-assembly language: decimal, or hex after
//! `0x`, with `_` separators allowed anywhere among the digits.

use vstd::prelude::*;
use crate::chars::{
    exec_is_digit_char, exec_is_hex_digit_char, exec_hex_val, is_digit_char, is_hex_digit_char,
    spec_hex_val, str_to_chars,
};
use crate::errors::AsmError;

verus! {

pub open spec fn digit_in_base(c: char, base: u64) -> bool {
    if base == 16 {
        is_hex_digit_char(c)
    } else {
        is_digit_char(c)
    }
}

/// Folds digits (and `_` separators) left to right onto `acc`; `None` on a
/// stray character, on overflow of `u64`, or when no digit was seen at all.
pub open spec fn spec_digits_value(s: Seq<char>, base: u64, acc: u64, seen: bool) -> Option<u64>
    decreases s.len(),
{
    if s.len() == 0 {
        if seen {
            Some(acc)
        } else {
            None
        }
    } else if s[0] == '_' {
        spec_digits_value(s.subrange(1, s.len() as int), base, acc, seen)
    } else if digit_in_base(s[0], base) {
        let d = spec_hex_val(s[0]);
        if acc > (u64::MAX - d) / (base as int) {
            None
        } else {
            spec_digits_value(s.subrange(1, s.len() as int), base, (acc * base + d) as u64, true)
        }
    } else {
        None
    }
}

/// The value of a literal: `0x`/`0X` prefix selects base 16, else base 10.
pub open spec fn spec_parse_literal(s: Seq<char>) -> Option<u64> {
    if s.len() >= 2 && s[0] == '0' && (s[1] == 'x' || s[1] == 'X') {
        spec_digits_value(s.subrange(2, s.len() as int), 16, 0, false)
    } else {
        spec_digits_value(s, 10, 0, false)
    }
}

fn digits_value(v: &Vec<char>, from: usize, base: u64) -> (r: Option<u64>)
    requires
        from <= v.len(),
        base == 10 || base == 16,
    ensures
        r == spec_digits_value(v@.subrange(from as int, v.len() as int), base, 0, false),
{
    let ghost whole = v@.subrange(from as int, v.len() as int);
    let mut i: usize = from;
    let mut acc: u64 = 0;
    let mut seen: bool = false;
    while i < v.len()
        invariant
            from <= i <= v.len(),
            base == 10 || base == 16,
            whole == v@.subrange(from as int, v.len() as int),
            spec_digits_value(whole, base, 0, false) == spec_digits_value(
                v@.subrange(i as int, v.len() as int),
                base,
                acc,
                seen,
            ),
        decreases v.len() - i,
    {
        let ghost rest = v@.subrange(i as int, v.len() as int);
        proof {
            assert(rest[0] == v@[i as int]);
            assert(rest.subrange(1, rest.len() as int) =~= v@.subrange(
                i + 1 as int,
                v.len() as int,
            ));
        }
        let c = v[i];
        if c == '_' {
            i += 1;
        } else {
            let is_digit = if base == 16 {
                exec_is_hex_digit_char(c)
            } else {
                exec_is_digit_char(c)
            };
            if !is_digit {
                return None;
            }
            let d = exec_hex_val(c);
            if acc > (u64::MAX - d) / base {
                return None;
            }
            acc = acc * base + d;
            seen = true;
            i += 1;
        }
    }
    proof {
        assert(v@.subrange(v.len() as int, v.len() as int) =~= Seq::<char>::empty());
    }
    if seen {
        Some(acc)
    } else {
        None
    }
}

/// The literal's full value as `u64`, or an error naming the offending text.
pub fn parse_u64_literal(literal: &str) -> (r: Result<u64, AsmError>)
    ensures
        (r is Ok) == (spec_parse_literal(literal@) is Some),
        r is Ok ==> Some(r->Ok_0) == spec_parse_literal(literal@),
        r is Err ==> (r->Err_0 matches AsmError::BadLiteral(p) && p@ == literal@),
{
    let v = str_to_chars(literal);
    let out: Option<u64> = if v.len() >= 2 && v[0] == '0' && (v[1] == 'x' || v[1] == 'X') {
        digits_value(&v, 2, 16)
    } else {
        digits_value(&v, 0, 10)
    };
    proof {
        assert(v@.subrange(0, v.len() as int) =~= literal@);
    }
    match out {
        Some(x) => Ok(x),
        None => Err(AsmError::BadLiteral(literal.to_owned())),
    }
}

/// The literal's value truncated to 64-bit signed, as the assembler reads
/// register numbers and immediates.
pub fn parse_i64_literal(literal: &str) -> (r: Result<i64, AsmError>)
    ensures
        (r is Ok) == (spec_parse_literal(literal@) is Some),
        r is Ok ==> r->Ok_0 == spec_parse_literal(literal@)->Some_0 as i64,
        r is Err ==> (r->Err_0 matches AsmError::BadLiteral(p) && p@ == literal@),
{
    match parse_u64_literal(literal) {
        Ok(x) => Ok(x as i64),
        Err(e) => Err(e),
    }
}

/// The literal's value truncated to 32 bits, as address expressions and raw
/// words read it.
pub fn parse_u32_literal(literal: &str) -> (r: Result<u32, AsmError>)
    ensures
        (r is Ok) == (spec_parse_literal(literal@) is Some),
        r is Ok ==> r->Ok_0 == spec_parse_literal(literal@)->Some_0 as u32,
        r is Err ==> (r->Err_0 matches AsmError::BadLiteral(p) && p@ == literal@),
{
    match parse_u64_literal(literal) {
        Ok(x) => Ok(x as u32),
        Err(e) => Err(e),
    }
}

} // verus!
