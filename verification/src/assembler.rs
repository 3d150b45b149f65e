//! The patch-assembly translator: one sequential pass over the patch's
//! lines, keeping a program counter, emitting one machine word per
//! instruction line, and letting label lines replace the counter with the
//! value of an address expression.

use vstd::prelude::*;
use vstd::wrapping::u32_specs;
use crate::chars::{
    chars_to_string, exec_is_digit_char, exec_is_space_char, is_digit_char, is_space_char,
    lemma_trim_start_skip, spec_trim, spec_trim_start, str_to_chars, trim_bounds,
};
use crate::errors::AsmError;
use crate::literal::{parse_i64_literal, parse_u32_literal, spec_parse_literal};
use crate::symtab::{spec_lookup, SymbolTable};

verus! {

/// One raw machine word destined for a specific absolute address.
#[derive(Clone, Copy, PartialEq, Eq, Structural, Debug)]
pub struct Instruction {
    pub address: u32,
    pub data: u32,
}

/// The shape of an assembler failure, with the payload text set aside.
#[derive(Clone, Copy, PartialEq, Eq, Structural, Debug)]
pub enum AsmIssue {
    UnknownInstruction,
    MalformedExpression,
    SymbolNotFound,
    BadLiteral,
    BadRegister,
    MissingOperand,
}

pub open spec fn issue_of(e: AsmError) -> AsmIssue {
    match e {
        AsmError::UnknownInstruction(_) => AsmIssue::UnknownInstruction,
        AsmError::MalformedExpression(_) => AsmIssue::MalformedExpression,
        AsmError::SymbolNotFound(_) => AsmIssue::SymbolNotFound,
        AsmError::BadLiteral(_) => AsmIssue::BadLiteral,
        AsmError::BadRegister(_) => AsmIssue::BadRegister,
        AsmError::MissingOperand => AsmIssue::MissingOperand,
    }
}

/// The index of the first `;` in `s`, or `s.len()` when there is none.
pub open spec fn spec_first_semi(s: Seq<char>) -> int
    decreases s.len(),
{
    if s.len() == 0 {
        0
    } else if s[0] == ';' {
        0
    } else {
        1 + spec_first_semi(s.subrange(1, s.len() as int))
    }
}

pub proof fn lemma_first_semi(s: Seq<char>, i: int)
    requires
        0 <= i <= s.len(),
        forall|j: int| 0 <= j < i ==> s[j] != ';',
        i == s.len() || s[i] == ';',
    ensures
        spec_first_semi(s) == i,
    decreases i,
{
    if i > 0 {
        let t = s.subrange(1, s.len() as int);
        lemma_first_semi(t, i - 1);
    }
}

/// A line reduced to its code: everything from the first `;` stripped, then
/// whitespace trimmed from both ends.
pub open spec fn spec_reduce_line(s: Seq<char>) -> Seq<char> {
    spec_trim(s.subrange(0, spec_first_semi(s)))
}

/// Strips the comment and trims: what the assembler actually reads of a line.
pub fn reduce_line_to_code(line: &str) -> (r: &str)
    ensures
        r@ == spec_reduce_line(line@),
{
    let v = str_to_chars(line);
    let n = v.len();
    let mut k: usize = 0;
    while k < n && v[k] != ';'
        invariant
            k <= n,
            n == v@.len(),
            v@ == line@,
            forall|j: int| 0 <= j < k ==> v@[j] != ';',
        decreases n - k,
    {
        k += 1;
    }
    proof {
        lemma_first_semi(v@, k as int);
    }
    let (lo, hi) = trim_bounds(&v, k);
    line.substring_char(lo, hi)
}

/// How one resolved value moves the accumulator: wraparound add or subtract.
pub open spec fn spec_apply_term(acc: u32, is_add: bool, v: u32) -> u32 {
    if is_add {
        u32_specs::wrapping_add(acc, v)
    } else {
        u32_specs::wrapping_sub(acc, v)
    }
}

/// Operand resolution: an integer literal first, else the fresh link's
/// table, else the pre-existing game table.
pub open spec fn spec_resolve_symbol(
    fresh: Seq<(Seq<char>, u32)>,
    known: Seq<(Seq<char>, u32)>,
    sym: Seq<char>,
) -> Option<u32> {
    if spec_parse_literal(sym) is Some {
        Some(spec_parse_literal(sym)->Some_0 as u32)
    } else if spec_lookup(fresh, sym) is Some {
        spec_lookup(fresh, sym)
    } else {
        spec_lookup(known, sym)
    }
}

/// An operand the fresh link defines resolves to the fresh link's address,
/// whatever the pre-existing game table binds the same name to.
pub proof fn lemma_operand_fresh_precedence(
    fresh: Seq<(Seq<char>, u32)>,
    known: Seq<(Seq<char>, u32)>,
    sym: Seq<char>,
)
    requires
        spec_parse_literal(sym) is None,
        spec_lookup(fresh, sym) is Some,
    ensures
        spec_resolve_symbol(fresh, known, sym) == spec_lookup(fresh, sym),
{
}

/// Whether `c` may continue a numeric term at offset `i` of the term.
pub open spec fn num_term_char(c: char, i: int) -> bool {
    is_digit_char(c) || ('A' <= c && c <= 'F') || ('a' <= c && c <= 'f') || c == '_' || (c == '-'
        && i == 0) || (c == 'x' && i == 1)
}

/// The length of the numeric term at the head of `s`, scanning from `i`.
pub open spec fn spec_num_term_len(s: Seq<char>, i: int) -> int
    decreases s.len() - i,
{
    if 0 <= i < s.len() && num_term_char(s[i], i) {
        spec_num_term_len(s, i + 1)
    } else {
        i
    }
}

pub proof fn lemma_num_term_len_bounds(s: Seq<char>, i: int)
    requires
        0 <= i <= s.len(),
    ensures
        i <= spec_num_term_len(s, i) <= s.len(),
    decreases s.len() - i,
{
    if i < s.len() && num_term_char(s[i], i) {
        lemma_num_term_len_bounds(s, i + 1);
    }
}

pub proof fn lemma_num_term_len(s: Seq<char>, i: int)
    requires
        0 <= i <= s.len(),
        forall|j: int| 0 <= j < i ==> num_term_char(s[j], j),
    ensures
        spec_num_term_len(s, 0) == spec_num_term_len(s, i),
    decreases i,
{
    if i > 0 {
        lemma_num_term_len(s, i - 1);
    }
}

/// The index of the `]` that closes a bracket term, scanning from `i` at
/// nesting `depth`, or `None` when the term is unterminated.
pub open spec fn spec_bracket_close(s: Seq<char>, i: int, depth: int) -> Option<int>
    decreases s.len() - i,
{
    if i < 0 || i >= s.len() {
        None
    } else if s[i] == ']' && depth == 1 {
        Some(i)
    } else if s[i] == ']' {
        spec_bracket_close(s, i + 1, depth - 1)
    } else if s[i] == '[' {
        spec_bracket_close(s, i + 1, depth + 1)
    } else {
        spec_bracket_close(s, i + 1, depth)
    }
}

pub proof fn lemma_bracket_close_bounds(s: Seq<char>, i: int, depth: int)
    requires
        0 <= i,
    ensures
        spec_bracket_close(s, i, depth) is Some ==> i <= spec_bracket_close(
            s,
            i,
            depth,
        )->Some_0 < s.len(),
    decreases s.len() - i,
{
    if i < s.len() && !(s[i] == ']' && depth == 1) {
        let d2 = if s[i] == '[' {
            depth + 1
        } else if s[i] == ']' {
            depth - 1
        } else {
            depth
        };
        lemma_bracket_close_bounds(s, i + 1, d2);
    }
}

/// One pass of the label-expression evaluator: `s` has been left-trimmed;
/// a term is read, applied to `acc`, and an operator or the end follows.
pub open spec fn spec_label_loop(
    s: Seq<char>,
    acc: u32,
    is_add: bool,
    fresh: Seq<(Seq<char>, u32)>,
    known: Seq<(Seq<char>, u32)>,
) -> Result<u32, AsmIssue>
    decreases s.len(), 1int,
    via spec_label_loop_dec
{
    if s.len() == 0 {
        Err(AsmIssue::MalformedExpression)
    } else if is_digit_char(s[0]) || s[0] == '-' {
        let l = spec_num_term_len(s, 0);
        let tok = s.subrange(0, l);
        match spec_parse_literal(tok) {
            None => Err(AsmIssue::BadLiteral),
            Some(v) => spec_label_after_term(
                s.subrange(l, s.len() as int),
                spec_apply_term(acc, is_add, v as u32),
                fresh,
                known,
            ),
        }
    } else if s[0] == '[' {
        match spec_bracket_close(s, 1, 1) {
            None => Err(AsmIssue::MalformedExpression),
            Some(j) => {
                let tok = s.subrange(1, j);
                match spec_resolve_symbol(fresh, known, tok) {
                    None => Err(AsmIssue::SymbolNotFound),
                    Some(v) => spec_label_after_term(
                        s.subrange(j + 1, s.len() as int),
                        spec_apply_term(acc, is_add, v),
                        fresh,
                        known,
                    ),
                }
            },
        }
    } else {
        Err(AsmIssue::MalformedExpression)
    }
}

/// After a term: the end of the expression yields the accumulator; `+` or
/// `-` continues with the next term; anything else is malformed.
pub open spec fn spec_label_after_term(
    rest: Seq<char>,
    acc: u32,
    fresh: Seq<(Seq<char>, u32)>,
    known: Seq<(Seq<char>, u32)>,
) -> Result<u32, AsmIssue>
    decreases rest.len(), 0int,
    via spec_label_after_term_dec
{
    let t = spec_trim_start(rest);
    if t.len() == 0 {
        Ok(acc)
    } else if t[0] == '+' {
        spec_label_loop(
            spec_trim_start(t.subrange(1, t.len() as int)),
            acc,
            true,
            fresh,
            known,
        )
    } else if t[0] == '-' {
        spec_label_loop(
            spec_trim_start(t.subrange(1, t.len() as int)),
            acc,
            false,
            fresh,
            known,
        )
    } else {
        Err(AsmIssue::MalformedExpression)
    }
}

#[via_fn]
proof fn spec_label_loop_dec(
    s: Seq<char>,
    acc: u32,
    is_add: bool,
    fresh: Seq<(Seq<char>, u32)>,
    known: Seq<(Seq<char>, u32)>,
) {
    if s.len() > 0 {
        lemma_num_term_len_bounds(s, 0);
        lemma_bracket_close_bounds(s, 1, 1);
    }
}

#[via_fn]
proof fn spec_label_after_term_dec(
    rest: Seq<char>,
    acc: u32,
    fresh: Seq<(Seq<char>, u32)>,
    known: Seq<(Seq<char>, u32)>,
) {
    crate::chars::lemma_trim_start_len(rest);
    let t = spec_trim_start(rest);
    if t.len() > 0 {
        crate::chars::lemma_trim_start_len(t.subrange(1, t.len() as int));
    }
}

/// The value a label line gives the program counter: the line (without its
/// closing `:`) is an address expression, evaluated left to right.
pub open spec fn spec_label_value(
    line: Seq<char>,
    fresh: Seq<(Seq<char>, u32)>,
    known: Seq<(Seq<char>, u32)>,
) -> Result<u32, AsmIssue> {
    spec_label_loop(spec_trim_start(line.subrange(0, line.len() - 1)), 0, true, fresh, known)
}

/// The payload an assembler error carries, as text.
pub open spec fn asm_error_text(e: AsmError) -> Seq<char> {
    match e {
        AsmError::UnknownInstruction(p) => p@,
        AsmError::MalformedExpression(p) => p@,
        AsmError::SymbolNotFound(p) => p@,
        AsmError::BadLiteral(p) => p@,
        AsmError::BadRegister(p) => p@,
        AsmError::MissingOperand => Seq::empty(),
    }
}

/// The text a failing label expression is blamed on: the unparsable
/// literal or unresolvable symbol, or the unparsed remainder from the
/// stray character, the unterminated bracket, or the missing operator on.
/// Meaningful only where the evaluation fails.
pub open spec fn spec_label_offender(
    s: Seq<char>,
    fresh: Seq<(Seq<char>, u32)>,
    known: Seq<(Seq<char>, u32)>,
) -> Seq<char>
    decreases s.len(), 1int,
    via spec_label_offender_dec
{
    if s.len() == 0 {
        Seq::empty()
    } else if is_digit_char(s[0]) || s[0] == '-' {
        let l = spec_num_term_len(s, 0);
        let tok = s.subrange(0, l);
        match spec_parse_literal(tok) {
            None => tok,
            Some(_) => spec_label_offender_after(s.subrange(l, s.len() as int), fresh, known),
        }
    } else if s[0] == '[' {
        match spec_bracket_close(s, 1, 1) {
            None => s,
            Some(j) => {
                let tok = s.subrange(1, j);
                match spec_resolve_symbol(fresh, known, tok) {
                    None => tok,
                    Some(_) => spec_label_offender_after(
                        s.subrange(j + 1, s.len() as int),
                        fresh,
                        known,
                    ),
                }
            },
        }
    } else {
        s
    }
}

/// After a term: the end blames nothing; `+`/`-` continues; anything else
/// is the unparsed remainder itself.
pub open spec fn spec_label_offender_after(
    rest: Seq<char>,
    fresh: Seq<(Seq<char>, u32)>,
    known: Seq<(Seq<char>, u32)>,
) -> Seq<char>
    decreases rest.len(), 0int,
    via spec_label_offender_after_dec
{
    let t = spec_trim_start(rest);
    if t.len() == 0 {
        Seq::empty()
    } else if t[0] == '+' || t[0] == '-' {
        spec_label_offender(spec_trim_start(t.subrange(1, t.len() as int)), fresh, known)
    } else {
        t
    }
}

#[via_fn]
proof fn spec_label_offender_dec(
    s: Seq<char>,
    fresh: Seq<(Seq<char>, u32)>,
    known: Seq<(Seq<char>, u32)>,
) {
    if s.len() > 0 {
        lemma_num_term_len_bounds(s, 0);
        lemma_bracket_close_bounds(s, 1, 1);
    }
}

#[via_fn]
proof fn spec_label_offender_after_dec(
    rest: Seq<char>,
    fresh: Seq<(Seq<char>, u32)>,
    known: Seq<(Seq<char>, u32)>,
) {
    crate::chars::lemma_trim_start_len(rest);
    let t = spec_trim_start(rest);
    if t.len() > 0 {
        crate::chars::lemma_trim_start_len(t.subrange(1, t.len() as int));
    }
}

/// The branch-instruction word: opcode 18 in bits 31:26, the displacement
/// (or absolute target when `aa`) in bits 25:2, `aa` in bit 1, `lk` in bit 0.
pub open spec fn spec_branch_word(address: u32, destination: u32, aa: bool, lk: bool) -> u32 {
    (18u32 << 26) | (0x3FFFFFCu32 & (if aa {
        destination
    } else {
        u32_specs::wrapping_sub(destination, address)
    })) | ((if aa {
        1u32
    } else {
        0u32
    }) << 1) | (if lk {
        1u32
    } else {
        0u32
    })
}

/// The `addis` word: opcode shape `0x3C00_0000`, destination register in
/// bits 25:21, source register in bits 20:16, immediate in bits 15:0.
pub open spec fn spec_addis_word(reg_d: u8, reg_a: u8, imm: i16) -> u32 {
    0x3C00_0000u32 | (((reg_d as u32) & 0x1F) << 21) | (((reg_a as u32) & 0x1F) << 16) | ((
    imm as u32) & 0xFFFF)
}

/// The word a `nop` line encodes to.
pub open spec fn spec_nop_word() -> u32 {
    0x60000000u32
}

pub open spec fn starts_with(s: Seq<char>, p: Seq<char>) -> bool {
    s.len() >= p.len() && s.subrange(0, p.len() as int) == p
}

/// The first `,` in `s` at or after `i`, or `s.len()`.
pub open spec fn spec_first_comma(s: Seq<char>, i: int) -> int
    decreases s.len() - i,
{
    if 0 <= i < s.len() && s[i] != ',' {
        spec_first_comma(s, i + 1)
    } else {
        i
    }
}

/// The machine word an instruction line encodes to, or the failure's shape.
/// `line` has been reduced to code and is neither empty nor a label.
pub open spec fn spec_instruction_word(
    line: Seq<char>,
    pc: u32,
    fresh: Seq<(Seq<char>, u32)>,
    known: Seq<(Seq<char>, u32)>,
) -> Result<u32, AsmIssue> {
    if starts_with(line, seq!['b', 'l', ' ']) {
        match spec_resolve_symbol(fresh, known, line.subrange(3, line.len() as int)) {
            None => Err(AsmIssue::SymbolNotFound),
            Some(d) => Ok(spec_branch_word(pc, d, false, true)),
        }
    } else if starts_with(line, seq!['b', ' ']) {
        match spec_resolve_symbol(fresh, known, line.subrange(2, line.len() as int)) {
            None => Err(AsmIssue::SymbolNotFound),
            Some(d) => Ok(spec_branch_word(pc, d, false, false)),
        }
    } else if starts_with(line, seq!['u', '3', '2', ' ']) {
        match spec_parse_literal(line.subrange(4, line.len() as int)) {
            None => Err(AsmIssue::BadLiteral),
            Some(v) => Ok(v as u32),
        }
    } else if starts_with(line, seq!['l', 'i', 's', ' ']) {
        spec_lis_word(line.subrange(4, line.len() as int))
    } else if line == seq!['n', 'o', 'p'] {
        Ok(spec_nop_word())
    } else {
        Err(AsmIssue::UnknownInstruction)
    }
}

/// The word of a `lis` line's operands: `r<N>, <imm>`, both trimmed; the
/// register index and immediate are integer literals, truncated as the
/// encoder reads them.
pub open spec fn spec_lis_word(rest: Seq<char>) -> Result<u32, AsmIssue> {
    let c = spec_first_comma(rest, 0);
    let reg_tok = spec_trim(rest.subrange(0, c));
    if !(reg_tok.len() > 0 && reg_tok[0] == 'r') {
        Err(AsmIssue::BadRegister)
    } else if spec_parse_literal(reg_tok.subrange(1, reg_tok.len() as int)) is None {
        Err(AsmIssue::BadLiteral)
    } else if c >= rest.len() {
        Err(AsmIssue::MissingOperand)
    } else {
        let reg = spec_parse_literal(reg_tok.subrange(1, reg_tok.len() as int))->Some_0;
        let c2 = spec_first_comma(rest, c + 1);
        let imm_tok = spec_trim(rest.subrange(c + 1, c2));
        match spec_parse_literal(imm_tok) {
            None => Err(AsmIssue::BadLiteral),
            Some(imm) => Ok(spec_addis_word((reg as i64) as u8, 0, (imm as i64) as i16)),
        }
    }
}

/// The whole pass: reduced-empty lines are skipped, label lines replace the
/// counter, instruction lines emit one word at the counter and advance it
/// by four.
pub open spec fn spec_assemble(
    lines: Seq<Seq<char>>,
    pc: u32,
    fresh: Seq<(Seq<char>, u32)>,
    known: Seq<(Seq<char>, u32)>,
) -> Result<(Seq<Instruction>, u32), AsmIssue>
    decreases lines.len(),
{
    if lines.len() == 0 {
        Ok((Seq::empty(), pc))
    } else {
        let r = spec_reduce_line(lines[0]);
        let rest = lines.subrange(1, lines.len() as int);
        if r.len() == 0 {
            spec_assemble(rest, pc, fresh, known)
        } else if r[r.len() - 1] == ':' {
            match spec_label_value(r, fresh, known) {
                Err(e) => Err(e),
                Ok(npc) => spec_assemble(rest, npc, fresh, known),
            }
        } else {
            match spec_instruction_word(r, pc, fresh, known) {
                Err(e) => Err(e),
                Ok(w) => match spec_assemble(rest, u32_specs::wrapping_add(pc, 4), fresh, known) {
                    Err(e) => Err(e),
                    Ok((insts, fp)) => Ok(
                        (seq![Instruction { address: pc, data: w }] + insts, fp),
                    ),
                },
            }
        }
    }
}

/// The accumulator after walking terms `i..` left to right, each added or
/// subtracted with wraparound.
pub open spec fn spec_fold_terms(ts: Seq<(bool, u32)>, i: int, acc: u32) -> u32
    decreases ts.len() - i,
{
    if i < 0 || i >= ts.len() {
        acc
    } else {
        spec_fold_terms(ts, i + 1, spec_apply_term(acc, ts[i].0, ts[i].1))
    }
}

/// The mathematical signed sum of terms `i..`.
pub open spec fn spec_signed_sum(ts: Seq<(bool, u32)>, i: int) -> int
    decreases ts.len() - i,
{
    if i < 0 || i >= ts.len() {
        0
    } else {
        (if ts[i].0 {
            ts[i].1 as int
        } else {
            -(ts[i].1 as int)
        }) + spec_signed_sum(ts, i + 1)
    }
}

/// The left-to-right wrapping walk over any chain of added and subtracted
/// terms equals the mathematical signed sum modulo 2^32: where the
/// wraparounds fall does not matter.
pub proof fn lemma_fold_terms_sum(ts: Seq<(bool, u32)>, i: int, acc: u32)
    requires
        0 <= i,
    ensures
        spec_fold_terms(ts, i, acc) == ((acc + spec_signed_sum(ts, i)) % 0x1_0000_0000) as u32,
    decreases ts.len() - i,
{
    let m = 0x1_0000_0000int;
    if i >= ts.len() {
        vstd::arithmetic::div_mod::lemma_small_mod(acc as nat, 0x1_0000_0000nat);
    } else {
        let si: int = if ts[i].0 {
            ts[i].1 as int
        } else {
            -(ts[i].1 as int)
        };
        let acc2 = spec_apply_term(acc, ts[i].0, ts[i].1);
        assert(acc2 as int == (acc + si) % m);
        lemma_fold_terms_sum(ts, i + 1, acc2);
        let rest = spec_signed_sum(ts, i + 1);
        vstd::arithmetic::div_mod::lemma_add_mod_noop(acc + si, rest, m);
        vstd::arithmetic::div_mod::lemma_add_mod_noop(acc2 as int, rest, m);
        vstd::arithmetic::div_mod::lemma_mod_twice(acc + si, m);
        assert((acc2 + rest) % m == (acc + si + rest) % m);
        assert(spec_signed_sum(ts, i) == si + rest);
    }
}

/// A bracket-free run closed by `]` is where the bracket term ends.
pub proof fn lemma_bracket_close_clean(s: Seq<char>, i: int, m: int)
    requires
        1 <= i <= m < s.len(),
        forall|k: int| i <= k < m ==> s[k] != '[' && #[trigger] s[k] != ']',
        s[m] == ']',
    ensures
        spec_bracket_close(s, i, 1) == Some(m),
    decreases m - i,
{
    if i < m {
        lemma_bracket_close_clean(s, i + 1, m);
    }
}

/// A label expression `A+B-[C]` evaluates to `(A + B - lookup(C)) mod
/// 2^32`, whatever grouping the wrapping steps take: the accumulator walks
/// the terms left to right, and the result equals the mathematical sum.
/// `ta` and `tb` are the literals' texts and `tc` the symbol's.
#[verifier::rlimit(100)]
pub proof fn lemma_label_expression_sum(
    ta: Seq<char>,
    tb: Seq<char>,
    tc: Seq<char>,
    a: u64,
    b: u64,
    c: u32,
    fresh: Seq<(Seq<char>, u32)>,
    known: Seq<(Seq<char>, u32)>,
)
    requires
        spec_parse_literal(ta) == Some(a),
        spec_parse_literal(tb) == Some(b),
        is_digit_char(ta[0]) || ta[0] == '-',
        is_digit_char(tb[0]) || tb[0] == '-',
        forall|k: int| 0 <= k < ta.len() ==> num_term_char(#[trigger] ta[k], k),
        forall|k: int| 0 <= k < tb.len() ==> num_term_char(#[trigger] tb[k], k),
        spec_resolve_symbol(fresh, known, tc) == Some(c),
        forall|k: int| 0 <= k < tc.len() ==> tc[k] != '[' && #[trigger] tc[k] != ']',
    ensures
        ({
            let line = ta + seq!['+'] + tb + seq!['-', '['] + tc + seq![']', ':'];
            spec_label_value(line, fresh, known) == Ok::<u32, AsmIssue>(
                (((a as u32) + (b as u32) - c) % 0x1_0000_0000) as u32,
            )
        }),
{
    let line = ta + seq!['+'] + tb + seq!['-', '['] + tc + seq![']', ':'];
    let expr = ta + seq!['+'] + tb + seq!['-', '['] + tc + seq![']'];
    if ta.len() == 0 {
        assert(spec_parse_literal(ta) is None);
    }
    if tb.len() == 0 {
        assert(spec_parse_literal(tb) is None);
    }
    assert(line.subrange(0, line.len() - 1) =~= expr);
    assert(expr[0] == ta[0]);
    assert(!is_space_char(expr[0]));
    assert(spec_trim_start(expr) == expr);
    assert(spec_label_value(line, fresh, known) == spec_label_loop(expr, 0, true, fresh, known));
    // the first literal
    let la = ta.len() as int;
    assert forall|k: int| 0 <= k < la implies num_term_char(#[trigger] expr[k], k) by {
        assert(expr[k] == ta[k]);
    }
    assert(expr[la] == '+');
    assert(!num_term_char(expr[la], la));
    lemma_num_term_len(expr, la);
    assert(spec_num_term_len(expr, 0) == la);
    assert(expr.subrange(0, la) =~= ta);
    let acc1 = spec_apply_term(0, true, a as u32);
    let rest1 = expr.subrange(la, expr.len() as int);
    assert(spec_label_loop(expr, 0, true, fresh, known) == spec_label_after_term(
        rest1,
        acc1,
        fresh,
        known,
    ));
    // the plus and the second literal
    assert(rest1 =~= seq!['+'] + tb + seq!['-', '['] + tc + seq![']']);
    assert(!is_space_char(rest1[0]));
    assert(spec_trim_start(rest1) == rest1);
    let rest2 = rest1.subrange(1, rest1.len() as int);
    assert(rest2 =~= tb + seq!['-', '['] + tc + seq![']']);
    assert(rest2[0] == tb[0]);
    assert(!is_space_char(rest2[0]));
    assert(spec_trim_start(rest2) == rest2);
    assert(spec_label_after_term(rest1, acc1, fresh, known) == spec_label_loop(
        rest2,
        acc1,
        true,
        fresh,
        known,
    ));
    let lb = tb.len() as int;
    assert forall|k: int| 0 <= k < lb implies num_term_char(#[trigger] rest2[k], k) by {
        assert(rest2[k] == tb[k]);
    }
    assert(rest2[lb] == '-');
    assert(lb >= 1);
    assert(!num_term_char(rest2[lb], lb));
    lemma_num_term_len(rest2, lb);
    assert(spec_num_term_len(rest2, 0) == lb);
    assert(rest2.subrange(0, lb) =~= tb);
    let acc2 = spec_apply_term(acc1, true, b as u32);
    let rest3 = rest2.subrange(lb, rest2.len() as int);
    assert(spec_label_loop(rest2, acc1, true, fresh, known) == spec_label_after_term(
        rest3,
        acc2,
        fresh,
        known,
    ));
    // the minus and the bracketed symbol
    assert(rest3 =~= seq!['-', '['] + tc + seq![']']);
    assert(!is_space_char(rest3[0]));
    assert(spec_trim_start(rest3) == rest3);
    let rest4 = rest3.subrange(1, rest3.len() as int);
    assert(rest4 =~= seq!['['] + tc + seq![']']);
    assert(rest4[0] == '[');
    assert(!is_space_char(rest4[0]));
    assert(spec_trim_start(rest4) == rest4);
    assert(spec_label_after_term(rest3, acc2, fresh, known) == spec_label_loop(
        rest4,
        acc2,
        false,
        fresh,
        known,
    ));
    let lc = tc.len() as int;
    assert(!is_digit_char(rest4[0]) && rest4[0] != '-');
    assert forall|k: int| 1 <= k < 1 + lc implies rest4[k] != '[' && #[trigger] rest4[k]
        != ']' by {
        assert(rest4[k] == tc[k - 1]);
    }
    assert(rest4[1 + lc] == ']');
    lemma_bracket_close_clean(rest4, 1, 1 + lc);
    assert(spec_bracket_close(rest4, 1, 1) == Some(1 + lc));
    assert(rest4.subrange(1, 1 + lc) =~= tc);
    let acc3 = spec_apply_term(acc2, false, c);
    let rest5 = rest4.subrange(1 + lc + 1, rest4.len() as int);
    assert(rest5.len() == 0);
    assert(spec_label_loop(rest4, acc2, false, fresh, known) == spec_label_after_term(
        rest5,
        acc3,
        fresh,
        known,
    ));
    assert(spec_trim_start(rest5).len() == 0);
    assert(spec_label_after_term(rest5, acc3, fresh, known) == Ok::<u32, AsmIssue>(acc3));
    lemma_term_sum_mod(a as u32, b as u32, c);
}

/// A `nop` line always encodes to the fixed word, whatever the program
/// counter or the symbol tables hold.
pub proof fn lemma_nop_encoding(
    pc: u32,
    fresh: Seq<(Seq<char>, u32)>,
    known: Seq<(Seq<char>, u32)>,
)
    ensures
        spec_instruction_word(seq!['n', 'o', 'p'], pc, fresh, known) == Ok::<u32, AsmIssue>(
            spec_nop_word(),
        ),
{
    let s = seq!['n', 'o', 'p'];
    assert(s[0] == 'n');
    if starts_with(s, seq!['b', 'l', ' ']) {
        assert(s.subrange(0, 3)[0] == s[0]);
        assert(s.subrange(0, 3)[0] == 'b');
    }
    if starts_with(s, seq!['b', ' ']) {
        assert(s.subrange(0, 2)[0] == s[0]);
        assert(s.subrange(0, 2)[0] == 'b');
    }
    assert(!starts_with(s, seq!['u', '3', '2', ' ']));
    assert(!starts_with(s, seq!['l', 'i', 's', ' ']));
}

/// Label expressions evaluate left to right with wraparound arithmetic, so
/// a sum of two terms minus a third equals the mathematical
/// `(a + b - c) mod 2^32`, independent of grouping.
pub proof fn lemma_term_sum_mod(a: u32, b: u32, c: u32)
    ensures
        spec_apply_term(spec_apply_term(spec_apply_term(0, true, a), true, b), false, c) == ((
        a + b - c) % 0x1_0000_0000) as u32,
{
}

/// The relative-branch word, as the spec states it: opcode field 18, `aa`
/// absolute bit, `lk` link bit, and the word-aligned displacement.
pub fn build_branch_instruction(address: u32, destination: u32, aa: bool, lk: bool) -> (r: u32)
    ensures
        r == spec_branch_word(address, destination, aa, lk),
{
    let bits_dest = if aa {
        destination
    } else {
        destination.wrapping_sub(address)
    };
    let bits_aa: u32 = if aa {
        1
    } else {
        0
    };
    let bits_lk: u32 = if lk {
        1
    } else {
        0
    };
    (18u32 << 26u32) | (0x3FFFFFCu32 & bits_dest) | (bits_aa << 1u32) | bits_lk
}

/// The `addis` word with both register fields and the immediate masked into
/// their bit ranges.
pub fn build_addis_instruction(reg_d: u8, reg_a: u8, imm: i16) -> (r: u32)
    ensures
        r == spec_addis_word(reg_d, reg_a, imm),
{
    0x3C00_0000u32 | (((reg_d as u32) & 0x1F) << 21u32) | (((reg_a as u32) & 0x1F) << 16u32) | ((
    imm as u32) & 0xFFFF)
}

/// `lis rD, imm` is `addis rD, r0, imm`.
pub fn build_lis_instruction(register: u8, imm: i16) -> (r: u32)
    ensures
        r == spec_addis_word(register, 0, imm),
{
    build_addis_instruction(register, 0, imm)
}

/// The single sequential pass over a patch's lines: a program counter, the
/// fresh link's symbol table, and the game's pre-existing table.
pub struct Assembler {
    symbol_table: SymbolTable,
    prelinked_symbols: SymbolTable,
    program_counter: u32,
}

impl Assembler {
    /// The fresh link's table, as the contracts read it.
    pub closed spec fn fresh(&self) -> Seq<(Seq<char>, u32)> {
        self.symbol_table@
    }

    /// The pre-existing game table, as the contracts read it.
    pub closed spec fn known(&self) -> Seq<(Seq<char>, u32)> {
        self.prelinked_symbols@
    }

    /// The program counter.
    pub closed spec fn pc(&self) -> u32 {
        self.program_counter
    }

    pub fn new(symbol_table: SymbolTable, prelinked_symbols: &SymbolTable) -> (r: Assembler)
        ensures
            r.fresh() == symbol_table@,
            r.known() == prelinked_symbols@,
            r.pc() == 0,
    {
        Assembler {
            symbol_table,
            prelinked_symbols: prelinked_symbols.duplicate(),
            program_counter: 0,
        }
    }

    /// Resolves an operand: an integer literal first, else the fresh table,
    /// else the pre-existing table, else an error naming the symbol.
    pub fn resolve_symbol(&self, symbol: &str) -> (r: Result<u32, AsmError>)
        ensures
            (r is Ok) == (spec_resolve_symbol(self.fresh(), self.known(), symbol@) is Some),
            r is Ok ==> Some(r->Ok_0) == spec_resolve_symbol(self.fresh(), self.known(), symbol@),
            r is Err ==> (r->Err_0 matches AsmError::SymbolNotFound(p) && p@ == symbol@),
    {
        match parse_u32_literal(symbol) {
            Ok(address) => {
                return Ok(address);
            },
            Err(_) => {},
        }
        if let Some(address) = self.symbol_table.lookup(symbol) {
            return Ok(address);
        }
        if let Some(address) = self.prelinked_symbols.lookup(symbol) {
            return Ok(address);
        }
        Err(AsmError::SymbolNotFound(symbol.to_owned()))
    }

    /// `resolve_symbol` over a character vector.
    fn resolve_chars(&self, sym: &Vec<char>) -> (r: Result<u32, AsmError>)
        ensures
            (r is Ok) == (spec_resolve_symbol(self.fresh(), self.known(), sym@) is Some),
            r is Ok ==> Some(r->Ok_0) == spec_resolve_symbol(self.fresh(), self.known(), sym@),
            r is Err ==> (r->Err_0 matches AsmError::SymbolNotFound(p) && p@ == sym@),
    {
        let s = chars_to_string(sym);
        self.resolve_symbol(s.as_str())
    }

    /// Reads one term of a label expression at `pos`: a numeric literal or
    /// a bracketed symbol, giving its value and the position after it.
    #[verifier::rlimit(100)]
    #[verifier::spinoff_prover]
    fn eval_term(&self, v: &Vec<char>, pos: usize, n: usize) -> (r: Result<(u32, usize), AsmError>)
        requires
            pos < n <= v@.len(),
        ensures
            r matches Ok(p) ==> pos < p.1 <= n && (forall|acc: u32, is_add: bool|
                #[trigger] spec_label_loop(
                    v@.subrange(pos as int, n as int),
                    acc,
                    is_add,
                    self.fresh(),
                    self.known(),
                ) == spec_label_after_term(
                    v@.subrange(p.1 as int, n as int),
                    spec_apply_term(acc, is_add, p.0),
                    self.fresh(),
                    self.known(),
                )),
            r is Ok ==> spec_label_offender(v@.subrange(pos as int, n as int), self.fresh(), self.known())
                == spec_label_offender_after(
                v@.subrange(r->Ok_0.1 as int, n as int),
                self.fresh(),
                self.known(),
            ),
            r is Err ==> forall|acc: u32, is_add: bool|
                #[trigger] spec_label_loop(
                    v@.subrange(pos as int, n as int),
                    acc,
                    is_add,
                    self.fresh(),
                    self.known(),
                ) == Err::<u32, AsmIssue>(issue_of(r->Err_0)),
            r is Err ==> asm_error_text(r->Err_0) == spec_label_offender(
                v@.subrange(pos as int, n as int),
                self.fresh(),
                self.known(),
            ),
    {
        let ghost fr = self.fresh();
        let ghost kn = self.known();
        let ghost cur = v@.subrange(pos as int, n as int);
        let c = v[pos];
        proof {
            assert(cur[0] == v@[pos as int]);
        }
        if exec_is_digit_char(c) || c == '-' {
            let j = scan_num_term(v, pos, n);
            let tok = crate::chars::slice_chars(v, pos, j);
            proof {
                assert(tok@ =~= cur.subrange(0, (j - pos) as int));
            }
            let s = chars_to_string(&tok);
            let val = match parse_u32_literal(s.as_str()) {
                Err(e) => {
                    return Err(e);
                },
                Ok(val) => val,
            };
            proof {
                assert(cur.subrange((j - pos) as int, cur.len() as int) =~= v@.subrange(
                    j as int,
                    n as int,
                ));
            }
            Ok((val, j))
        } else if c == '[' {
            let jj = match scan_bracket_close(v, pos, n) {
                None => {
                    let frag = crate::chars::slice_chars(v, pos, n);
                    return Err(AsmError::MalformedExpression(chars_to_string(&frag)));
                },
                Some(jj) => jj,
            };
            let tok = crate::chars::slice_chars(v, pos + 1, jj);
            proof {
                assert(tok@ =~= cur.subrange(1, (jj - pos) as int));
            }
            let val = match self.resolve_chars(&tok) {
                Err(e) => {
                    return Err(e);
                },
                Ok(val) => val,
            };
            proof {
                assert(cur.subrange((jj - pos + 1) as int, cur.len() as int) =~= v@.subrange(
                    jj + 1 as int,
                    n as int,
                ));
            }
            Ok((val, jj + 1))
        } else {
            let frag = crate::chars::slice_chars(v, pos, n);
            proof {
                assert(frag@ =~= cur);
            }
            Err(AsmError::MalformedExpression(chars_to_string(&frag)))
        }
    }

    /// Evaluates a label line's address expression: the text before the
    /// closing `:`, terms joined by `+`/`-`, left to right with wraparound.
    #[verifier::rlimit(100)]
    #[verifier::spinoff_prover]
    pub fn parse_program_counter_label(&self, line: &str) -> (r: Result<u32, AsmError>)
        requires
            line@.len() > 0,
            line@[line@.len() - 1] == ':',
        ensures
            (r is Ok) == (spec_label_value(line@, self.fresh(), self.known()) is Ok),
            r is Ok ==> Ok::<u32, AsmIssue>(r->Ok_0) == spec_label_value(
                line@,
                self.fresh(),
                self.known(),
            ),
            r is Err ==> Err::<u32, AsmIssue>(issue_of(r->Err_0)) == spec_label_value(
                line@,
                self.fresh(),
                self.known(),
            ),
            r is Err ==> asm_error_text(r->Err_0) == spec_label_offender(
                spec_trim_start(line@.subrange(0, line@.len() - 1)),
                self.fresh(),
                self.known(),
            ),
    {
        let ghost fr = self.fresh();
        let ghost kn = self.known();
        let ghost whole = spec_label_value(line@, fr, kn);
        let ghost offender = spec_label_offender(
            spec_trim_start(line@.subrange(0, line@.len() - 1)),
            fr,
            kn,
        );
        let v = str_to_chars(line);
        let n = v.len() - 1;
        let mut pos: usize = skip_spaces(&v, 0, n);
        proof {
            let body = v@.subrange(0, n as int);
            lemma_trim_start_skip(body, pos as int);
            assert(body.subrange(pos as int, n as int) =~= v@.subrange(pos as int, n as int));
            if pos < n {
                assert(!is_space_char(v@.subrange(pos as int, n as int)[0]));
            } else {
                assert(v@.subrange(pos as int, n as int).len() == 0);
            }
            assert(spec_trim_start(v@.subrange(pos as int, n as int)) =~= v@.subrange(
                pos as int,
                n as int,
            ));
            assert(whole == spec_label_loop(v@.subrange(pos as int, n as int), 0, true, fr, kn));
            assert(offender == spec_label_offender(v@.subrange(pos as int, n as int), fr, kn));
        }
        let mut acc: u32 = 0;
        let mut is_add: bool = true;
        loop
            invariant
                pos <= n,
                n == v@.len() - 1,
                v@ == line@,
                fr == self.fresh(),
                kn == self.known(),
                whole == spec_label_value(line@, fr, kn),
                offender == spec_label_offender(
                    spec_trim_start(line@.subrange(0, line@.len() - 1)),
                    fr,
                    kn,
                ),
                whole == spec_label_loop(
                    v@.subrange(pos as int, n as int),
                    acc,
                    is_add,
                    fr,
                    kn,
                ),
                offender == spec_label_offender(v@.subrange(pos as int, n as int), fr, kn),
            decreases n - pos,
        {
            let ghost cur = v@.subrange(pos as int, n as int);
            if pos == n {
                proof {
                    assert(offender =~= Seq::<char>::empty());
                }
                return Err(AsmError::MalformedExpression(String::new()));
            }
            let (val, after) = match self.eval_term(&v, pos, n) {
                Err(e) => {
                    return Err(e);
                },
                Ok(p) => p,
            };
            let acc2: u32 = if is_add {
                acc.wrapping_add(val)
            } else {
                acc.wrapping_sub(val)
            };
            proof {
                assert(whole == spec_label_after_term(
                    v@.subrange(after as int, n as int),
                    acc2,
                    fr,
                    kn,
                ));
                assert(offender == spec_label_offender_after(
                    v@.subrange(after as int, n as int),
                    fr,
                    kn,
                ));
            }
            let p2 = skip_spaces(&v, after, n);
            proof {
                let rest = v@.subrange(after as int, n as int);
                lemma_trim_start_skip(rest, (p2 - after) as int);
                assert(rest.subrange((p2 - after) as int, rest.len() as int) =~= v@.subrange(
                    p2 as int,
                    n as int,
                ));
                if p2 < n {
                    assert(v@.subrange(p2 as int, n as int)[0] == v@[p2 as int]);
                    assert(!is_space_char(v@.subrange(p2 as int, n as int)[0]));
                }
                assert(spec_trim_start(v@.subrange(p2 as int, n as int)) =~= v@.subrange(
                    p2 as int,
                    n as int,
                ));
                assert(spec_trim_start(rest) == v@.subrange(p2 as int, n as int));
            }
            if p2 == n {
                proof {
                    assert(spec_trim_start(v@.subrange(after as int, n as int)).len() == 0);
                }
                return Ok(acc2);
            }
            let c2 = v[p2];
            let next_add: bool;
            if c2 == '+' {
                next_add = true;
            } else if c2 == '-' {
                next_add = false;
            } else {
                proof {
                    let t = spec_trim_start(v@.subrange(after as int, n as int));
                    assert(t[0] == v@[p2 as int]);
                    assert(offender == t);
                }
                let frag = crate::chars::slice_chars(&v, p2, n);
                return Err(AsmError::MalformedExpression(chars_to_string(&frag)));
            }
            let p3 = skip_spaces(&v, p2 + 1, n);
            proof {
                let t = spec_trim_start(v@.subrange(after as int, n as int));
                assert(t[0] == v@[p2 as int]);
                assert(t.subrange(1, t.len() as int) =~= v@.subrange(p2 + 1 as int, n as int));
                let rest2 = v@.subrange(p2 + 1 as int, n as int);
                lemma_trim_start_skip(rest2, (p3 - (p2 + 1)) as int);
                assert(rest2.subrange((p3 - (p2 + 1)) as int, rest2.len() as int) =~= v@.subrange(
                    p3 as int,
                    n as int,
                ));
                if p3 < n {
                    assert(v@.subrange(p3 as int, n as int)[0] == v@[p3 as int]);
                    assert(!is_space_char(v@.subrange(p3 as int, n as int)[0]));
                }
                assert(spec_trim_start(v@.subrange(p3 as int, n as int)) =~= v@.subrange(
                    p3 as int,
                    n as int,
                ));
                assert(whole == spec_label_loop(
                    v@.subrange(p3 as int, n as int),
                    acc2,
                    next_add,
                    fr,
                    kn,
                ));
                assert(offender == spec_label_offender(
                    v@.subrange(p3 as int, n as int),
                    fr,
                    kn,
                ));
            }
            acc = acc2;
            is_add = next_add;
            pos = p3;
        }
    }
}

impl Assembler {
    /// Encodes one instruction line (already reduced to code, non-empty, and
    /// no label) into the word at the current counter.
    #[verifier::rlimit(100)]
    fn parse_instruction(&self, v: &Vec<char>) -> (r: Result<Instruction, AsmError>)
        ensures
            (r is Ok) == (spec_instruction_word(v@, self.pc(), self.fresh(), self.known()) is Ok),
            r is Ok ==> r->Ok_0 == (Instruction {
                address: self.pc(),
                data: spec_instruction_word(v@, self.pc(), self.fresh(), self.known())->Ok_0,
            }),
            r is Err ==> Err::<u32, AsmIssue>(issue_of(r->Err_0)) == spec_instruction_word(
                v@,
                self.pc(),
                self.fresh(),
                self.known(),
            ),
            r is Err && r->Err_0 is UnknownInstruction ==> (r->Err_0 matches
            AsmError::UnknownInstruction(p) && p@ == v@),
    {
        let n = v.len();
        proof {
            if n >= 3 && v@[0] == 'b' && v@[1] == 'l' && v@[2] == ' ' {
                assert(v@.subrange(0, 3) =~= seq!['b', 'l', ' ']);
            }
            if n >= 2 && v@[0] == 'b' && v@[1] == ' ' {
                assert(v@.subrange(0, 2) =~= seq!['b', ' ']);
            }
            if n >= 4 && v@[0] == 'u' && v@[1] == '3' && v@[2] == '2' && v@[3] == ' ' {
                assert(v@.subrange(0, 4) =~= seq!['u', '3', '2', ' ']);
            }
            if n >= 4 && v@[0] == 'l' && v@[1] == 'i' && v@[2] == 's' && v@[3] == ' ' {
                assert(v@.subrange(0, 4) =~= seq!['l', 'i', 's', ' ']);
            }
            if n == 3 && v@[0] == 'n' && v@[1] == 'o' && v@[2] == 'p' {
                assert(v@ =~= seq!['n', 'o', 'p']);
            }
            if starts_with(v@, seq!['b', 'l', ' ']) {
                assert(v@[0] == 'b' && v@[1] == 'l' && v@[2] == ' ');
            }
            if starts_with(v@, seq!['b', ' ']) {
                assert(v@[0] == 'b' && v@[1] == ' ');
            }
            if starts_with(v@, seq!['u', '3', '2', ' ']) {
                assert(v@[0] == 'u' && v@[1] == '3' && v@[2] == '2' && v@[3] == ' ');
            }
            if starts_with(v@, seq!['l', 'i', 's', ' ']) {
                assert(v@[0] == 'l' && v@[1] == 'i' && v@[2] == 's' && v@[3] == ' ');
            }
            if v@ == seq!['n', 'o', 'p'] {
                assert(v@[0] == 'n' && v@[1] == 'o' && v@[2] == 'p' && v@.len() == 3);
            }
        }
        let data: u32;
        if n >= 3 && v[0] == 'b' && v[1] == 'l' && v[2] == ' ' {
            let tok = crate::chars::slice_chars(v, 3, n);
            let destination = match self.resolve_chars(&tok) {
                Err(e) => {
                    return Err(e);
                },
                Ok(d) => d,
            };
            data = build_branch_instruction(self.program_counter, destination, false, true);
        } else if n >= 2 && v[0] == 'b' && v[1] == ' ' {
            let tok = crate::chars::slice_chars(v, 2, n);
            let destination = match self.resolve_chars(&tok) {
                Err(e) => {
                    return Err(e);
                },
                Ok(d) => d,
            };
            data = build_branch_instruction(self.program_counter, destination, false, false);
        } else if n >= 4 && v[0] == 'u' && v[1] == '3' && v[2] == '2' && v[3] == ' ' {
            let tok = crate::chars::slice_chars(v, 4, n);
            let s = chars_to_string(&tok);
            data = match parse_u32_literal(s.as_str()) {
                Err(e) => {
                    return Err(e);
                },
                Ok(w) => w,
            };
        } else if n >= 4 && v[0] == 'l' && v[1] == 'i' && v[2] == 's' && v[3] == ' ' {
            let rest = crate::chars::slice_chars(v, 4, n);
            data = match self.parse_lis_operands(&rest) {
                Err(e) => {
                    return Err(e);
                },
                Ok(w) => w,
            };
        } else if n == 3 && v[0] == 'n' && v[1] == 'o' && v[2] == 'p' {
            data = 0x60000000;
        } else {
            return Err(AsmError::UnknownInstruction(chars_to_string(v)));
        }
        Ok(Instruction { address: self.program_counter, data })
    }

    /// Reads the `r<N>, <imm>` operands of a `lis` line and encodes the word.
    fn parse_lis_operands(&self, rest: &Vec<char>) -> (r: Result<u32, AsmError>)
        ensures
            (r is Ok) == (spec_lis_word(rest@) is Ok),
            r is Ok ==> Ok::<u32, AsmIssue>(r->Ok_0) == spec_lis_word(rest@),
            r is Err ==> Err::<u32, AsmIssue>(issue_of(r->Err_0)) == spec_lis_word(rest@),
    {
        let n = rest.len();
        proof {
            assert(rest@.subrange(0, n as int) =~= rest@);
        }
        let c = scan_comma(rest, 0, n);
        let reg_raw = crate::chars::slice_chars(rest, 0, c);
        let reg = crate::chars::trim_chars(&reg_raw);
        if reg.len() == 0 || reg[0] != 'r' {
            return Err(AsmError::BadRegister(chars_to_string(&reg)));
        }
        let reg_tail = crate::chars::slice_chars(&reg, 1, reg.len());
        let s = chars_to_string(&reg_tail);
        let register = match parse_i64_literal(s.as_str()) {
            Err(e) => {
                return Err(e);
            },
            Ok(x) => x,
        };
        if c == n {
            return Err(AsmError::MissingOperand);
        }
        let c2 = scan_comma(rest, c + 1, n);
        let imm_raw = crate::chars::slice_chars(rest, c + 1, c2);
        let imm_tok = crate::chars::trim_chars(&imm_raw);
        let s2 = chars_to_string(&imm_tok);
        let imm = match parse_i64_literal(s2.as_str()) {
            Err(e) => {
                return Err(e);
            },
            Ok(x) => x,
        };
        Ok(build_lis_instruction(register as u8, imm as i16))
    }
}

/// The character sequences of a slice of string slices.
pub open spec fn views_of(lines: Seq<&str>) -> Seq<Seq<char>> {
    Seq::new(lines.len(), |i: int| lines[i]@)
}

impl Assembler {
    /// The single sequential pass: skips reduced-empty lines, lets label
    /// lines replace the counter, and emits one instruction per
    /// instruction line, advancing the counter by four.
    #[verifier::rlimit(100)]
    pub fn assemble_all_lines(&mut self, lines: &[&str]) -> (r: Result<Vec<Instruction>, AsmError>)
        ensures
            final(self).fresh() == old(self).fresh(),
            final(self).known() == old(self).known(),
            (r is Ok) == (spec_assemble(
                views_of(lines@),
                old(self).pc(),
                old(self).fresh(),
                old(self).known(),
            ) is Ok),
            r is Ok ==> spec_assemble(
                views_of(lines@),
                old(self).pc(),
                old(self).fresh(),
                old(self).known(),
            ) == Ok::<_, AsmIssue>((r->Ok_0@, final(self).pc())),
            r is Err ==> spec_assemble(
                views_of(lines@),
                old(self).pc(),
                old(self).fresh(),
                old(self).known(),
            ) == Err::<(Seq<Instruction>, u32), AsmIssue>(issue_of(r->Err_0)),
    {
        let ghost ll = views_of(lines@);
        let ghost fr = self.fresh();
        let ghost kn = self.known();
        let ghost pc0 = self.pc();
        let mut instructions: Vec<Instruction> = Vec::new();
        let n = lines.len();
        proof {
            assert(ll.subrange(0, n as int) =~= ll);
        }
        let mut i: usize = 0;
        while i < n
            invariant
                i <= n,
                n == lines@.len(),
                ll == views_of(lines@),
                fr == self.fresh(),
                fr == old(self).fresh(),
                kn == self.known(),
                kn == old(self).known(),
                pc0 == old(self).pc(),
                spec_assemble(ll.subrange(i as int, n as int), self.pc(), fr, kn) is Ok
                    ==> spec_assemble(ll, pc0, fr, kn) == Ok::<_, AsmIssue>(
                    (
                        instructions@ + spec_assemble(
                            ll.subrange(i as int, n as int),
                            self.pc(),
                            fr,
                            kn,
                        )->Ok_0.0,
                        spec_assemble(ll.subrange(i as int, n as int), self.pc(), fr, kn)->Ok_0.1,
                    ),
                ),
                spec_assemble(ll.subrange(i as int, n as int), self.pc(), fr, kn) is Err
                    ==> spec_assemble(ll, pc0, fr, kn) == Err::<(Seq<Instruction>, u32), AsmIssue>(
                    spec_assemble(ll.subrange(i as int, n as int), self.pc(), fr, kn)->Err_0,
                ),
            decreases n - i,
        {
            let ghost rest = ll.subrange(i as int, n as int);
            proof {
                assert(rest[0] == ll[i as int]);
                assert(rest.subrange(1, rest.len() as int) =~= ll.subrange(i + 1 as int, n as int));
            }
            let line: &&str = vstd::slice::slice_index_get(lines, i);
            let red: &str = reduce_line_to_code(*line);
            let rv = str_to_chars(red);
            if rv.len() == 0 {
                i += 1;
                continue ;
            }
            if rv[rv.len() - 1] == ':' {
                match self.parse_program_counter_label(red) {
                    Err(e) => {
                        return Err(e);
                    },
                    Ok(npc) => {
                        self.program_counter = npc;
                    },
                }
            } else {
                match self.parse_instruction(&rv) {
                    Err(e) => {
                        return Err(e);
                    },
                    Ok(instruction) => {
                        let ghost before = instructions@;
                        instructions.push(instruction);
                        self.program_counter = self.program_counter.wrapping_add(4);
                        proof {
                            let tail = spec_assemble(
                                ll.subrange(i + 1 as int, n as int),
                                self.pc(),
                                fr,
                                kn,
                            );
                            if tail is Ok {
                                assert(before + (seq![instruction] + tail->Ok_0.0)
                                    =~= instructions@ + tail->Ok_0.0);
                            }
                        }
                    },
                }
            }
            i += 1;
        }
        proof {
            assert(ll.subrange(n as int, n as int) =~= Seq::<Seq<char>>::empty());
            assert(instructions@ + Seq::<Instruction>::empty() =~= instructions@);
        }
        Ok(instructions)
    }
}

/// The first `,` at or past `from` (bounded by `n`), or `n`.
fn scan_comma(v: &Vec<char>, from: usize, n: usize) -> (r: usize)
    requires
        from <= n <= v@.len(),
    ensures
        from <= r <= n,
        r == spec_first_comma(v@.subrange(0, n as int), from as int),
{
    let mut i: usize = from;
    while i < n && v[i] != ','
        invariant
            from <= i <= n <= v@.len(),
            forall|j: int| from <= j < i ==> v@[j] != ',',
        decreases n - i,
    {
        i += 1;
    }
    proof {
        lemma_first_comma(v@.subrange(0, n as int), from as int, i as int);
    }
    i
}

pub proof fn lemma_first_comma(s: Seq<char>, i: int, j: int)
    requires
        0 <= i <= j <= s.len(),
        forall|k: int| i <= k < j ==> s[k] != ',',
        j == s.len() || s[j] == ',',
    ensures
        spec_first_comma(s, i) == j,
    decreases j - i,
{
    if i < j {
        lemma_first_comma(s, i + 1, j);
    }
}

/// The first index at or past `from` (bounded by `n`) holding a
/// non-whitespace character.
fn skip_spaces(v: &Vec<char>, from: usize, n: usize) -> (r: usize)
    requires
        from <= n <= v@.len(),
    ensures
        from <= r <= n,
        forall|j: int| from <= j < r ==> is_space_char(v@[j]),
        r < n ==> !is_space_char(v@[r as int]),
{
    let mut i: usize = from;
    while i < n && exec_is_space_char(v[i])
        invariant
            from <= i <= n <= v@.len(),
            forall|j: int| from <= j < i ==> is_space_char(v@[j]),
        decreases n - i,
    {
        i += 1;
    }
    i
}

fn exec_num_term_char(c: char, rel: usize) -> (r: bool)
    ensures
        r == num_term_char(c, rel as int),
{
    exec_is_digit_char(c) || ('A' <= c && c <= 'F') || ('a' <= c && c <= 'f') || c == '_' || (c
        == '-' && rel == 0) || (c == 'x' && rel == 1)
}

/// Scans the numeric term starting at `pos`: digits, hex letters, `_`, a
/// leading `-`, an `x` in second place.
fn scan_num_term(v: &Vec<char>, pos: usize, n: usize) -> (j: usize)
    requires
        pos <= n <= v@.len(),
    ensures
        pos <= j <= n,
        j - pos == spec_num_term_len(v@.subrange(pos as int, n as int), 0),
{
    let ghost cur = v@.subrange(pos as int, n as int);
    let mut j: usize = pos;
    while j < n && exec_num_term_char(v[j], j - pos)
        invariant
            pos <= j <= n <= v@.len(),
            cur == v@.subrange(pos as int, n as int),
            forall|k: int| 0 <= k < j - pos ==> num_term_char(cur[k], k),
        decreases n - j,
    {
        j += 1;
    }
    proof {
        lemma_num_term_len(cur, (j - pos) as int);
        if j < n {
            assert(cur[(j - pos) as int] == v@[j as int]);
        }
    }
    j
}

/// Finds the `]` matching the `[` at `pos`, honouring nesting, or `None`
/// when the term is unterminated.
fn scan_bracket_close(v: &Vec<char>, pos: usize, n: usize) -> (r: Option<usize>)
    requires
        pos < n <= v@.len(),
    ensures
        match r {
            Some(j) => pos < j < n && Some((j - pos) as int) == spec_bracket_close(
                v@.subrange(pos as int, n as int),
                1,
                1,
            ),
            None => spec_bracket_close(v@.subrange(pos as int, n as int), 1, 1) is None,
        },
{
    let ghost cur = v@.subrange(pos as int, n as int);
    let mut j: usize = pos + 1;
    let mut depth: usize = 1;
    loop
        invariant
            pos + 1 <= j <= n <= v@.len(),
            1 <= depth <= j - pos,
            cur == v@.subrange(pos as int, n as int),
            spec_bracket_close(cur, 1, 1) == spec_bracket_close(
                cur,
                (j - pos) as int,
                depth as int,
            ),
        decreases n - j,
    {
        if j == n {
            return None;
        }
        let c = v[j];
        proof {
            assert(cur[(j - pos) as int] == v@[j as int]);
        }
        if c == ']' && depth == 1 {
            return Some(j);
        }
        if c == ']' {
            depth = depth - 1;
        } else if c == '[' {
            depth = depth + 1;
        }
        j += 1;
    }
}

} // verus!
