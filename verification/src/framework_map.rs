//! The symbol-map codec: reads the game's legacy text symbol map into a
//! name-to-address table, and writes a fresh build's section layout in the
//! same text format, optionally with the legacy map re-demangled below it.
//!
//! A row of the map is: two spaces, an eight-character word field, a space,
//! a six-character word field, a space, an eight-character address field,
//! four ignored characters, the symbol name, and two whitespace characters.

use vstd::prelude::*;
use vstd::string::StringSliceAdditionalSpecFns;
use vstd::utf8::{decode_utf8, valid_utf8};
use vstd::wrapping::u32_specs;
use crate::chars::{
    chars_to_string, exec_is_digit_char, exec_is_hex_digit_char, exec_is_space_char,
    exec_is_word_char, exec_hex_val, is_digit_char, is_hex_digit_char, is_space_char,
    is_word_char, slice_chars, spec_hex, spec_hex_val, spec_lines, split_lines, str_to_chars,
    utf8_to_str, append_hex,
};
use crate::demangle::{demangle, spec_demangle};
use crate::errors::MapError;
use crate::linker::{LinkedSection, LinkedSectionView};
use crate::objects::SectionKind;
use crate::symtab::{spec_insert_replace, SymbolTable};

verus! {

/// The fixed head of a row at `i`: the two-space lead, the two ignored word
/// fields, and the address field, thirty characters in all (the four
/// ignored characters after the address may be anything).
pub open spec fn row_fixed_match(s: Seq<char>, i: int) -> bool {
    &&& 0 <= i
    &&& i + 30 <= s.len()
    &&& is_space_char(s[i])
    &&& is_space_char(s[i + 1])
    &&& forall|k: int| i + 2 <= k < i + 10 ==> is_word_char(s[k])
    &&& is_space_char(s[i + 10])
    &&& forall|k: int| i + 11 <= k < i + 17 ==> is_word_char(s[k])
    &&& is_space_char(s[i + 17])
    &&& forall|k: int| i + 18 <= k < i + 26 ==> is_word_char(s[k])
}

/// The position of the last adjacent whitespace pair starting at or below
/// `j`.
pub open spec fn spec_last_ws_pair(s: Seq<char>, j: int) -> Option<int>
    decreases j + 1,
{
    if j < 0 || j + 2 > s.len() {
        None
    } else if is_space_char(s[j]) && is_space_char(s[j + 1]) {
        Some(j)
    } else {
        spec_last_ws_pair(s, j - 1)
    }
}

/// Whether a row starts at `i`: the fixed head matches and a whitespace
/// pair closes the greedy name capture.
pub open spec fn row_match_at(s: Seq<char>, i: int) -> bool {
    row_fixed_match(s, i) && match spec_last_ws_pair(s, s.len() - 2) {
        Some(j) => j >= i + 30,
        None => false,
    }
}

/// The leftmost row start at or past `i`.
pub open spec fn spec_row_start(s: Seq<char>, i: int) -> Option<int>
    decreases s.len() - i,
{
    if i < 0 || i + 30 > s.len() {
        None
    } else if row_match_at(s, i) {
        Some(i)
    } else {
        spec_row_start(s, i + 1)
    }
}

/// The value of a hex field; a non-hex character fails the field.
pub open spec fn spec_hex_field(t: Seq<char>, i: int, acc: int) -> Option<int>
    decreases t.len() - i,
{
    if i >= t.len() {
        Some(acc)
    } else if is_hex_digit_char(t[i]) {
        spec_hex_field(t, i + 1, acc * 16 + spec_hex_val(t[i]))
    } else {
        None
    }
}

/// What one line contributes: nothing when no row matches or the name is a
/// section marker; a hard error when the address field is not hex; else the
/// demangled (or raw) name bound to the address.
pub open spec fn spec_map_line(line: Seq<char>) -> Result<Option<(Seq<char>, u32)>, ()> {
    match spec_row_start(line, 0) {
        None => Ok(None),
        Some(i) => {
            let j = spec_last_ws_pair(line, line.len() - 2)->0;
            let name = line.subrange(i + 30, j);
            if name.len() > 0 && name[0] == '.' {
                Ok(None)
            } else {
                match spec_hex_field(line.subrange(i + 18, i + 26), 0, 0) {
                    None => Err(()),
                    Some(v) => Ok(
                        Some(
                            (
                                match spec_demangle(name) {
                                    Some(d) => d,
                                    None => name,
                                },
                                v as u32,
                            ),
                        ),
                    ),
                }
            }
        },
    }
}

/// Folds every line into the table: later rows overwrite earlier ones, and
/// one bad address field fails the whole parse.
pub open spec fn spec_parse_lines(
    lines: Seq<Seq<char>>,
    i: int,
    acc: Seq<(Seq<char>, u32)>,
) -> Result<Seq<(Seq<char>, u32)>, ()>
    decreases lines.len() - i,
{
    if i < 0 || i >= lines.len() {
        Ok(acc)
    } else {
        match spec_map_line(lines[i]) {
            Err(()) => Err(()),
            Ok(None) => spec_parse_lines(lines, i + 1, acc),
            Ok(Some((k, v))) => spec_parse_lines(lines, i + 1, spec_insert_replace(acc, k, v)),
        }
    }
}

/// The table the map's bytes denote, when they are valid text.
pub open spec fn spec_parse_map(bytes: Seq<u8>) -> Result<Seq<(Seq<char>, u32)>, ()> {
    spec_parse_lines(spec_lines(decode_utf8(bytes)), 0, Seq::empty())
}

pub proof fn lemma_row_start_scan(s: Seq<char>, i: int)
    requires
        0 <= i,
        forall|i2: int| 0 <= i2 < i ==> !row_match_at(s, i2),
    ensures
        spec_row_start(s, 0) == spec_row_start(s, i),
    decreases i,
{
    if i > 0 {
        lemma_row_start_scan(s, i - 1);
    }
}

/// Whether all of `v[lo..hi]` are word characters.
fn check_word_run(v: &Vec<char>, lo: usize, hi: usize) -> (r: bool)
    requires
        lo <= hi <= v@.len(),
    ensures
        r == (forall|k: int| lo <= k < hi ==> is_word_char(v@[k])),
{
    let mut k: usize = lo;
    while k < hi
        invariant
            lo <= k <= hi <= v@.len(),
            forall|m: int| lo <= m < k ==> is_word_char(v@[m]),
        decreases hi - k,
    {
        if !exec_is_word_char(v[k]) {
            return false;
        }
        k += 1;
    }
    true
}

/// Whether a row's fixed head matches at `i`.
fn fixed_match_at(v: &Vec<char>, i: usize) -> (r: bool)
    requires
        i + 30 <= v@.len(),
    ensures
        r == row_fixed_match(v@, i as int),
{
    let _bound = v.len();
    exec_is_space_char(v[i]) && exec_is_space_char(v[i + 1]) && check_word_run(v, i + 2, i + 10)
        && exec_is_space_char(v[i + 10]) && check_word_run(v, i + 11, i + 17)
        && exec_is_space_char(v[i + 17]) && check_word_run(v, i + 18, i + 26)
}

/// The last adjacent whitespace pair of the line.
fn find_last_ws_pair(v: &Vec<char>) -> (r: Option<usize>)
    ensures
        match r {
            Some(j) => j + 2 <= v@.len() && Some(j as int) == spec_last_ws_pair(
                v@,
                v@.len() - 2,
            ),
            None => spec_last_ws_pair(v@, v@.len() - 2) is None,
        },
{
    let n = v.len();
    if n < 2 {
        return None;
    }
    let mut j: usize = n - 2;
    loop
        invariant
            j <= n - 2,
            n == v@.len(),
            n >= 2,
            spec_last_ws_pair(v@, n - 2) == spec_last_ws_pair(v@, j as int),
        decreases j,
    {
        if exec_is_space_char(v[j]) && exec_is_space_char(v[j + 1]) {
            return Some(j);
        }
        if j == 0 {
            return None;
        }
        j = j - 1;
    }
}

/// The leftmost row of the line: its start and the closing pair position.
fn match_row(line: &Vec<char>) -> (r: Option<(usize, usize)>)
    ensures
        match r {
            Some((i, j)) => {
                &&& Some(i as int) == spec_row_start(line@, 0)
                &&& Some(j as int) == spec_last_ws_pair(line@, line@.len() - 2)
                &&& i + 30 <= j
                &&& j + 2 <= line@.len()
            },
            None => spec_row_start(line@, 0) is None,
        },
{
    let n = line.len();
    let jlast = find_last_ws_pair(line);
    if n < 30 {
        return None;
    }
    let mut i: usize = 0;
    while i <= n - 30
        invariant
            n == line@.len(),
            n >= 30,
            i <= n,
            match jlast {
                Some(j) => j + 2 <= n && Some(j as int) == spec_last_ws_pair(line@, n - 2),
                None => spec_last_ws_pair(line@, n - 2) is None,
            },
            forall|i2: int| 0 <= i2 < i ==> !row_match_at(line@, i2),
        decreases n - i,
    {
        let fixed = fixed_match_at(line, i);
        let pair_ok: bool = match jlast {
            Some(j) => j >= i + 30,
            None => false,
        };
        if fixed && pair_ok {
            proof {
                lemma_row_start_scan(line@, i as int);
                assert(row_match_at(line@, i as int));
            }
            return Some((i, jlast.unwrap()));
        }
        proof {
            assert(!row_match_at(line@, i as int));
        }
        i += 1;
    }
    proof {
        lemma_row_start_scan(line@, i as int);
        assert(spec_row_start(line@, i as int) is None);
    }
    None
}

/// One line's contribution to the table.
fn map_line(line: &Vec<char>) -> (r: Result<Option<(String, u32)>, MapError>)
    ensures
        (r is Ok) == (spec_map_line(line@) is Ok),
        r is Err ==> r->Err_0 is BadAddress,
        r is Ok ==> match (r->Ok_0, spec_map_line(line@)->Ok_0) {
            (Some(p), Some(q)) => p.0@ == q.0 && p.1 == q.1,
            (None, None) => true,
            _ => false,
        },
{
    let n = line.len();
    let (i, j) = match match_row(line) {
        None => {
            return Ok(None);
        },
        Some(x) => x,
    };
    let name_vec = slice_chars(line, i + 30, j);
    if name_vec.len() > 0 && name_vec[0] == '.' {
        return Ok(None);
    }
    let ghost addr_t = line@.subrange(i + 18, i + 26);
    let mut acc: u64 = 0;
    let mut k: usize = 0;
    while k < 8
        invariant
            k <= 8,
            n == line@.len(),
            i + 30 <= n,
            Some(i as int) == spec_row_start(line@, 0),
            Some(j as int) == spec_last_ws_pair(line@, line@.len() - 2),
            i + 30 <= j,
            j + 2 <= n,
            !(line@.subrange(i + 30, j as int).len() > 0 && line@.subrange(i + 30, j as int)[0]
                == '.'),
            addr_t == line@.subrange(i + 18, i + 26),
            acc < (1u64 << ((4 * k) as u64)) || k == 0 && acc == 0,
            spec_hex_field(addr_t, 0, 0) == spec_hex_field(addr_t, k as int, acc as int),
        decreases 8 - k,
    {
        let c = line[i + 18 + k];
        proof {
            assert(addr_t[k as int] == line@[i + 18 + k]);
        }
        if !exec_is_hex_digit_char(c) {
            proof {
                assert(spec_hex_field(addr_t, k as int, acc as int) is None);
                assert(spec_map_line(line@) is Err);
            }
            let f = slice_chars(line, i + 18, i + 26);
            return Err(MapError::BadAddress(chars_to_string(&f)));
        }
        let d = exec_hex_val(c);
        proof {
            assert(acc <= 0x0FFF_FFFF_FFFF_FFFFu64) by (bit_vector)
                requires
                    acc < (1u64 << ((4 * k) as u64)) || k == 0 && acc == 0,
                    k < 8,
            ;
        }
        proof {
            assert(acc * 16 + d < (1u64 << ((4 * (k + 1)) as u64))) by (bit_vector)
                requires
                    acc < (1u64 << ((4 * k) as u64)) || k == 0 && acc == 0,
                    k < 8,
                    d < 16,
            ;
        }
        acc = acc * 16 + d;
        k += 1;
    }
    proof {
        assert(spec_hex_field(addr_t, 8, acc as int) == Some(acc as int));
        assert(acc < 0x1_0000_0000) by (bit_vector)
            requires
                acc < (1u64 << 32u64) || acc == 0,
        ;
    }
    proof {
        assert(spec_map_line(line@) is Ok);
        assert(spec_map_line(line@)->Ok_0 is Some);
    }
    let name_str = chars_to_string(&name_vec);
    let key: String = match demangle(name_str.as_str()) {
        Some(d) => d,
        None => name_str,
    };
    Ok(Some((key, acc as u32)))
}

/// Reads the game's legacy symbol map: non-matching lines are silently
/// ignored, section markers are skipped, a matching row with a corrupt
/// address field fails the entire parse, and matched names are demangled
/// with the legacy scheme, the raw name kept when that fails.
pub fn parse(buf: &[u8]) -> (r: Result<SymbolTable, MapError>)
    ensures
        (r is Ok) == (valid_utf8(buf@) && spec_parse_map(buf@) is Ok),
        !valid_utf8(buf@) ==> r is Err && r->Err_0 is InvalidUtf8,
        valid_utf8(buf@) && spec_parse_map(buf@) is Err ==> r is Err && r->Err_0 is BadAddress,
        r is Ok ==> Ok::<Seq<(Seq<char>, u32)>, ()>(r->Ok_0@) == spec_parse_map(buf@),
{
    let s = match utf8_to_str(buf) {
        None => {
            return Err(MapError::InvalidUtf8);
        },
        Some(s) => s,
    };
    proof {
        vstd::utf8::encode_utf8_decode_utf8(s@);
        assert(s@ == decode_utf8(buf@));
    }
    let v = str_to_chars(s);
    let lines = split_lines(&v);
    let ghost ll = lines.deep_view();
    let ghost whole = spec_parse_lines(ll, 0, Seq::empty());
    let mut t = SymbolTable::new();
    let n = lines.len();
    let mut i: usize = 0;
    while i < n
        invariant
            i <= n,
            n == lines@.len(),
            ll == lines.deep_view(),
            ll.len() == n,
            valid_utf8(buf@),
            ll == spec_lines(decode_utf8(buf@)),
            whole == spec_parse_lines(ll, 0, Seq::<(Seq<char>, u32)>::empty()),
            whole == spec_parse_lines(ll, i as int, t@),
        decreases n - i,
    {
        proof {
            assert(ll[i as int] == lines@[i as int]@);
        }
        match map_line(&lines[i]) {
            Err(e) => {
                return Err(e);
            },
            Ok(None) => {},
            Ok(Some((k, vaddr))) => {
                t.insert_replace(k, vaddr);
            },
        }
        i += 1;
    }
    Ok(t)
}

/// What the new toolchain's demangler prints for a mangled name: the
/// printed form depends on the name's characters alone.
pub uninterp spec fn rust_demangle_of(s: Seq<char>) -> Seq<char>;

/// Relies on rustc_demangle::demangle: the printed demangling of the name,
/// a function of the name alone (the name itself when it is not mangled).
#[verifier::external_body]
fn rust_demangle(s: &str) -> (r: String)
    ensures
        r@ == rust_demangle_of(s@),
{
    format!("{}", rustc_demangle::demangle(s))
}

/// The number of hex digits of `v`.
pub open spec fn spec_hex_digits(v: u64) -> nat
    decreases v,
{
    if v < 16 {
        1
    } else {
        1 + spec_hex_digits(v / 16)
    }
}

/// `v` in hex, at least `minw` digits wide, wider when `v` needs more.
pub open spec fn spec_hex_min(v: u64, minw: nat) -> Seq<char> {
    spec_hex(
        v,
        if spec_hex_digits(v) > minw {
            spec_hex_digits(v)
        } else {
            minw
        },
    )
}

/// A section's display name: a code section whose raw name carries the
/// compiled-code prefix is demangled with the new toolchain's scheme, and a
/// nineteen-character hash suffix introduced by `::h` is stripped.
pub open spec fn spec_display_name(sec: LinkedSectionView) -> Seq<char> {
    let nm = sec.section_name;
    if sec.kind == SectionKind::TextSection && nm.len() >= 6 && nm[0] == '.' && nm[1] == 't'
        && nm[2] == 'e' && nm[3] == 'x' && nm[4] == 't' && nm[5] == '.' {
        let d = rust_demangle_of(nm.subrange(6, nm.len() as int));
        if d.len() >= 19 && d[d.len() - 19] == ':' && d[d.len() - 18] == ':' && d[d.len() - 17]
            == 'h' {
            d.subrange(0, d.len() - 19)
        } else {
            d
        }
    } else {
        nm
    }
}

/// One row of the written map.
pub open spec fn spec_row_text(sec: LinkedSectionView) -> Seq<char> {
    "  00000000 "@ + spec_hex_min(u32_specs::wrapping_sub(sec.len, sec.sym_offset) as u64, 6)
        + " "@ + spec_hex(u32_specs::wrapping_add(sec.address, sec.sym_offset) as u64, 8)
        + "  4 "@ + spec_display_name(sec) + " \t"@ + sec.member_name + "\n"@
}

pub open spec fn spec_rows(secs: Seq<LinkedSectionView>, i: int) -> Seq<char>
    decreases secs.len() - i,
{
    if i < 0 || i >= secs.len() {
        Seq::empty()
    } else {
        spec_row_text(secs[i]) + spec_rows(secs, i + 1)
    }
}

/// The fresh build's map text: the header line, then one row per section.
pub open spec fn spec_map_text(secs: Seq<LinkedSectionView>) -> Seq<char> {
    ".text section layout\n"@ + spec_rows(secs, 0)
}

/// Whether the legacy map's name field starts at `i` of a line: two
/// whitespace characters, a digit, a whitespace character, and a
/// whitespace pair closing the greedy capture.
pub open spec fn repl_match_at(s: Seq<char>, i: int) -> bool {
    &&& 0 <= i
    &&& i + 4 <= s.len()
    &&& is_space_char(s[i])
    &&& is_space_char(s[i + 1])
    &&& is_digit_char(s[i + 2])
    &&& is_space_char(s[i + 3])
    &&& match spec_last_ws_pair(s, s.len() - 2) {
        Some(j) => j >= i + 4,
        None => false,
    }
}

pub open spec fn spec_repl_start(s: Seq<char>, i: int) -> Option<int>
    decreases s.len() - i,
{
    if i < 0 || i + 4 > s.len() {
        None
    } else if repl_match_at(s, i) {
        Some(i)
    } else {
        spec_repl_start(s, i + 1)
    }
}

/// A legacy map line with its symbol-name field re-demangled through the
/// legacy scheme; a line without the field is kept as it stands.
pub open spec fn spec_replaced_line(line: Seq<char>) -> Seq<char> {
    match spec_repl_start(line, 0) {
        None => line,
        Some(i) => {
            let j = spec_last_ws_pair(line, line.len() - 2)->0;
            let field = line.subrange(i + 4, j);
            let dem = match spec_demangle(field) {
                Some(d) => d,
                None => field,
            };
            line.subrange(0, i + 4) + dem + line.subrange(j, line.len() as int)
        },
    }
}

pub open spec fn spec_replaced_lines(lines: Seq<Seq<char>>, i: int) -> Seq<char>
    decreases lines.len() - i,
{
    if i < 0 || i >= lines.len() {
        Seq::empty()
    } else {
        spec_replaced_line(lines[i]) + "\n"@ + spec_replaced_lines(lines, i + 1)
    }
}

/// The appended legacy map: one blank line, then each line re-demangled.
pub open spec fn spec_appendix(bytes: Seq<u8>) -> Seq<char> {
    "\n"@ + spec_replaced_lines(spec_lines(decode_utf8(bytes)), 0)
}

pub proof fn lemma_repl_start_scan(s: Seq<char>, i: int)
    requires
        0 <= i,
        forall|i2: int| 0 <= i2 < i ==> !repl_match_at(s, i2),
    ensures
        spec_repl_start(s, 0) == spec_repl_start(s, i),
    decreases i,
{
    if i > 0 {
        lemma_repl_start_scan(s, i - 1);
    }
}

pub open spec fn spec_pow16(e: int) -> int
    decreases e,
{
    if e <= 0 {
        1
    } else {
        16 * spec_pow16(e - 1)
    }
}

pub proof fn lemma_hex_digits_pow(v: u64, w: int)
    requires
        w >= 1,
        (v as int) < spec_pow16(w),
    ensures
        spec_hex_digits(v) <= w,
    decreases v,
{
    if v >= 16 {
        assert(spec_pow16(w) == 16 * spec_pow16(w - 1));
        assert(((v / 16) as int) < spec_pow16(w - 1)) by (nonlinear_arith)
            requires
                (v as int) < 16 * spec_pow16(w - 1),
                v >= 16,
        ;
        lemma_hex_digits_pow(v / 16, w - 1);
    }
}

pub proof fn lemma_hex_digits_u64(v: u64)
    ensures
        1 <= spec_hex_digits(v) <= 16,
{
    assert(spec_pow16(0) == 1);
    assert(spec_pow16(1) == 16);
    assert(spec_pow16(2) == 0x100);
    assert(spec_pow16(3) == 0x1000);
    assert(spec_pow16(4) == 0x1_0000);
    assert(spec_pow16(5) == 0x10_0000);
    assert(spec_pow16(6) == 0x100_0000);
    assert(spec_pow16(7) == 0x1000_0000);
    assert(spec_pow16(8) == 0x1_0000_0000);
    assert(spec_pow16(9) == 0x10_0000_0000);
    assert(spec_pow16(10) == 0x100_0000_0000);
    assert(spec_pow16(11) == 0x1000_0000_0000);
    assert(spec_pow16(12) == 0x1_0000_0000_0000);
    assert(spec_pow16(13) == 0x10_0000_0000_0000);
    assert(spec_pow16(14) == 0x100_0000_0000_0000);
    assert(spec_pow16(15) == 0x1000_0000_0000_0000);
    assert(spec_pow16(16) == 0x1_0000_0000_0000_0000);
    lemma_hex_digits_pow(v, 16);
}

/// The number of hex digits `v` needs.
fn hex_width(v: u64) -> (r: u64)
    ensures
        r == spec_hex_digits(v),
        1 <= r <= 16,
    decreases v,
{
    proof {
        lemma_hex_digits_u64(v);
    }
    if v < 16 {
        1
    } else {
        hex_width(v / 16)
        + 1
    }
}

/// Appends `v` in hex, at least `minw` digits wide.
fn append_hex_min(s: &mut String, v: u64, minw: u64)
    requires
        minw <= 16,
    ensures
        final(s)@ == old(s)@ + spec_hex_min(v, minw as nat),
{
    let w = hex_width(v);
    let width = if w > minw {
        w
    } else {
        minw
    };
    append_hex(s, v, width);
}

/// The display name of one placed section.
fn display_name(sec: &LinkedSection) -> (r: String)
    ensures
        r@ == spec_display_name(sec@),
{
    let nv = str_to_chars(sec.section_name.as_str());
    let n = nv.len();
    let is_text = match sec.kind {
        SectionKind::TextSection => true,
        _ => false,
    };
    if is_text && n >= 6 && nv[0] == '.' && nv[1] == 't' && nv[2] == 'e' && nv[3] == 'x'
        && nv[4] == 't' && nv[5] == '.' {
        let tail = slice_chars(&nv, 6, n);
        let tail_str = chars_to_string(&tail);
        let d = rust_demangle(tail_str.as_str());
        let dv = str_to_chars(d.as_str());
        let dn = dv.len();
        if dn >= 19 && dv[dn - 19] == ':' && dv[dn - 18] == ':' && dv[dn - 17] == 'h' {
            let kept = slice_chars(&dv, 0, dn - 19);
            chars_to_string(&kept)
        } else {
            d
        }
    } else {
        sec.section_name.clone()
    }
}

/// The leftmost name field of a legacy map line.
fn match_repl(line: &Vec<char>) -> (r: Option<(usize, usize)>)
    ensures
        match r {
            Some((i, j)) => {
                &&& Some(i as int) == spec_repl_start(line@, 0)
                &&& Some(j as int) == spec_last_ws_pair(line@, line@.len() - 2)
                &&& i + 4 <= j
                &&& j + 2 <= line@.len()
            },
            None => spec_repl_start(line@, 0) is None,
        },
{
    let n = line.len();
    let jlast = find_last_ws_pair(line);
    if n < 4 {
        return None;
    }
    let mut i: usize = 0;
    while i <= n - 4
        invariant
            n == line@.len(),
            n >= 4,
            i <= n,
            match jlast {
                Some(j) => j + 2 <= n && Some(j as int) == spec_last_ws_pair(line@, n - 2),
                None => spec_last_ws_pair(line@, n - 2) is None,
            },
            forall|i2: int| 0 <= i2 < i ==> !repl_match_at(line@, i2),
        decreases n - i,
    {
        let fixed = exec_is_space_char(line[i]) && exec_is_space_char(line[i + 1])
            && exec_is_digit_char(line[i + 2]) && exec_is_space_char(line[i + 3]);
        let pair_ok: bool = match jlast {
            Some(j) => j >= i + 4,
            None => false,
        };
        if fixed && pair_ok {
            proof {
                lemma_repl_start_scan(line@, i as int);
                assert(repl_match_at(line@, i as int));
            }
            return Some((i, jlast.unwrap()));
        }
        proof {
            assert(!repl_match_at(line@, i as int));
        }
        i += 1;
    }
    proof {
        lemma_repl_start_scan(line@, i as int);
        assert(spec_repl_start(line@, i as int) is None);
    }
    None
}

/// Writes the fresh build's section layout as map text, and, when the
/// legacy map's bytes are supplied, appends them below one blank line with
/// every symbol-name field re-demangled through the legacy scheme.
#[verifier::rlimit(100)]
pub fn create(sections: &Vec<LinkedSection>, original: Option<&Vec<u8>>) -> (r: Result<
    String,
    MapError,
>)
    ensures
        match original {
            None => r is Ok && r->Ok_0@ == spec_map_text(sections.deep_view()),
            Some(b) => {
                &&& (r is Ok) == valid_utf8(b@)
                &&& !valid_utf8(b@) ==> r is Err && r->Err_0 is InvalidUtf8
                &&& r is Ok ==> r->Ok_0@ == spec_map_text(sections.deep_view()) + spec_appendix(
                    b@,
                )
            },
        },
{
    let ghost sv = sections.deep_view();
    let mut out = String::new();
    out.append(".text section layout\n");
    proof {
        assert(out@ =~= ".text section layout\n"@);
    }
    let n = sections.len();
    let mut i: usize = 0;
    while i < n
        invariant
            i <= n,
            n == sections@.len(),
            sv == sections.deep_view(),
            sv.len() == n,
            out@ + spec_rows(sv, i as int) == spec_map_text(sv),
        decreases n - i,
    {
        let ghost out_prev = out@;
        let sec = &sections[i];
        proof {
            assert(sv[i as int] == sections@[i as int]@);
        }
        out.append("  00000000 ");
        append_hex_min(&mut out, sec.len.wrapping_sub(sec.sym_offset) as u64, 6);
        out.append(" ");
        append_hex(&mut out, sec.address.wrapping_add(sec.sym_offset) as u64, 8);
        out.append("  4 ");
        let dname = display_name(sec);
        out.append(dname.as_str());
        out.append(" \t");
        out.append(sec.member_name.as_str());
        out.append("\n");
        proof {
            assert(out@ =~= out_prev + spec_row_text(sv[i as int]));
            assert((out_prev + spec_row_text(sv[i as int])) + spec_rows(sv, i + 1) =~= out_prev
                + spec_rows(sv, i as int));
        }
        i += 1;
    }
    proof {
        assert(out@ + Seq::<char>::empty() =~= out@);
        assert(out@ =~= spec_map_text(sv));
    }
    let b = match original {
        None => {
            return Ok(out);
        },
        Some(b) => b,
    };
    let s = match utf8_to_str(b.as_slice()) {
        None => {
            return Err(MapError::InvalidUtf8);
        },
        Some(s) => s,
    };
    proof {
        vstd::utf8::encode_utf8_decode_utf8(s@);
        assert(s@ == decode_utf8(b@));
    }
    out.append("\n");
    let v = str_to_chars(s);
    let lines = split_lines(&v);
    let ghost ll = lines.deep_view();
    let ghost target = spec_map_text(sv) + spec_appendix(b@);
    proof {
        assert(out@ + spec_replaced_lines(ll, 0) =~= target);
    }
    let nl = lines.len();
    let mut k: usize = 0;
    while k < nl
        invariant
            k <= nl,
            nl == lines@.len(),
            ll == lines.deep_view(),
            ll.len() == nl,
            out@ + spec_replaced_lines(ll, k as int) == target,
        decreases nl - k,
    {
        let ghost out_prev = out@;
        let line = &lines[k];
        proof {
            assert(ll[k as int] == lines@[k as int]@);
        }
        match match_repl(line) {
            None => {
                let whole = chars_to_string(line);
                out.append(whole.as_str());
            },
            Some((i, j)) => {
                let head = slice_chars(line, 0, i + 4);
                let field = slice_chars(line, i + 4, j);
                let tail = slice_chars(line, j, line.len());
                let field_str = chars_to_string(&field);
                let dem: String = match crate::demangle::demangle(field_str.as_str()) {
                    Some(d) => d,
                    None => field_str,
                };
                let head_str = chars_to_string(&head);
                out.append(head_str.as_str());
                out.append(dem.as_str());
                let tail_str = chars_to_string(&tail);
                out.append(tail_str.as_str());
            },
        }
        out.append("\n");
        proof {
            assert(out@ =~= out_prev + (spec_replaced_line(ll[k as int]) + "\n"@));
            assert((out_prev + (spec_replaced_line(ll[k as int]) + "\n"@))
                + spec_replaced_lines(ll, k + 1) =~= out_prev + spec_replaced_lines(
                ll,
                k as int,
            ));
        }
        k += 1;
    }
    proof {
        assert(out@ + Seq::<char>::empty() =~= out@);
        assert(out@ =~= target);
    }
    Ok(out)
}

pub proof fn lemma_hex_len(v: u64, w: nat)
    ensures
        spec_hex(v, w).len() == w,
    decreases w,
{
    if w > 0 {
        lemma_hex_len(v / 16, (w - 1) as nat);
    }
}

pub proof fn lemma_hex_chars(v: u64, w: nat)
    ensures
        forall|k: int|
            0 <= k < spec_hex(v, w).len() ==> is_hex_digit_char(#[trigger] spec_hex(v, w)[k]),
    decreases w,
{
    if w > 0 {
        lemma_hex_chars(v / 16, (w - 1) as nat);
        lemma_hex_len(v / 16, (w - 1) as nat);
        lemma_hex_len(v, w);
        assert(is_hex_digit_char(crate::chars::hex_digit_char(v % 16)));
        assert forall|k: int|
            0 <= k < spec_hex(v, w).len() implies is_hex_digit_char(
            #[trigger] spec_hex(v, w)[k],
        ) by {
            if k < w - 1 {
                assert(spec_hex(v, w)[k] == spec_hex(v / 16, (w - 1) as nat)[k]);
            } else {
                assert(spec_hex(v, w)[k] == crate::chars::hex_digit_char(v % 16));
            }
        }
    }
}

pub proof fn lemma_hex_field_snoc(t: Seq<char>, c: char, i: int, acc: int)
    requires
        0 <= i <= t.len(),
    ensures
        spec_hex_field(t.push(c), i, acc) == (match spec_hex_field(t, i, acc) {
            None => None,
            Some(x) => if is_hex_digit_char(c) {
                Some(x * 16 + spec_hex_val(c))
            } else {
                None
            },
        }),
    decreases t.len() - i,
{
    if i < t.len() {
        assert(t.push(c)[i] == t[i]);
        if is_hex_digit_char(t[i]) {
            lemma_hex_field_snoc(t, c, i + 1, acc * 16 + spec_hex_val(t[i]));
        }
    } else {
        assert(t.push(c)[i] == c);
        if is_hex_digit_char(c) {
            assert(spec_hex_field(t.push(c), i + 1, acc * 16 + spec_hex_val(c)) == Some(
                acc * 16 + spec_hex_val(c),
            ));
        }
    }
}

/// Reading back a printed hex field gives the printed value.
pub proof fn lemma_hex_field_of_hex(v: u64, w: nat)
    ensures
        spec_hex_field(spec_hex(v, w), 0, 0) == Some((v as int) % spec_pow16(w as int)),
    decreases w,
{
    if w == 0 {
        assert(spec_hex(v, 0).len() == 0);
        assert(spec_pow16(0) == 1);
    } else {
        lemma_hex_field_of_hex(v / 16, (w - 1) as nat);
        let t = spec_hex(v / 16, (w - 1) as nat);
        let c = crate::chars::hex_digit_char(v % 16);
        assert(spec_hex(v, w) =~= t.push(c));
        lemma_hex_field_snoc(t, c, 0, 0);
        assert(is_hex_digit_char(c));
        assert(spec_hex_val(c) == v % 16);
        let p = spec_pow16((w - 1) as int);
        assert(p >= 1) by {
            lemma_pow16_pos((w - 1) as int);
        }
        vstd::arithmetic::div_mod::lemma_mod_breakdown(v as int, 16, p);
        assert(spec_pow16(w as int) == 16 * p);
        assert(((v as int) / 16) % p == ((v / 16) as int) % p);
    }
}

pub proof fn lemma_pow16_pos(e: int)
    ensures
        spec_pow16(e) >= 1,
    decreases e,
{
    if e > 0 {
        lemma_pow16_pos(e - 1);
    }
}

pub proof fn lemma_last_ws_pair_at(s: Seq<char>, jt: int, top: int)
    requires
        0 <= jt <= top,
        top + 2 <= s.len(),
        is_space_char(s[jt]),
        is_space_char(s[jt + 1]),
        forall|q: int| jt < q <= top ==> !(is_space_char(#[trigger] s[q]) && is_space_char(s[q + 1])),
    ensures
        spec_last_ws_pair(s, top) == Some(jt),
    decreases top - jt,
{
    if jt < top {
        lemma_last_ws_pair_at(s, jt, top - 1);
    }
}

/// A row the writer produced, read back by the reader, yields the same
/// address under the same display name: the written address field is eight
/// hex digits, the row layout matches the reader's pattern at its start,
/// and the closing whitespace pair before the member name bounds the same
/// name the writer put down. The length field must fit its six digits, and
/// the member name must hold no adjacent whitespace (nor start with any),
/// else the greedy name capture would land elsewhere; a display name that
/// marks a section is skipped by the reader, so it is left out too.
pub proof fn lemma_map_round_trip(sec: LinkedSectionView)
    requires
        spec_hex_digits(u32_specs::wrapping_sub(sec.len, sec.sym_offset) as u64) <= 6,
        !(spec_display_name(sec).len() > 0 && spec_display_name(sec)[0] == '.'),
        sec.member_name.len() > 0 ==> !is_space_char(sec.member_name[0]),
        forall|q: int|
            0 <= q < sec.member_name.len() - 1 ==> !(is_space_char(#[trigger] sec.member_name[q])
                && is_space_char(sec.member_name[q + 1])),
    ensures
        ({
            let body = spec_row_text(sec).subrange(0, spec_row_text(sec).len() - 1);
            let dname = spec_display_name(sec);
            spec_map_line(body) == Ok::<Option<(Seq<char>, u32)>, ()>(
                Some(
                    (
                        match spec_demangle(dname) {
                            Some(d) => d,
                            None => dname,
                        },
                        u32_specs::wrapping_add(sec.address, sec.sym_offset),
                    ),
                ),
            )
        }),
{
    reveal_strlit("  00000000 ");
    reveal_strlit(" ");
    reveal_strlit("  4 ");
    reveal_strlit(" \t");
    reveal_strlit("\n");
    let lenfield = u32_specs::wrapping_sub(sec.len, sec.sym_offset) as u64;
    let addrval = u32_specs::wrapping_add(sec.address, sec.sym_offset) as u64;
    let hex6 = spec_hex_min(lenfield, 6);
    let hex8 = spec_hex(addrval, 8);
    let dname = spec_display_name(sec);
    let mname = sec.member_name;
    assert(hex6 == spec_hex(lenfield, 6));
    lemma_hex_len(lenfield, 6);
    lemma_hex_len(addrval, 8);
    lemma_hex_chars(lenfield, 6);
    lemma_hex_chars(addrval, 8);
    let row = spec_row_text(sec);
    let body = row.subrange(0, row.len() - 1);
    assert(row.len() == 30 + dname.len() + 2 + mname.len() + 1);
    let dl = dname.len() as int;
    let ml = mname.len() as int;
    assert(body.len() == 30 + dl + 2 + ml);
    assert forall|k: int| 0 <= k < body.len() implies #[trigger] body[k] == row[k] by {}
    // the fixed head
    assert(is_space_char(body[0]) && is_space_char(body[1]));
    assert(forall|k: int| 2 <= k < 10 ==> #[trigger] body[k] == '0');
    assert(body[10] == ' ');
    assert(forall|k: int| 11 <= k < 17 ==> body[k] == hex6[k - 11]);
    assert forall|k: int| 11 <= k < 17 implies is_word_char(#[trigger] body[k]) by {
        assert(is_hex_digit_char(hex6[k - 11]));
    }
    assert(body[17] == ' ');
    assert(forall|k: int| 18 <= k < 26 ==> body[k] == hex8[k - 18]);
    assert forall|k: int| 18 <= k < 26 implies is_word_char(#[trigger] body[k]) by {
        assert(is_hex_digit_char(hex8[k - 18]));
    }
    assert(forall|k: int| 2 <= k < 10 ==> is_word_char(#[trigger] body[k]));
    assert(row_fixed_match(body, 0));
    // the closing whitespace pair
    assert(body[30 + dl] == ' ');
    assert(body[30 + dl + 1] == '\t');
    assert(forall|k: int| 0 <= k < ml ==> #[trigger] body[32 + dl + k] == mname[k]);
    assert forall|q: int|
        30 + dl < q <= body.len() - 2 implies !(is_space_char(#[trigger] body[q])
        && is_space_char(body[q + 1])) by {
        if q == 30 + dl + 1 {
            assert(ml > 0);
            assert(body[q + 1] == mname[0]);
        } else {
            assert(body[q] == mname[q - 32 - dl]);
            assert(body[q + 1] == mname[q + 1 - 32 - dl]);
        }
    }
    lemma_last_ws_pair_at(body, 30 + dl, body.len() - 2);
    assert(spec_last_ws_pair(body, body.len() - 2) == Some(30 + dl));
    assert(row_match_at(body, 0));
    assert(spec_row_start(body, 0) == Some(0int));
    // the captured name is the display name
    assert(body.subrange(30, 30 + dl) =~= dname);
    // the address field reads back to the written value
    assert(body.subrange(18, 26) =~= hex8);
    lemma_hex_field_of_hex(addrval, 8);
    assert(spec_pow16(0) == 1);
    assert(spec_pow16(1) == 16);
    assert(spec_pow16(2) == 0x100);
    assert(spec_pow16(3) == 0x1000);
    assert(spec_pow16(4) == 0x1_0000);
    assert(spec_pow16(5) == 0x10_0000);
    assert(spec_pow16(6) == 0x100_0000);
    assert(spec_pow16(7) == 0x1000_0000);
    assert(spec_pow16(8) == 0x1_0000_0000);
    assert(addrval < 0x1_0000_0000);
    vstd::arithmetic::div_mod::lemma_small_mod(addrval as nat, 0x1_0000_0000nat);
    assert((addrval as int) % spec_pow16(8) == addrval as int);
    assert(spec_hex_field(body.subrange(18, 26), 0, 0) == Some(addrval as int));
}

/// A line without two adjacent whitespace characters has no closing pair.
pub proof fn lemma_no_ws_pair(s: Seq<char>, j: int)
    requires
        forall|q: int|
            0 <= q <= j && q + 2 <= s.len() ==> !(is_space_char(#[trigger] s[q]) && is_space_char(
                s[q + 1],
            )),
    ensures
        spec_last_ws_pair(s, j) is None,
    decreases j + 1,
{
    if !(j < 0 || j + 2 > s.len()) {
        lemma_no_ws_pair(s, j - 1);
    }
}

/// Without a closing whitespace pair, no row starts anywhere.
pub proof fn lemma_row_start_none(s: Seq<char>, i: int)
    requires
        0 <= i,
        spec_last_ws_pair(s, s.len() - 2) is None,
    ensures
        spec_row_start(s, i) is None,
    decreases s.len() - i,
{
    if i + 30 <= s.len() {
        lemma_row_start_none(s, i + 1);
    }
}

/// A one-section map written and read back whole — header line, row,
/// line splitting and all — recovers the section's address under its
/// display name. The row's side conditions are those of the per-row law,
/// plus that the display and member names hold no newline (and the member
/// name no trailing carriage return), else the line splitting would cut
/// the row elsewhere.
pub proof fn lemma_map_text_round_trip(sec: LinkedSectionView)
    requires
        spec_hex_digits(u32_specs::wrapping_sub(sec.len, sec.sym_offset) as u64) <= 6,
        !(spec_display_name(sec).len() > 0 && spec_display_name(sec)[0] == '.'),
        sec.member_name.len() > 0 ==> !is_space_char(sec.member_name[0]),
        forall|q: int|
            0 <= q < sec.member_name.len() - 1 ==> !(is_space_char(#[trigger] sec.member_name[q])
                && is_space_char(sec.member_name[q + 1])),
        forall|k: int| 0 <= k < spec_display_name(sec).len() ==> spec_display_name(sec)[k] != '\n',
        forall|k: int| 0 <= k < sec.member_name.len() ==> (#[trigger] sec.member_name[k]) != '\n',
        sec.member_name.len() > 0 ==> sec.member_name[sec.member_name.len() - 1] != '\r',
    ensures
        ({
            let dname = spec_display_name(sec);
            let key = match spec_demangle(dname) {
                Some(d) => d,
                None => dname,
            };
            spec_parse_lines(spec_lines(spec_map_text(seq![sec])), 0, Seq::empty())
                == Ok::<Seq<(Seq<char>, u32)>, ()>(
                seq![(key, u32_specs::wrapping_add(sec.address, sec.sym_offset))],
            )
        }),
{
    reveal_strlit(".text section layout\n");
    reveal_strlit("  00000000 ");
    reveal_strlit(" ");
    reveal_strlit("  4 ");
    reveal_strlit(" \t");
    reveal_strlit("\n");
    let header = ".text section layout\n"@;
    let hbody = header.subrange(0, header.len() - 1);
    let row = spec_row_text(sec);
    let body = row.subrange(0, row.len() - 1);
    let text = spec_map_text(seq![sec]);
    let dname = spec_display_name(sec);
    let mname = sec.member_name;
    let dl = dname.len() as int;
    let ml = mname.len() as int;
    let lenfield = u32_specs::wrapping_sub(sec.len, sec.sym_offset) as u64;
    let addrval = u32_specs::wrapping_add(sec.address, sec.sym_offset) as u64;
    // the text is the header line, then the row, each newline-terminated
    assert(spec_rows(seq![sec], 0) =~= row + spec_rows(seq![sec], 1));
    assert(spec_rows(seq![sec], 1) =~= Seq::<char>::empty());
    assert(text =~= hbody + seq!['\n'] + (body + seq!['\n'] + Seq::<char>::empty()));
    assert forall|k: int| 0 <= k < hbody.len() implies hbody[k] != '\n' by {
        assert(hbody[k] == header[k]);
    }
    assert(hbody[hbody.len() - 1] == 't');
    crate::chars::lemma_lines_cons(hbody, body + seq!['\n'] + Seq::<char>::empty());
    // the row's body holds no newline, so it splits off whole
    assert(spec_hex_min(lenfield, 6) == spec_hex(lenfield, 6));
    lemma_hex_len(lenfield, 6);
    lemma_hex_len(addrval, 8);
    lemma_hex_chars(lenfield, 6);
    lemma_hex_chars(addrval, 8);
    assert(row.len() == 30 + dl + 2 + ml + 1);
    assert forall|k: int| 0 <= k < body.len() implies #[trigger] body[k] != '\n' by {
        assert(body[k] == row[k]);
        if k < 11 {
        } else if k < 17 {
            assert(row[k] == spec_hex(lenfield, 6)[k - 11]);
            assert(is_hex_digit_char(row[k]));
        } else if k < 18 {
        } else if k < 26 {
            assert(row[k] == spec_hex(addrval, 8)[k - 18]);
            assert(is_hex_digit_char(row[k]));
        } else if k < 30 {
        } else if k < 30 + dl {
            assert(row[k] == dname[k - 30]);
        } else if k < 32 + dl {
        } else {
            assert(row[k] == mname[k - 32 - dl]);
        }
    }
    if ml > 0 {
        assert(body[body.len() - 1] == mname[ml - 1]);
    } else {
        assert(body[body.len() - 1] == '\t');
    }
    crate::chars::lemma_lines_cons(body, Seq::<char>::empty());
    assert(spec_lines(Seq::<char>::empty()) =~= Seq::<Seq<char>>::empty());
    assert(spec_lines(text) =~= seq![hbody, body]);
    // the header line matches no row: it holds no adjacent whitespace
    assert forall|q: int|
        0 <= q <= hbody.len() - 2 && q + 2 <= hbody.len() implies !(is_space_char(
        #[trigger] hbody[q],
    ) && is_space_char(hbody[q + 1])) by {
        assert(hbody[q] == header[q]);
        assert(hbody[q + 1] == header[q + 1]);
    }
    lemma_no_ws_pair(hbody, hbody.len() - 2);
    lemma_row_start_none(hbody, 0);
    assert(spec_map_line(hbody) == Ok::<Option<(Seq<char>, u32)>, ()>(None));
    // the row reads back to the written binding
    lemma_map_round_trip(sec);
    let key = match spec_demangle(dname) {
        Some(d) => d,
        None => dname,
    };
    assert(spec_map_line(body) == Ok::<Option<(Seq<char>, u32)>, ()>(
        Some((key, u32_specs::wrapping_add(sec.address, sec.sym_offset))),
    ));
    let lines = seq![hbody, body];
    let addr = u32_specs::wrapping_add(sec.address, sec.sym_offset);
    let table = spec_insert_replace(Seq::empty(), key, addr);
    assert(lines[0] == hbody);
    assert(lines[1] == body);
    assert(spec_parse_lines(lines, 2, table) == Ok::<Seq<(Seq<char>, u32)>, ()>(table));
    assert(spec_parse_lines(lines, 1, Seq::empty()) == spec_parse_lines(lines, 2, table));
    assert(spec_parse_lines(lines, 0, Seq::empty()) == spec_parse_lines(
        lines,
        1,
        Seq::empty(),
    ));
    assert(table =~= seq![(key, addr)]);
    assert(spec_parse_lines(spec_lines(text), 0, Seq::empty()) == spec_parse_lines(
        lines,
        0,
        Seq::empty(),
    ));
}

} // verus!
