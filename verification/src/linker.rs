//! The static linker: every symbol defined across the given archives is
//! assigned a final address in a disjoint space above the base address, in
//! deterministic order — archive, then member, then section, code first,
//! then data, then zero-fill — relocations are applied against the merged
//! symbol universe, and the result is a symbol table, the section list for
//! the map, and a loadable container.

use vstd::prelude::*;
use vstd::wrapping::u32_specs;
use crate::bytes::{spec_be32, spec_store_be16, spec_store_be32, read_be32, store_be16, store_be32};
use crate::dol::{DolFile, DolSection, DolView};
use crate::errors::LinkError;
use crate::objects::{
    decode_archives, spec_archives_decode, ObjectUnit, SectionKind, SecView, SymView, RelocView,
    UnitView,
};
use crate::symtab::{spec_lookup, SymbolTable};

verus! {

/// One finally placed section, as the symbol-map writer reads it.
pub struct LinkedSection {
    pub section_name: String,
    pub kind: SectionKind,
    pub address: u32,
    pub len: u32,
    pub sym_offset: u32,
    pub member_name: String,
}

#[verifier::ext_equal]
pub ghost struct LinkedSectionView {
    pub section_name: Seq<char>,
    pub kind: SectionKind,
    pub address: u32,
    pub len: u32,
    pub sym_offset: u32,
    pub member_name: Seq<char>,
}

impl View for LinkedSection {
    type V = LinkedSectionView;

    open spec fn view(&self) -> LinkedSectionView {
        LinkedSectionView {
            section_name: self.section_name@,
            kind: self.kind,
            address: self.address,
            len: self.len,
            sym_offset: self.sym_offset,
            member_name: self.member_name@,
        }
    }
}

impl DeepView for LinkedSection {
    type V = LinkedSectionView;

    open spec fn deep_view(&self) -> LinkedSectionView {
        self@
    }
}

/// What the link produced: the complete symbol table, the placed sections
/// in layout order, and the loadable container.
pub struct Linked {
    pub symbol_table: SymbolTable,
    pub sections: Vec<LinkedSection>,
    pub dol: DolFile,
}

#[verifier::ext_equal]
pub ghost struct LinkedView {
    pub symbol_table: Seq<(Seq<char>, u32)>,
    pub sections: Seq<LinkedSectionView>,
    pub dol: DolView,
}

impl View for Linked {
    type V = LinkedView;

    open spec fn view(&self) -> LinkedView {
        LinkedView {
            symbol_table: self.symbol_table@,
            sections: self.sections.deep_view(),
            dol: self.dol@,
        }
    }
}

/// Why a link failed, at the level the contracts speak.
pub ghost enum LinkIssue {
    /// An archive or object could not be decoded.
    BadInput,
    /// A relocation's storage unit runs outside its section, or lands in a
    /// section that holds no bytes.
    BadReloc,
    /// A relocation references a symbol defined nowhere.
    Undefined { name: Seq<char> },
    /// A requested entry symbol is defined in no freshly compiled unit.
    EntryMissing { name: Seq<char> },
    /// A relocation kind the target toolchain is not known to emit.
    Unsupported { kind: u32 },
    /// The laid-out address space would run past the 32-bit boundary.
    Overflow,
}

/// `cursor` rounded up to a multiple of `align` (`align >= 1`).
pub open spec fn spec_align_up(cursor: int, align: int) -> int {
    ((cursor + align - 1) / align) * align
}

/// The `(unit, section)` index pairs of all units, in unit order.
pub open spec fn spec_unit_pairs(units: Seq<UnitView>, u: int) -> Seq<(int, int)>
    decreases units.len() - u,
{
    if u < 0 || u >= units.len() {
        Seq::empty()
    } else {
        Seq::new(units[u].sections.len(), |s: int| (u, s)) + spec_unit_pairs(units, u + 1)
    }
}

/// Walks the flat pair list and places every section of `kind`: each gets
/// the aligned cursor, and the cursor moves past its size. `None` when an
/// address would run past 32 bits.
pub open spec fn spec_layout_flat(
    units: Seq<UnitView>,
    pairs: Seq<(int, int)>,
    kind: SectionKind,
    cursor: int,
    i: int,
) -> Option<(Seq<(int, int, u32)>, int)>
    decreases pairs.len() - i,
{
    if i < 0 || i >= pairs.len() {
        Some((Seq::empty(), cursor))
    } else {
        let (u, s) = pairs[i];
        let sec = units[u].sections[s];
        if sec.kind == kind {
            let a = spec_align_up(
                cursor,
                if sec.align == 0 {
                    1
                } else {
                    sec.align as int
                },
            );
            if a + sec.size > u32::MAX {
                None
            } else {
                match spec_layout_flat(units, pairs, kind, a + sec.size, i + 1) {
                    None => None,
                    Some((rest, end)) => Some((seq![(u, s, a as u32)] + rest, end)),
                }
            }
        } else {
            spec_layout_flat(units, pairs, kind, cursor, i + 1)
        }
    }
}

#[verifier::ext_equal]
pub ghost struct LayoutView {
    pub text: Seq<(int, int, u32)>,
    pub data: Seq<(int, int, u32)>,
    pub bss: Seq<(int, int, u32)>,
    pub text_end: int,
    pub data_end: int,
    pub bss_end: int,
}

/// The whole layout: code sections from the base address, then data, then
/// zero-fill, each group in unit order.
pub open spec fn spec_layout(units: Seq<UnitView>, base: u32) -> Option<LayoutView> {
    let pairs = spec_unit_pairs(units, 0);
    match spec_layout_flat(units, pairs, SectionKind::TextSection, base as int, 0) {
        None => None,
        Some((text, text_end)) => match spec_layout_flat(
            units,
            pairs,
            SectionKind::DataSection,
            text_end,
            0,
        ) {
            None => None,
            Some((data, data_end)) => match spec_layout_flat(
                units,
                pairs,
                SectionKind::BssSection,
                data_end,
                0,
            ) {
                None => None,
                Some((bss, bss_end)) => Some(
                    LayoutView { text, data, bss, text_end, data_end, bss_end },
                ),
            },
        },
    }
}

/// The placed sections in layout order: code, then data, then zero-fill.
pub open spec fn spec_assignments(l: LayoutView) -> Seq<(int, int, u32)> {
    l.text + l.data + l.bss
}

/// The address assigned to section `s` of unit `u`, if it was placed.
pub open spec fn spec_addr_of(asg: Seq<(int, int, u32)>, u: int, s: int, i: int) -> Option<u32>
    decreases asg.len() - i,
{
    if i < 0 || i >= asg.len() {
        None
    } else if asg[i].0 == u && asg[i].1 == s {
        Some(asg[i].2)
    } else {
        spec_addr_of(asg, u, s, i + 1)
    }
}

/// A table entry with `name` at `address`, unless an earlier definition
/// stands.
pub open spec fn spec_insert_fw(
    t: Seq<(Seq<char>, u32)>,
    name: Seq<char>,
    address: u32,
) -> Seq<(Seq<char>, u32)> {
    if spec_lookup(t, name) is Some {
        t
    } else {
        t.push((name, address))
    }
}

/// Folds one unit's global defined symbols into the table, in symbol order:
/// the symbol's address is its placed section's address plus its offset.
pub open spec fn spec_symtab_unit(
    t: Seq<(Seq<char>, u32)>,
    unit: UnitView,
    asg: Seq<(int, int, u32)>,
    u: int,
    i: int,
) -> Seq<(Seq<char>, u32)>
    decreases unit.symbols.len() - i,
{
    if i < 0 || i >= unit.symbols.len() {
        t
    } else {
        let sym = unit.symbols[i];
        let t2 = if sym.global && sym.section is Some && spec_addr_of(
            asg,
            u,
            sym.section->0,
            0,
        ) is Some {
            spec_insert_fw(
                t,
                sym.name,
                u32_specs::wrapping_add(spec_addr_of(asg, u, sym.section->0, 0)->0, sym.offset),
            )
        } else {
            t
        };
        spec_symtab_unit(t2, unit, asg, u, i + 1)
    }
}

/// Folds every unit's symbols into the table, in unit order: the first
/// definition of a name wins, so the user's module and libraries take
/// precedence over what follows them.
pub open spec fn spec_symtab(
    t: Seq<(Seq<char>, u32)>,
    units: Seq<UnitView>,
    asg: Seq<(int, int, u32)>,
    u: int,
) -> Seq<(Seq<char>, u32)>
    decreases units.len() - u,
{
    if u < 0 || u >= units.len() {
        t
    } else {
        spec_symtab(spec_symtab_unit(t, units[u], asg, u, 0), units, asg, u + 1)
    }
}

/// The first requested entry name that the fresh link does not define: an
/// entry must resolve within the freshly compiled units, never through the
/// pre-existing game table.
pub open spec fn spec_missing_entry(
    entries: Seq<Seq<char>>,
    fresh: Seq<(Seq<char>, u32)>,
    i: int,
) -> Option<Seq<char>>
    decreases entries.len() - i,
{
    if i < 0 || i >= entries.len() {
        None
    } else if spec_lookup(fresh, entries[i]) is None {
        Some(entries[i])
    } else {
        spec_missing_entry(entries, fresh, i + 1)
    }
}

/// A relocation's referenced address: a symbol defined in a placed section
/// of its own unit resolves there; otherwise the name is looked up in the
/// fresh table first, then in the pre-existing game table.
pub open spec fn spec_resolve_reloc(
    unit: UnitView,
    asg: Seq<(int, int, u32)>,
    fresh: Seq<(Seq<char>, u32)>,
    known: Seq<(Seq<char>, u32)>,
    r: RelocView,
    u: int,
) -> Option<u32> {
    let sym = unit.symbols[r.symbol];
    if sym.section is Some && spec_addr_of(asg, u, sym.section->0, 0) is Some {
        Some(u32_specs::wrapping_add(spec_addr_of(asg, u, sym.section->0, 0)->0, sym.offset))
    } else if spec_lookup(fresh, sym.name) is Some {
        spec_lookup(fresh, sym.name)
    } else {
        spec_lookup(known, sym.name)
    }
}

/// One relocation applied to its target section's bytes. `s` is the
/// symbol's address plus the addend; `p` is the fixed-up word's own
/// address. The kinds are those the target toolchain emits: absolute word,
/// the three half-word forms, and the two self-relative forms; any other
/// kind is a hard error.
pub open spec fn spec_apply_reloc(
    data: Seq<u8>,
    r: RelocView,
    target_addr: u32,
    resolved: u32,
) -> Result<Seq<u8>, LinkIssue> {
    let sa = u32_specs::wrapping_add(resolved, r.addend as u32);
    let p = u32_specs::wrapping_add(target_addr, r.offset);
    if r.kind == 1 {
        if r.offset + 4 <= data.len() {
            Ok(spec_store_be32(data, r.offset as int, sa))
        } else {
            Err(LinkIssue::BadReloc)
        }
    } else if r.kind == 4 {
        if r.offset + 2 <= data.len() {
            Ok(spec_store_be16(data, r.offset as int, sa & 0xFFFF))
        } else {
            Err(LinkIssue::BadReloc)
        }
    } else if r.kind == 5 {
        if r.offset + 2 <= data.len() {
            Ok(spec_store_be16(data, r.offset as int, sa >> 16))
        } else {
            Err(LinkIssue::BadReloc)
        }
    } else if r.kind == 6 {
        if r.offset + 2 <= data.len() {
            Ok(spec_store_be16(data, r.offset as int, u32_specs::wrapping_add(sa, 0x8000) >> 16))
        } else {
            Err(LinkIssue::BadReloc)
        }
    } else if r.kind == 10 {
        if r.offset + 4 <= data.len() {
            Ok(
                spec_store_be32(
                    data,
                    r.offset as int,
                    (spec_be32(data, r.offset as int) & 0xFC000003) | (u32_specs::wrapping_sub(
                        sa,
                        p,
                    ) & 0x03FFFFFC),
                ),
            )
        } else {
            Err(LinkIssue::BadReloc)
        }
    } else if r.kind == 26 {
        if r.offset + 4 <= data.len() {
            Ok(spec_store_be32(data, r.offset as int, u32_specs::wrapping_sub(sa, p)))
        } else {
            Err(LinkIssue::BadReloc)
        }
    } else {
        Err(LinkIssue::Unsupported { kind: r.kind })
    }
}

/// One unit's relocations applied in order, threading the updated section
/// bytes. A relocation into an unloaded section is skipped with the bytes
/// untouched; one into a zero-fill section is a hard error; one whose
/// symbol resolves nowhere is a hard error naming it.
pub open spec fn spec_apply_unit(
    unit: UnitView,
    asg: Seq<(int, int, u32)>,
    fresh: Seq<(Seq<char>, u32)>,
    known: Seq<(Seq<char>, u32)>,
    u: int,
    i: int,
) -> Result<UnitView, LinkIssue>
    decreases unit.relocs.len() - i,
{
    if i < 0 || i >= unit.relocs.len() {
        Ok(unit)
    } else {
        let r = unit.relocs[i];
        let sec = unit.sections[r.section];
        if sec.kind == SectionKind::OtherSection {
            spec_apply_unit(unit, asg, fresh, known, u, i + 1)
        } else if sec.kind == SectionKind::BssSection {
            Err(LinkIssue::BadReloc)
        } else {
            match spec_resolve_reloc(unit, asg, fresh, known, r, u) {
                None => Err(LinkIssue::Undefined { name: unit.symbols[r.symbol].name }),
                Some(resolved) => {
                    let ta = spec_addr_of(asg, u, r.section, 0);
                    if ta is None {
                        Err(LinkIssue::BadReloc)
                    } else {
                        match spec_apply_reloc(sec.data, r, ta->0, resolved) {
                            Err(e) => Err(e),
                            Ok(d2) => spec_apply_unit(
                                UnitView {
                                    sections: unit.sections.update(
                                        r.section,
                                        SecView { data: d2, ..sec },
                                    ),
                                    ..unit
                                },
                                asg,
                                fresh,
                                known,
                                u,
                                i + 1,
                            ),
                        }
                    }
                },
            }
        }
    }
}

/// Every unit's relocations applied, in unit order.
pub open spec fn spec_apply_all(
    units: Seq<UnitView>,
    asg: Seq<(int, int, u32)>,
    fresh: Seq<(Seq<char>, u32)>,
    known: Seq<(Seq<char>, u32)>,
    u: int,
) -> Result<Seq<UnitView>, LinkIssue>
    decreases units.len() - u,
{
    if u < 0 || u >= units.len() {
        Ok(units)
    } else {
        match spec_apply_unit(units[u], asg, fresh, known, u, 0) {
            Err(e) => Err(e),
            Ok(unit2) => spec_apply_all(units.update(u, unit2), asg, fresh, known, u + 1),
        }
    }
}

/// The smallest symbol offset inside section `s` of the unit, if any
/// symbol lives there.
pub open spec fn spec_symoff(syms: Seq<SymView>, s: int, i: int) -> Option<u32>
    decreases syms.len() - i,
{
    if i < 0 || i >= syms.len() {
        None
    } else {
        let rest = spec_symoff(syms, s, i + 1);
        if syms[i].section == Some(s) {
            match rest {
                None => Some(syms[i].offset),
                Some(m) => Some(
                    if syms[i].offset < m {
                        syms[i].offset
                    } else {
                        m
                    },
                ),
            }
        } else {
            rest
        }
    }
}

/// The placed-section list the map writer reads, in layout order; a
/// section's `sym_offset` is its lowest symbol offset, or zero.
pub open spec fn spec_linked_sections(
    units: Seq<UnitView>,
    asg: Seq<(int, int, u32)>,
    i: int,
) -> Seq<LinkedSectionView>
    decreases asg.len() - i,
{
    if i < 0 || i >= asg.len() {
        Seq::empty()
    } else {
        let (u, s, a) = asg[i];
        let sec = units[u].sections[s];
        seq![
            LinkedSectionView {
                section_name: sec.name,
                kind: sec.kind,
                address: a,
                len: sec.size,
                sym_offset: match spec_symoff(units[u].symbols, s, 0) {
                    Some(m) => m,
                    None => 0,
                },
                member_name: units[u].member_name,
            },
        ] + spec_linked_sections(units, asg, i + 1)
    }
}

/// A zero byte sequence.
pub open spec fn spec_zeros(n: int) -> Seq<u8> {
    Seq::new(if n >= 0 {
        n as nat
    } else {
        0
    }, |i: int| 0u8)
}

/// One load region's bytes: each placed section's data (zero bytes for a
/// zero-fill section), with zero padding up to its aligned address.
pub open spec fn spec_region_bytes(
    units: Seq<UnitView>,
    asg: Seq<(int, int, u32)>,
    cursor: int,
    i: int,
) -> Seq<u8>
    decreases asg.len() - i,
{
    if i < 0 || i >= asg.len() {
        Seq::empty()
    } else {
        let (u, s, a) = asg[i];
        let sec = units[u].sections[s];
        let body = if sec.kind == SectionKind::BssSection {
            spec_zeros(sec.size as int)
        } else {
            sec.data
        };
        spec_zeros(a - cursor) + body + spec_region_bytes(units, asg, a + sec.size, i + 1)
    }
}

/// The pair list as mathematics reads it.
pub open spec fn pairs_view(p: Seq<(usize, usize)>) -> Seq<(int, int)> {
    Seq::new(p.len(), |i: int| (p[i].0 as int, p[i].1 as int))
}

/// The assignment list as mathematics reads it.
pub open spec fn asg_view(p: Seq<(usize, usize, u32)>) -> Seq<(int, int, u32)> {
    Seq::new(p.len(), |i: int| (p[i].0 as int, p[i].1 as int, p[i].2))
}

/// Every pair indexes a real section of a real unit.
pub open spec fn pairs_ok(units: Seq<UnitView>, pairs: Seq<(int, int)>) -> bool {
    forall|i: int|
        0 <= i < pairs.len() ==> 0 <= #[trigger] pairs[i].0 < units.len() && 0 <= pairs[i].1
            < units[pairs[i].0].sections.len()
}

pub proof fn lemma_unit_pairs_ok(units: Seq<UnitView>, u: int)
    requires
        0 <= u,
    ensures
        pairs_ok(units, spec_unit_pairs(units, u)),
    decreases units.len() - u,
{
    if u < units.len() {
        lemma_unit_pairs_ok(units, u + 1);
        let head = Seq::new(units[u].sections.len(), |s: int| (u, s));
        let rest = spec_unit_pairs(units, u + 1);
        let whole = spec_unit_pairs(units, u);
        assert forall|i: int| 0 <= i < whole.len() implies 0 <= #[trigger] whole[i].0
            < units.len() && 0 <= whole[i].1 < units[whole[i].0].sections.len() by {
            if i < head.len() {
                assert(whole[i] == head[i]);
            } else {
                assert(whole[i] == rest[i - head.len()]);
            }
        }
    }
}

/// The `(unit, section)` pairs of all units, in unit order, as a vector.
fn build_pairs(units: &Vec<ObjectUnit>) -> (r: Vec<(usize, usize)>)
    ensures
        pairs_view(r@) == spec_unit_pairs(units.deep_view(), 0),
{
    let ghost uv = units.deep_view();
    let mut out: Vec<(usize, usize)> = Vec::new();
    let mut u: usize = units.len();
    proof {
        assert(pairs_view(out@) =~= spec_unit_pairs(uv, units@.len() as int));
    }
    while u > 0
        invariant
            u <= units@.len(),
            uv == units.deep_view(),
            uv.len() == units@.len(),
            pairs_view(out@) == spec_unit_pairs(uv, u as int),
        decreases u,
    {
        u = u - 1;
        let ghost rest = out@;
        let n = units[u].sections.len();
        proof {
            assert(uv[u as int] == units@[u as int].deep_view());
            assert(uv[u as int].sections.len() == units@[u as int].sections.deep_view().len());
            assert(units@[u as int].sections.deep_view().len() == units@[u as int].sections@.len());
        }
        let mut tmp: Vec<(usize, usize)> = Vec::new();
        let mut s: usize = 0;
        while s < n
            invariant
                s <= n,
                tmp@.len() == s,
                forall|j: int| 0 <= j < s ==> #[trigger] tmp@[j] == (u, j as usize),
            decreases n - s,
        {
            tmp.push((u, s));
            s += 1;
        }
        let mut rest_vec = out;
        out = tmp;
        out.append(&mut rest_vec);
        proof {
            let head = Seq::new(uv[u as int].sections.len(), |s: int| (u as int, s));
            assert(pairs_view(out@) =~= head + spec_unit_pairs(uv, u + 1));
        }
    }
    out
}

/// Places every section of `kind` along the flat pair list, the cursor
/// moving past each; `None` when an address would run past 32 bits.
fn layout_kind(
    units: &Vec<ObjectUnit>,
    pairs: &Vec<(usize, usize)>,
    kind: SectionKind,
    cursor: u64,
) -> (r: Option<(Vec<(usize, usize, u32)>, u64)>)
    requires
        cursor <= u32::MAX,
        pairs_ok(units.deep_view(), pairs_view(pairs@)),
    ensures
        match r {
            Some((lst, end)) => end <= u32::MAX && Some((asg_view(lst@), end as int))
                == spec_layout_flat(
                units.deep_view(),
                pairs_view(pairs@),
                kind,
                cursor as int,
                0,
            ),
            None => spec_layout_flat(units.deep_view(), pairs_view(pairs@), kind, cursor as int, 0)
                is None,
        },
{
    let ghost uv = units.deep_view();
    let ghost pv = pairs_view(pairs@);
    let ghost whole = spec_layout_flat(uv, pv, kind, cursor as int, 0);
    let mut out: Vec<(usize, usize, u32)> = Vec::new();
    let mut cur: u64 = cursor;
    let mut i: usize = 0;
    while i < pairs.len()
        invariant
            i <= pairs@.len(),
            uv == units.deep_view(),
            uv.len() == units@.len(),
            pv == pairs_view(pairs@),
            pv.len() == pairs@.len(),
            pairs_ok(uv, pv),
            cur <= u32::MAX,
            whole == spec_layout_flat(uv, pv, kind, cursor as int, 0),
            spec_layout_flat(uv, pv, kind, cur as int, i as int) is Some ==> whole == Some(
                (
                    asg_view(out@) + (spec_layout_flat(uv, pv, kind, cur as int, i as int)->0).0,
                    (spec_layout_flat(uv, pv, kind, cur as int, i as int)->0).1,
                ),
            ),
            spec_layout_flat(uv, pv, kind, cur as int, i as int) is None ==> whole is None,
        decreases pairs@.len() - i,
    {
        let ghost at_i1;
        let (u, s) = pairs[i];
        proof {
            assert(pv[i as int] == (u as int, s as int));
            assert(uv[u as int] == units@[u as int].deep_view());
            assert(uv[u as int].sections[s as int] == units@[u as int].sections@[s as int]@);
        }
        let sec = &units[u].sections[s];
        if sec.kind == kind {
            let align = sec.align as u64;
            let align1: u64 = if align == 0 {
                1
            } else {
                align
            };
            let q: u64 = (cur + align1 - 1) / align1;
            proof {
                assert(q * align1 <= cur + align1 - 1) by (nonlinear_arith)
                    requires
                        align1 >= 1,
                        cur >= 0,
                        q == (cur + align1 - 1) / (align1 as int),
                ;
            }
            let a: u64 = q * align1;
            proof {
                assert(a == spec_align_up(cur as int, align1 as int));
            }
            if a > u32::MAX as u64 || (sec.size as u64) > u32::MAX as u64 - a {
                return None;
            }
            let ghost prev = asg_view(out@);
            out.push((u, s, a as u32));
            proof {
                at_i1 = spec_layout_flat(uv, pv, kind, a + sec.size, i + 1);
                assert(asg_view(out@) =~= prev + seq![(u as int, s as int, a as u32)]);
                if at_i1 is Some {
                    assert((prev + seq![(u as int, s as int, a as u32)]) + (at_i1->0).0 =~= prev + (
                    seq![(u as int, s as int, a as u32)] + (at_i1->0).0));
                }
            }
            cur = a + sec.size as u64;
        }
        i += 1;
    }
    proof {
        if whole is Some {
            assert(asg_view(out@) + Seq::<(int, int, u32)>::empty() =~= asg_view(out@));
        }
    }
    Some((out, cur))
}

/// The address assigned to section `s` of unit `u`, if it was placed.
fn find_addr(asg: &Vec<(usize, usize, u32)>, u: usize, s: usize) -> (r: Option<u32>)
    ensures
        r == spec_addr_of(asg_view(asg@), u as int, s as int, 0),
{
    let ghost av = asg_view(asg@);
    let mut i: usize = 0;
    while i < asg.len()
        invariant
            i <= asg@.len(),
            av == asg_view(asg@),
            av.len() == asg@.len(),
            spec_addr_of(av, u as int, s as int, 0) == spec_addr_of(av, u as int, s as int, i as int),
        decreases asg@.len() - i,
    {
        let e = asg[i];
        proof {
            assert(av[i as int] == (e.0 as int, e.1 as int, e.2));
        }
        if e.0 == u && e.1 == s {
            return Some(e.2);
        }
        i += 1;
    }
    None
}

/// Builds the fresh link's symbol table: every unit's global defined
/// symbols in unit order, the first definition of a name winning.
fn build_symtab(units: &Vec<ObjectUnit>, asg: &Vec<(usize, usize, u32)>) -> (r: SymbolTable)
    ensures
        r@ == spec_symtab(
            Seq::<(Seq<char>, u32)>::empty(),
            units.deep_view(),
            asg_view(asg@),
            0,
        ),
{
    let ghost uv = units.deep_view();
    let ghost av = asg_view(asg@);
    let ghost whole = spec_symtab(Seq::<(Seq<char>, u32)>::empty(), uv, av, 0);
    let mut t = SymbolTable::new();
    let mut u: usize = 0;
    while u < units.len()
        invariant
            u <= units@.len(),
            uv == units.deep_view(),
            uv.len() == units@.len(),
            av == asg_view(asg@),
            whole == spec_symtab(Seq::<(Seq<char>, u32)>::empty(), uv, av, 0),
            whole == spec_symtab(t@, uv, av, u as int),
        decreases units@.len() - u,
    {
        let ghost unit = uv[u as int];
        proof {
            assert(uv[u as int] == units@[u as int].deep_view());
        }
        let n = units[u].symbols.len();
        proof {
            assert(unit.symbols.len() == n);
        }
        let mut i: usize = 0;
        while i < n
            invariant
                i <= n,
                u < units@.len(),
                uv == units.deep_view(),
                uv.len() == units@.len(),
                av == asg_view(asg@),
                unit == uv[u as int],
                n == unit.symbols.len(),
                n == units@[u as int].symbols@.len(),
                whole == spec_symtab(Seq::<(Seq<char>, u32)>::empty(), uv, av, 0),
                whole == spec_symtab(
                    spec_symtab_unit(t@, unit, av, u as int, i as int),
                    uv,
                    av,
                    u + 1,
                ),
            decreases n - i,
        {
            let sym = &units[u].symbols[i];
            proof {
                assert(unit.symbols[i as int] == units@[u as int].symbols@[i as int]@);
            }
            let ghost t_before = t@;
            match sym.section {
                Some(sidx) => {
                    match find_addr(asg, u, sidx) {
                        Some(a) => {
                            if sym.global {
                                t.insert_first_wins(sym.name.clone(), a.wrapping_add(sym.offset));
                                proof {
                                    assert(t@ == spec_insert_fw(
                                        t_before,
                                        unit.symbols[i as int].name,
                                        u32_specs::wrapping_add(a, unit.symbols[i as int].offset),
                                    ));
                                }
                            }
                        },
                        None => {},
                    }
                },
                None => {},
            }
            proof {
                assert(spec_symtab_unit(t_before, unit, av, u as int, i as int)
                    == spec_symtab_unit(t@, unit, av, u as int, i + 1));
            }
            i += 1;
        }
        proof {
            assert(spec_symtab_unit(t@, unit, av, u as int, n as int) == t@);
        }
        u += 1;
    }
    proof {
        assert(spec_symtab(t@, uv, av, units@.len() as int) == t@);
    }
    t
}

/// The first requested entry name the fresh link does not define.
fn check_entries(entries: &Vec<String>, fresh: &SymbolTable) -> (r: Option<String>)
    ensures
        match r {
            Some(name) => Some(name@) == spec_missing_entry(entries.deep_view(), fresh@, 0),
            None => spec_missing_entry(entries.deep_view(), fresh@, 0) is None,
        },
{
    let ghost ev = entries.deep_view();
    let mut i: usize = 0;
    while i < entries.len()
        invariant
            i <= entries@.len(),
            ev == entries.deep_view(),
            ev.len() == entries@.len(),
            spec_missing_entry(ev, fresh@, 0) == spec_missing_entry(ev, fresh@, i as int),
        decreases entries@.len() - i,
    {
        proof {
            assert(ev[i as int] == entries@[i as int]@);
        }
        if fresh.lookup(entries[i].as_str()).is_none() {
            return Some(entries[i].clone());
        }
        i += 1;
    }
    None
}

/// How a link failure surfaces as the library's error type.
pub open spec fn error_matches_issue(e: LinkError, issue: LinkIssue) -> bool {
    match issue {
        LinkIssue::BadInput => e is BadArchive || e is BadObject,
        LinkIssue::BadReloc => e is BadObject,
        LinkIssue::Undefined { name } => e matches LinkError::UndefinedSymbol(s) && s@ == name,
        LinkIssue::EntryMissing { name } => e matches LinkError::EntrySymbolNotFound(s) && s@
            == name,
        LinkIssue::Unsupported { kind } => e == LinkError::UnsupportedRelocation(kind),
        LinkIssue::Overflow => e is AddressOverflow,
    }
}

/// Applies every unit's relocations in order, overwriting the referenced
/// storage units in the sections' bytes.
#[verifier::rlimit(100)]
#[verifier::loop_isolation(false)]
fn apply_relocs(
    units: Vec<ObjectUnit>,
    asg: &Vec<(usize, usize, u32)>,
    fresh: &SymbolTable,
    known: &SymbolTable,
) -> (r: Result<Vec<ObjectUnit>, LinkError>)
    requires
        crate::objects::units_wf(units.deep_view()),
    ensures
        (r is Ok) == (spec_apply_all(units.deep_view(), asg_view(asg@), fresh@, known@, 0) is Ok),
        r is Ok ==> Ok::<Seq<UnitView>, LinkIssue>(r->Ok_0.deep_view()) == spec_apply_all(
            units.deep_view(),
            asg_view(asg@),
            fresh@,
            known@,
            0,
        ),
        r is Err ==> spec_apply_all(units.deep_view(), asg_view(asg@), fresh@, known@, 0) is Err
            && error_matches_issue(
            r->Err_0,
            spec_apply_all(units.deep_view(), asg_view(asg@), fresh@, known@, 0)->Err_0,
        ),
{
    let ghost uv0 = units.deep_view();
    let ghost av = asg_view(asg@);
    let ghost fr = fresh@;
    let ghost kn = known@;
    let ghost whole = spec_apply_all(uv0, av, fr, kn, 0);
    let mut units = units;
    let n = units.len();
    let mut u: usize = 0;
    while u < n
        invariant
            u <= n,
            n == units@.len(),
            units.deep_view().len() == n,
            av == asg_view(asg@),
            fr == fresh@,
            kn == known@,
            crate::objects::units_wf(units.deep_view()),
            whole == spec_apply_all(uv0, av, fr, kn, 0),
            whole == spec_apply_all(units.deep_view(), av, fr, kn, u as int),
        decreases n - u,
    {
        let nr = units[u].relocs.len();
        let mut i: usize = 0;
        while i < nr
            invariant
                i <= nr,
                u < n,
                n == units@.len(),
                units.deep_view().len() == n,
                av == asg_view(asg@),
                fr == fresh@,
                kn == known@,
                crate::objects::units_wf(units.deep_view()),
                nr == units.deep_view()[u as int].relocs.len(),
                whole == spec_apply_all(uv0, av, fr, kn, 0),
                ({
                    let vv = units.deep_view();
                    match spec_apply_unit(vv[u as int], av, fr, kn, u as int, i as int) {
                        Ok(u2) => whole == spec_apply_all(
                            vv.update(u as int, u2),
                            av,
                            fr,
                            kn,
                            u + 1,
                        ),
                        Err(e) => whole == Err::<Seq<UnitView>, LinkIssue>(e),
                    }
                }),
            decreases nr - i,
        {
            let ghost vv = units.deep_view();
            let ghost cur = vv[u as int];
            let r = units[u].relocs[i];
            proof {
                assert(cur.relocs[i as int] == units@[u as int].relocs@[i as int]@);
                assert(0 <= cur.relocs[i as int].section < cur.sections.len());
                assert(0 <= cur.relocs[i as int].symbol < cur.symbols.len());
                assert(cur.sections[r.section as int] == units@[u as int].sections@[r.section as int]@);
            }
            let kind_here = units[u].sections[r.section].kind;
            if matches!(kind_here, SectionKind::OtherSection) {
                i += 1;
                continue ;
            }
            if matches!(kind_here, SectionKind::BssSection) {
                return Err(LinkError::BadObject);
            }
            let sym_section = units[u].symbols[r.symbol].section;
            proof {
                assert(cur.symbols[r.symbol as int] == units@[u as int].symbols@[r.symbol as int]@);
            }
            let direct: Option<u32> = match sym_section {
                Some(sidx) => find_addr(asg, u, sidx),
                None => None,
            };
            let resolved: u32;
            if sym_section.is_some() && direct.is_some() {
                let sym_off = units[u].symbols[r.symbol].offset;
                resolved = direct.unwrap().wrapping_add(sym_off);
            } else {
                match fresh.lookup(units[u].symbols[r.symbol].name.as_str()) {
                    Some(a) => {
                        resolved = a;
                    },
                    None => {
                        match known.lookup(units[u].symbols[r.symbol].name.as_str()) {
                            Some(a) => {
                                resolved = a;
                            },
                            None => {
                                proof {
                                    assert(spec_resolve_reloc(
                                        cur,
                                        av,
                                        fr,
                                        kn,
                                        cur.relocs[i as int],
                                        u as int,
                                    ) is None);
                                    assert(spec_apply_unit(cur, av, fr, kn, u as int, i as int)
                                        == Err::<UnitView, LinkIssue>(
                                        LinkIssue::Undefined {
                                            name: cur.symbols[cur.relocs[i as int].symbol].name,
                                        },
                                    ));
                                }
                                return Err(
                                    LinkError::UndefinedSymbol(
                                        units[u].symbols[r.symbol].name.clone(),
                                    ),
                                );
                            },
                        }
                    },
                }
            }
            proof {
                assert(Some(resolved) == spec_resolve_reloc(
                    cur,
                    av,
                    fr,
                    kn,
                    cur.relocs[i as int],
                    u as int,
                ));
            }
            let ta = match find_addr(asg, u, r.section) {
                None => {
                    return Err(LinkError::BadObject);
                },
                Some(a) => a,
            };
            let sa: u32 = resolved.wrapping_add(r.addend as u32);
            let p: u32 = ta.wrapping_add(r.offset);
            let dlen = units[u].sections[r.section].data.len();
            let wide: bool;
            let value: u32;
            if r.kind == 1 {
                wide = true;
                value = sa;
            } else if r.kind == 4 {
                wide = false;
                value = sa & 0xFFFF;
            } else if r.kind == 5 {
                wide = false;
                value = sa >> 16u32;
            } else if r.kind == 6 {
                wide = false;
                value = sa.wrapping_add(0x8000) >> 16u32;
            } else if r.kind == 10 {
                if (r.offset as u64) + 4 > dlen as u64 {
                    return Err(LinkError::BadObject);
                }
                let old_word = read_be32(&units[u].sections[r.section].data, r.offset as usize);
                wide = true;
                value = (old_word & 0xFC000003) | (sa.wrapping_sub(p) & 0x03FFFFFC);
            } else if r.kind == 26 {
                wide = true;
                value = sa.wrapping_sub(p);
            } else {
                return Err(LinkError::UnsupportedRelocation(r.kind));
            }
            if wide {
                if (r.offset as u64) + 4 > dlen as u64 {
                    return Err(LinkError::BadObject);
                }
            } else {
                if (r.offset as u64) + 2 > dlen as u64 {
                    return Err(LinkError::BadObject);
                }
            }
            let ghost old_sec = cur.sections[r.section as int];
            let unit_ref = vstd::std_specs::vec::vec_index_mut(&mut units, u);
            let sec_ref = vstd::std_specs::vec::vec_index_mut(&mut unit_ref.sections, r.section);
            if wide {
                store_be32(&mut sec_ref.data, r.offset as usize, value);
            } else {
                store_be16(&mut sec_ref.data, r.offset as usize, value);
            }
            proof {
                let d2 = if wide {
                    spec_store_be32(old_sec.data, r.offset as int, value)
                } else {
                    spec_store_be16(old_sec.data, r.offset as int, value)
                };
                let expect = vv.update(
                    u as int,
                    UnitView {
                        sections: cur.sections.update(
                            r.section as int,
                            SecView { data: d2, ..old_sec },
                        ),
                        ..cur
                    },
                );
                assert(units.deep_view() =~~= expect);
                assert(spec_apply_reloc(old_sec.data, cur.relocs[i as int], ta, resolved)
                    == Ok::<Seq<u8>, LinkIssue>(d2));
                assert(spec_apply_unit(cur, av, fr, kn, u as int, i as int) == spec_apply_unit(
                    units.deep_view()[u as int],
                    av,
                    fr,
                    kn,
                    u as int,
                    i + 1,
                ));
                let after = spec_apply_unit(units.deep_view()[u as int], av, fr, kn, u as int, i + 1);
                if after is Ok {
                    assert(units.deep_view().update(u as int, after->Ok_0) =~~= vv.update(
                        u as int,
                        after->Ok_0,
                    ));
                }
                let nv = units.deep_view();
                assert forall|kk: int|
                    0 <= kk < nv.len() implies crate::objects::unit_wf(#[trigger] nv[kk]) by {
                    assert(crate::objects::unit_wf(vv[kk]));
                    if kk == u {
                        assert(nv[kk].relocs =~= vv[kk].relocs);
                        assert(nv[kk].sections.len() == vv[kk].sections.len());
                        assert(nv[kk].symbols.len() == vv[kk].symbols.len());
                        assert forall|ri: int|
                            0 <= ri < nv[kk].relocs.len() implies 0 <= (
                        #[trigger] nv[kk].relocs[ri]).section < nv[kk].sections.len() && 0
                            <= nv[kk].relocs[ri].symbol < nv[kk].symbols.len() by {
                            assert(nv[kk].relocs[ri] == vv[kk].relocs[ri]);
                        }
                    } else {
                        assert(nv[kk] == vv[kk]);
                    }
                }
            }
            i += 1;
        }
        proof {
            let vv = units.deep_view();
            assert(spec_apply_unit(vv[u as int], av, fr, kn, u as int, nr as int) == Ok::<
                UnitView,
                LinkIssue,
            >(vv[u as int]));
            assert(vv.update(u as int, vv[u as int]) =~~= vv);
        }
        u += 1;
    }
    proof {
        assert(spec_apply_all(units.deep_view(), av, fr, kn, n as int) == Ok::<
            Seq<UnitView>,
            LinkIssue,
        >(units.deep_view()));
    }
    Ok(units)
}

/// Each assigned address sits at or past the running cursor, indexes a real
/// section, and ends inside 32 bits: what the layout guarantees of its
/// assignment lists.
pub open spec fn spec_region_ok(
    units: Seq<UnitView>,
    asg: Seq<(int, int, u32)>,
    cursor: int,
    i: int,
) -> bool
    decreases asg.len() - i,
{
    if i < 0 || i >= asg.len() {
        true
    } else {
        let (u, s, a) = asg[i];
        &&& 0 <= u < units.len()
        &&& 0 <= s < units[u].sections.len()
        &&& a >= cursor
        &&& a + units[u].sections[s].size <= u32::MAX
        &&& spec_region_ok(units, asg, a + units[u].sections[s].size, i + 1)
    }
}

pub proof fn lemma_align_up_ge(c: int, a: int)
    by (nonlinear_arith)
    requires
        a >= 1,
        c >= 0,
    ensures
        spec_align_up(c, a) >= c,
        spec_align_up(c, a) < c + a,
{
}

pub proof fn lemma_layout_region_ok(
    units: Seq<UnitView>,
    pairs: Seq<(int, int)>,
    kind: SectionKind,
    cursor: int,
    i: int,
)
    requires
        pairs_ok(units, pairs),
        cursor >= 0,
        0 <= i <= pairs.len(),
    ensures
        spec_layout_flat(units, pairs, kind, cursor, i) matches Some((lst, end)) ==> {
            &&& spec_region_ok(units, lst, cursor, 0)
            &&& end >= cursor
            &&& end <= u32::MAX || lst.len() == 0
            &&& lst.len() == 0 ==> end == cursor
        },
    decreases pairs.len() - i,
{
    if 0 <= i < pairs.len() {
        let (u, s) = pairs[i];
        let sec = units[u].sections[s];
        if sec.kind == kind {
            let al = if sec.align == 0 {
                1
            } else {
                sec.align as int
            };
            lemma_align_up_ge(cursor, al);
            let a = spec_align_up(cursor, al);
            if a + sec.size <= u32::MAX {
                lemma_layout_region_ok(units, pairs, kind, a + sec.size, i + 1);
                if spec_layout_flat(units, pairs, kind, a + sec.size, i + 1) is Some {
                    let rest = (spec_layout_flat(units, pairs, kind, a + sec.size, i + 1)->0).0;
                    let whole = (spec_layout_flat(units, pairs, kind, cursor, i)->0).0;
                    assert(whole == seq![(u, s, a as u32)] + rest);
                    assert(whole.subrange(1, whole.len() as int) =~= rest);
                    lemma_region_ok_cons(units, whole, rest, cursor, a + sec.size);
                }
            }
        } else {
            lemma_layout_region_ok(units, pairs, kind, cursor, i + 1);
        }
    }
}

/// Prepending one in-range assignment keeps the list in range.
pub proof fn lemma_region_ok_cons(
    units: Seq<UnitView>,
    whole: Seq<(int, int, u32)>,
    rest: Seq<(int, int, u32)>,
    cursor: int,
    after: int,
)
    requires
        whole.len() == rest.len() + 1,
        whole.subrange(1, whole.len() as int) == rest,
        spec_region_ok(units, rest, after, 0),
        0 <= whole[0].0 < units.len(),
        0 <= whole[0].1 < units[whole[0].0].sections.len(),
        whole[0].2 >= cursor,
        whole[0].2 + units[whole[0].0].sections[whole[0].1].size <= u32::MAX,
        after == whole[0].2 + units[whole[0].0].sections[whole[0].1].size,
    ensures
        spec_region_ok(units, whole, cursor, 0),
{
    lemma_region_ok_shift(units, whole, rest, after, 0);
}

pub proof fn lemma_region_ok_shift(
    units: Seq<UnitView>,
    whole: Seq<(int, int, u32)>,
    rest: Seq<(int, int, u32)>,
    cursor: int,
    i: int,
)
    requires
        whole.len() == rest.len() + 1,
        whole.subrange(1, whole.len() as int) == rest,
        0 <= i,
        spec_region_ok(units, rest, cursor, i),
    ensures
        spec_region_ok(units, whole, cursor, i + 1),
    decreases rest.len() - i,
{
    if i < rest.len() {
        assert(whole[i + 1] == rest[i]);
        let (u, s, a) = rest[i];
        lemma_region_ok_shift(units, whole, rest, a + units[u].sections[s].size, i + 1);
    }
}

/// One load region's bytes, built section by section with zero padding up
/// to each aligned address.
fn region_bytes(units: &Vec<ObjectUnit>, asg: &Vec<(usize, usize, u32)>, start: u64) -> (r: Vec<
    u8,
>)
    requires
        spec_region_ok(units.deep_view(), asg_view(asg@), start as int, 0),
        start <= u32::MAX,
    ensures
        r@ == spec_region_bytes(units.deep_view(), asg_view(asg@), start as int, 0),
{
    let ghost uv = units.deep_view();
    let ghost av = asg_view(asg@);
    let ghost whole = spec_region_bytes(uv, av, start as int, 0);
    let mut out: Vec<u8> = Vec::new();
    let mut cur: u64 = start;
    let mut i: usize = 0;
    proof {
        assert(Seq::<u8>::empty() + whole =~= whole);
    }
    while i < asg.len()
        invariant
            i <= asg@.len(),
            uv == units.deep_view(),
            uv.len() == units@.len(),
            av == asg_view(asg@),
            av.len() == asg@.len(),
            cur <= u32::MAX + 1,
            whole == spec_region_bytes(uv, av, start as int, 0),
            whole == out@ + spec_region_bytes(uv, av, cur as int, i as int),
            spec_region_ok(uv, av, cur as int, i as int),
        decreases asg@.len() - i,
    {
        let (u, s, a) = asg[i];
        proof {
            assert(av[i as int] == (u as int, s as int, a));
            assert(uv[u as int] == units@[u as int].deep_view());
            assert(uv[u as int].sections[s as int] == units@[u as int].sections@[s as int]@);
        }
        let ghost out_prev = out@;
        let ghost suffix = spec_region_bytes(uv, av, cur as int, i as int);
        let pad = (a as u64) - cur;
        crate::bytes::push_zeros(&mut out, pad as usize);
        let sec = &units[u].sections[s];
        let ghost body: Seq<u8>;
        if matches!(sec.kind, SectionKind::BssSection) {
            proof {
                body = crate::linker::spec_zeros(uv[u as int].sections[s as int].size as int);
            }
            crate::bytes::push_zeros(&mut out, sec.size as usize);
        } else {
            proof {
                body = uv[u as int].sections[s as int].data;
            }
            crate::bytes::push_bytes(&mut out, &sec.data);
        }
        proof {
            let svw = uv[u as int].sections[s as int];
            assert(suffix == crate::linker::spec_zeros(a - cur) + body + spec_region_bytes(
                uv,
                av,
                a + svw.size,
                i + 1,
            ));
            assert(crate::linker::spec_zeros(pad as int) =~= crate::linker::spec_zeros(a - cur));
            if matches!(svw.kind, SectionKind::BssSection) {
                assert(Seq::new(svw.size as nat, |j: int| 0u8) =~= crate::linker::spec_zeros(
                    svw.size as int,
                ));
            }
            assert(out@ =~= (out_prev + crate::linker::spec_zeros(a - cur)) + body);
            assert(out@ + spec_region_bytes(uv, av, a + svw.size, i + 1) =~= out_prev + suffix);
        }
        cur = (a as u64) + (sec.size as u64);
        i += 1;
    }
    proof {
        assert(out@ + Seq::<u8>::empty() =~= out@);
    }
    out
}

/// The lowest symbol offset inside section `s`, if any symbol lives there.
fn min_symoff(syms: &Vec<crate::objects::ObjSymbol>, s: usize) -> (r: Option<u32>)
    ensures
        r == spec_symoff(syms.deep_view(), s as int, 0),
{
    let ghost sv = syms.deep_view();
    let mut m: Option<u32> = None;
    let mut i: usize = syms.len();
    while i > 0
        invariant
            i <= syms@.len(),
            sv == syms.deep_view(),
            sv.len() == syms@.len(),
            m == spec_symoff(sv, s as int, i as int),
        decreases i,
    {
        i = i - 1;
        proof {
            assert(sv[i as int] == syms@[i as int]@);
        }
        let sym = &syms[i];
        let is_here = match sym.section {
            Some(k) => k == s,
            None => false,
        };
        if is_here {
            m = match m {
                None => Some(sym.offset),
                Some(prev) => Some(
                    if sym.offset < prev {
                        sym.offset
                    } else {
                        prev
                    },
                ),
            };
        }
    }
    m
}

/// The placed-section list the map writer reads, in layout order.
fn build_linked_sections(units: &Vec<ObjectUnit>, asg: &Vec<(usize, usize, u32)>) -> (r: Vec<
    LinkedSection,
>)
    requires
        forall|i: int|
            0 <= i < asg_view(asg@).len() ==> 0 <= #[trigger] asg_view(asg@)[i].0
                < units.deep_view().len() && 0 <= asg_view(asg@)[i].1 < units.deep_view()[asg_view(
                asg@,
            )[i].0].sections.len(),
    ensures
        r.deep_view() == spec_linked_sections(units.deep_view(), asg_view(asg@), 0),
{
    let ghost uv = units.deep_view();
    let ghost av = asg_view(asg@);
    let ghost whole = spec_linked_sections(uv, av, 0);
    let mut out: Vec<LinkedSection> = Vec::new();
    let mut i: usize = 0;
    while i < asg.len()
        invariant
            i <= asg@.len(),
            uv == units.deep_view(),
            uv.len() == units@.len(),
            av == asg_view(asg@),
            av.len() == asg@.len(),
            forall|j: int|
                0 <= j < av.len() ==> 0 <= #[trigger] av[j].0 < uv.len() && 0 <= av[j].1
                    < uv[av[j].0].sections.len(),
            whole == spec_linked_sections(uv, av, 0),
            whole == out.deep_view() + spec_linked_sections(uv, av, i as int),
        decreases asg@.len() - i,
    {
        let (u, s, a) = asg[i];
        proof {
            assert(av[i as int] == (u as int, s as int, a));
            assert(uv[u as int] == units@[u as int].deep_view());
            assert(uv[u as int].sections[s as int] == units@[u as int].sections@[s as int]@);
        }
        let sec = &units[u].sections[s];
        let sym_offset = match min_symoff(&units[u].symbols, s) {
            Some(m) => m,
            None => 0,
        };
        let ghost prev = out.deep_view();
        let ls = LinkedSection {
            section_name: sec.name.clone(),
            kind: sec.kind,
            address: a,
            len: sec.size,
            sym_offset,
            member_name: units[u].member_name.clone(),
        };
        proof {
            assert(ls@ == spec_linked_sections(uv, av, i as int)[0]);
        }
        out.push(ls);
        proof {
            assert(out.deep_view() =~~= prev + seq![spec_linked_sections(uv, av, i as int)[0]]);
            assert((prev + seq![spec_linked_sections(uv, av, i as int)[0]])
                + spec_linked_sections(uv, av, i + 1) =~= prev + spec_linked_sections(
                uv,
                av,
                i as int,
            ));
        }
        i += 1;
    }
    proof {
        assert(out.deep_view() + Seq::<LinkedSectionView>::empty() =~= out.deep_view());
    }
    out
}

/// Two unit lists agree on everything but their sections' bytes.
pub open spec fn same_shape(a: Seq<UnitView>, b: Seq<UnitView>) -> bool {
    &&& a.len() == b.len()
    &&& forall|k: int|
        0 <= k < a.len() ==> (#[trigger] b[k]).sections.len() == a[k].sections.len()
    &&& forall|k: int, j: int|
        0 <= k < a.len() && 0 <= j < a[k].sections.len() ==> (#[trigger] b[k].sections[j]).size
            == a[k].sections[j].size && b[k].sections[j].kind == a[k].sections[j].kind
}

pub proof fn lemma_apply_unit_shape(
    unit: UnitView,
    asg: Seq<(int, int, u32)>,
    fresh: Seq<(Seq<char>, u32)>,
    known: Seq<(Seq<char>, u32)>,
    u: int,
    i: int,
)
    requires
        crate::objects::unit_wf(unit),
    ensures
        spec_apply_unit(unit, asg, fresh, known, u, i) matches Ok(u2) ==> u2.sections.len()
            == unit.sections.len() && forall|j: int|
            0 <= j < unit.sections.len() ==> (#[trigger] u2.sections[j]).size
                == unit.sections[j].size && u2.sections[j].kind == unit.sections[j].kind,
    decreases unit.relocs.len() - i,
{
    if 0 <= i < unit.relocs.len() {
        let r = unit.relocs[i];
        let sec = unit.sections[r.section];
        if sec.kind == SectionKind::OtherSection {
            lemma_apply_unit_shape(unit, asg, fresh, known, u, i + 1);
        } else if sec.kind == SectionKind::BssSection {
        } else {
            match spec_resolve_reloc(unit, asg, fresh, known, r, u) {
                None => {},
                Some(resolved) => {
                    let ta = spec_addr_of(asg, u, r.section, 0);
                    if ta is Some {
                        match spec_apply_reloc(sec.data, r, ta->0, resolved) {
                            Err(_) => {},
                            Ok(d2) => {
                                let unit2 = UnitView {
                                    sections: unit.sections.update(
                                        r.section,
                                        SecView { data: d2, ..sec },
                                    ),
                                    ..unit
                                };
                                assert(crate::objects::unit_wf(unit2));
                                lemma_apply_unit_shape(unit2, asg, fresh, known, u, i + 1);
                                if spec_apply_unit(unit2, asg, fresh, known, u, i + 1) is Ok {
                                    let fin = spec_apply_unit(unit2, asg, fresh, known, u, i + 1)->Ok_0;
                                    assert forall|j: int|
                                        0 <= j < unit.sections.len() implies (
                                    #[trigger] fin.sections[j]).size == unit.sections[j].size
                                        && fin.sections[j].kind == unit.sections[j].kind by {
                                        assert(unit2.sections[j].size == unit.sections[j].size);
                                        assert(unit2.sections[j].kind == unit.sections[j].kind);
                                    }
                                }
                            },
                        }
                    }
                },
            }
        }
    }
}

pub proof fn lemma_apply_all_shape(
    units: Seq<UnitView>,
    asg: Seq<(int, int, u32)>,
    fresh: Seq<(Seq<char>, u32)>,
    known: Seq<(Seq<char>, u32)>,
    u: int,
)
    requires
        0 <= u,
        crate::objects::units_wf(units),
    ensures
        spec_apply_all(units, asg, fresh, known, u) matches Ok(units2) ==> same_shape(
            units,
            units2,
        ),
    decreases units.len() - u,
{
    if u < units.len() {
        match spec_apply_unit(units[u], asg, fresh, known, u, 0) {
            Err(_) => {},
            Ok(unit2) => {
                lemma_apply_unit_shape(units[u], asg, fresh, known, u, 0);
                lemma_apply_unit_relocs(units[u], asg, fresh, known, u, 0);
                assert(crate::objects::units_wf(units.update(u, unit2)));
                lemma_apply_all_shape(units.update(u, unit2), asg, fresh, known, u + 1);
            },
        }
    }
}

/// Applying relocations leaves a unit's relocation and symbol lists, and
/// its member name, untouched.
pub proof fn lemma_apply_unit_relocs(
    unit: UnitView,
    asg: Seq<(int, int, u32)>,
    fresh: Seq<(Seq<char>, u32)>,
    known: Seq<(Seq<char>, u32)>,
    u: int,
    i: int,
)
    ensures
        spec_apply_unit(unit, asg, fresh, known, u, i) matches Ok(u2) ==> u2.relocs == unit.relocs
            && u2.symbols == unit.symbols && u2.member_name == unit.member_name,
    decreases unit.relocs.len() - i,
{
    if 0 <= i < unit.relocs.len() {
        let r = unit.relocs[i];
        let sec = unit.sections[r.section];
        if sec.kind == SectionKind::OtherSection {
            lemma_apply_unit_relocs(unit, asg, fresh, known, u, i + 1);
        } else if sec.kind == SectionKind::BssSection {
        } else {
            match spec_resolve_reloc(unit, asg, fresh, known, r, u) {
                None => {},
                Some(resolved) => {
                    let ta = spec_addr_of(asg, u, r.section, 0);
                    if ta is Some {
                        match spec_apply_reloc(sec.data, r, ta->0, resolved) {
                            Err(_) => {},
                            Ok(d2) => {
                                let unit2 = UnitView {
                                    sections: unit.sections.update(
                                        r.section,
                                        SecView { data: d2, ..sec },
                                    ),
                                    ..unit
                                };
                                lemma_apply_unit_relocs(unit2, asg, fresh, known, u, i + 1);
                            },
                        }
                    }
                },
            }
        }
    }
}

/// Whatever holds of one list's shape under `spec_region_ok` holds of the
/// other's.
pub proof fn lemma_region_ok_shape(
    a: Seq<UnitView>,
    b: Seq<UnitView>,
    asg: Seq<(int, int, u32)>,
    cursor: int,
    i: int,
)
    requires
        same_shape(a, b),
        spec_region_ok(a, asg, cursor, i),
        0 <= i,
    ensures
        spec_region_ok(b, asg, cursor, i),
    decreases asg.len() - i,
{
    if i < asg.len() {
        let (u, s, ad) = asg[i];
        lemma_region_ok_shape(a, b, asg, ad + a[u].sections[s].size, i + 1);
    }
}

/// Every assignment indexes a real section.
pub proof fn lemma_region_ok_indices(
    units: Seq<UnitView>,
    asg: Seq<(int, int, u32)>,
    cursor: int,
    i: int,
)
    requires
        spec_region_ok(units, asg, cursor, i),
        0 <= i,
    ensures
        forall|j: int|
            i <= j < asg.len() ==> 0 <= (#[trigger] asg[j]).0 < units.len() && 0 <= asg[j].1
                < units[asg[j].0].sections.len(),
    decreases asg.len() - i,
{
    if i < asg.len() {
        let (u, s, ad) = asg[i];
        lemma_region_ok_indices(units, asg, ad + units[u].sections[s].size, i + 1);
    }
}

/// The three assignment lists, one after another.
fn concat_asg(
    a: Vec<(usize, usize, u32)>,
    b: Vec<(usize, usize, u32)>,
    c: Vec<(usize, usize, u32)>,
) -> (r: Vec<(usize, usize, u32)>)
    ensures
        asg_view(r@) == asg_view(a@) + asg_view(b@) + asg_view(c@),
{
    let ghost a0 = a@;
    let ghost b0 = b@;
    let ghost c0 = c@;
    let mut r = a;
    let mut b = b;
    let mut c = c;
    r.append(&mut b);
    r.append(&mut c);
    proof {
        assert(r@ == a0 + b0 + c0);
        let lhs = asg_view(r@);
        let rhs = asg_view(a0) + asg_view(b0) + asg_view(c0);
        assert forall|j: int| 0 <= j < lhs.len() implies lhs[j] == rhs[j] by {
            if j < a0.len() {
                assert(r@[j] == a0[j]);
                assert(rhs[j] == asg_view(a0)[j]);
            } else if j < a0.len() + b0.len() {
                assert(r@[j] == b0[j - a0.len()]);
                assert(rhs[j] == asg_view(b0)[j - a0.len()]);
            } else {
                assert(r@[j] == c0[j - a0.len() - b0.len()]);
                assert(rhs[j] == asg_view(c0)[j - a0.len() - b0.len()]);
            }
        }
        assert(lhs =~= rhs);
    }
    r
}

/// The container's entry address: the first requested entry symbol's
/// resolved address.
pub open spec fn spec_entry_point(entries: Seq<Seq<char>>, fresh: Seq<(Seq<char>, u32)>) -> u32 {
    if entries.len() > 0 {
        match spec_lookup(fresh, entries[0]) {
            Some(a) => a,
            None => 0,
        }
    } else {
        0
    }
}

/// The loadable container a finished link denotes: one code region, one
/// data region, and one zero-filled region standing for the zero-fill
/// sections, each present only when it holds bytes.
pub open spec fn spec_link_dol(
    units2: Seq<UnitView>,
    l: LayoutView,
    base: u32,
    entry: u32,
) -> DolView {
    let text_bytes = spec_region_bytes(units2, l.text, base as int, 0);
    let data_bytes = spec_region_bytes(units2, l.data, l.text_end, 0);
    let bss_bytes = spec_region_bytes(units2, l.bss, l.data_end, 0);
    DolView {
        text: if text_bytes.len() > 0 {
            seq![(base, text_bytes)]
        } else {
            Seq::empty()
        },
        data: (if data_bytes.len() > 0 {
            seq![(l.text_end as u32, data_bytes)]
        } else {
            Seq::empty()
        }) + (if bss_bytes.len() > 0 {
            seq![(l.data_end as u32, bss_bytes)]
        } else {
            Seq::empty()
        }),
        bss_address: 0,
        bss_size: 0,
        entry_point: entry,
    }
}

/// The whole link, as one function of its inputs: decode, lay out, build
/// the symbol table, check the entries, relocate, and shape the container.
pub open spec fn spec_link(
    archives: Seq<Seq<u8>>,
    base: u32,
    entries: Seq<Seq<char>>,
    known: Seq<(Seq<char>, u32)>,
) -> Result<LinkedView, LinkIssue> {
    match spec_archives_decode(archives, 0) {
        None => Err(LinkIssue::BadInput),
        Some(units) => match spec_layout(units, base) {
            None => Err(LinkIssue::Overflow),
            Some(l) => {
                let asg = spec_assignments(l);
                let fresh = spec_symtab(Seq::<(Seq<char>, u32)>::empty(), units, asg, 0);
                match spec_missing_entry(entries, fresh, 0) {
                    Some(name) => Err(LinkIssue::EntryMissing { name }),
                    None => match spec_apply_all(units, asg, fresh, known, 0) {
                        Err(e) => Err(e),
                        Ok(units2) => Ok(
                            LinkedView {
                                symbol_table: fresh,
                                sections: spec_linked_sections(units, asg, 0),
                                dol: spec_link_dol(
                                    units2,
                                    l,
                                    base,
                                    spec_entry_point(entries, fresh),
                                ),
                            },
                        ),
                    },
                }
            },
        },
    }
}

/// Links the archives: the user's freshly compiled module first, then the
/// libraries, against the base load address, the required entry names, and
/// the game's pre-existing symbols. Identical inputs give an identical
/// symbol table, section ordering and container: the result is a function
/// of the inputs alone.
#[verifier::rlimit(100)]
pub fn link(
    archives: &Vec<Vec<u8>>,
    base_address: u32,
    entries: &Vec<String>,
    known_symbols: &SymbolTable,
) -> (r: Result<Linked, LinkError>)
    ensures
        (r is Ok) == (spec_link(
            archives.deep_view(),
            base_address,
            entries.deep_view(),
            known_symbols@,
        ) is Ok),
        r is Ok ==> Ok::<LinkedView, LinkIssue>(r->Ok_0@) == spec_link(
            archives.deep_view(),
            base_address,
            entries.deep_view(),
            known_symbols@,
        ),
        r is Err ==> spec_link(
            archives.deep_view(),
            base_address,
            entries.deep_view(),
            known_symbols@,
        ) is Err && error_matches_issue(
            r->Err_0,
            spec_link(archives.deep_view(), base_address, entries.deep_view(), known_symbols@)->Err_0,
        ),
{
    let ghost av = archives.deep_view();
    let ghost kn = known_symbols@;
    let ghost ev = entries.deep_view();
    let units = match decode_archives(archives) {
        Err(e) => {
            return Err(e);
        },
        Ok(u) => u,
    };
    let ghost uv = units.deep_view();
    proof {
        crate::objects::lemma_archives_decode_wf(av, 0);
    }
    let pairs = build_pairs(&units);
    proof {
        lemma_unit_pairs_ok(uv, 0);
    }
    let ghost pv = pairs_view(pairs@);
    let (t_asg, t_end) = match layout_kind(&units, &pairs, SectionKind::TextSection, base_address
        as u64) {
        None => {
            return Err(LinkError::AddressOverflow);
        },
        Some(x) => x,
    };
    let (d_asg, d_end) = match layout_kind(&units, &pairs, SectionKind::DataSection, t_end) {
        None => {
            return Err(LinkError::AddressOverflow);
        },
        Some(x) => x,
    };
    let (b_asg, b_end) = match layout_kind(&units, &pairs, SectionKind::BssSection, d_end) {
        None => {
            return Err(LinkError::AddressOverflow);
        },
        Some(x) => x,
    };
    let ghost layout = spec_layout(uv, base_address)->0;
    proof {
        assert(layout == LayoutView {
            text: asg_view(t_asg@),
            data: asg_view(d_asg@),
            bss: asg_view(b_asg@),
            text_end: t_end as int,
            data_end: d_end as int,
            bss_end: b_end as int,
        });
        lemma_layout_region_ok(uv, pv, SectionKind::TextSection, base_address as int, 0);
        lemma_layout_region_ok(uv, pv, SectionKind::DataSection, t_end as int, 0);
        lemma_layout_region_ok(uv, pv, SectionKind::BssSection, d_end as int, 0);
    }
    let t_asg2 = t_asg;
    let ghost tav = asg_view(t_asg2@);
    let ghost dav = asg_view(d_asg@);
    let ghost bav = asg_view(b_asg@);
    let asg = concat_asg(duplicate_asg(&t_asg2), duplicate_asg(&d_asg), duplicate_asg(&b_asg));
    let ghost fullv = asg_view(asg@);
    proof {
        assert(fullv == spec_assignments(layout));
        lemma_region_ok_indices(uv, tav, base_address as int, 0);
        lemma_region_ok_indices(uv, dav, t_end as int, 0);
        lemma_region_ok_indices(uv, bav, d_end as int, 0);
        assert forall|j: int|
            0 <= j < fullv.len() implies 0 <= (#[trigger] fullv[j]).0 < uv.len() && 0 <= fullv[j].1
            < uv[fullv[j].0].sections.len() by {
            if j < tav.len() {
                assert(fullv[j] == tav[j]);
            } else if j < tav.len() + dav.len() {
                assert(fullv[j] == dav[j - tav.len()]);
            } else {
                assert(fullv[j] == bav[j - tav.len() - dav.len()]);
            }
        }
    }
    let fresh = build_symtab(&units, &asg);
    match check_entries(entries, &fresh) {
        Some(name) => {
            return Err(LinkError::EntrySymbolNotFound(name));
        },
        None => {},
    }
    let sections = build_linked_sections(&units, &asg);
    let entry_point: u32 = if entries.len() > 0 {
        proof {
            assert(ev[0] == entries@[0]@);
        }
        match fresh.lookup(entries[0].as_str()) {
            Some(a) => a,
            None => 0,
        }
    } else {
        0
    };
    let units2 = match apply_relocs(units, &asg, &fresh, known_symbols) {
        Err(e) => {
            return Err(e);
        },
        Ok(u2) => u2,
    };
    let ghost uv2 = units2.deep_view();
    proof {
        lemma_apply_all_shape(uv, fullv, fresh@, kn, 0);
        lemma_region_ok_shape(uv, uv2, tav, base_address as int, 0);
        lemma_region_ok_shape(uv, uv2, dav, t_end as int, 0);
        lemma_region_ok_shape(uv, uv2, bav, d_end as int, 0);
    }
    let text_bytes = region_bytes(&units2, &t_asg2, base_address as u64);
    let data_bytes = region_bytes(&units2, &d_asg, t_end);
    let bss_bytes = region_bytes(&units2, &b_asg, d_end);
    let ghost want_dol = spec_link_dol(uv2, layout, base_address, spec_entry_point(ev, fresh@));
    let mut text_sections: Vec<DolSection> = Vec::new();
    if text_bytes.len() > 0 {
        text_sections.push(DolSection { address: base_address, data: text_bytes });
    }
    let mut data_sections: Vec<DolSection> = Vec::new();
    if data_bytes.len() > 0 {
        data_sections.push(DolSection { address: t_end as u32, data: data_bytes });
    }
    if bss_bytes.len() > 0 {
        data_sections.push(DolSection { address: d_end as u32, data: bss_bytes });
    }
    let dol = DolFile {
        text_sections,
        data_sections,
        bss_address: 0,
        bss_size: 0,
        entry_point,
    };
    proof {
        assert(dol@.text =~~= want_dol.text);
        assert(dol@.data =~~= want_dol.data);
        assert(dol@ =~~= want_dol);
    }
    let linked = Linked { symbol_table: fresh, sections, dol };
    proof {
        assert(linked@ =~~= spec_link(av, base_address, ev, kn)->Ok_0);
    }
    Ok(linked)
}

/// A symbol the fresh link defines resolves to the fresh link's address,
/// whatever the pre-existing game table binds the same name to: resolution
/// consults the fresh table first.
pub proof fn lemma_fresh_precedence(
    unit: UnitView,
    asg: Seq<(int, int, u32)>,
    fresh: Seq<(Seq<char>, u32)>,
    known: Seq<(Seq<char>, u32)>,
    r: RelocView,
    u: int,
)
    requires
        0 <= r.symbol < unit.symbols.len(),
        unit.symbols[r.symbol].section is None,
        spec_lookup(fresh, unit.symbols[r.symbol].name) is Some,
    ensures
        spec_resolve_reloc(unit, asg, fresh, known, r, u) == spec_lookup(
            fresh,
            unit.symbols[r.symbol].name,
        ),
{
}

/// Linking identical archives with an identical base address, entry list
/// and game table twice produces identical symbol tables, section
/// orderings and containers: the link's contract pins its result as one
/// function of those inputs.
pub proof fn lemma_link_deterministic(
    archives: Seq<Seq<u8>>,
    base: u32,
    entries: Seq<Seq<char>>,
    known: Seq<(Seq<char>, u32)>,
    r1: LinkedView,
    r2: LinkedView,
)
    requires
        Ok::<LinkedView, LinkIssue>(r1) == spec_link(archives, base, entries, known),
        Ok::<LinkedView, LinkIssue>(r2) == spec_link(archives, base, entries, known),
    ensures
        r1.symbol_table == r2.symbol_table,
        r1.sections == r2.sections,
        r1.dol == r2.dol,
{
}

pub proof fn lemma_missing_entry_from(
    entries: Seq<Seq<char>>,
    fresh: Seq<(Seq<char>, u32)>,
    j: int,
    i: int,
)
    requires
        0 <= j <= i < entries.len(),
        spec_lookup(fresh, entries[i]) is None,
    ensures
        spec_missing_entry(entries, fresh, j) is Some,
    decreases i - j,
{
    if spec_lookup(fresh, entries[j]) is Some {
        lemma_missing_entry_from(entries, fresh, j + 1, i);
    }
}

/// An entry name the fresh link does not define fails the link with the
/// missing-entry error, however the pre-existing game table binds it: the
/// entry check never consults the game table.
pub proof fn lemma_entry_requires_fresh_definition(
    archives: Seq<Seq<u8>>,
    base: u32,
    entries: Seq<Seq<char>>,
    known: Seq<(Seq<char>, u32)>,
    i: int,
)
    requires
        spec_archives_decode(archives, 0) is Some,
        spec_layout(spec_archives_decode(archives, 0)->0, base) is Some,
        0 <= i < entries.len(),
        spec_lookup(
            spec_symtab(
                Seq::<(Seq<char>, u32)>::empty(),
                spec_archives_decode(archives, 0)->0,
                spec_assignments(spec_layout(spec_archives_decode(archives, 0)->0, base)->0),
                0,
            ),
            entries[i],
        ) is None,
    ensures
        spec_link(archives, base, entries, known) is Err,
        spec_link(archives, base, entries, known)->Err_0 is EntryMissing,
{
    let units = spec_archives_decode(archives, 0)->0;
    let l = spec_layout(units, base)->0;
    let fresh = spec_symtab(Seq::<(Seq<char>, u32)>::empty(), units, spec_assignments(l), 0);
    lemma_missing_entry_from(entries, fresh, 0, i);
}

/// A copy of an assignment list.
fn duplicate_asg(a: &Vec<(usize, usize, u32)>) -> (r: Vec<(usize, usize, u32)>)
    ensures
        r@ == a@,
{
    let mut r: Vec<(usize, usize, u32)> = Vec::new();
    let mut i: usize = 0;
    while i < a.len()
        invariant
            i <= a@.len(),
            r@ == a@.subrange(0, i as int),
        decreases a@.len() - i,
    {
        r.push(a[i]);
        proof {
            assert(r@ =~= a@.subrange(0, i + 1 as int));
        }
        i += 1;
    }
    proof {
        assert(r@ =~= a@);
    }
    r
}

} // verus!
