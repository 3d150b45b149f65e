//! The relocatable units the linker consumes: archives of object files,
//! decoded into a plain model of sections, symbols and relocations. The
//! archive and object containers themselves are read by an outside decoder;
//! everything after that decoding is the linker's own, verified logic.

use vstd::prelude::*;
use crate::errors::LinkError;
use crate::bytes::slice_bytes;

verus! {

/// What a section holds, deciding where the linker lays it out.
#[derive(Clone, Copy, PartialEq, Eq, Structural, Debug)]
pub enum SectionKind {
    /// Executable code.
    TextSection,
    /// Initialised data.
    DataSection,
    /// Zero-initialised data, occupying no bytes in the object.
    BssSection,
    /// Anything the output does not load (debug info, notes, string tables).
    OtherSection,
}

/// One section of a relocatable unit.
pub struct ObjSection {
    pub name: String,
    pub kind: SectionKind,
    /// The section's bytes; empty for zero-initialised and unloaded kinds.
    pub data: Vec<u8>,
    /// The section's size: `data.len()` for initialised kinds.
    pub size: u32,
    /// The address alignment, at least one.
    pub align: u32,
}

/// One symbol of a relocatable unit.
pub struct ObjSymbol {
    pub name: String,
    /// The defining section's index, or `None` for an undefined symbol.
    pub section: Option<usize>,
    /// The symbol's offset inside its section.
    pub offset: u32,
    /// Whether the symbol is visible to other units.
    pub global: bool,
}

/// One relocation of a relocatable unit.
#[derive(Clone, Copy)]
pub struct ObjReloc {
    /// The index of the section whose bytes are fixed up.
    pub section: usize,
    /// The byte offset of the storage unit inside that section.
    pub offset: u32,
    /// The target architecture's relocation kind number.
    pub kind: u32,
    /// The index of the referenced symbol.
    pub symbol: usize,
    /// The constant added to the symbol's address.
    pub addend: i32,
}

/// One archive member, decoded.
pub struct ObjectUnit {
    pub member_name: String,
    pub sections: Vec<ObjSection>,
    pub symbols: Vec<ObjSymbol>,
    pub relocs: Vec<ObjReloc>,
}

#[verifier::ext_equal]
pub ghost struct SecView {
    pub name: Seq<char>,
    pub kind: SectionKind,
    pub data: Seq<u8>,
    pub size: u32,
    pub align: u32,
}

#[verifier::ext_equal]
pub ghost struct SymView {
    pub name: Seq<char>,
    pub section: Option<int>,
    pub offset: u32,
    pub global: bool,
}

#[verifier::ext_equal]
pub ghost struct RelocView {
    pub section: int,
    pub offset: u32,
    pub kind: u32,
    pub symbol: int,
    pub addend: i32,
}

#[verifier::ext_equal]
pub ghost struct UnitView {
    pub member_name: Seq<char>,
    pub sections: Seq<SecView>,
    pub symbols: Seq<SymView>,
    pub relocs: Seq<RelocView>,
}

impl View for ObjSection {
    type V = SecView;

    open spec fn view(&self) -> SecView {
        SecView {
            name: self.name@,
            kind: self.kind,
            data: self.data@,
            size: self.size,
            align: self.align,
        }
    }
}

impl DeepView for ObjSection {
    type V = SecView;

    open spec fn deep_view(&self) -> SecView {
        self@
    }
}

impl View for ObjSymbol {
    type V = SymView;

    open spec fn view(&self) -> SymView {
        SymView {
            name: self.name@,
            section: match self.section {
                Some(k) => Some(k as int),
                None => None,
            },
            offset: self.offset,
            global: self.global,
        }
    }
}

impl DeepView for ObjSymbol {
    type V = SymView;

    open spec fn deep_view(&self) -> SymView {
        self@
    }
}

impl View for ObjReloc {
    type V = RelocView;

    open spec fn view(&self) -> RelocView {
        RelocView {
            section: self.section as int,
            offset: self.offset,
            kind: self.kind,
            symbol: self.symbol as int,
            addend: self.addend,
        }
    }
}

impl DeepView for ObjReloc {
    type V = RelocView;

    open spec fn deep_view(&self) -> RelocView {
        self@
    }
}

impl View for ObjectUnit {
    type V = UnitView;

    open spec fn view(&self) -> UnitView {
        UnitView {
            member_name: self.member_name@,
            sections: self.sections.deep_view(),
            symbols: self.symbols.deep_view(),
            relocs: self.relocs.deep_view(),
        }
    }
}

impl DeepView for ObjectUnit {
    type V = UnitView;

    open spec fn deep_view(&self) -> UnitView {
        self@
    }
}

/// What the outside archive decoder reports of an archive's bytes: each
/// member's name, data offset and data size, in archive order; `None` when
/// the bytes are not an archive.
pub uninterp spec fn ar_members_of(buf: Seq<u8>) -> Option<Seq<(Seq<char>, u64, u64)>>;

/// What the outside object decoder reports of an object's section headers:
/// name, type, flags, file offset, size, alignment, and the linked-section
/// field, in header order.
pub uninterp spec fn elf_sections_of(buf: Seq<u8>) -> Option<
    Seq<(Seq<char>, u32, u64, u64, u64, u64, u32)>,
>;

/// What the outside object decoder reports of an object's symbols: name,
/// value, section index, and the type-and-binding byte, in table order.
pub uninterp spec fn elf_symbols_of(buf: Seq<u8>) -> Option<Seq<(Seq<char>, u64, u64, u8)>>;

/// What the outside object decoder reports of an object's relocations: per
/// relocation section its header index, then each entry's offset, symbol
/// index, kind, and addend.
pub uninterp spec fn elf_relocs_of(buf: Seq<u8>) -> Option<
    Seq<(u64, Seq<(u64, u64, u32, Option<i64>)>)>,
>;

/// Relies on goblin's archive parser: member names (with extensions
/// resolved), data offsets and data sizes, in archive order.
#[verifier::external_body]
fn ar_member_table(buf: &Vec<u8>) -> (r: Option<Vec<(String, u64, u64)>>)
    ensures
        (r is Some) == (ar_members_of(buf@) is Some),
        r is Some ==> Some(r->0.deep_view()) == ar_members_of(buf@),
{
    let ar = match goblin::archive::Archive::parse(buf) {
        Ok(a) => a,
        Err(_) => return None,
    };
    let mut out = Vec::new();
    for i in 0..ar.len() {
        let m = ar.get_at(i).unwrap();
        out.push((m.extended_name().to_string(), m.offset, m.size() as u64));
    }
    Some(out)
}

/// Relies on goblin's ELF parser: each section header's name, type, flags,
/// offset, size, alignment and info field, in header order.
#[verifier::external_body]
fn elf_section_table(buf: &Vec<u8>) -> (r: Option<Vec<(String, u32, u64, u64, u64, u64, u32)>>)
    ensures
        (r is Some) == (elf_sections_of(buf@) is Some),
        r is Some ==> Some(r->0.deep_view()) == elf_sections_of(buf@),
{
    let elf = match goblin::elf::Elf::parse(buf) {
        Ok(e) => e,
        Err(_) => return None,
    };
    Some(elf.section_headers.iter().map(|sh| (
        elf.shdr_strtab.get_at(sh.sh_name).unwrap_or("").to_string(),
        sh.sh_type, sh.sh_flags, sh.sh_offset, sh.sh_size, sh.sh_addralign, sh.sh_info,
    )).collect())
}

/// Relies on goblin's ELF parser: each symbol's name, value, section index
/// and type-and-binding byte, in symbol-table order.
#[verifier::external_body]
fn elf_symbol_table(buf: &Vec<u8>) -> (r: Option<Vec<(String, u64, u64, u8)>>)
    ensures
        (r is Some) == (elf_symbols_of(buf@) is Some),
        r is Some ==> Some(r->0.deep_view()) == elf_symbols_of(buf@),
{
    let elf = match goblin::elf::Elf::parse(buf) {
        Ok(e) => e,
        Err(_) => return None,
    };
    Some(elf.syms.iter().map(|s| (
        elf.strtab.get_at(s.st_name).unwrap_or("").to_string(),
        s.st_value, s.st_shndx as u64, s.st_info,
    )).collect())
}

/// Relies on goblin's ELF parser: each relocation section's header index and
/// entries (offset, symbol index, kind, addend), in file order.
#[verifier::external_body]
fn elf_reloc_table(buf: &Vec<u8>) -> (r: Option<Vec<(u64, Vec<(u64, u64, u32, Option<i64>)>)>>)
    ensures
        (r is Some) == (elf_relocs_of(buf@) is Some),
        r is Some ==> Some(r->0.deep_view()) == elf_relocs_of(buf@),
{
    let elf = match goblin::elf::Elf::parse(buf) {
        Ok(e) => e,
        Err(_) => return None,
    };
    Some(elf.shdr_relocs.iter().map(|(idx, rs)| (
        *idx as u64,
        rs.iter().map(|r| (r.r_offset, r.r_sym as u64, r.r_type, r.r_addend)).collect(),
    )).collect())
}

/// The section kind, from the header's type and flags: allocatable
/// zero-fill, executable, or plain data; everything else is unloaded.
pub open spec fn spec_kind_of(sh_type: u32, flags: u64) -> SectionKind {
    if flags & 2 != 0 && sh_type == 8 {
        SectionKind::BssSection
    } else if flags & 2 != 0 && sh_type == 1 {
        if flags & 4 != 0 {
            SectionKind::TextSection
        } else {
            SectionKind::DataSection
        }
    } else {
        SectionKind::OtherSection
    }
}

pub open spec fn spec_norm_align(a: u64) -> u32 {
    if a == 0 {
        1u32
    } else {
        a as u32
    }
}

/// One decoded section: loaded kinds carry their bytes, and a section that
/// runs past the object's end is a decode failure.
pub open spec fn spec_sec_decode(
    raw: (Seq<char>, u32, u64, u64, u64, u64, u32),
    buf: Seq<u8>,
) -> Option<SecView> {
    let kind = spec_kind_of(raw.1, raw.2);
    if raw.4 > u32::MAX || raw.5 > u32::MAX {
        None
    } else if kind == SectionKind::TextSection || kind == SectionKind::DataSection {
        if raw.3 + raw.4 <= buf.len() {
            Some(
                SecView {
                    name: raw.0,
                    kind,
                    data: buf.subrange(raw.3 as int, raw.3 + raw.4),
                    size: raw.4 as u32,
                    align: spec_norm_align(raw.5),
                },
            )
        } else {
            None
        }
    } else {
        Some(
            SecView {
                name: raw.0,
                kind,
                data: Seq::empty(),
                size: raw.4 as u32,
                align: spec_norm_align(raw.5),
            },
        )
    }
}

pub open spec fn spec_secs_decode(
    raws: Seq<(Seq<char>, u32, u64, u64, u64, u64, u32)>,
    buf: Seq<u8>,
    i: int,
) -> Option<Seq<SecView>>
    decreases raws.len() - i,
{
    if i < 0 || i >= raws.len() {
        Some(Seq::empty())
    } else {
        match (spec_sec_decode(raws[i], buf), spec_secs_decode(raws, buf, i + 1)) {
            (Some(s), Some(rest)) => Some(seq![s] + rest),
            _ => None,
        }
    }
}

/// One decoded symbol: the section index is kept when it names a real
/// section; a value past 32 bits is a decode failure.
pub open spec fn spec_sym_decode(raw: (Seq<char>, u64, u64, u8), nsecs: int) -> Option<SymView> {
    if raw.1 > u32::MAX {
        None
    } else {
        Some(
            SymView {
                name: raw.0,
                section: if 1 <= raw.2 < nsecs {
                    Some(raw.2 as int)
                } else {
                    None
                },
                offset: raw.1 as u32,
                global: (raw.3 >> 4) != 0,
            },
        )
    }
}

pub open spec fn spec_syms_decode(
    raws: Seq<(Seq<char>, u64, u64, u8)>,
    nsecs: int,
    i: int,
) -> Option<Seq<SymView>>
    decreases raws.len() - i,
{
    if i < 0 || i >= raws.len() {
        Some(Seq::empty())
    } else {
        match (spec_sym_decode(raws[i], nsecs), spec_syms_decode(raws, nsecs, i + 1)) {
            (Some(s), Some(rest)) => Some(seq![s] + rest),
            _ => None,
        }
    }
}

/// One decoded relocation entry against its target section: the offset must
/// fit 32 bits, the symbol index must be in range, and the addend must be
/// present (the explicit-addend encoding) and fit 32 signed bits.
pub open spec fn spec_reloc_entry_decode(
    e: (u64, u64, u32, Option<i64>),
    target: int,
    nsyms: int,
) -> Option<RelocView> {
    if e.0 > u32::MAX || e.1 >= nsyms || e.3 is None || e.3->0 > i32::MAX || e.3->0 < i32::MIN {
        None
    } else {
        Some(
            RelocView {
                section: target,
                offset: e.0 as u32,
                kind: e.2,
                symbol: e.1 as int,
                addend: e.3->0 as i32,
            },
        )
    }
}

pub open spec fn spec_reloc_group_decode(
    entries: Seq<(u64, u64, u32, Option<i64>)>,
    target: int,
    nsyms: int,
    i: int,
) -> Option<Seq<RelocView>>
    decreases entries.len() - i,
{
    if i < 0 || i >= entries.len() {
        Some(Seq::empty())
    } else {
        match (
            spec_reloc_entry_decode(entries[i], target, nsyms),
            spec_reloc_group_decode(entries, target, nsyms, i + 1),
        ) {
            (Some(r), Some(rest)) => Some(seq![r] + rest),
            _ => None,
        }
    }
}

/// All relocation groups flattened in file order; a group whose header
/// index or target section is out of range is a decode failure.
pub open spec fn spec_relocs_decode(
    groups: Seq<(u64, Seq<(u64, u64, u32, Option<i64>)>)>,
    raws: Seq<(Seq<char>, u32, u64, u64, u64, u64, u32)>,
    nsyms: int,
    g: int,
) -> Option<Seq<RelocView>>
    decreases groups.len() - g,
{
    if g < 0 || g >= groups.len() {
        Some(Seq::empty())
    } else if groups[g].0 >= raws.len() {
        None
    } else {
        let target = raws[groups[g].0 as int].6 as int;
        if !(0 <= target < raws.len()) {
            None
        } else {
            match (
                spec_reloc_group_decode(groups[g].1, target, nsyms, 0),
                spec_relocs_decode(groups, raws, nsyms, g + 1),
            ) {
                (Some(rs), Some(rest)) => Some(rs + rest),
                _ => None,
            }
        }
    }
}

/// The decoded unit an object's bytes denote, through the outside decoder's
/// reported tables; `None` is a hard parse error.
pub open spec fn spec_object_decode(member: Seq<char>, buf: Seq<u8>) -> Option<UnitView> {
    match (elf_sections_of(buf), elf_symbols_of(buf), elf_relocs_of(buf)) {
        (Some(raw_secs), Some(raw_syms), Some(raw_groups)) => {
            match (
                spec_secs_decode(raw_secs, buf, 0),
                spec_syms_decode(raw_syms, raw_secs.len() as int, 0),
                spec_relocs_decode(raw_groups, raw_secs, raw_syms.len() as int, 0),
            ) {
                (Some(sections), Some(symbols), Some(relocs)) => Some(
                    UnitView { member_name: member, sections, symbols, relocs },
                ),
                _ => None,
            }
        },
        _ => None,
    }
}

/// Every relocation of the unit references a real section and a real
/// symbol; the decoder guarantees this of every unit it hands out.
pub open spec fn unit_wf(u: UnitView) -> bool {
    forall|i: int|
        0 <= i < u.relocs.len() ==> 0 <= #[trigger] u.relocs[i].section < u.sections.len() && 0
            <= u.relocs[i].symbol < u.symbols.len()
}

pub open spec fn units_wf(units: Seq<UnitView>) -> bool {
    forall|k: int| 0 <= k < units.len() ==> unit_wf(#[trigger] units[k])
}

pub proof fn lemma_secs_decode_len(
    raws: Seq<(Seq<char>, u32, u64, u64, u64, u64, u32)>,
    buf: Seq<u8>,
    i: int,
)
    requires
        0 <= i <= raws.len(),
    ensures
        spec_secs_decode(raws, buf, i) is Some ==> spec_secs_decode(raws, buf, i)->0.len()
            == raws.len() - i,
    decreases raws.len() - i,
{
    if i < raws.len() {
        lemma_secs_decode_len(raws, buf, i + 1);
    }
}

pub proof fn lemma_syms_decode_len(raws: Seq<(Seq<char>, u64, u64, u8)>, nsecs: int, i: int)
    requires
        0 <= i <= raws.len(),
    ensures
        spec_syms_decode(raws, nsecs, i) is Some ==> spec_syms_decode(raws, nsecs, i)->0.len()
            == raws.len() - i,
    decreases raws.len() - i,
{
    if i < raws.len() {
        lemma_syms_decode_len(raws, nsecs, i + 1);
    }
}

pub proof fn lemma_group_decode_wf(
    entries: Seq<(u64, u64, u32, Option<i64>)>,
    target: int,
    nsyms: int,
    i: int,
)
    requires
        0 <= i <= entries.len(),
    ensures
        spec_reloc_group_decode(entries, target, nsyms, i) is Some ==> forall|j: int|
            0 <= j < spec_reloc_group_decode(entries, target, nsyms, i)->0.len()
                ==> (#[trigger] spec_reloc_group_decode(entries, target, nsyms, i)->0[j]).section
                == target && 0 <= spec_reloc_group_decode(entries, target, nsyms, i)->0[j].symbol
                < nsyms,
    decreases entries.len() - i,
{
    if i < entries.len() {
        lemma_group_decode_wf(entries, target, nsyms, i + 1);
    }
}

pub proof fn lemma_relocs_decode_wf(
    groups: Seq<(u64, Seq<(u64, u64, u32, Option<i64>)>)>,
    raws: Seq<(Seq<char>, u32, u64, u64, u64, u64, u32)>,
    nsyms: int,
    g: int,
)
    requires
        0 <= g <= groups.len(),
    ensures
        spec_relocs_decode(groups, raws, nsyms, g) is Some ==> forall|j: int|
            0 <= j < spec_relocs_decode(groups, raws, nsyms, g)->0.len() ==> 0 <= (
            #[trigger] spec_relocs_decode(groups, raws, nsyms, g)->0[j]).section < raws.len() && 0
                <= spec_relocs_decode(groups, raws, nsyms, g)->0[j].symbol < nsyms,
    decreases groups.len() - g,
{
    if g < groups.len() && spec_relocs_decode(groups, raws, nsyms, g) is Some {
        lemma_relocs_decode_wf(groups, raws, nsyms, g + 1);
        let target = raws[groups[g].0 as int].6 as int;
        lemma_group_decode_wf(groups[g].1, target, nsyms, 0);
    }
}

pub proof fn lemma_object_decode_wf(member: Seq<char>, buf: Seq<u8>)
    ensures
        spec_object_decode(member, buf) is Some ==> unit_wf(spec_object_decode(member, buf)->0),
{
    if spec_object_decode(member, buf) is Some {
        let raw_secs = elf_sections_of(buf)->0;
        let raw_syms = elf_symbols_of(buf)->0;
        let raw_groups = elf_relocs_of(buf)->0;
        lemma_secs_decode_len(raw_secs, buf, 0);
        lemma_syms_decode_len(raw_syms, raw_secs.len() as int, 0);
        lemma_relocs_decode_wf(raw_groups, raw_secs, raw_syms.len() as int, 0);
    }
}

pub proof fn lemma_members_decode_wf(buf: Seq<u8>, ms: Seq<(Seq<char>, u64, u64)>, i: int)
    requires
        0 <= i <= ms.len(),
    ensures
        spec_members_decode(buf, ms, i) is Some ==> units_wf(spec_members_decode(buf, ms, i)->0),
    decreases ms.len() - i,
{
    if i < ms.len() && spec_members_decode(buf, ms, i) is Some {
        lemma_members_decode_wf(buf, ms, i + 1);
        if ms[i].1 + ms[i].2 <= buf.len() {
            lemma_object_decode_wf(ms[i].0, buf.subrange(ms[i].1 as int, ms[i].1 + ms[i].2));
        }
        let whole = spec_members_decode(buf, ms, i)->0;
        let rest = spec_members_decode(buf, ms, i + 1)->0;
        assert forall|k: int| 0 <= k < whole.len() implies unit_wf(#[trigger] whole[k]) by {
            if k == 0 {
                assert(whole[0] == spec_member_decode(buf, ms[i])->0);
            } else {
                assert(whole[k] == rest[k - 1]);
            }
        }
    }
}

pub proof fn lemma_archives_decode_wf(archives: Seq<Seq<u8>>, i: int)
    requires
        0 <= i <= archives.len(),
    ensures
        spec_archives_decode(archives, i) is Some ==> units_wf(spec_archives_decode(archives, i)->0),
    decreases archives.len() - i,
{
    if i < archives.len() && spec_archives_decode(archives, i) is Some {
        lemma_archives_decode_wf(archives, i + 1);
        match ar_members_of(archives[i]) {
            None => {},
            Some(ms) => {
                lemma_members_decode_wf(archives[i], ms, 0);
            },
        }
        let whole = spec_archives_decode(archives, i)->0;
        let us = spec_archive_decode(archives[i])->0;
        let rest = spec_archives_decode(archives, i + 1)->0;
        assert forall|k: int| 0 <= k < whole.len() implies unit_wf(#[trigger] whole[k]) by {
            if k < us.len() {
                assert(whole[k] == us[k]);
            } else {
                assert(whole[k] == rest[k - us.len()]);
            }
        }
    }
}

/// Decodes one object's sections through the outside decoder's table.
fn decode_sections(raws: &Vec<(String, u32, u64, u64, u64, u64, u32)>, buf: &Vec<u8>) -> (r: Option<
    Vec<ObjSection>,
>)
    ensures
        (r is Some) == (spec_secs_decode(raws.deep_view(), buf@, 0) is Some),
        r is Some ==> Some(r->0.deep_view()) == spec_secs_decode(raws.deep_view(), buf@, 0),
{
    let ghost rv = raws.deep_view();
    let ghost whole = spec_secs_decode(rv, buf@, 0);
    let buf_len = buf.len();
    let mut out: Vec<ObjSection> = Vec::new();
    let mut i: usize = 0;
    while i < raws.len()
        invariant
            i <= raws@.len(),
            rv == raws.deep_view(),
            rv.len() == raws@.len(),
            buf_len == buf@.len(),
            whole == spec_secs_decode(rv, buf@, 0),
            spec_secs_decode(rv, buf@, i as int) is Some ==> whole == Some(
                out.deep_view() + spec_secs_decode(rv, buf@, i as int)->0,
            ),
            spec_secs_decode(rv, buf@, i as int) is None ==> whole is None,
        decreases raws@.len() - i,
    {
        let ghost at_i = spec_secs_decode(rv, buf@, i as int);
        let ghost at_i1 = spec_secs_decode(rv, buf@, i + 1);
        let raw = &raws[i];
        proof {
            assert(rv[i as int] == (raw.0@, raw.1, raw.2, raw.3, raw.4, raw.5, raw.6));
        }
        let sh_type = raw.1;
        let flags = raw.2;
        let is_alloc = flags & 2 != 0;
        let kind: SectionKind = if is_alloc && sh_type == 8 {
            SectionKind::BssSection
        } else if is_alloc && sh_type == 1 {
            if flags & 4 != 0 {
                SectionKind::TextSection
            } else {
                SectionKind::DataSection
            }
        } else {
            SectionKind::OtherSection
        };
        if raw.4 > u32::MAX as u64 || raw.5 > u32::MAX as u64 {
            return None;
        }
        let align: u32 = if raw.5 == 0 {
            1
        } else {
            raw.5 as u32
        };
        let loaded = match kind {
            SectionKind::TextSection => true,
            SectionKind::DataSection => true,
            _ => false,
        };
        let data: Vec<u8>;
        if loaded {
            if raw.3 > u64::MAX - raw.4 || raw.3 + raw.4 > buf_len as u64 {
                return None;
            }
            data = slice_bytes(buf, raw.3 as usize, (raw.3 + raw.4) as usize);
        } else {
            data = Vec::new();
            proof {
                assert(data@ =~= Seq::<u8>::empty());
            }
        }
        let ghost prev = out.deep_view();
        let sec = ObjSection { name: raw.0.clone(), kind, data, size: raw.4 as u32, align };
        proof {
            assert(sec@ == spec_sec_decode(rv[i as int], buf@)->0);
        }
        out.push(sec);
        proof {
            assert(out.deep_view() =~~= prev + seq![spec_sec_decode(rv[i as int], buf@)->0]);
            if at_i1 is Some {
                assert(prev + (seq![spec_sec_decode(rv[i as int], buf@)->0] + at_i1->0)
                    =~= out.deep_view() + at_i1->0);
            }
        }
        i += 1;
    }
    proof {
        if whole is Some {
            assert(out.deep_view() + Seq::<SecView>::empty() =~= out.deep_view());
        }
    }
    Some(out)
}

/// Decodes one object's symbols through the outside decoder's table.
fn decode_symbols(raws: &Vec<(String, u64, u64, u8)>, nsecs: usize) -> (r: Option<Vec<ObjSymbol>>)
    ensures
        (r is Some) == (spec_syms_decode(raws.deep_view(), nsecs as int, 0) is Some),
        r is Some ==> Some(r->0.deep_view()) == spec_syms_decode(raws.deep_view(), nsecs as int, 0),
{
    let ghost rv = raws.deep_view();
    let ghost whole = spec_syms_decode(rv, nsecs as int, 0);
    let mut out: Vec<ObjSymbol> = Vec::new();
    let mut i: usize = 0;
    while i < raws.len()
        invariant
            i <= raws@.len(),
            rv == raws.deep_view(),
            rv.len() == raws@.len(),
            whole == spec_syms_decode(rv, nsecs as int, 0),
            spec_syms_decode(rv, nsecs as int, i as int) is Some ==> whole == Some(
                out.deep_view() + spec_syms_decode(rv, nsecs as int, i as int)->0,
            ),
            spec_syms_decode(rv, nsecs as int, i as int) is None ==> whole is None,
        decreases raws@.len() - i,
    {
        let ghost at_i1 = spec_syms_decode(rv, nsecs as int, i + 1);
        let raw = &raws[i];
        proof {
            assert(rv[i as int] == (raw.0@, raw.1, raw.2, raw.3));
        }
        if raw.1 > u32::MAX as u64 {
            return None;
        }
        let section: Option<usize> = if 1 <= raw.2 && raw.2 < nsecs as u64 {
            Some(raw.2 as usize)
        } else {
            None
        };
        let ghost prev = out.deep_view();
        let sym = ObjSymbol {
            name: raw.0.clone(),
            section,
            offset: raw.1 as u32,
            global: (raw.3 >> 4u8) != 0,
        };
        proof {
            assert(sym@ == spec_sym_decode(rv[i as int], nsecs as int)->0);
        }
        out.push(sym);
        proof {
            assert(out.deep_view() =~~= prev + seq![
                spec_sym_decode(rv[i as int], nsecs as int)->0,
            ]);
            if at_i1 is Some {
                assert(prev + (seq![spec_sym_decode(rv[i as int], nsecs as int)->0] + at_i1->0)
                    =~= out.deep_view() + at_i1->0);
            }
        }
        i += 1;
    }
    proof {
        if whole is Some {
            assert(out.deep_view() + Seq::<SymView>::empty() =~= out.deep_view());
        }
    }
    Some(out)
}

/// Decodes one relocation group against its target section.
fn decode_reloc_group(
    entries: &Vec<(u64, u64, u32, Option<i64>)>,
    target: usize,
    nsyms: usize,
    out: &mut Vec<ObjReloc>,
) -> (r: bool)
    ensures
        r == (spec_reloc_group_decode(entries.deep_view(), target as int, nsyms as int, 0)
            is Some),
        r ==> final(out).deep_view() == old(out).deep_view() + spec_reloc_group_decode(
            entries.deep_view(),
            target as int,
            nsyms as int,
            0,
        )->0,
{
    let ghost ev = entries.deep_view();
    let ghost whole = spec_reloc_group_decode(ev, target as int, nsyms as int, 0);
    let mut i: usize = 0;
    while i < entries.len()
        invariant
            i <= entries@.len(),
            ev == entries.deep_view(),
            ev.len() == entries@.len(),
            whole == spec_reloc_group_decode(ev, target as int, nsyms as int, 0),
            spec_reloc_group_decode(ev, target as int, nsyms as int, i as int) is Some
                ==> whole is Some && whole->0 == out.deep_view().subrange(
                old(out).deep_view().len() as int,
                out.deep_view().len() as int,
            ) + spec_reloc_group_decode(ev, target as int, nsyms as int, i as int)->0,
            spec_reloc_group_decode(ev, target as int, nsyms as int, i as int) is None
                ==> whole is None,
            out.deep_view().len() >= old(out).deep_view().len(),
            out.deep_view().subrange(0, old(out).deep_view().len() as int) == old(
                out,
            ).deep_view(),
        decreases entries@.len() - i,
    {
        let ghost at_i1 = spec_reloc_group_decode(ev, target as int, nsyms as int, i + 1);
        let e = *(&entries[i]);
        proof {
            assert(ev[i as int] == (e.0, e.1, e.2, e.3));
        }
        let addend = match e.3 {
            None => {
                return false;
            },
            Some(a) => a,
        };
        if e.0 > u32::MAX as u64 || e.1 >= nsyms as u64 || addend > i32::MAX as i64 || addend
            < i32::MIN as i64 {
            return false;
        }
        let ghost prev = out.deep_view();
        let rel = ObjReloc {
            section: target,
            offset: e.0 as u32,
            kind: e.2,
            symbol: e.1 as usize,
            addend: addend as i32,
        };
        proof {
            assert(rel@ == spec_reloc_entry_decode(ev[i as int], target as int, nsyms as int)->0);
        }
        out.push(rel);
        proof {
            assert(out.deep_view() =~~= prev + seq![
                spec_reloc_entry_decode(ev[i as int], target as int, nsyms as int)->0,
            ]);
            assert(out.deep_view().subrange(0, old(out).deep_view().len() as int) =~= old(
                out,
            ).deep_view());
            if at_i1 is Some {
                let added = out.deep_view().subrange(
                    old(out).deep_view().len() as int,
                    out.deep_view().len() as int,
                );
                let added_prev = prev.subrange(
                    old(out).deep_view().len() as int,
                    prev.len() as int,
                );
                assert(added =~= added_prev + seq![
                    spec_reloc_entry_decode(ev[i as int], target as int, nsyms as int)->0,
                ]);
                assert((added_prev + seq![
                    spec_reloc_entry_decode(ev[i as int], target as int, nsyms as int)->0,
                ]) + at_i1->0 =~= added_prev + (seq![
                    spec_reloc_entry_decode(ev[i as int], target as int, nsyms as int)->0,
                ] + at_i1->0));
            }
        }
        i += 1;
    }
    proof {
        if whole is Some {
            let added = out.deep_view().subrange(
                old(out).deep_view().len() as int,
                out.deep_view().len() as int,
            );
            assert(added + Seq::<RelocView>::empty() =~= added);
        }
    }
    true
}

/// Decodes all relocation groups, flattened in file order.
fn decode_relocs(
    groups: &Vec<(u64, Vec<(u64, u64, u32, Option<i64>)>)>,
    raws: &Vec<(String, u32, u64, u64, u64, u64, u32)>,
    nsyms: usize,
) -> (r: Option<Vec<ObjReloc>>)
    ensures
        (r is Some) == (spec_relocs_decode(groups.deep_view(), raws.deep_view(), nsyms as int, 0)
            is Some),
        r is Some ==> Some(r->0.deep_view()) == spec_relocs_decode(
            groups.deep_view(),
            raws.deep_view(),
            nsyms as int,
            0,
        ),
{
    let ghost gv = groups.deep_view();
    let ghost rv = raws.deep_view();
    let ghost whole = spec_relocs_decode(gv, rv, nsyms as int, 0);
    let mut out: Vec<ObjReloc> = Vec::new();
    proof {
        assert(out.deep_view() =~= Seq::<RelocView>::empty());
    }
    let mut g: usize = 0;
    while g < groups.len()
        invariant
            g <= groups@.len(),
            gv == groups.deep_view(),
            rv == raws.deep_view(),
            gv.len() == groups@.len(),
            rv.len() == raws@.len(),
            whole == spec_relocs_decode(gv, rv, nsyms as int, 0),
            spec_relocs_decode(gv, rv, nsyms as int, g as int) is Some ==> whole == Some(
                out.deep_view() + spec_relocs_decode(gv, rv, nsyms as int, g as int)->0,
            ),
            spec_relocs_decode(gv, rv, nsyms as int, g as int) is None ==> whole is None,
        decreases groups@.len() - g,
    {
        let ghost at_g1 = spec_relocs_decode(gv, rv, nsyms as int, g + 1);
        let idx = groups[g].0;
        proof {
            assert(gv[g as int] == (groups@[g as int].0, groups@[g as int].1.deep_view()));
        }
        if idx >= raws.len() as u64 {
            return None;
        }
        let target_u32 = raws[idx as usize].6;
        proof {
            assert(rv[idx as int] == (
                raws@[idx as int].0@,
                raws@[idx as int].1,
                raws@[idx as int].2,
                raws@[idx as int].3,
                raws@[idx as int].4,
                raws@[idx as int].5,
                raws@[idx as int].6,
            ));
        }
        if target_u32 as u64 >= raws.len() as u64 {
            return None;
        }
        let target = target_u32 as usize;
        let ghost prev = out.deep_view();
        let ok = decode_reloc_group(&groups[g].1, target, nsyms, &mut out);
        if !ok {
            return None;
        }
        proof {
            let grp = spec_reloc_group_decode(gv[g as int].1, target as int, nsyms as int, 0)->0;
            assert(out.deep_view() == prev + grp);
            if at_g1 is Some {
                assert((prev + grp) + at_g1->0 =~= prev + (grp + at_g1->0));
            }
        }
        g += 1;
    }
    proof {
        if whole is Some {
            assert(out.deep_view() + Seq::<RelocView>::empty() =~= out.deep_view());
        }
    }
    Some(out)
}

/// Decodes one archive member's bytes as a relocatable object; a malformed
/// or unsupported encoding is a hard parse error.
pub fn decode_object(member_name: String, buf: &Vec<u8>) -> (r: Result<ObjectUnit, LinkError>)
    ensures
        (r is Ok) == (spec_object_decode(member_name@, buf@) is Some),
        r is Ok ==> Some(r->Ok_0@) == spec_object_decode(member_name@, buf@),
        r is Err ==> r->Err_0 is BadObject,
{
    let raw_secs = match elf_section_table(buf) {
        None => {
            return Err(LinkError::BadObject);
        },
        Some(t) => t,
    };
    let raw_syms = match elf_symbol_table(buf) {
        None => {
            return Err(LinkError::BadObject);
        },
        Some(t) => t,
    };
    let raw_groups = match elf_reloc_table(buf) {
        None => {
            return Err(LinkError::BadObject);
        },
        Some(t) => t,
    };
    let sections = match decode_sections(&raw_secs, buf) {
        None => {
            return Err(LinkError::BadObject);
        },
        Some(s) => s,
    };
    let symbols = match decode_symbols(&raw_syms, raw_secs.len()) {
        None => {
            return Err(LinkError::BadObject);
        },
        Some(s) => s,
    };
    let relocs = match decode_relocs(&raw_groups, &raw_secs, raw_syms.len()) {
        None => {
            return Err(LinkError::BadObject);
        },
        Some(s) => s,
    };
    Ok(ObjectUnit { member_name, sections, symbols, relocs })
}

/// The decoded unit one member denotes: its bytes, cut from the archive by
/// the reported offset and size, decoded as an object.
pub open spec fn spec_member_decode(buf: Seq<u8>, m: (Seq<char>, u64, u64)) -> Option<UnitView> {
    if m.1 + m.2 <= buf.len() {
        spec_object_decode(m.0, buf.subrange(m.1 as int, m.1 + m.2))
    } else {
        None
    }
}

pub open spec fn spec_members_decode(
    buf: Seq<u8>,
    ms: Seq<(Seq<char>, u64, u64)>,
    i: int,
) -> Option<Seq<UnitView>>
    decreases ms.len() - i,
{
    if i < 0 || i >= ms.len() {
        Some(Seq::empty())
    } else {
        match (spec_member_decode(buf, ms[i]), spec_members_decode(buf, ms, i + 1)) {
            (Some(u), Some(rest)) => Some(seq![u] + rest),
            _ => None,
        }
    }
}

/// The units one archive's bytes denote, in archive order.
pub open spec fn spec_archive_decode(buf: Seq<u8>) -> Option<Seq<UnitView>> {
    match ar_members_of(buf) {
        None => None,
        Some(ms) => spec_members_decode(buf, ms, 0),
    }
}

/// The units of all archives, flattened in archive order.
pub open spec fn spec_archives_decode(archives: Seq<Seq<u8>>, i: int) -> Option<Seq<UnitView>>
    decreases archives.len() - i,
{
    if i < 0 || i >= archives.len() {
        Some(Seq::empty())
    } else {
        match (spec_archive_decode(archives[i]), spec_archives_decode(archives, i + 1)) {
            (Some(us), Some(rest)) => Some(us + rest),
            _ => None,
        }
    }
}

/// Decodes one archive's members in archive order.
pub fn decode_archive(buf: &Vec<u8>) -> (r: Result<Vec<ObjectUnit>, LinkError>)
    ensures
        (r is Ok) == (spec_archive_decode(buf@) is Some),
        r is Ok ==> Some(r->Ok_0.deep_view()) == spec_archive_decode(buf@),
        r is Err ==> (r->Err_0 is BadArchive || r->Err_0 is BadObject),
{
    let members = match ar_member_table(buf) {
        None => {
            return Err(LinkError::BadArchive);
        },
        Some(m) => m,
    };
    let ghost mv = members.deep_view();
    let ghost whole = spec_members_decode(buf@, mv, 0);
    proof {
        assert(whole == spec_archive_decode(buf@));
    }
    let buf_len = buf.len();
    let mut out: Vec<ObjectUnit> = Vec::new();
    let mut i: usize = 0;
    while i < members.len()
        invariant
            i <= members@.len(),
            mv == members.deep_view(),
            mv.len() == members@.len(),
            buf_len == buf@.len(),
            whole == spec_members_decode(buf@, mv, 0),
            whole == spec_archive_decode(buf@),
            spec_members_decode(buf@, mv, i as int) is Some ==> whole == Some(
                out.deep_view() + spec_members_decode(buf@, mv, i as int)->0,
            ),
            spec_members_decode(buf@, mv, i as int) is None ==> whole is None,
        decreases members@.len() - i,
    {
        let ghost at_i1 = spec_members_decode(buf@, mv, i + 1);
        let m = &members[i];
        proof {
            assert(mv[i as int] == (m.0@, m.1, m.2));
        }
        if m.1 > u64::MAX - m.2 || m.1 + m.2 > buf_len as u64 {
            proof {
                assert(mv[i as int].1 + mv[i as int].2 > buf@.len());
                assert(spec_member_decode(buf@, mv[i as int]) is None);
                assert(spec_members_decode(buf@, mv, i as int) is None);
            }
            return Err(LinkError::BadArchive);
        }
        let mbuf = slice_bytes(buf, m.1 as usize, (m.1 + m.2) as usize);
        let unit = match decode_object(m.0.clone(), &mbuf) {
            Err(e) => {
                return Err(e);
            },
            Ok(u) => u,
        };
        let ghost prev = out.deep_view();
        proof {
            assert(unit@ == spec_member_decode(buf@, mv[i as int])->0);
        }
        out.push(unit);
        proof {
            assert(out.deep_view() =~~= prev + seq![spec_member_decode(buf@, mv[i as int])->0]);
            if at_i1 is Some {
                assert(prev + (seq![spec_member_decode(buf@, mv[i as int])->0] + at_i1->0)
                    =~= out.deep_view() + at_i1->0);
            }
        }
        i += 1;
    }
    proof {
        if whole is Some {
            assert(out.deep_view() + Seq::<UnitView>::empty() =~= out.deep_view());
        }
    }
    Ok(out)
}

/// Decodes every archive, flattening the units in archive order: the user's
/// module first, then the libraries, in the order they were handed in.
pub fn decode_archives(archives: &Vec<Vec<u8>>) -> (r: Result<Vec<ObjectUnit>, LinkError>)
    ensures
        (r is Ok) == (spec_archives_decode(archives.deep_view(), 0) is Some),
        r is Ok ==> Some(r->Ok_0.deep_view()) == spec_archives_decode(archives.deep_view(), 0),
        r is Err ==> (r->Err_0 is BadArchive || r->Err_0 is BadObject),
{
    let ghost av = archives.deep_view();
    let ghost whole = spec_archives_decode(av, 0);
    let mut out: Vec<ObjectUnit> = Vec::new();
    let mut i: usize = 0;
    while i < archives.len()
        invariant
            i <= archives@.len(),
            av == archives.deep_view(),
            av.len() == archives@.len(),
            whole == spec_archives_decode(av, 0),
            spec_archives_decode(av, i as int) is Some ==> whole == Some(
                out.deep_view() + spec_archives_decode(av, i as int)->0,
            ),
            spec_archives_decode(av, i as int) is None ==> whole is None,
        decreases archives@.len() - i,
    {
        let ghost at_i1 = spec_archives_decode(av, i + 1);
        proof {
            assert(av[i as int] == archives@[i as int]@);
        }
        let units = match decode_archive(&archives[i]) {
            Err(e) => {
                return Err(e);
            },
            Ok(u) => u,
        };
        let ghost prev = out.deep_view();
        let ghost uv = units.deep_view();
        let mut units = units;
        out.append(&mut units);
        proof {
            assert(out.deep_view() =~~= prev + uv);
            if at_i1 is Some {
                assert((prev + uv) + at_i1->0 =~= prev + (uv + at_i1->0));
            }
        }
        i += 1;
    }
    proof {
        if whole is Some {
            assert(out.deep_view() + Seq::<UnitView>::empty() =~= out.deep_view());
        }
    }
    Ok(out)
}

} // verus!
