//! The executable container: an ordered list of loadable regions and an
//! entry address under the platform's fixed header layout. The header holds
//! seven code-region and eleven data-region slots: file offset, load
//! address and size for each, then the zero-fill region's address and size
//! and the entry point, padded to `0x100` bytes.

use vstd::prelude::*;
use crate::bytes::{
    push_be32, push_bytes, push_zeros, read_be32, slice_bytes, spec_be32, spec_be32_bytes,
    spec_store_be32, store_be32,
};
use crate::assembler::Instruction;
use crate::errors::PatchError;

verus! {

/// One loadable region: its load address and its bytes.
pub struct DolSection {
    pub address: u32,
    pub data: Vec<u8>,
}

impl View for DolSection {
    type V = (u32, Seq<u8>);

    open spec fn view(&self) -> (u32, Seq<u8>) {
        (self.address, self.data@)
    }
}

impl DeepView for DolSection {
    type V = (u32, Seq<u8>);

    open spec fn deep_view(&self) -> (u32, Seq<u8>) {
        self@
    }
}

/// The mathematical value of a container.
#[verifier::ext_equal]
pub ghost struct DolView {
    pub text: Seq<(u32, Seq<u8>)>,
    pub data: Seq<(u32, Seq<u8>)>,
    pub bss_address: u32,
    pub bss_size: u32,
    pub entry_point: u32,
}

/// The in-memory executable: code regions, data regions, the zero-fill
/// region's bookkeeping, and the entry point.
pub struct DolFile {
    pub text_sections: Vec<DolSection>,
    pub data_sections: Vec<DolSection>,
    pub bss_address: u32,
    pub bss_size: u32,
    pub entry_point: u32,
}

impl View for DolFile {
    type V = DolView;

    open spec fn view(&self) -> DolView {
        DolView {
            text: self.text_sections.deep_view(),
            data: self.data_sections.deep_view(),
            bss_address: self.bss_address,
            bss_size: self.bss_size,
            entry_point: self.entry_point,
        }
    }
}

/// The number of code-region slots in the header.
pub const TEXT_SLOTS: usize = 7;

/// The number of data-region slots in the header.
pub const DATA_SLOTS: usize = 11;

/// The regions parsed from header slots `k..count`: a slot with size zero is
/// unused; a used slot whose bytes run past the buffer fails the parse.
pub open spec fn spec_parse_secs(
    b: Seq<u8>,
    off_base: int,
    addr_base: int,
    size_base: int,
    count: int,
    k: int,
) -> Option<Seq<(u32, Seq<u8>)>>
    decreases count - k,
{
    if k >= count {
        Some(Seq::empty())
    } else {
        let off = spec_be32(b, off_base + 4 * k) as int;
        let addr = spec_be32(b, addr_base + 4 * k);
        let size = spec_be32(b, size_base + 4 * k) as int;
        match spec_parse_secs(b, off_base, addr_base, size_base, count, k + 1) {
            None => None,
            Some(rest) => {
                if size == 0 {
                    Some(rest)
                } else if off + size <= b.len() {
                    Some(seq![(addr, b.subrange(off, off + size))] + rest)
                } else {
                    None
                }
            },
        }
    }
}

/// The value of a container's bytes, or `None` when they are malformed.
pub open spec fn spec_parse_dol(b: Seq<u8>) -> Option<DolView> {
    if b.len() < 0x100 {
        None
    } else {
        match (
            spec_parse_secs(b, 0x00, 0x48, 0x90, TEXT_SLOTS as int, 0),
            spec_parse_secs(b, 0x1C, 0x64, 0xAC, DATA_SLOTS as int, 0),
        ) {
            (Some(text), Some(data)) => Some(
                DolView {
                    text,
                    data,
                    bss_address: spec_be32(b, 0xD8),
                    bss_size: spec_be32(b, 0xDC),
                    entry_point: spec_be32(b, 0xE0),
                },
            ),
            _ => None,
        }
    }
}

/// The summed byte length of the first `k` regions.
pub open spec fn spec_sec_total(secs: Seq<(u32, Seq<u8>)>, k: int) -> int
    decreases k,
{
    if k <= 0 {
        0
    } else {
        spec_sec_total(secs, k - 1) + secs[k - 1].1.len()
    }
}

pub proof fn lemma_sec_total_mono(secs: Seq<(u32, Seq<u8>)>, i: int, k: int)
    requires
        0 <= i <= k,
    ensures
        spec_sec_total(secs, i) <= spec_sec_total(secs, k),
    decreases k - i,
{
    if i < k {
        lemma_sec_total_mono(secs, i, k - 1);
    }
}

pub proof fn lemma_sec_total_nonneg(secs: Seq<(u32, Seq<u8>)>, k: int)
    ensures
        spec_sec_total(secs, k) >= 0,
    decreases k,
{
    if k > 0 {
        lemma_sec_total_nonneg(secs, k - 1);
    }
}

/// Whether the regions, laid out after the `0x100`-byte header, stay inside
/// 32-bit file offsets.
pub open spec fn spec_dol_fits(v: DolView) -> bool {
    0x100 + spec_sec_total(v.text, v.text.len() as int) + spec_sec_total(
        v.data,
        v.data.len() as int,
    ) <= u32::MAX
}

/// The file-offset words of header slots `k..count`: regions are laid out
/// one after another from `base`; unused slots hold zero.
pub open spec fn spec_offset_words(
    secs: Seq<(u32, Seq<u8>)>,
    base: int,
    count: int,
    k: int,
) -> Seq<u8>
    decreases count - k,
{
    if k >= count {
        Seq::empty()
    } else {
        (if k < secs.len() {
            spec_be32_bytes((base + spec_sec_total(secs, k)) as u32)
        } else {
            spec_be32_bytes(0)
        }) + spec_offset_words(secs, base, count, k + 1)
    }
}

/// The load-address words of header slots `k..count`.
pub open spec fn spec_addr_words(secs: Seq<(u32, Seq<u8>)>, count: int, k: int) -> Seq<u8>
    decreases count - k,
{
    if k >= count {
        Seq::empty()
    } else {
        (if k < secs.len() {
            spec_be32_bytes(secs[k].0)
        } else {
            spec_be32_bytes(0)
        }) + spec_addr_words(secs, count, k + 1)
    }
}

/// The size words of header slots `k..count`.
pub open spec fn spec_size_words(secs: Seq<(u32, Seq<u8>)>, count: int, k: int) -> Seq<u8>
    decreases count - k,
{
    if k >= count {
        Seq::empty()
    } else {
        (if k < secs.len() {
            spec_be32_bytes(secs[k].1.len() as u32)
        } else {
            spec_be32_bytes(0)
        }) + spec_size_words(secs, count, k + 1)
    }
}

/// The regions' bytes, one after another.
pub open spec fn spec_sec_cat(secs: Seq<(u32, Seq<u8>)>, k: int) -> Seq<u8>
    decreases secs.len() - k,
{
    if k < 0 || k >= secs.len() {
        Seq::empty()
    } else {
        secs[k].1 + spec_sec_cat(secs, k + 1)
    }
}

/// Parses the header slots `0..count`, collecting the used regions in slot
/// order.
fn parse_secs(
    bytes: &Vec<u8>,
    off_base: usize,
    addr_base: usize,
    size_base: usize,
    count: usize,
) -> (r: Option<Vec<DolSection>>)
    requires
        off_base + 4 * count <= bytes@.len(),
        addr_base + 4 * count <= bytes@.len(),
        size_base + 4 * count <= bytes@.len(),
    ensures
        (r is Some) == (spec_parse_secs(
            bytes@,
            off_base as int,
            addr_base as int,
            size_base as int,
            count as int,
            0,
        ) is Some),
        r is Some ==> Some(r->0.deep_view()) == spec_parse_secs(
            bytes@,
            off_base as int,
            addr_base as int,
            size_base as int,
            count as int,
            0,
        ),
{
    let ghost whole = spec_parse_secs(
        bytes@,
        off_base as int,
        addr_base as int,
        size_base as int,
        count as int,
        0,
    );
    let n = bytes.len();
    let mut out: Vec<DolSection> = Vec::new();
    let mut k: usize = 0;
    while k < count
        invariant
            k <= count,
            n == bytes@.len(),
            off_base + 4 * count <= bytes@.len(),
            addr_base + 4 * count <= bytes@.len(),
            size_base + 4 * count <= bytes@.len(),
            whole == spec_parse_secs(
                bytes@,
                off_base as int,
                addr_base as int,
                size_base as int,
                count as int,
                0,
            ),
            spec_parse_secs(
                bytes@,
                off_base as int,
                addr_base as int,
                size_base as int,
                count as int,
                k as int,
            ) is Some ==> whole == Some(
                out.deep_view() + spec_parse_secs(
                    bytes@,
                    off_base as int,
                    addr_base as int,
                    size_base as int,
                    count as int,
                    k as int,
                )->0,
            ),
            spec_parse_secs(
                bytes@,
                off_base as int,
                addr_base as int,
                size_base as int,
                count as int,
                k as int,
            ) is None ==> whole is None,
        decreases count - k,
    {
        let ghost at_k = spec_parse_secs(
            bytes@,
            off_base as int,
            addr_base as int,
            size_base as int,
            count as int,
            k as int,
        );
        let ghost at_k1 = spec_parse_secs(
            bytes@,
            off_base as int,
            addr_base as int,
            size_base as int,
            count as int,
            k + 1,
        );
        let off = read_be32(bytes, off_base + 4 * k);
        let addr = read_be32(bytes, addr_base + 4 * k);
        let size = read_be32(bytes, size_base + 4 * k);
        if size != 0 {
            if (off as u64) + (size as u64) > bytes.len() as u64 {
                return None;
            }
            let lo = off as usize;
            let hi = lo + size as usize;
            let data = slice_bytes(bytes, lo, hi);
            let ghost prev = out.deep_view();
            out.push(DolSection { address: addr, data });
            proof {
                if at_k1 is Some {
                    assert(out.deep_view() =~~= prev + seq![
                        (addr, bytes@.subrange(lo as int, hi as int)),
                    ]);
                    assert(prev + (seq![(addr, bytes@.subrange(lo as int, hi as int))] + at_k1->0)
                        =~= out.deep_view() + at_k1->0);
                }
            }
        }
        k += 1;
    }
    proof {
        if whole is Some {
            assert(out.deep_view() + Seq::<(u32, Seq<u8>)>::empty() =~= out.deep_view());
        }
    }
    Some(out)
}

impl DolFile {
    /// Decodes a container's bytes; malformed bytes are a hard error.
    pub fn parse(bytes: &Vec<u8>) -> (r: Result<DolFile, PatchError>)
        ensures
            (r is Ok) == (spec_parse_dol(bytes@) is Some),
            r is Ok ==> Some(r->Ok_0@) == spec_parse_dol(bytes@),
            r is Err ==> r->Err_0 is BadContainer,
    {
        if bytes.len() < 0x100 {
            return Err(PatchError::BadContainer);
        }
        let text_sections = match parse_secs(bytes, 0x00, 0x48, 0x90, TEXT_SLOTS) {
            None => {
                return Err(PatchError::BadContainer);
            },
            Some(t) => t,
        };
        let data_sections = match parse_secs(bytes, 0x1C, 0x64, 0xAC, DATA_SLOTS) {
            None => {
                return Err(PatchError::BadContainer);
            },
            Some(d) => d,
        };
        Ok(
            DolFile {
                text_sections,
                data_sections,
                bss_address: read_be32(bytes, 0xD8),
                bss_size: read_be32(bytes, 0xDC),
                entry_point: read_be32(bytes, 0xE0),
            },
        )
    }

    /// Merges another parsed container's regions into the receiver as
    /// additional regions, keeping the existing order; the receiver's
    /// zero-fill bookkeeping and entry point stand.
    pub fn append(&mut self, other: DolFile)
        ensures
            final(self)@.text == old(self)@.text + other@.text,
            final(self)@.data == old(self)@.data + other@.data,
            final(self)@.bss_address == old(self)@.bss_address,
            final(self)@.bss_size == old(self)@.bss_size,
            final(self)@.entry_point == old(self)@.entry_point,
    {
        let ghost ot = other.text_sections.deep_view();
        let ghost od = other.data_sections.deep_view();
        let mut other = other;
        self.text_sections.append(&mut other.text_sections);
        self.data_sections.append(&mut other.data_sections);
        proof {
            assert(self.text_sections.deep_view() =~~= old(self).text_sections.deep_view() + ot);
            assert(self.data_sections.deep_view() =~~= old(self).data_sections.deep_view() + od);
        }
    }
}

/// The container's bytes under the fixed header layout.
pub open spec fn spec_dol_bytes(v: DolView) -> Seq<u8> {
    spec_offset_words(v.text, 0x100, TEXT_SLOTS as int, 0) + spec_offset_words(
        v.data,
        0x100 + spec_sec_total(v.text, v.text.len() as int),
        DATA_SLOTS as int,
        0,
    ) + spec_addr_words(v.text, TEXT_SLOTS as int, 0) + spec_addr_words(v.data, DATA_SLOTS as int, 0)
        + spec_size_words(v.text, TEXT_SLOTS as int, 0) + spec_size_words(v.data, DATA_SLOTS as int, 0)
        + spec_be32_bytes(v.bss_address) + spec_be32_bytes(v.bss_size) + spec_be32_bytes(
        v.entry_point,
    ) + Seq::new(28, |i: int| 0u8) + spec_sec_cat(v.text, 0) + spec_sec_cat(v.data, 0)
}

/// Appends the file-offset words for `count` slots, regions laid out from
/// `base`.
fn emit_offset_words(out: &mut Vec<u8>, secs: &Vec<DolSection>, base: u32, count: usize)
    requires
        secs@.len() <= count,
        base + spec_sec_total(secs.deep_view(), secs@.len() as int) <= u32::MAX,
    ensures
        final(out)@ == old(out)@ + spec_offset_words(
            secs.deep_view(),
            base as int,
            count as int,
            0,
        ),
{
    let ghost ds = secs.deep_view();
    let ghost target = spec_offset_words(ds, base as int, count as int, 0);
    proof {
        assert(old(out)@ + Seq::<u8>::empty() =~= old(out)@);
    }
    let mut cursor: u32 = base;
    let mut k: usize = 0;
    while k < count
        invariant
            k <= count,
            ds == secs.deep_view(),
            secs@.len() <= count,
            base + spec_sec_total(ds, secs@.len() as int) <= u32::MAX,
            k <= secs@.len() ==> cursor == base + spec_sec_total(ds, k as int),
            k > secs@.len() ==> cursor == base + spec_sec_total(ds, secs@.len() as int),
            old(out)@ + target == out@ + spec_offset_words(ds, base as int, count as int, k as int),
        decreases count - k,
    {
        let ghost suffix = spec_offset_words(ds, base as int, count as int, k as int);
        let ghost out_prev = out@;
        let ghost quad: Seq<u8>;
        if k < secs.len() {
            proof {
                lemma_sec_total_nonneg(ds, k as int);
                lemma_sec_total_mono(ds, k + 1, secs@.len() as int);
                assert(spec_sec_total(ds, k + 1) == spec_sec_total(ds, k as int) + ds[k as int].1.len());
                assert(ds[k as int].1.len() == secs@[k as int].data@.len());
                quad = spec_be32_bytes(cursor);
            }
            push_be32(out, cursor);
            cursor = cursor + (secs[k].data.len() as u32);
        } else {
            proof {
                quad = spec_be32_bytes(0);
            }
            push_be32(out, 0);
        }
        proof {
            assert(suffix == quad + spec_offset_words(ds, base as int, count as int, k + 1));
            assert((out_prev + quad) + spec_offset_words(ds, base as int, count as int, k + 1)
                =~= out_prev + suffix);
            assert(old(out)@ + target == out@ + spec_offset_words(
                ds,
                base as int,
                count as int,
                k + 1,
            ));
        }
        k += 1;
    }
    proof {
        assert(out@ + Seq::<u8>::empty() =~= out@);
        assert(final(out)@ =~= old(out)@ + target);
    }
}

/// Appends the load-address words for `count` slots.
fn emit_addr_words(out: &mut Vec<u8>, secs: &Vec<DolSection>, count: usize)
    requires
        secs@.len() <= count,
    ensures
        final(out)@ == old(out)@ + spec_addr_words(secs.deep_view(), count as int, 0),
{
    let ghost ds = secs.deep_view();
    let ghost target = spec_addr_words(ds, count as int, 0);
    proof {
        assert(old(out)@ + Seq::<u8>::empty() =~= old(out)@);
    }
    let mut k: usize = 0;
    while k < count
        invariant
            k <= count,
            ds == secs.deep_view(),
            secs@.len() <= count,
            old(out)@ + target == out@ + spec_addr_words(ds, count as int, k as int),
        decreases count - k,
    {
        let ghost suffix = spec_addr_words(ds, count as int, k as int);
        let ghost out_prev = out@;
        let ghost quad: Seq<u8>;
        if k < secs.len() {
            proof {
                quad = spec_be32_bytes(ds[k as int].0);
            }
            push_be32(out, secs[k].address);
        } else {
            proof {
                quad = spec_be32_bytes(0);
            }
            push_be32(out, 0);
        }
        proof {
            assert(suffix == quad + spec_addr_words(ds, count as int, k + 1));
            assert((out_prev + quad) + spec_addr_words(ds, count as int, k + 1) =~= out_prev
                + suffix);
        }
        k += 1;
    }
    proof {
        assert(out@ + Seq::<u8>::empty() =~= out@);
    }
}

/// Appends the size words for `count` slots.
fn emit_size_words(out: &mut Vec<u8>, secs: &Vec<DolSection>, count: usize)
    requires
        secs@.len() <= count,
        spec_sec_total(secs.deep_view(), secs@.len() as int) <= u32::MAX,
    ensures
        final(out)@ == old(out)@ + spec_size_words(secs.deep_view(), count as int, 0),
{
    let ghost ds = secs.deep_view();
    let ghost target = spec_size_words(ds, count as int, 0);
    proof {
        assert(old(out)@ + Seq::<u8>::empty() =~= old(out)@);
    }
    let mut k: usize = 0;
    while k < count
        invariant
            k <= count,
            ds == secs.deep_view(),
            secs@.len() <= count,
            spec_sec_total(ds, secs@.len() as int) <= u32::MAX,
            old(out)@ + target == out@ + spec_size_words(ds, count as int, k as int),
        decreases count - k,
    {
        let ghost suffix = spec_size_words(ds, count as int, k as int);
        let ghost out_prev = out@;
        let ghost quad: Seq<u8>;
        if k < secs.len() {
            proof {
                lemma_sec_total_nonneg(ds, k as int);
                lemma_sec_total_mono(ds, k + 1, secs@.len() as int);
                assert(spec_sec_total(ds, k + 1) == spec_sec_total(ds, k as int) + ds[k as int].1.len());
                assert(ds[k as int].1.len() == secs@[k as int].data@.len());
                quad = spec_be32_bytes(ds[k as int].1.len() as u32);
            }
            push_be32(out, secs[k].data.len() as u32);
        } else {
            proof {
                quad = spec_be32_bytes(0);
            }
            push_be32(out, 0);
        }
        proof {
            assert(suffix == quad + spec_size_words(ds, count as int, k + 1));
            assert((out_prev + quad) + spec_size_words(ds, count as int, k + 1) =~= out_prev
                + suffix);
        }
        k += 1;
    }
    proof {
        assert(out@ + Seq::<u8>::empty() =~= out@);
    }
}

/// Appends the regions' bytes, one region after another.
fn emit_sec_cat(out: &mut Vec<u8>, secs: &Vec<DolSection>)
    ensures
        final(out)@ == old(out)@ + spec_sec_cat(secs.deep_view(), 0),
{
    let ghost ds = secs.deep_view();
    let ghost target = spec_sec_cat(ds, 0);
    proof {
        assert(old(out)@ + Seq::<u8>::empty() =~= old(out)@);
    }
    let mut k: usize = 0;
    while k < secs.len()
        invariant
            k <= secs@.len(),
            ds == secs.deep_view(),
            old(out)@ + target == out@ + spec_sec_cat(ds, k as int),
        decreases secs@.len() - k,
    {
        let ghost suffix = spec_sec_cat(ds, k as int);
        let ghost out_prev = out@;
        proof {
            assert(ds[k as int].1 == secs@[k as int].data@);
        }
        push_bytes(out, &secs[k].data);
        proof {
            assert(suffix == ds[k as int].1 + spec_sec_cat(ds, k + 1));
            assert((out_prev + ds[k as int].1) + spec_sec_cat(ds, k + 1) =~= out_prev + suffix);
        }
        k += 1;
    }
    proof {
        assert(out@ + Seq::<u8>::empty() =~= out@);
    }
}

/// Checks that `0x100 + already + the regions' bytes` stays inside 32-bit
/// offsets, returning the new running total.
fn check_total(secs: &Vec<DolSection>, start: u64) -> (r: Option<u64>)
    requires
        start <= u32::MAX,
    ensures
        match r {
            Some(t) => t <= u32::MAX && t == start + spec_sec_total(
                secs.deep_view(),
                secs@.len() as int,
            ),
            None => start + spec_sec_total(secs.deep_view(), secs@.len() as int) > u32::MAX,
        },
{
    let ghost ds = secs.deep_view();
    let mut total: u64 = start;
    let mut k: usize = 0;
    while k < secs.len()
        invariant
            k <= secs@.len(),
            ds == secs.deep_view(),
            total <= u32::MAX,
            total == start + spec_sec_total(ds, k as int),
        decreases secs@.len() - k,
    {
        let len = secs[k].data.len();
        proof {
            assert(ds[k as int].1.len() == secs@[k as int].data@.len());
            assert(spec_sec_total(ds, k + 1) == spec_sec_total(ds, k as int) + ds[k as int].1.len());
        }
        if (len as u64) > (0xFFFF_FFFFu64 - total) {
            proof {
                lemma_sec_total_mono(ds, k + 1, secs@.len() as int);
            }
            return None;
        }
        total = total + (len as u64);
        k += 1;
    }
    Some(total)
}

impl DolFile {
    /// Writes the container back out, bit-exact under the fixed header
    /// layout: offsets, addresses and sizes for each slot, the zero-fill
    /// bookkeeping and entry point, then the regions' bytes in order.
    pub fn to_bytes(&self) -> (r: Result<Vec<u8>, PatchError>)
        ensures
            (r is Ok) == (self@.text.len() <= TEXT_SLOTS && self@.data.len() <= DATA_SLOTS
                && spec_dol_fits(self@)),
            r is Ok ==> r->Ok_0@ == spec_dol_bytes(self@),
            r is Err ==> (r->Err_0 is TooManyRegions <==> !(self@.text.len() <= TEXT_SLOTS
                && self@.data.len() <= DATA_SLOTS)),
            r is Err ==> (r->Err_0 is TooManyRegions || r->Err_0 is RegionTooLarge),
    {
        if self.text_sections.len() > TEXT_SLOTS || self.data_sections.len() > DATA_SLOTS {
            return Err(PatchError::TooManyRegions);
        }
        let text_total: u64 = match check_total(&self.text_sections, 0x100) {
            None => {
                proof {
                    lemma_sec_total_nonneg(self@.data, self@.data.len() as int);
                }
                return Err(PatchError::RegionTooLarge);
            },
            Some(t) => t,
        };
        let full_total: u64 = match check_total(&self.data_sections, text_total) {
            None => {
                return Err(PatchError::RegionTooLarge);
            },
            Some(t) => t,
        };
        let mut out: Vec<u8> = Vec::new();
        let ghost v = self@;
        emit_offset_words(&mut out, &self.text_sections, 0x100, TEXT_SLOTS);
        let ghost s1 = out@;
        proof {
            lemma_sec_total_nonneg(v.text, v.text.len() as int);
            lemma_sec_total_nonneg(v.data, v.data.len() as int);
        }
        emit_offset_words(&mut out, &self.data_sections, text_total as u32, DATA_SLOTS);
        emit_addr_words(&mut out, &self.text_sections, TEXT_SLOTS);
        emit_addr_words(&mut out, &self.data_sections, DATA_SLOTS);
        emit_size_words(&mut out, &self.text_sections, TEXT_SLOTS);
        emit_size_words(&mut out, &self.data_sections, DATA_SLOTS);
        push_be32(&mut out, self.bss_address);
        push_be32(&mut out, self.bss_size);
        push_be32(&mut out, self.entry_point);
        push_zeros(&mut out, 28);
        emit_sec_cat(&mut out, &self.text_sections);
        emit_sec_cat(&mut out, &self.data_sections);
        proof {
            assert(out@ =~= spec_dol_bytes(v));
        }
        Ok(out)
    }
}

/// Whether the four bytes at `addr` fall inside the region.
pub open spec fn spec_region_contains(sec: (u32, Seq<u8>), addr: u32) -> bool {
    sec.0 <= addr && addr + 4 <= sec.0 + sec.1.len()
}

/// The first region, scanning from `i`, that maps the word at `addr`.
pub open spec fn spec_find_region(secs: Seq<(u32, Seq<u8>)>, addr: u32, i: int) -> Option<int>
    decreases secs.len() - i,
{
    if i < 0 || i >= secs.len() {
        None
    } else if spec_region_contains(secs[i], addr) {
        Some(i)
    } else {
        spec_find_region(secs, addr, i + 1)
    }
}

/// One word overwritten in place: the code regions are searched first, then
/// the data regions; an address inside no region is unmapped.
pub open spec fn spec_patch_one(v: DolView, inst: crate::assembler::Instruction) -> Option<
    DolView,
> {
    match spec_find_region(v.text, inst.address, 0) {
        Some(k) => Some(
            DolView {
                text: v.text.update(
                    k,
                    (
                        v.text[k].0,
                        spec_store_be32(
                            v.text[k].1,
                            inst.address - v.text[k].0,
                            inst.data,
                        ),
                    ),
                ),
                ..v
            },
        ),
        None => match spec_find_region(v.data, inst.address, 0) {
            Some(k) => Some(
                DolView {
                    data: v.data.update(
                        k,
                        (
                            v.data[k].0,
                            spec_store_be32(
                                v.data[k].1,
                                inst.address - v.data[k].0,
                                inst.data,
                            ),
                        ),
                    ),
                    ..v
                },
            ),
            None => None,
        },
    }
}

/// Words overwritten in order from `i` on: the container after the writes
/// that succeeded, and the first unmapped address if one stopped the run.
pub open spec fn spec_patch_seq(v: DolView, instrs: Seq<crate::assembler::Instruction>, i: int) -> (
    DolView,
    Option<u32>,
)
    decreases instrs.len() - i,
{
    if i < 0 || i >= instrs.len() {
        (v, None)
    } else {
        match spec_patch_one(v, instrs[i]) {
            None => (v, Some(instrs[i].address)),
            Some(v2) => spec_patch_seq(v2, instrs, i + 1),
        }
    }
}

pub proof fn lemma_find_region_props(secs: Seq<(u32, Seq<u8>)>, addr: u32, i: int)
    ensures
        spec_find_region(secs, addr, i) is Some ==> {
            let k = spec_find_region(secs, addr, i)->0;
            &&& i <= k < secs.len()
            &&& spec_region_contains(secs[k], addr)
        },
    decreases secs.len() - i,
{
    if 0 <= i < secs.len() && !spec_region_contains(secs[i], addr) {
        lemma_find_region_props(secs, addr, i + 1);
    }
}

/// The index of the first region of `secs` that maps the word at `addr`.
fn find_region(secs: &Vec<DolSection>, addr: u32) -> (r: Option<usize>)
    ensures
        match r {
            Some(k) => k < secs@.len() && Some(k as int) == spec_find_region(
                secs.deep_view(),
                addr,
                0,
            ),
            None => spec_find_region(secs.deep_view(), addr, 0) is None,
        },
{
    let ghost ds = secs.deep_view();
    let mut i: usize = 0;
    while i < secs.len()
        invariant
            i <= secs@.len(),
            ds == secs.deep_view(),
            spec_find_region(ds, addr, 0) == spec_find_region(ds, addr, i as int),
        decreases secs@.len() - i,
    {
        let sec = &secs[i];
        proof {
            assert(ds[i as int] == (secs@[i as int].address, secs@[i as int].data@));
        }
        let n = sec.data.len();
        if sec.address <= addr && ((addr - sec.address) as u64) + 4 <= (n as u64) {
            return Some(i);
        }
        i += 1;
    }
    None
}

impl DolFile {
    /// Overwrites one word; `false` when the address is mapped by no region.
    fn patch_one(&mut self, inst: crate::assembler::Instruction) -> (r: bool)
        ensures
            spec_patch_one(old(self)@, inst) is Some ==> r && final(self)@ == spec_patch_one(
                old(self)@,
                inst,
            )->0,
            spec_patch_one(old(self)@, inst) is None ==> !r && final(self)@ == old(self)@,
    {
        let ghost v0 = old(self)@;
        match find_region(&self.text_sections, inst.address) {
            Some(k) => {
                let ghost dk = v0.text[k as int];
                proof {
                    lemma_find_region_props(v0.text, inst.address, 0);
                    assert(spec_region_contains(dk, inst.address));
                }
                let sec = vstd::std_specs::vec::vec_index_mut(&mut self.text_sections, k);
                let off = (inst.address - sec.address) as usize;
                store_be32(&mut sec.data, off, inst.data);
                proof {
                    assert(self.text_sections.deep_view() =~~= v0.text.update(
                        k as int,
                        (dk.0, spec_store_be32(dk.1, inst.address - dk.0, inst.data)),
                    ));
                }
                true
            },
            None => {
                match find_region(&self.data_sections, inst.address) {
                    Some(k) => {
                        let ghost dk = v0.data[k as int];
                        proof {
                            lemma_find_region_props(v0.data, inst.address, 0);
                            assert(spec_region_contains(dk, inst.address));
                        }
                        let sec = vstd::std_specs::vec::vec_index_mut(&mut self.data_sections, k);
                        let off = (inst.address - sec.address) as usize;
                        store_be32(&mut sec.data, off, inst.data);
                        proof {
                            assert(self.data_sections.deep_view() =~~= v0.data.update(
                                k as int,
                                (dk.0, spec_store_be32(dk.1, inst.address - dk.0, inst.data)),
                            ));
                        }
                        true
                    },
                    None => false,
                }
            },
        }
    }

    /// Overwrites the word of each instruction at its absolute address; an
    /// address inside no region is a hard error, and the words already
    /// written stand.
    pub fn patch(&mut self, instructions: &[crate::assembler::Instruction]) -> (r: Result<
        (),
        PatchError,
    >)
        ensures
            final(self)@ == spec_patch_seq(old(self)@, instructions@, 0).0,
            (r is Ok) == (spec_patch_seq(old(self)@, instructions@, 0).1 is None),
            r is Err ==> r->Err_0 == PatchError::AddressNotMapped(
                spec_patch_seq(old(self)@, instructions@, 0).1->0,
            ),
    {
        let ghost v0 = old(self)@;
        let ghost instrs = instructions@;
        let n = instructions.len();
        let mut bad: Option<u32> = None;
        let mut i: usize = 0;
        while i < n
            invariant_except_break
                i <= n,
                bad is None,
                spec_patch_seq(v0, instrs, 0) == spec_patch_seq(self@, instrs, i as int),
            invariant
                n == instrs.len(),
                instrs == instructions@,
            ensures
                bad is None ==> spec_patch_seq(v0, instrs, 0) == (self@, None::<u32>),
                bad is Some ==> spec_patch_seq(v0, instrs, 0) == (self@, bad),
            decreases n - i,
        {
            let inst = *vstd::slice::slice_index_get(instructions, i);
            let ghost before = self@;
            if !self.patch_one(inst) {
                bad = Some(inst.address);
                proof {
                    assert(instrs[i as int] == inst);
                    assert(spec_patch_seq(before, instrs, i as int) == (
                        before,
                        Some(inst.address),
                    ));
                }
                break ;
            }
            proof {
                assert(instrs[i as int] == inst);
                assert(spec_patch_seq(before, instrs, i as int) == spec_patch_seq(
                    self@,
                    instrs,
                    i + 1,
                ));
            }
            i += 1;
        }
        match bad {
            Some(a) => Err(PatchError::AddressNotMapped(a)),
            None => Ok(()),
        }
    }
}

pub proof fn lemma_find_region_some(secs: Seq<(u32, Seq<u8>)>, addr: u32, i: int, j: int)
    requires
        0 <= i <= j < secs.len(),
        spec_region_contains(secs[j], addr),
    ensures
        spec_find_region(secs, addr, i) is Some,
    decreases secs.len() - i,
{
    if !spec_region_contains(secs[i], addr) {
        lemma_find_region_some(secs, addr, i + 1, j);
    }
}

pub proof fn lemma_find_region_none(secs: Seq<(u32, Seq<u8>)>, addr: u32, i: int)
    requires
        0 <= i,
        forall|j: int| i <= j < secs.len() ==> !spec_region_contains(#[trigger] secs[j], addr),
    ensures
        spec_find_region(secs, addr, i) is None,
    decreases secs.len() - i,
{
    if i < secs.len() {
        lemma_find_region_none(secs, addr, i + 1);
    }
}

/// After another container's regions are merged in, a word inside the
/// newly appended region `j` is mapped, and overwriting it succeeds.
pub proof fn lemma_patch_after_append(
    merged: DolView,
    original: DolView,
    appended: DolView,
    inst: crate::assembler::Instruction,
    j: int,
)
    requires
        merged.text == original.text + appended.text,
        merged.data == original.data + appended.data,
        (0 <= j < appended.text.len() && spec_region_contains(appended.text[j], inst.address)) || (
        0 <= j < appended.data.len() && spec_region_contains(appended.data[j], inst.address)),
    ensures
        spec_patch_one(merged, inst) is Some,
{
    if 0 <= j < appended.text.len() && spec_region_contains(appended.text[j], inst.address) {
        assert(merged.text[original.text.len() + j] == (original.text + appended.text)[
            original.text.len() + j
        ]);
        assert(merged.text[original.text.len() + j] == appended.text[j]);
        lemma_find_region_some(merged.text, inst.address, 0, original.text.len() + j);
    } else {
        assert(merged.data[original.data.len() + j] == (original.data + appended.data)[
            original.data.len() + j
        ]);
        assert(merged.data[original.data.len() + j] == appended.data[j]);
        if spec_find_region(merged.text, inst.address, 0) is None {
            lemma_find_region_some(merged.data, inst.address, 0, original.data.len() + j);
        }
    }
}

/// Whether some region maps the word at `addr`.
pub open spec fn spec_word_mapped(v: DolView, addr: u32) -> bool {
    spec_find_region(v.text, addr, 0) is Some || spec_find_region(v.data, addr, 0) is Some
}

/// Overwriting a word never moves a region or changes its size; only the
/// patched region's bytes change.
pub proof fn lemma_patch_one_preserves_regions(v: DolView, inst: crate::assembler::Instruction)
    ensures
        spec_patch_one(v, inst) matches Some(v2) ==> {
            &&& v2.text.len() == v.text.len()
            &&& v2.data.len() == v.data.len()
            &&& forall|j: int|
                0 <= j < v.text.len() ==> (#[trigger] v2.text[j]).0 == v.text[j].0
                    && v2.text[j].1.len() == v.text[j].1.len()
            &&& forall|j: int|
                0 <= j < v.data.len() ==> (#[trigger] v2.data[j]).0 == v.data[j].0
                    && v2.data[j].1.len() == v.data[j].1.len()
        },
{
    lemma_find_region_props(v.text, inst.address, 0);
    lemma_find_region_props(v.data, inst.address, 0);
}

/// A run of words, each mapped by some region, is overwritten in full: no
/// write stops the sequence.
pub proof fn lemma_patch_all_mapped(
    v: DolView,
    instrs: Seq<crate::assembler::Instruction>,
    i: int,
)
    requires
        0 <= i,
        forall|j: int| i <= j < instrs.len() ==> spec_word_mapped(v, (#[trigger] instrs[j]).address),
    ensures
        spec_patch_seq(v, instrs, i).1 is None,
    decreases instrs.len() - i,
{
    if i < instrs.len() {
        let inst = instrs[i];
        assert(spec_word_mapped(v, inst.address));
        assert(spec_patch_one(v, inst) is Some);
        let v2 = spec_patch_one(v, inst)->0;
        lemma_patch_one_preserves_regions(v, inst);
        assert forall|j: int|
            i + 1 <= j < instrs.len() implies spec_word_mapped(
            v2,
            (#[trigger] instrs[j]).address,
        ) by {
            let addr = instrs[j].address;
            if spec_find_region(v.text, addr, 0) is Some {
                let k = spec_find_region(v.text, addr, 0)->0;
                lemma_find_region_props(v.text, addr, 0);
                assert(spec_region_contains(v2.text[k], addr));
                lemma_find_region_some(v2.text, addr, 0, k);
            } else {
                let k = spec_find_region(v.data, addr, 0)->0;
                lemma_find_region_props(v.data, addr, 0);
                assert(spec_region_contains(v2.data[k], addr));
                lemma_find_region_some(v2.data, addr, 0, k);
            }
        }
        lemma_patch_all_mapped(v2, instrs, i + 1);
    }
}

/// After another container's regions are merged in, a patch whose words
/// all lie inside the newly appended container's regions succeeds in full.
pub proof fn lemma_append_then_patch_all(
    merged: DolView,
    original: DolView,
    appended: DolView,
    instrs: Seq<crate::assembler::Instruction>,
)
    requires
        merged.text == original.text + appended.text,
        merged.data == original.data + appended.data,
        forall|j: int|
            0 <= j < instrs.len() ==> spec_word_mapped(appended, (#[trigger] instrs[j]).address),
    ensures
        spec_patch_seq(merged, instrs, 0).1 is None,
{
    assert forall|j: int|
        0 <= j < instrs.len() implies spec_word_mapped(
        merged,
        (#[trigger] instrs[j]).address,
    ) by {
        let addr = instrs[j].address;
        if spec_find_region(appended.text, addr, 0) is Some {
            let k = spec_find_region(appended.text, addr, 0)->0;
            lemma_find_region_props(appended.text, addr, 0);
            lemma_patch_after_append(merged, original, appended, instrs[j], k);
        } else {
            let k = spec_find_region(appended.data, addr, 0)->0;
            lemma_find_region_props(appended.data, addr, 0);
            lemma_patch_after_append(merged, original, appended, instrs[j], k);
        }
    }
    lemma_patch_all_mapped(merged, instrs, 0);
}

/// A word inside no region at all is unmapped: overwriting it is the hard
/// error, and the container stands untouched.
pub proof fn lemma_patch_unmapped(v: DolView, inst: crate::assembler::Instruction)
    requires
        forall|j: int|
            0 <= j < v.text.len() ==> !spec_region_contains(#[trigger] v.text[j], inst.address),
        forall|j: int|
            0 <= j < v.data.len() ==> !spec_region_contains(#[trigger] v.data[j], inst.address),
    ensures
        spec_patch_one(v, inst) is None,
{
    lemma_find_region_none(v.text, inst.address, 0);
    lemma_find_region_none(v.data, inst.address, 0);
}

/// Merges the freshly linked container into the original and overwrites the
/// patch's words, giving the final container bytes.
pub fn patch_instructions(
    original: DolFile,
    intermediate: DolFile,
    instructions: &[crate::assembler::Instruction],
) -> (r: Result<Vec<u8>, PatchError>)
    ensures
        ({
            let merged = DolView {
                text: original@.text + intermediate@.text,
                data: original@.data + intermediate@.data,
                bss_address: original@.bss_address,
                bss_size: original@.bss_size,
                entry_point: original@.entry_point,
            };
            let patched = spec_patch_seq(merged, instructions@, 0);
            &&& (r is Ok) == (patched.1 is None && patched.0.text.len() <= TEXT_SLOTS
                && patched.0.data.len() <= DATA_SLOTS && spec_dol_fits(patched.0))
            &&& (r is Ok ==> r->Ok_0@ == spec_dol_bytes(patched.0))
            &&& (patched.1 is Some ==> r == Err::<Vec<u8>, PatchError>(
                PatchError::AddressNotMapped(patched.1->0),
            ))
        }),
{
    let mut original = original;
    original.append(intermediate);
    match original.patch(instructions) {
        Err(e) => Err(e),
        Ok(()) => original.to_bytes(),
    }
}

} // verus!
