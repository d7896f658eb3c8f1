//! Keeping Windows PE setup off the SCE RPC path: the WpeUtil import slots of `winpeshl.exe`
//! are pointed at a `xor eax,eax; ret` gadget inside its own image, so
//! `WpeInstallServicesSecurityTemplate` and its siblings return success at once.
//!
//! The Win7 SP1 `winpeshl.exe` layout is fixed: the WpeUtil import slots start at
//! `ImageBase + 0x1240` (six of them), and the import thunks with their `int3` padding sit
//! at `ImageBase + 0xb000 .. 0xc000`.

use vstd::prelude::*;
use vstd::bytes::*;

use crate::cli::{first_occurrence_from, lower_bytes, lower_vec, GuestPhysical};
use crate::inspect::{paged_long_mode, u16_le, u32_le, u64_le, u16_at, u32_at, u64_at, CpuSnapshot};
use crate::patch::{byte_in, translate_in, view_of, view_translate, view_u64, view_write, write_in, PhysView};
use crate::lfb::read_u64_in;
use crate::procscan::{scan_limit, MAX_CHUNKS, SCAN_CHUNK};

verus! {

/// The `n` physical bytes from `pa` (addresses wrap).
pub open spec fn view_bytes(v: PhysView, pa: u64, n: nat) -> Seq<u8> {
    Seq::new(n, |j: int| (v.byte)(pa.wrapping_add(j as u64)))
}

/// The `n` bytes at linear `va` under the page tables at `dtb`, each read where it
/// translates, when all of them translate.
pub open spec fn va_bytes(v: PhysView, dtb: u64, va: u64, n: nat) -> Option<Seq<u8>> {
    if forall|j: int| 0 <= j < n ==> #[trigger] view_translate(v, dtb, va.wrapping_add(j as u64)) is Some {
        Some(Seq::new(n, |j: int| (v.byte)(view_translate(v, dtb, va.wrapping_add(j as u64))->0)))
    } else {
        None
    }
}

/// Where the PEB of a Win7 x64 process is looked for.
pub open spec fn peb_candidates() -> Seq<u64> {
    seq![
        0x07ff_fffd_b000u64,
        0x07ff_fffd_a000u64,
        0x07ff_fffd_c000u64,
        0x07ff_fffd_9000u64,
        0x07ff_fffd_8000u64,
        0x07ff_fffd_d000u64,
        0x07ff_fffd_b000u64,
    ]
}

/// `MZ`.
pub open spec fn mz() -> Seq<u8> {
    seq![0x4Du8, 0x5A]
}

/// The image base recorded in the PEB at `peb` (`PEB.ImageBaseAddress` at 0x10), when the
/// PEB head translates, the base lies in `0xff00_0000 .. 0xfff0_0000` and starts with `MZ`.
pub open spec fn peb_image_base(v: PhysView, dtb: u64, peb: u64) -> Option<u64> {
    match va_bytes(v, dtb, peb, 0x18) {
        Some(b) => {
            let ib = u64_le(b, 0x10);
            if 0xff00_0000 <= ib < 0xfff0_0000 && match view_translate(v, dtb, ib) {
                Some(pa) => view_bytes(v, pa, 2) == mz(),
                None => false,
            } {
                Some(ib)
            } else {
                None
            }
        },
        None => None,
    }
}

/// The image base from the first PEB candidate at or after `i` that gives one.
pub open spec fn first_peb_base(v: PhysView, dtb: u64, i: int) -> Option<u64>
    decreases 7 - i,
{
    if i < 0 || i >= 7 {
        None
    } else {
        match peb_image_base(v, dtb, peb_candidates()[i]) {
            Some(b) => Some(b),
            None => first_peb_base(v, dtb, i + 1),
        }
    }
}

/// A PE image of `winpeshl.exe`'s size at `va`: `MZ`, an `e_lfanew` below 0x400 leading to
/// `PE\0\0`, and a `SizeOfImage` in `0x70000 .. 0x120000`.
pub open spec fn pe_image_at(v: PhysView, dtb: u64, va: u64) -> bool {
    match view_translate(v, dtb, va) {
        None => false,
        Some(pa) => {
            let e = u32_le(view_bytes(v, pa.wrapping_add(0x3c), 4), 0) as u64;
            &&& view_bytes(v, pa, 2) == mz()
            &&& e < 0x400
            &&& match view_translate(v, dtb, (va + e) as u64) {
                Some(pe) => view_bytes(v, pe, 4) == seq![0x50u8, 0x45, 0, 0] && match view_translate(
                    v,
                    dtb,
                    (va + e + 24 + 0x38) as u64,
                ) {
                    Some(opt) => 0x7_0000 <= u32_le(view_bytes(v, opt, 4), 0) < 0x12_0000,
                    None => false,
                },
                None => false,
            }
        },
    }
}

/// The first PE image of that shape at `0xff00_0000 + 64 KiB * k` for `k` from `i` on,
/// below `0xfff0_0000`.
pub open spec fn first_pe_image(v: PhysView, dtb: u64, i: nat) -> Option<u64>
    decreases 240 - i,
{
    if i >= 240 {
        None
    } else {
        let va = (0xff00_0000 + i * 0x1_0000) as u64;
        if pe_image_at(v, dtb, va) {
            Some(va)
        } else {
            first_pe_image(v, dtb, i + 1)
        }
    }
}

/// The image base of `winpeshl.exe` under `dtb`: from a PEB, else by scanning the high user
/// half for its PE image.
pub open spec fn resolve_image_base(v: PhysView, dtb: u64) -> Option<u64> {
    match first_peb_base(v, dtb, 0) {
        Some(b) => Some(b),
        None => first_pe_image(v, dtb, 0),
    }
}

/// The linear address of WpeUtil import slot `slot`.
pub open spec fn iat_slot(base: u64, slot: nat) -> u64 {
    base.wrapping_add((0x1240 + slot * 8) as u64)
}

/// How many import slots from `slot` on translate and hold a non-zero pointer, up to the
/// first that does not.
pub open spec fn iat_count(v: PhysView, dtb: u64, base: u64, slot: nat) -> nat
    decreases 6 - slot,
{
    if slot >= 6 {
        0
    } else {
        match view_translate(v, dtb, iat_slot(base, slot)) {
            None => 0,
            Some(pa) => if view_u64(v, pa) == 0 {
                0
            } else {
                1 + iat_count(v, dtb, base, slot + 1)
            },
        }
    }
}

/// The WpeUtil import slots under `base` look real: the first maps and holds a pointer of
/// at least `0x7000_0000`, and at least three in a row are non-zero.
pub open spec fn iat_sane(v: PhysView, dtb: u64, base: u64) -> bool {
    match view_translate(v, dtb, iat_slot(base, 0)) {
        None => false,
        Some(pa) => view_u64(v, pa) >= 0x7000_0000 && iat_count(v, dtb, base, 0) >= 3,
    }
}

/// `winpeshl` in UTF-16LE.
pub open spec fn winpeshl_utf16() -> Seq<u8> {
    seq![0x77u8, 0, 0x69, 0, 0x6E, 0, 0x70, 0, 0x65, 0, 0x73, 0, 0x68, 0, 0x6C, 0]
}

/// The PEB at `peb` has `ProcessParameters` (at 0x20) whose `ImagePathName` (at 0x60, at
/// most 512 bytes) holds `winpeshl`, ignoring ASCII case.
pub open spec fn peb_names_winpeshl(v: PhysView, dtb: u64, peb: u64) -> bool {
    match view_translate(v, dtb, peb.wrapping_add(0x20)) {
        None => false,
        Some(p0) => {
            let pp = view_u64(v, p0);
            pp >= 0x7000_0000 && match view_translate(v, dtb, pp.wrapping_add(0x60)) {
                None => false,
                Some(us_pa) => {
                    let us = view_bytes(v, us_pa, 16);
                    let len = u16_le(us, 0);
                    let buf = u64_le(us, 8);
                    len != 0 && len <= 512 && buf != 0 && match va_bytes(v, dtb, buf, len as nat) {
                        Some(path) => first_occurrence_from(lower_bytes(path), winpeshl_utf16(), 0) is Some,
                        None => false,
                    }
                },
            }
        },
    }
}

/// Some PEB candidate under `dtb` names `winpeshl`.
pub open spec fn path_is_winpeshl(v: PhysView, dtb: u64) -> bool {
    exists|i: int| 0 <= i < 7 && #[trigger] peb_names_winpeshl(v, dtb, peb_candidates()[i])
}

/// The image base when `dtb` passes for winpeshl's: a page-aligned root at or above 1 MiB,
/// a PEB naming `winpeshl`, an image base, and sane WpeUtil import slots.
pub open spec fn winpeshl_under(v: PhysView, dtb: u64) -> Option<u64> {
    if dtb < 0x10_0000 || dtb & 0xfff != 0 || !path_is_winpeshl(v, dtb) {
        None
    } else {
        match resolve_image_base(v, dtb) {
            Some(b) => if iat_sane(v, dtb, b) {
                Some(b)
            } else {
                None
            },
            None => None,
        }
    }
}

/// The roots tried before any memory scan: winpeshl's usual ones, then the current `CR3`.
pub open spec fn quick_roots(cr3: u64) -> Seq<u64> {
    seq![0x2a60_1000u64, 0x2a60_0000u64, cr3 & !0xfffu64]
}

/// The first quick root that passes, with its image base.
pub open spec fn quick_target(v: PhysView, cr3: u64, i: int) -> Option<(u64, u64)>
    decreases 3 - i,
{
    if i < 0 || i >= 3 {
        None
    } else {
        match winpeshl_under(v, quick_roots(cr3)[i]) {
            Some(b) => Some((quick_roots(cr3)[i], b)),
            None => quick_target(v, cr3, i + 1),
        }
    }
}

/// `winpeshl.exe`.
pub open spec fn winpeshl_image() -> Seq<u8> {
    seq![0x77u8, 0x69, 0x6E, 0x70, 0x65, 0x73, 0x68, 0x6C, 0x2E, 0x65, 0x78, 0x65]
}

/// The live process (id and page-table root) whose `ImageFileName` sits at offset `o` of
/// the chunk `buf` read at `addr`: exit time 0, a page-aligned root below 4 GiB, and a
/// process id that is a multiple of 4 in `4 ..= 0x1_0000`.
pub open spec fn eprocess_hit(v: PhysView, buf: Seq<u8>, addr: u64, o: int) -> Option<(u64, u64)> {
    if o < 0x2e0 {
        None
    } else {
        let e = o - 0x2e0;
        let dtb = u64_le(buf, e + 0x28);
        let pid = u64_le(buf, e + 0x180);
        let exit_time = u64_le(view_bytes(v, (addr + e + 0x170) as u64, 8), 0);
        if exit_time == 0 && dtb != 0 && dtb & 0xfff == 0 && dtb < 0x1_0000_0000 && pid <= 0x1_0000
            && pid % 4 == 0 && pid >= 4 {
            Some((pid, dtb))
        } else {
            None
        }
    }
}

/// The first live `winpeshl.exe` at an offset of the chunk from `o` on.
pub open spec fn chunk_hit(v: PhysView, buf: Seq<u8>, addr: u64, o: int) -> Option<(u64, u64)>
    decreases buf.len() - o,
{
    if o < 0 || o + 12 > buf.len() {
        None
    } else if buf.subrange(o, o + 12) == winpeshl_image() && eprocess_hit(v, buf, addr, o) is Some {
        eprocess_hit(v, buf, addr, o)
    } else {
        chunk_hit(v, buf, addr, o + 1)
    }
}

/// The bytes of chunk `k` of a scan of `total` bytes.
pub open spec fn chunk_len(total: u64, k: nat) -> nat {
    let addr = k * SCAN_CHUNK;
    if total - addr < SCAN_CHUNK {
        (total - addr) as nat
    } else {
        SCAN_CHUNK as nat
    }
}

/// The first live `winpeshl.exe` in physical memory from chunk `k` on.
pub open spec fn scan_hit(v: PhysView, total: u64, k: nat) -> Option<(u64, u64)>
    decreases MAX_CHUNKS - k,
{
    if k >= MAX_CHUNKS || k * SCAN_CHUNK >= total {
        None
    } else {
        let addr = (k * SCAN_CHUNK) as u64;
        match chunk_hit(v, view_bytes(v, addr, chunk_len(total, k)), addr, 0) {
            Some(h) => Some(h),
            None => scan_hit(v, total, k + 1),
        }
    }
}

/// The winpeshl process this wedge works on (id, root, image base), remembered after the
/// first success.
#[derive(Debug, Clone, Copy, PartialEq, Eq, Structural)]
pub struct SceTarget {
    pub pid: u64,
    pub dtb: u64,
    pub base: u64,
    pub gadget: u64,
}

/// What the wedge keeps from one host slice to the next.
#[derive(Debug, Clone, Copy, PartialEq, Eq, Structural)]
pub struct SceWedgeState {
    /// The process and gadget, once found.
    pub cached: Option<SceTarget>,
    /// Calls that had no cached process.
    pub miss_ticks: u64,
    /// Whether a success was already reported.
    pub logged: bool,
}

impl SceWedgeState {
    /// Nothing found yet.
    pub fn new() -> (s: Self)
        ensures
            s == (SceWedgeState { cached: None, miss_ticks: 0, logged: false }),
    {
        SceWedgeState { cached: None, miss_ticks: 0, logged: false }
    }
}

/// Why the wedge was not applied.
#[derive(Debug, Clone, Copy, PartialEq, Eq, Structural)]
pub enum SceWedgeError {
    /// The CPU is not in long mode with paging.
    NotLongMode,
    /// No quick root passed and this call is not one of every 200 that scan memory.
    Throttled,
    /// The memory scan found no live `winpeshl.exe`.
    NotFound,
    /// No image base under this root.
    NoImageBase(u64),
    /// The WpeUtil import slots under this root do not look real.
    IatInvalid(u64),
    /// A write met this unmapped linear address.
    Unmapped(u64),
}

/// The process, image and gadget to use: the cached ones, or a quick root, or (on one call
/// in 200, counted by `tick`) a scan of `total` bytes of physical memory.
pub open spec fn sce_locate(
    v: PhysView,
    cr3: u64,
    cached: Option<SceTarget>,
    tick: u64,
    total: u64,
) -> Result<(u64, u64, u64, Option<u64>), SceWedgeError> {
    match cached {
        Some(t) => Ok(
            (
                t.pid,
                t.dtb,
                t.base,
                if t.gadget != 0 {
                    Some(t.gadget)
                } else {
                    None
                },
            ),
        ),
        None => match quick_target(v, cr3, 0) {
            Some((dtb, base)) => Ok((0, dtb, base, None)),
            None => if tick % 200 != 0 {
                Err(SceWedgeError::Throttled)
            } else {
                match scan_hit(v, total, 0) {
                    None => Err(SceWedgeError::NotFound),
                    Some((pid, dtb)) => match resolve_image_base(v, dtb) {
                        None => Err(SceWedgeError::NoImageBase(dtb)),
                        Some(base) => if iat_sane(v, dtb, base) {
                            Ok((pid, dtb, base, None))
                        } else {
                            Err(SceWedgeError::IatInvalid(dtb))
                        },
                    },
                }
            },
        },
    }
}

/// Writing `bytes[i..]` to linear `va + i ..`, each byte where it translates at the moment
/// it is written: the memory after, and the first address that did not translate.
pub open spec fn write_va_from(v: PhysView, dtb: u64, va: u64, bytes: Seq<u8>, i: nat) -> (PhysView, Option<u64>)
    decreases bytes.len() - i,
{
    if i >= bytes.len() {
        (v, None)
    } else {
        let at = va.wrapping_add(i as u64);
        match view_translate(v, dtb, at) {
            None => (v, Some(at)),
            Some(pa) => write_va_from(view_write(v, pa, bytes[i as int]), dtb, va, bytes, i + 1),
        }
    }
}

/// Writing `bytes` at linear `va`.
pub open spec fn write_va(v: PhysView, dtb: u64, va: u64, bytes: Seq<u8>) -> (PhysView, Option<u64>) {
    write_va_from(v, dtb, va, bytes, 0)
}

/// `xor eax,eax; ret`.
pub open spec fn ret0_gadget() -> Seq<u8> {
    seq![0x33u8, 0xC0, 0xC3]
}

/// Three `int3` bytes.
pub open spec fn int3_pad() -> Seq<u8> {
    seq![0xCCu8, 0xCC, 0xCC]
}

/// The first linear address `base + rva` (`rva` from `rva` on, the three bytes inside
/// `0xb000 .. 0xc000`) whose three bytes read as `want`.
pub open spec fn first_thunk_bytes(v: PhysView, dtb: u64, base: u64, rva: u64, want: Seq<u8>) -> Option<u64>
    decreases 0xc000 - rva,
{
    if rva + 3 > 0xc000 {
        None
    } else if va_bytes(v, dtb, base.wrapping_add(rva), 3) == Some(want) {
        Some(base.wrapping_add(rva))
    } else {
        first_thunk_bytes(v, dtb, base, (rva + 1) as u64, want)
    }
}

/// The cached gadget, when it still lies in `base + 0x2000 .. base + 0x10000`.
pub open spec fn gadget_cached(base: u64, cached: Option<u64>) -> Option<u64> {
    match cached {
        Some(g) => if 0x2000 <= g.wrapping_sub(base) < 0x1_0000 {
            Some(g)
        } else {
            None
        },
        None => None,
    }
}

/// The gadget to point the imports at: the cached one when still in the image; else an
/// existing `xor eax,eax; ret` among the thunks; else one written over `int3` padding there,
/// or at `base + 0xb806`. Gives the memory after, and the gadget with whether it was searched
/// for, or the address a write failed at.
pub open spec fn sce_gadget(v: PhysView, dtb: u64, base: u64, cached: Option<u64>) -> (
    PhysView,
    Result<(u64, bool), u64>,
) {
    match gadget_cached(base, cached) {
        Some(g) => (v, Ok((g, false))),
        None => match first_thunk_bytes(v, dtb, base, 0xb000, ret0_gadget()) {
            Some(g) => (v, Ok((g, true))),
            None => {
                let g = match first_thunk_bytes(v, dtb, base, 0xb000, int3_pad()) {
                    Some(p) => p,
                    None => base.wrapping_add(0xb806),
                };
                let w = write_va(v, dtb, g, ret0_gadget());
                match w.1 {
                    Some(at) => (w.0, Err(at)),
                    None => (w.0, Ok((g, true))),
                }
            },
        },
    }
}

/// Pointing import slots `slot..6` at `gadget`: a slot that does not translate is passed
/// over, a zero slot ends the table, a slot already on the gadget counts as patched. Gives
/// the memory after, the slots patched (counting from `patched`), and the address a write
/// failed at.
pub open spec fn patch_iat(v: PhysView, dtb: u64, base: u64, gadget: u64, slot: nat, patched: nat) -> (
    PhysView,
    nat,
    Option<u64>,
)
    decreases 6 - slot,
{
    if slot >= 6 {
        (v, patched, None)
    } else {
        let at = iat_slot(base, slot);
        match view_translate(v, dtb, at) {
            None => patch_iat(v, dtb, base, gadget, slot + 1, patched),
            Some(pa) => {
                let cur = view_u64(v, pa);
                if cur == 0 {
                    (v, patched, None)
                } else if cur == gadget {
                    patch_iat(v, dtb, base, gadget, slot + 1, patched + 1)
                } else {
                    let w = write_va(v, dtb, at, spec_u64_to_le_bytes(gadget));
                    match w.1 {
                        Some(e) => (w.0, patched, Some(e)),
                        None => patch_iat(w.0, dtb, base, gadget, slot + 1, patched + 1),
                    }
                }
            },
        }
    }
}

/// A wedge applied.
#[derive(Debug, Clone, Copy, PartialEq, Eq, Structural)]
pub struct SceWedge {
    pub pid: u64,
    pub dtb: u64,
    pub base: u64,
    pub gadget: u64,
    /// Import slots that now point at the gadget.
    pub iat_slots: u32,
    /// Whether this is the first success reported.
    pub first_apply: bool,
}

/// One application of the wedge from memory `v`, CPU `c` and state `st`, scanning `scan_mb`
/// MiB when it scans: `r` is its outcome, `v2` the memory after and `st2` the state after.
pub open spec fn sce_wedge_of(
    v: PhysView,
    c: CpuSnapshot,
    st: SceWedgeState,
    scan_mb: u64,
    r: Result<SceWedge, SceWedgeError>,
    v2: PhysView,
    st2: SceWedgeState,
) -> bool {
    if !paged_long_mode(c) {
        r == Err::<SceWedge, SceWedgeError>(SceWedgeError::NotLongMode) && v2 == v && st2 == st
    } else {
        let ticks = if st.cached is Some {
            st.miss_ticks
        } else {
            st.miss_ticks.wrapping_add(1)
        };
        match sce_locate(v, c.cr3, st.cached, st.miss_ticks, scan_limit(scan_mb)) {
            Err(e) => r == Err::<SceWedge, SceWedgeError>(e) && v2 == v && st2 == (SceWedgeState {
                miss_ticks: ticks,
                ..st
            }),
            Ok((pid, dtb, base, cg)) => {
                let g = sce_gadget(v, dtb, base, cg);
                match g.1 {
                    Err(at) => r == Err::<SceWedge, SceWedgeError>(SceWedgeError::Unmapped(at)) && v2 == g.0
                        && st2 == (SceWedgeState { miss_ticks: ticks, ..st }),
                    Ok((gadget, searched)) => {
                        let cached = if searched && st.cached is None {
                            Some(SceTarget { pid, dtb, base, gadget })
                        } else {
                            st.cached
                        };
                        let sticky = write_va(g.0, dtb, gadget, ret0_gadget());
                        let after = SceWedgeState { cached, miss_ticks: ticks, logged: st.logged };
                        match sticky.1 {
                            Some(at) => r == Err::<SceWedge, SceWedgeError>(SceWedgeError::Unmapped(at)) && v2
                                == sticky.0 && st2 == after,
                            None => {
                                let p = patch_iat(sticky.0, dtb, base, gadget, 0, 0);
                                match p.2 {
                                    Some(at) => r == Err::<SceWedge, SceWedgeError>(
                                        SceWedgeError::Unmapped(at),
                                    ) && v2 == p.0 && st2 == after,
                                    None => r == Ok::<SceWedge, SceWedgeError>(
                                        SceWedge {
                                            pid,
                                            dtb,
                                            base,
                                            gadget,
                                            iat_slots: p.1 as u32,
                                            first_apply: !st.logged,
                                        },
                                    ) && v2 == p.0 && st2 == (SceWedgeState { logged: true, ..after }),
                                }
                            },
                        }
                    },
                }
            },
        }
    }
}

/// Read `n` physical bytes from `pa`.
fn bytes_at<M: GuestPhysical>(m: &mut M, Ghost(v): Ghost<PhysView>, pa: u64, n: usize) -> (r: Vec<u8>)
    requires
        view_of(old(m)) == v,
    ensures
        r@ == view_bytes(v, pa, n as nat),
        view_of(final(m)) == v,
{
    let mut r: Vec<u8> = Vec::new();
    let mut i: usize = 0;
    while i < n
        invariant
            i <= n,
            view_of(m) == v,
            r@ =~= view_bytes(v, pa, i as nat),
        decreases n - i,
    {
        let b = byte_in(m, Ghost(v), pa.wrapping_add(i as u64));
        r.push(b);
        i += 1;
    }
    r
}

/// Read `n` bytes at linear `va` under `dtb`, byte by byte.
fn va_bytes_in<M: GuestPhysical>(m: &mut M, Ghost(v): Ghost<PhysView>, dtb: u64, va: u64, n: usize) -> (r:
    Option<Vec<u8>>)
    requires
        view_of(old(m)) == v,
    ensures
        match va_bytes(v, dtb, va, n as nat) {
            Some(b) => r matches Some(x) && x@ == b,
            None => r is None,
        },
        view_of(final(m)) == v,
{
    let mut out: Vec<u8> = Vec::new();
    let mut i: usize = 0;
    while i < n
        invariant
            i <= n,
            view_of(m) == v,
            out@.len() == i,
            forall|j: int| 0 <= j < i ==> #[trigger] view_translate(v, dtb, va.wrapping_add(j as u64)) is Some,
            forall|j: int|
                0 <= j < i ==> #[trigger] out@[j] == (v.byte)(
                    view_translate(v, dtb, va.wrapping_add(j as u64))->0,
                ),
        decreases n - i,
    {
        match translate_in(m, Ghost(v), dtb, va.wrapping_add(i as u64)) {
            Some(pa) => {
                let b = byte_in(m, Ghost(v), pa);
                out.push(b);
            },
            None => {
                assert(view_translate(v, dtb, va.wrapping_add((i as int) as u64)) is None);
                return None;
            },
        }
        i += 1;
    }
    assert(out@ =~= Seq::new(
        n as nat,
        |j: int| (v.byte)(view_translate(v, dtb, va.wrapping_add(j as u64))->0),
    ));
    Some(out)
}

/// `peb_image_base`.
fn peb_image_base_in<M: GuestPhysical>(m: &mut M, Ghost(v): Ghost<PhysView>, dtb: u64, peb: u64) -> (r:
    Option<u64>)
    requires
        view_of(old(m)) == v,
    ensures
        r == peb_image_base(v, dtb, peb),
        view_of(final(m)) == v,
{
    let b = match va_bytes_in(m, Ghost(v), dtb, peb, 0x18) {
        Some(b) => b,
        None => return None,
    };
    let ib = u64_at(b.as_slice(), 0x10);
    if !(0xff00_0000 <= ib && ib < 0xfff0_0000) {
        return None;
    }
    match translate_in(m, Ghost(v), dtb, ib) {
        Some(pa) => {
            let h = bytes_at(m, Ghost(v), pa, 2);
            if h[0] == 0x4D && h[1] == 0x5A {
                assert(h@ =~= mz());
                Some(ib)
            } else {
                assert(h@ != mz()) by {
                    if h@ == mz() {
                        assert(h@[0] == 0x4D && h@[1] == 0x5A);
                    }
                }
                None
            }
        },
        None => None,
    }
}

/// `pe_image_at`.
fn pe_image_at_in<M: GuestPhysical>(m: &mut M, Ghost(v): Ghost<PhysView>, dtb: u64, va: u64) -> (r: bool)
    requires
        view_of(old(m)) == v,
        va < 0xfff0_0000,
    ensures
        r == pe_image_at(v, dtb, va),
        view_of(final(m)) == v,
{
    let pa = match translate_in(m, Ghost(v), dtb, va) {
        Some(pa) => pa,
        None => return false,
    };
    let h = bytes_at(m, Ghost(v), pa, 2);
    let el = bytes_at(m, Ghost(v), pa.wrapping_add(0x3c), 4);
    let e = u32_at(el.as_slice(), 0) as u64;
    if !(h[0] == 0x4D && h[1] == 0x5A) {
        assert(h@ != mz()) by {
            if h@ == mz() {
                assert(h@[0] == 0x4D && h@[1] == 0x5A);
            }
        }
        return false;
    }
    assert(h@ =~= mz());
    if e >= 0x400 {
        return false;
    }
    let pe = match translate_in(m, Ghost(v), dtb, va + e) {
        Some(p) => p,
        None => return false,
    };
    let sig = bytes_at(m, Ghost(v), pe, 4);
    if !(sig[0] == 0x50 && sig[1] == 0x45 && sig[2] == 0 && sig[3] == 0) {
        assert(sig@ != seq![0x50u8, 0x45, 0, 0]) by {
            if sig@ == seq![0x50u8, 0x45, 0, 0] {
                assert(sig@[0] == 0x50 && sig@[1] == 0x45 && sig@[2] == 0 && sig@[3] == 0);
            }
        }
        return false;
    }
    assert(sig@ =~= seq![0x50u8, 0x45, 0, 0]);
    let opt = match translate_in(m, Ghost(v), dtb, va + e + 24 + 0x38) {
        Some(p) => p,
        None => return false,
    };
    let sb = bytes_at(m, Ghost(v), opt, 4);
    let soi = u32_at(sb.as_slice(), 0);
    0x7_0000 <= soi && soi < 0x12_0000
}

/// `resolve_image_base`.
fn resolve_image_base_in<M: GuestPhysical>(m: &mut M, Ghost(v): Ghost<PhysView>, dtb: u64) -> (r: Option<
    u64,
>)
    requires
        view_of(old(m)) == v,
    ensures
        r == resolve_image_base(v, dtb),
        view_of(final(m)) == v,
{
    let pebs: [u64; 7] = [
        0x07ff_fffd_b000,
        0x07ff_fffd_a000,
        0x07ff_fffd_c000,
        0x07ff_fffd_9000,
        0x07ff_fffd_8000,
        0x07ff_fffd_d000,
        0x07ff_fffd_b000,
    ];
    assert(pebs@ =~= peb_candidates());
    let mut i: usize = 0;
    while i < 7
        invariant
            i <= 7,
            view_of(m) == v,
            pebs@ == peb_candidates(),
            first_peb_base(v, dtb, 0) == first_peb_base(v, dtb, i as int),
        decreases 7 - i,
    {
        match peb_image_base_in(m, Ghost(v), dtb, pebs[i]) {
            Some(b) => return Some(b),
            None => {},
        }
        i += 1;
    }
    let mut k: u64 = 0;
    while k < 240
        invariant
            k <= 240,
            view_of(m) == v,
            first_peb_base(v, dtb, 0) is None,
            first_pe_image(v, dtb, 0) == first_pe_image(v, dtb, k as nat),
        decreases 240 - k,
    {
        let va = 0xff00_0000 + k * 0x1_0000;
        if pe_image_at_in(m, Ghost(v), dtb, va) {
            return Some(va);
        }
        k += 1;
    }
    None
}

/// `iat_sane`.
fn iat_sane_in<M: GuestPhysical>(m: &mut M, Ghost(v): Ghost<PhysView>, dtb: u64, base: u64) -> (r: bool)
    requires
        view_of(old(m)) == v,
    ensures
        r == iat_sane(v, dtb, base),
        view_of(final(m)) == v,
{
    let p0 = match translate_in(m, Ghost(v), dtb, base.wrapping_add(0x1240)) {
        Some(p) => p,
        None => return false,
    };
    if read_u64_in(m, Ghost(v), p0) < 0x7000_0000 {
        return false;
    }
    let mut nz: u64 = 0;
    let mut slot: u64 = 0;
    while slot < 6
        invariant_except_break
            slot <= 6,
            view_of(m) == v,
            nz == slot,
            iat_count(v, dtb, base, 0) == slot + iat_count(v, dtb, base, slot as nat),
        ensures
            view_of(m) == v,
            nz == iat_count(v, dtb, base, 0),
        decreases 6 - slot,
    {
        assert(iat_slot(base, slot as nat) == base.wrapping_add((0x1240 + slot * 8) as u64));
        let pa = match translate_in(m, Ghost(v), dtb, base.wrapping_add(0x1240 + slot * 8)) {
            Some(p) => p,
            None => break,
        };
        if read_u64_in(m, Ghost(v), pa) == 0 {
            break;
        }
        nz += 1;
        slot += 1;
    }
    nz >= 3
}

/// `peb_names_winpeshl`.
fn peb_names_winpeshl_in<M: GuestPhysical>(m: &mut M, Ghost(v): Ghost<PhysView>, dtb: u64, peb: u64) -> (r:
    bool)
    requires
        view_of(old(m)) == v,
    ensures
        r == peb_names_winpeshl(v, dtb, peb),
        view_of(final(m)) == v,
{
    let p0 = match translate_in(m, Ghost(v), dtb, peb.wrapping_add(0x20)) {
        Some(p) => p,
        None => return false,
    };
    let pp = read_u64_in(m, Ghost(v), p0);
    if pp < 0x7000_0000 {
        return false;
    }
    let us_pa = match translate_in(m, Ghost(v), dtb, pp.wrapping_add(0x60)) {
        Some(p) => p,
        None => return false,
    };
    let us = bytes_at(m, Ghost(v), us_pa, 16);
    let len = u16_at(us.as_slice(), 0);
    if len == 0 || len > 512 {
        return false;
    }
    let buf = u64_at(us.as_slice(), 8);
    if buf == 0 {
        return false;
    }
    let path = match va_bytes_in(m, Ghost(v), dtb, buf, len as usize) {
        Some(p) => p,
        None => return false,
    };
    let lower = lower_vec(path.as_slice());
    let needle: [u8; 16] = [0x77, 0, 0x69, 0, 0x6E, 0, 0x70, 0, 0x65, 0, 0x73, 0, 0x68, 0, 0x6C, 0];
    assert(needle@ =~= winpeshl_utf16());
    crate::cli::find_bytes(lower.as_slice(), needle.as_slice()).is_some()
}

/// `path_is_winpeshl`.
fn path_is_winpeshl_in<M: GuestPhysical>(m: &mut M, Ghost(v): Ghost<PhysView>, dtb: u64) -> (r: bool)
    requires
        view_of(old(m)) == v,
    ensures
        r == path_is_winpeshl(v, dtb),
        view_of(final(m)) == v,
{
    let pebs: [u64; 7] = [
        0x07ff_fffd_b000,
        0x07ff_fffd_a000,
        0x07ff_fffd_c000,
        0x07ff_fffd_9000,
        0x07ff_fffd_8000,
        0x07ff_fffd_d000,
        0x07ff_fffd_b000,
    ];
    assert(pebs@ =~= peb_candidates());
    let mut i: usize = 0;
    while i < 7
        invariant
            i <= 7,
            view_of(m) == v,
            pebs@ == peb_candidates(),
            forall|j: int| 0 <= j < i ==> !#[trigger] peb_names_winpeshl(v, dtb, peb_candidates()[j]),
        decreases 7 - i,
    {
        if peb_names_winpeshl_in(m, Ghost(v), dtb, pebs[i]) {
            return true;
        }
        i += 1;
    }
    false
}

/// `winpeshl_under`.
fn winpeshl_under_in<M: GuestPhysical>(m: &mut M, Ghost(v): Ghost<PhysView>, dtb: u64) -> (r: Option<u64>)
    requires
        view_of(old(m)) == v,
    ensures
        r == winpeshl_under(v, dtb),
        view_of(final(m)) == v,
{
    if dtb < 0x10_0000 || dtb & 0xfff != 0 {
        return None;
    }
    if !path_is_winpeshl_in(m, Ghost(v), dtb) {
        return None;
    }
    match resolve_image_base_in(m, Ghost(v), dtb) {
        Some(b) => if iat_sane_in(m, Ghost(v), dtb, b) {
            Some(b)
        } else {
            None
        },
        None => None,
    }
}

/// `quick_target` from the first root.
fn quick_target_in<M: GuestPhysical>(m: &mut M, Ghost(v): Ghost<PhysView>, cr3: u64) -> (r: Option<(u64, u64)>)
    requires
        view_of(old(m)) == v,
    ensures
        r == quick_target(v, cr3, 0),
        view_of(final(m)) == v,
{
    let roots: [u64; 3] = [0x2a60_1000, 0x2a60_0000, cr3 & !0xfffu64];
    assert(roots@ =~= quick_roots(cr3));
    let mut i: usize = 0;
    while i < 3
        invariant
            i <= 3,
            view_of(m) == v,
            roots@ == quick_roots(cr3),
            quick_target(v, cr3, 0) == quick_target(v, cr3, i as int),
        decreases 3 - i,
    {
        match winpeshl_under_in(m, Ghost(v), roots[i]) {
            Some(b) => return Some((roots[i], b)),
            None => {},
        }
        i += 1;
    }
    None
}

/// Whether `hay` holds `needle` at `o`.
pub(crate) fn holds_at(hay: &[u8], o: usize, needle: &[u8]) -> (r: bool)
    requires
        o + needle@.len() <= hay@.len(),
    ensures
        r == (hay@.subrange(o as int, o + needle@.len()) == needle@),
{
    let hl = hay.len();
    let mut j: usize = 0;
    while j < needle.len()
        invariant
            j <= needle@.len(),
            hl == hay@.len(),
            o + needle@.len() <= hay@.len(),
            forall|i: int| 0 <= i < j ==> hay@[o + i] == needle@[i],
        decreases needle@.len() - j,
    {
        if hay[o + j] != needle[j] {
            assert(hay@.subrange(o as int, o + needle@.len())[j as int] != needle@[j as int]);
            return false;
        }
        j += 1;
    }
    assert(hay@.subrange(o as int, o + needle@.len()) =~= needle@);
    true
}

/// `eprocess_hit`.
fn eprocess_hit_in<M: GuestPhysical>(
    m: &mut M,
    Ghost(v): Ghost<PhysView>,
    buf: &Vec<u8>,
    addr: u64,
    o: usize,
) -> (r: Option<(u64, u64)>)
    requires
        view_of(old(m)) == v,
        buf@.len() <= SCAN_CHUNK,
        o <= buf@.len(),
        addr < 0x1_0000_0000,
    ensures
        r == eprocess_hit(v, buf@, addr, o as int),
        view_of(final(m)) == v,
{
    if o < 0x2e0 {
        return None;
    }
    let e = o - 0x2e0;
    let dtb = u64_at(buf.as_slice(), e + 0x28);
    let pid = u64_at(buf.as_slice(), e + 0x180);
    let et = bytes_at(m, Ghost(v), addr + e as u64 + 0x170, 8);
    let exit_time = u64_at(et.as_slice(), 0);
    if exit_time == 0 && dtb != 0 && dtb & 0xfff == 0 && dtb < 0x1_0000_0000 && pid <= 0x1_0000 && pid % 4
        == 0 && pid >= 4 {
        Some((pid, dtb))
    } else {
        None
    }
}

/// `chunk_hit` from the start of the chunk.
fn chunk_hit_in<M: GuestPhysical>(m: &mut M, Ghost(v): Ghost<PhysView>, buf: &Vec<u8>, addr: u64) -> (r:
    Option<(u64, u64)>)
    requires
        view_of(old(m)) == v,
        buf@.len() <= SCAN_CHUNK,
        addr < 0x1_0000_0000,
    ensures
        r == chunk_hit(v, buf@, addr, 0),
        view_of(final(m)) == v,
{
    let needle: [u8; 12] = [0x77, 0x69, 0x6E, 0x70, 0x65, 0x73, 0x68, 0x6C, 0x2E, 0x65, 0x78, 0x65];
    assert(needle@ =~= winpeshl_image());
    if buf.len() < 12 {
        return None;
    }
    let mut o: usize = 0;
    while o <= buf.len() - 12
        invariant
            view_of(m) == v,
            buf@.len() <= SCAN_CHUNK,
            buf@.len() >= 12,
            addr < 0x1_0000_0000,
            o <= buf@.len() - 11,
            needle@ == winpeshl_image(),
            chunk_hit(v, buf@, addr, 0) == chunk_hit(v, buf@, addr, o as int),
        decreases buf@.len() - o,
    {
        if holds_at(buf.as_slice(), o, needle.as_slice()) {
            match eprocess_hit_in(m, Ghost(v), buf, addr, o) {
                Some(h) => return Some(h),
                None => {},
            }
        }
        o += 1;
    }
    None
}

/// `scan_hit` over the first `total` bytes.
fn scan_hit_in<M: GuestPhysical>(m: &mut M, Ghost(v): Ghost<PhysView>, total: u64) -> (r: Option<(u64, u64)>)
    requires
        view_of(old(m)) == v,
        total <= 0x1_0000_0000,
    ensures
        r == scan_hit(v, total, 0),
        view_of(final(m)) == v,
{
    let mut k: u64 = 0;
    while k < MAX_CHUNKS && k * SCAN_CHUNK < total
        invariant
            k <= MAX_CHUNKS,
            view_of(m) == v,
            total <= 0x1_0000_0000,
            scan_hit(v, total, 0) == scan_hit(v, total, k as nat),
        decreases MAX_CHUNKS - k,
    {
        let addr = k * SCAN_CHUNK;
        let len: u64 = if total - addr < SCAN_CHUNK {
            total - addr
        } else {
            SCAN_CHUNK
        };
        assert(len == chunk_len(total, k as nat));
        let buf = bytes_at(m, Ghost(v), addr, len as usize);
        match chunk_hit_in(m, Ghost(v), &buf, addr) {
            Some(h) => return Some(h),
            None => {},
        }
        k += 1;
    }
    None
}

/// `sce_locate`.
fn locate_in<M: GuestPhysical>(
    m: &mut M,
    Ghost(v): Ghost<PhysView>,
    cr3: u64,
    cached: Option<SceTarget>,
    tick: u64,
    total: u64,
) -> (r: Result<(u64, u64, u64, Option<u64>), SceWedgeError>)
    requires
        view_of(old(m)) == v,
        total <= 0x1_0000_0000,
    ensures
        r == sce_locate(v, cr3, cached, tick, total),
        view_of(final(m)) == v,
{
    match cached {
        Some(t) => {
            return Ok(
                (
                    t.pid,
                    t.dtb,
                    t.base,
                    if t.gadget != 0 {
                        Some(t.gadget)
                    } else {
                        None
                    },
                ),
            );
        },
        None => {},
    }
    match quick_target_in(m, Ghost(v), cr3) {
        Some((dtb, base)) => return Ok((0, dtb, base, None)),
        None => {},
    }
    if tick % 200 != 0 {
        return Err(SceWedgeError::Throttled);
    }
    match scan_hit_in(m, Ghost(v), total) {
        None => Err(SceWedgeError::NotFound),
        Some((pid, dtb)) => match resolve_image_base_in(m, Ghost(v), dtb) {
            None => Err(SceWedgeError::NoImageBase(dtb)),
            Some(base) => if iat_sane_in(m, Ghost(v), dtb, base) {
                Ok((pid, dtb, base, None))
            } else {
                Err(SceWedgeError::IatInvalid(dtb))
            },
        },
    }
}

/// `write_va`.
pub(crate) fn write_va_in<M: GuestPhysical>(m: &mut M, Ghost(v): Ghost<PhysView>, dtb: u64, va: u64, bytes: &[u8]) -> (r:
    Option<u64>)
    requires
        view_of(old(m)) == v,
    ensures
        (view_of(final(m)), r) == write_va(v, dtb, va, bytes@),
{
    let mut i: usize = 0;
    while i < bytes.len()
        invariant
            i <= bytes@.len(),
            write_va_from(view_of(m), dtb, va, bytes@, i as nat) == write_va(v, dtb, va, bytes@),
        decreases bytes@.len() - i,
    {
        let ghost cur = view_of(m);
        let at = va.wrapping_add(i as u64);
        match translate_in(m, Ghost(cur), dtb, at) {
            None => return Some(at),
            Some(pa) => {
                write_in(m, Ghost(cur), pa, bytes[i]);
            },
        }
        i += 1;
    }
    None
}

/// `first_thunk_bytes` from `0xb000`.
fn first_thunk_bytes_in<M: GuestPhysical>(
    m: &mut M,
    Ghost(v): Ghost<PhysView>,
    dtb: u64,
    base: u64,
    want: &[u8; 3],
) -> (r: Option<u64>)
    requires
        view_of(old(m)) == v,
    ensures
        r == first_thunk_bytes(v, dtb, base, 0xb000, want@),
        view_of(final(m)) == v,
{
    let mut rva: u64 = 0xb000;
    while rva + 3 <= 0xc000
        invariant
            0xb000 <= rva <= 0xc000,
            view_of(m) == v,
            first_thunk_bytes(v, dtb, base, 0xb000, want@) == first_thunk_bytes(v, dtb, base, rva, want@),
        decreases 0xc000 - rva,
    {
        match va_bytes_in(m, Ghost(v), dtb, base.wrapping_add(rva), 3) {
            Some(b) => {
                if b[0] == want[0] && b[1] == want[1] && b[2] == want[2] {
                    assert(b@ =~= want@);
                    return Some(base.wrapping_add(rva));
                }
                assert(b@ != want@) by {
                    if b@ == want@ {
                        assert(b@[0] == want@[0] && b@[1] == want@[1] && b@[2] == want@[2]);
                    }
                }
            },
            None => {},
        }
        rva += 1;
    }
    None
}

/// `sce_gadget`.
fn gadget_in<M: GuestPhysical>(m: &mut M, Ghost(v): Ghost<PhysView>, dtb: u64, base: u64, cached: Option<u64>) -> (r:
    Result<(u64, bool), u64>)
    requires
        view_of(old(m)) == v,
    ensures
        (view_of(final(m)), r) == sce_gadget(v, dtb, base, cached),
{
    match cached {
        Some(g) => {
            let d = g.wrapping_sub(base);
            if 0x2000 <= d && d < 0x1_0000 {
                return Ok((g, false));
            }
        },
        None => {},
    }
    let ret0: [u8; 3] = [0x33, 0xC0, 0xC3];
    let pad: [u8; 3] = [0xCC, 0xCC, 0xCC];
    assert(ret0@ =~= ret0_gadget());
    assert(pad@ =~= int3_pad());
    match first_thunk_bytes_in(m, Ghost(v), dtb, base, &ret0) {
        Some(g) => return Ok((g, true)),
        None => {},
    }
    let g = match first_thunk_bytes_in(m, Ghost(v), dtb, base, &pad) {
        Some(p) => p,
        None => base.wrapping_add(0xb806),
    };
    match write_va_in(m, Ghost(v), dtb, g, ret0.as_slice()) {
        Some(at) => Err(at),
        None => Ok((g, true)),
    }
}

/// `patch_iat` from the first slot.
fn patch_iat_in<M: GuestPhysical>(m: &mut M, Ghost(v): Ghost<PhysView>, dtb: u64, base: u64, gadget: u64) -> (r: (
    u32,
    Option<u64>,
))
    requires
        view_of(old(m)) == v,
    ensures
        ({
            let p = patch_iat(v, dtb, base, gadget, 0, 0);
            view_of(final(m)) == p.0 && r.0 == p.1 && r.1 == p.2
        }),
{
    let ghost p = patch_iat(v, dtb, base, gadget, 0, 0);
    let gb = u64_to_le_bytes(gadget);
    let mut patched: u32 = 0;
    let mut slot: u64 = 0;
    while slot < 6
        invariant
            slot <= 6,
            patched <= slot,
            gb@ == spec_u64_to_le_bytes(gadget),
            p == patch_iat(v, dtb, base, gadget, 0, 0),
            patch_iat(view_of(m), dtb, base, gadget, slot as nat, patched as nat) == p,
        decreases 6 - slot,
    {
        let ghost cur = view_of(m);
        let at = base.wrapping_add(0x1240 + slot * 8);
        assert(at == iat_slot(base, slot as nat));
        match translate_in(m, Ghost(cur), dtb, at) {
            None => {},
            Some(pa) => {
                let now = read_u64_in(m, Ghost(cur), pa);
                if now == 0 {
                    return (patched, None);
                }
                if now != gadget {
                    match write_va_in(m, Ghost(cur), dtb, at, gb.as_slice()) {
                        Some(e) => return (patched, Some(e)),
                        None => {},
                    }
                }
                patched += 1;
            },
        }
        slot += 1;
    }
    (patched, None)
}

/// Point winpeshl's WpeUtil import slots at a `xor eax,eax; ret` gadget inside its image, so
/// SCE RPC never blocks setup. Meant to be re-applied every host slice: the process, image
/// base and gadget are remembered in `state` after the first success, and the memory scan
/// for `winpeshl.exe` (over `scan_mb` MiB) runs on one call in 200 until then.
pub fn wedge_sce_wpeutil_iat<M: GuestPhysical>(
    m: &mut M,
    cpu: &CpuSnapshot,
    state: &mut SceWedgeState,
    scan_mb: u64,
) -> (r: Result<SceWedge, SceWedgeError>)
    ensures
        sce_wedge_of(view_of(old(m)), *cpu, *old(state), scan_mb, r, view_of(final(m)), *final(state)),
{
    let ghost v = view_of(m);
    if !cpu.long_mode() {
        return Err(SceWedgeError::NotLongMode);
    }
    let tick = state.miss_ticks;
    if state.cached.is_none() {
        state.miss_ticks = state.miss_ticks.wrapping_add(1);
    }
    let total: u64 = match scan_mb.checked_mul(0x10_0000) {
        Some(b) => if b < 0x1_0000_0000 {
            b
        } else {
            0x1_0000_0000
        },
        None => 0x1_0000_0000,
    };
    assert(total == scan_limit(scan_mb));
    let (pid, dtb, base, cg) = match locate_in(m, Ghost(v), cpu.cr3, state.cached, tick, total) {
        Ok(t) => t,
        Err(e) => return Err(e),
    };
    let (gadget, searched) = match gadget_in(m, Ghost(v), dtb, base, cg) {
        Ok(g) => g,
        Err(at) => return Err(SceWedgeError::Unmapped(at)),
    };
    if searched && state.cached.is_none() {
        state.cached = Some(SceTarget { pid, dtb, base, gadget });
    }
    let ret0: [u8; 3] = [0x33, 0xC0, 0xC3];
    assert(ret0@ =~= ret0_gadget());
    let ghost v1 = view_of(m);
    match write_va_in(m, Ghost(v1), dtb, gadget, ret0.as_slice()) {
        Some(at) => return Err(SceWedgeError::Unmapped(at)),
        None => {},
    }
    let ghost v2 = view_of(m);
    let (patched, failed) = patch_iat_in(m, Ghost(v2), dtb, base, gadget);
    match failed {
        Some(at) => return Err(SceWedgeError::Unmapped(at)),
        None => {},
    }
    let first_apply = !state.logged;
    state.logged = true;
    Ok(SceWedge { pid, dtb, base, gadget, iat_slots: patched, first_apply })
}

/// Once the wedge has a cached target it no longer scans: what it does is the same whatever
/// scan size it is given, the target stays, and the miss counter stands still.
pub proof fn lemma_cached_wedge_does_not_scan(
    v: PhysView,
    c: CpuSnapshot,
    st: SceWedgeState,
    mb1: u64,
    mb2: u64,
    r: Result<SceWedge, SceWedgeError>,
    v2: PhysView,
    st2: SceWedgeState,
)
    requires
        st.cached is Some,
        sce_wedge_of(v, c, st, mb1, r, v2, st2),
    ensures
        sce_wedge_of(v, c, st, mb2, r, v2, st2),
        st2.cached == st.cached,
        st2.miss_ticks == st.miss_ticks,
{
}

/// A first success caches the target it patched, and a cached target is never replaced.
pub proof fn lemma_first_success_is_cached(
    v: PhysView,
    c: CpuSnapshot,
    st: SceWedgeState,
    scan_mb: u64,
    r: Result<SceWedge, SceWedgeError>,
    v2: PhysView,
    st2: SceWedgeState,
)
    requires
        sce_wedge_of(v, c, st, scan_mb, r, v2, st2),
    ensures
        st.cached is None && r is Ok ==> st2.cached == Some(
            SceTarget { pid: r->Ok_0.pid, dtb: r->Ok_0.dtb, base: r->Ok_0.base, gadget: r->Ok_0.gadget },
        ),
        st.cached is Some ==> st2.cached == st.cached,
        r is Ok ==> st2.logged && r->Ok_0.first_apply == !st.logged,
{
}

} // verus!
