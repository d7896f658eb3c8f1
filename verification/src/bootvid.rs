//! Pointing win32k's Eng framebuffer descriptor and the 1024x768 primary `SURFOBJ` at the
//! kernel mapping of the VBE framebuffer that bootvid set up, so drawing reaches the screen
//! without forged MMIO page-table entries.

use vstd::prelude::*;

use crate::cli::GuestPhysical;
use crate::inspect::{contains_u64, u16_le, u32_le, u64_le, u16_at, u32_at, u64_at};
use crate::lfb::{lemma_u64_elsewhere, lemma_u64_read_back, lemma_write_run_byte, read_u64_in, write_u64, write_u64_in};
use crate::patch::{byte_in, view_of, view_u64, PhysView};
use crate::procscan::{scan_limit, MAX_CHUNKS, SCAN_CHUNK};
use crate::sce::{chunk_len, view_bytes};

verus! {

/// Where bootvid's `MmMapIoSpace` maps the VBE framebuffer.
pub const BOOTVID_LFB_KVA: u64 = 0xffff_f7ff_efd0_0000;

/// Eng's framebuffer physical address formerly seen in saved machines.
pub const LEGACY_ENG_PHYS: u64 = 0xe404_0000;

/// Point the Eng descriptor at `pa` at the bootvid mapping (`FrameBufferBase` at +0x18):
/// the memory after, and whether it changed.
pub open spec fn poke_eng(v: PhysView, pa: u64) -> (PhysView, bool) {
    if view_u64(v, (pa + 0x18) as u64) != BOOTVID_LFB_KVA {
        (write_u64(v, (pa + 0x18) as u64, BOOTVID_LFB_KVA), true)
    } else {
        (v, false)
    }
}

/// Point the `SURFOBJ` at `pa` at the bootvid mapping: `pvBits` (+0x30) and `pvScan0`
/// (+0x38) become the mapping and the low half of `lDelta` (+0x40) 0x1000, unless `pvBits`
/// is already there; with `force_device`, a surface whose `iType` (bits 32..48 of +0x48) is
/// not `STYPE_DEVICE` becomes one (`fjBitmap` kept, `iBitmapFormat` kept) and `cjBits`
/// (low half of +0x28) becomes 0. The memory after, and whether anything changed.
pub open spec fn poke_surf(v: PhysView, pa: u64, force_device: bool) -> (PhysView, bool) {
    let pv = view_u64(v, (pa + 0x30) as u64);
    let v1 = if pv != BOOTVID_LFB_KVA {
        let w1 = write_u64(v, (pa + 0x30) as u64, BOOTVID_LFB_KVA);
        let w2 = write_u64(w1, (pa + 0x38) as u64, BOOTVID_LFB_KVA);
        let cur = view_u64(w2, (pa + 0x40) as u64);
        write_u64(w2, (pa + 0x40) as u64, (cur & !0xffff_ffffu64) | 0x1000)
    } else {
        v
    };
    let t = view_u64(v1, (pa + 0x48) as u64);
    if force_device && (t >> 32u64) & 0xffff != 0 {
        let v2 = write_u64(v1, (pa + 0x48) as u64, (t & 0xffff_ffff) | (((t >> 48u64) & 0xffff) << 48u64));
        let mid = view_u64(v2, (pa + 0x28) as u64);
        (write_u64(v2, (pa + 0x28) as u64, mid & !0xffff_ffffu64), true)
    } else {
        (v1, pv != BOOTVID_LFB_KVA)
    }
}

/// The scan so far: the memory, the descriptors and surfaces rewritten, and the first of
/// each found.
pub struct EngScan {
    pub v: PhysView,
    pub eng_hits: nat,
    pub surf_hits: nat,
    pub eng_pa: Option<u64>,
    pub surf_pa: Option<u64>,
}

/// An Eng descriptor at offset `i` of `buf`: one of `needles` as its physical address,
/// then 1024 and 768.
pub open spec fn eng_at(buf: Seq<u8>, i: int, needles: Seq<u64>) -> bool {
    needles.contains(u64_le(buf, i)) && u32_le(buf, i + 8) == 1024 && u32_le(buf, i + 12) == 768
}

/// A primary `SURFOBJ` at offset `i` of `buf`: `sizlBitmap` 1024x768 (+0x20), `cjBits`
/// 0x300000 (+0x28), `BMF_32BPP` (+0x48) and `STYPE_BITMAP` (+0x4c), all inside `buf`.
pub open spec fn surf_at(buf: Seq<u8>, i: int) -> bool {
    &&& i + 0x50 <= buf.len()
    &&& u32_le(buf, i + 0x20) == 1024
    &&& u32_le(buf, i + 0x24) == 768
    &&& u32_le(buf, i + 0x28) == 0x30_0000
    &&& u32_le(buf, i + 0x48) == 6
    &&& u16_le(buf, i + 0x4c) == 1
}

/// The scan of `buf` (read at physical `base`) at offsets `i, i + 8, ...` that leave 0x20
/// bytes, rewriting what it finds as it goes.
pub open spec fn scan_offsets(s: EngScan, buf: Seq<u8>, base: u64, needles: Seq<u64>, force: bool, i: nat) -> EngScan
    decreases buf.len() - i,
{
    if i + 0x20 > buf.len() {
        s
    } else {
        let pa = (base + i) as u64;
        let s1 = if eng_at(buf, i as int, needles) {
            let p = poke_eng(s.v, pa);
            EngScan {
                v: p.0,
                eng_hits: if p.1 {
                    s.eng_hits + 1
                } else {
                    s.eng_hits
                },
                eng_pa: if s.eng_pa is Some {
                    s.eng_pa
                } else {
                    Some(pa)
                },
                ..s
            }
        } else {
            s
        };
        let s2 = if surf_at(buf, i as int) {
            let p = poke_surf(s1.v, pa, force);
            EngScan {
                v: p.0,
                surf_hits: if p.1 {
                    s1.surf_hits + 1
                } else {
                    s1.surf_hits
                },
                surf_pa: if s1.surf_pa is Some {
                    s1.surf_pa
                } else {
                    Some(pa)
                },
                ..s1
            }
        } else {
            s1
        };
        scan_offsets(s2, buf, base, needles, force, i + 8)
    }
}

/// The last 0x50 bytes of `buf`, carried into the next chunk (none when shorter).
pub open spec fn carried(buf: Seq<u8>) -> Seq<u8> {
    if buf.len() >= 0x50 {
        buf.subrange(buf.len() - 0x50, buf.len() as int)
    } else {
        Seq::empty()
    }
}

/// The scan of chunks `k..` of `total` bytes, each read when its turn comes and scanned
/// after the bytes carried from the chunk before.
pub open spec fn scan_chunks(s: EngScan, tail: Seq<u8>, total: u64, needles: Seq<u64>, force: bool, k: nat) -> EngScan
    decreases MAX_CHUNKS - k,
{
    if k >= MAX_CHUNKS || k * SCAN_CHUNK >= total {
        s
    } else {
        let addr = (k * SCAN_CHUNK) as u64;
        let buf = tail + view_bytes(s.v, addr, chunk_len(total, k));
        let base = if addr >= tail.len() {
            (addr - tail.len()) as u64
        } else {
            0
        };
        let s2 = scan_offsets(s, buf, base, needles, force, 0);
        scan_chunks(s2, carried(buf), total, needles, force, k + 1)
    }
}

/// The physical framebuffer addresses an Eng descriptor may hold: the VBE one, the BAR0 one
/// when there is another, and the one saved machines still carry.
pub open spec fn eng_needles(lfb: u64, bar0: u64) -> Seq<u64> {
    let a = if bar0 != 0 && bar0 != lfb {
        seq![lfb, bar0]
    } else {
        seq![lfb]
    };
    if a.contains(LEGACY_ENG_PHYS) {
        a
    } else {
        a.push(LEGACY_ENG_PHYS)
    }
}

/// What a redirect did.
#[derive(Debug, Clone, Copy, PartialEq, Eq, Structural)]
pub struct EngRedirect {
    /// Only remembered addresses were rewritten, without a scan.
    pub sticky: bool,
    pub eng_pa: Option<u64>,
    pub eng_rewrites: u64,
    pub surf_pa: Option<u64>,
    pub surf_rewrites: u64,
}

/// Why nothing was redirected.
#[derive(Debug, Clone, Copy, PartialEq, Eq, Structural)]
pub enum EngRedirectError {
    /// The VBE framebuffer base is 0.
    NoLfb,
    /// Neither a descriptor nor a surface was found.
    NotFound,
}

/// Memory `v` redirected with framebuffer `lfb`, BAR0 `bar0` (0 when absent), the surface
/// forced to a device surface or not, `scan_mb` MiB scanned, or only the remembered
/// addresses `cached` rewritten: `r` is the outcome and `v2` the memory after.
pub open spec fn eng_redirect_of(
    v: PhysView,
    lfb: u64,
    bar0: u64,
    force_device: bool,
    scan_mb: u64,
    cached: Option<(Option<u64>, Option<u64>)>,
    r: Result<EngRedirect, EngRedirectError>,
    v2: PhysView,
) -> bool {
    if lfb == 0 {
        r == Err::<EngRedirect, EngRedirectError>(EngRedirectError::NoLfb) && v2 == v
    } else {
        match cached {
            Some((e, s)) => {
                let pe = match e {
                    Some(pa) => poke_eng(v, pa),
                    None => (v, false),
                };
                let ps = match s {
                    Some(pa) => poke_surf(pe.0, pa, force_device),
                    None => (pe.0, false),
                };
                &&& v2 == ps.0
                &&& r == Ok::<EngRedirect, EngRedirectError>(
                    EngRedirect {
                        sticky: true,
                        eng_pa: e,
                        eng_rewrites: if pe.1 {
                            1
                        } else {
                            0
                        },
                        surf_pa: s,
                        surf_rewrites: if ps.1 {
                            1
                        } else {
                            0
                        },
                    },
                )
            },
            None => {
                let s0 = EngScan { v, eng_hits: 0, surf_hits: 0, eng_pa: None, surf_pa: None };
                let s = scan_chunks(s0, Seq::empty(), scan_limit(scan_mb), eng_needles(lfb, bar0), force_device, 0);
                &&& v2 == s.v
                &&& if s.eng_pa is None && s.surf_pa is None {
                    r == Err::<EngRedirect, EngRedirectError>(EngRedirectError::NotFound)
                } else {
                    r == Ok::<EngRedirect, EngRedirectError>(
                        EngRedirect {
                            sticky: false,
                            eng_pa: s.eng_pa,
                            eng_rewrites: s.eng_hits as u64,
                            surf_pa: s.surf_pa,
                            surf_rewrites: s.surf_hits as u64,
                        },
                    )
                }
            },
        }
    }
}

/// `poke_eng`.
fn poke_eng_in<M: GuestPhysical>(m: &mut M, Ghost(v): Ghost<PhysView>, pa: u64) -> (r: bool)
    requires
        view_of(old(m)) == v,
        pa <= u64::MAX - 0x50,
    ensures
        (view_of(final(m)), r) == poke_eng(v, pa),
{
    if read_u64_in(m, Ghost(v), pa + 0x18) != BOOTVID_LFB_KVA {
        write_u64_in(m, Ghost(v), pa + 0x18, BOOTVID_LFB_KVA);
        true
    } else {
        false
    }
}

/// `poke_surf`.
fn poke_surf_in<M: GuestPhysical>(m: &mut M, Ghost(v): Ghost<PhysView>, pa: u64, force_device: bool) -> (r: bool)
    requires
        view_of(old(m)) == v,
        pa <= u64::MAX - 0x50,
    ensures
        (view_of(final(m)), r) == poke_surf(v, pa, force_device),
{
    let pv = read_u64_in(m, Ghost(v), pa + 0x30);
    if pv != BOOTVID_LFB_KVA {
        write_u64_in(m, Ghost(v), pa + 0x30, BOOTVID_LFB_KVA);
        let ghost w1 = view_of(m);
        write_u64_in(m, Ghost(w1), pa + 0x38, BOOTVID_LFB_KVA);
        let ghost w2 = view_of(m);
        let cur = read_u64_in(m, Ghost(w2), pa + 0x40);
        write_u64_in(m, Ghost(w2), pa + 0x40, (cur & !0xffff_ffffu64) | 0x1000);
    }
    let ghost v1 = view_of(m);
    if force_device {
        let t = read_u64_in(m, Ghost(v1), pa + 0x48);
        if (t >> 32u64) & 0xffff != 0 {
            write_u64_in(m, Ghost(v1), pa + 0x48, (t & 0xffff_ffff) | (((t >> 48u64) & 0xffff) << 48u64));
            let ghost v2 = view_of(m);
            let mid = read_u64_in(m, Ghost(v2), pa + 0x28);
            write_u64_in(m, Ghost(v2), pa + 0x28, mid & !0xffff_ffffu64);
            return true;
        }
    }
    pv != BOOTVID_LFB_KVA
}

/// Append the `n` physical bytes from `pa` to `out`.
fn append_bytes<M: GuestPhysical>(m: &mut M, Ghost(v): Ghost<PhysView>, out: &mut Vec<u8>, pa: u64, n: usize)
    requires
        view_of(old(m)) == v,
    ensures
        view_of(final(m)) == v,
        final(out)@ == old(out)@ + view_bytes(v, pa, n as nat),
{
    let ghost start = out@;
    let mut i: usize = 0;
    while i < n
        invariant
            i <= n,
            view_of(m) == v,
            out@ =~= start + view_bytes(v, pa, i as nat),
        decreases n - i,
    {
        let b = byte_in(m, Ghost(v), pa.wrapping_add(i as u64));
        out.push(b);
        i += 1;
    }
}

/// The scan state of the running loop.
pub open spec fn scan_state(v: PhysView, eh: u64, sh: u64, ep: Option<u64>, sp: Option<u64>) -> EngScan {
    EngScan { v, eng_hits: eh as nat, surf_hits: sh as nat, eng_pa: ep, surf_pa: sp }
}

/// Redirect win32k's Eng framebuffer descriptor (`FrameBufferBase` at +0x18) and the
/// 1024x768 32bpp primary `SURFOBJ` (`pvBits`, `pvScan0`, `lDelta`) to bootvid's kernel
/// mapping of the framebuffer. With `cached`, only the remembered descriptor and surface
/// are rewritten; otherwise `scan_mb` MiB of RAM (at most 4 GiB) are scanned at 8-byte
/// steps for descriptors naming `lfb`, the other BAR0 base `bar0` (0 when none) or the
/// saved-machine address, and for the surface. `force_device` also turns the surface into a
/// device surface.
pub fn redir_eng_lfb_to_bootvid_kva<M: GuestPhysical>(
    m: &mut M,
    lfb: u64,
    bar0: u64,
    force_device: bool,
    scan_mb: u64,
    cached: Option<(Option<u64>, Option<u64>)>,
) -> (r: Result<EngRedirect, EngRedirectError>)
    requires
        match cached {
            Some((e, s)) => (e matches Some(pa) ==> pa <= u64::MAX - 0x50) && (s matches Some(pa) ==> pa
                <= u64::MAX - 0x50),
            None => true,
        },
    ensures
        eng_redirect_of(view_of(old(m)), lfb, bar0, force_device, scan_mb, cached, r, view_of(final(m))),
{
    let ghost v = view_of(m);
    if lfb == 0 {
        return Err(EngRedirectError::NoLfb);
    }
    match cached {
        Some((e, s)) => {
            let eh = match e {
                Some(pa) => poke_eng_in(m, Ghost(v), pa),
                None => false,
            };
            let ghost v1 = view_of(m);
            let sh = match s {
                Some(pa) => poke_surf_in(m, Ghost(v1), pa, force_device),
                None => false,
            };
            return Ok(
                EngRedirect {
                    sticky: true,
                    eng_pa: e,
                    eng_rewrites: if eh {
                        1
                    } else {
                        0
                    },
                    surf_pa: s,
                    surf_rewrites: if sh {
                        1
                    } else {
                        0
                    },
                },
            );
        },
        None => {},
    }
    let mut needles: Vec<u64> = Vec::new();
    needles.push(lfb);
    if bar0 != 0 && bar0 != lfb {
        needles.push(bar0);
    }
    let ghost a = if bar0 != 0 && bar0 != lfb {
        seq![lfb, bar0]
    } else {
        seq![lfb]
    };
    assert(needles@ =~= a);
    if !contains_u64(&needles, LEGACY_ENG_PHYS) {
        needles.push(LEGACY_ENG_PHYS);
    }
    assert(needles@ =~= eng_needles(lfb, bar0));
    let total: u64 = match scan_mb.checked_mul(0x10_0000) {
        Some(b) => if b < 0x1_0000_0000 {
            b
        } else {
            0x1_0000_0000
        },
        None => 0x1_0000_0000,
    };
    assert(total == scan_limit(scan_mb));
    let ghost target = scan_chunks(
        scan_state(v, 0, 0, None, None),
        Seq::empty(),
        total,
        needles@,
        force_device,
        0,
    );
    let mut eng_hits: u64 = 0;
    let mut surf_hits: u64 = 0;
    let mut eng_pa: Option<u64> = None;
    let mut surf_pa: Option<u64> = None;
    let mut tail: Vec<u8> = Vec::new();
    let mut k: u64 = 0;
    while k < MAX_CHUNKS && k * SCAN_CHUNK < total
        invariant
            k <= MAX_CHUNKS,
            total <= 0x1_0000_0000,
            tail@.len() == 0 || tail@.len() == 0x50,
            k == 0 ==> tail@.len() == 0,
            eng_hits <= k * 0x2_0010,
            surf_hits <= k * 0x2_0010,
            eng_pa matches Some(pa) ==> pa < 0x1_0000_0000,
            surf_pa matches Some(pa) ==> pa < 0x1_0000_0000,
            target == scan_chunks(
                scan_state(view_of(m), eng_hits, surf_hits, eng_pa, surf_pa),
                tail@,
                total,
                needles@,
                force_device,
                k as nat,
            ),
        decreases MAX_CHUNKS - k,
    {
        let addr = k * SCAN_CHUNK;
        let len: u64 = if total - addr < SCAN_CHUNK {
            total - addr
        } else {
            SCAN_CHUNK
        };
        assert(len == chunk_len(total, k as nat));
        let ghost vk = view_of(m);
        let mut buf = tail.clone();
        assert(buf@ == tail@);
        append_bytes(m, Ghost(vk), &mut buf, addr, len as usize);
        let base = addr - tail.len() as u64;
        let ghost s_chunk = scan_state(vk, eng_hits, surf_hits, eng_pa, surf_pa);
        let ghost after = scan_offsets(s_chunk, buf@, base, needles@, force_device, 0);
        let mut i: usize = 0;
        while i + 0x20 <= buf.len()
            invariant
                k < MAX_CHUNKS,
                buf@.len() <= 0x10_0050,
                base as int + buf@.len() <= 0x1_0000_0000,
                i % 8 == 0,
                i <= buf@.len() + 8,
                eng_hits <= k * 0x2_0010 + i / 8,
                surf_hits <= k * 0x2_0010 + i / 8,
                eng_pa matches Some(pa) ==> pa < 0x1_0000_0000,
                surf_pa matches Some(pa) ==> pa < 0x1_0000_0000,
                after == scan_offsets(
                    scan_state(view_of(m), eng_hits, surf_hits, eng_pa, surf_pa),
                    buf@,
                    base,
                    needles@,
                    force_device,
                    i as nat,
                ),
            decreases buf@.len() + 8 - i,
        {
            let pa = base + i as u64;
            let ghost c0 = view_of(m);
            let phys = u64_at(buf.as_slice(), i);
            if contains_u64(&needles, phys) && u32_at(buf.as_slice(), i + 8) == 1024 && u32_at(
                buf.as_slice(),
                i + 12,
            ) == 768 {
                if poke_eng_in(m, Ghost(c0), pa) {
                    eng_hits += 1;
                }
                if eng_pa.is_none() {
                    eng_pa = Some(pa);
                }
            }
            let ghost c1 = view_of(m);
            if i + 0x50 <= buf.len() && u32_at(buf.as_slice(), i + 0x20) == 1024 && u32_at(
                buf.as_slice(),
                i + 0x24,
            ) == 768 && u32_at(buf.as_slice(), i + 0x28) == 0x30_0000 && u32_at(buf.as_slice(), i + 0x48)
                == 6 && u16_at(buf.as_slice(), i + 0x4c) == 1 {
                if poke_surf_in(m, Ghost(c1), pa, force_device) {
                    surf_hits += 1;
                }
                if surf_pa.is_none() {
                    surf_pa = Some(pa);
                }
            }
            i += 8;
        }
        tail = if buf.len() >= 0x50 {
            buf.split_off(buf.len() - 0x50)
        } else {
            Vec::new()
        };
        k += 1;
    }
    if eng_pa.is_none() && surf_pa.is_none() {
        return Err(EngRedirectError::NotFound);
    }
    Ok(EngRedirect { sticky: false, eng_pa, eng_rewrites: eng_hits, surf_pa, surf_rewrites: surf_hits })
}

/// All of `[pa + lo, pa + hi)` stores writes.
pub open spec fn ram_span(v: PhysView, pa: u64, lo: int, hi: int) -> bool {
    forall|j: int| lo <= j < hi ==> #[trigger] (v.ram)((pa + j) as u64)
}

proof fn lemma_write_keeps_ram(v: PhysView, a: u64, val: u64)
    requires
        a + 8 <= u64::MAX,
    ensures
        write_u64(v, a, val).ram == v.ram,
{
    vstd::bytes::lemma_auto_spec_u64_to_from_le_bytes();
    lemma_write_run_byte(v, a, vstd::bytes::spec_u64_to_le_bytes(val), a);
}

/// Re-pointing a descriptor that was just pointed at the bootvid mapping changes nothing
/// and reports no rewrite.
pub proof fn lemma_poke_eng_settles(v: PhysView, pa: u64)
    requires
        pa <= u64::MAX - 0x50,
        ram_span(v, pa, 0x18, 0x20),
    ensures
        poke_eng(poke_eng(v, pa).0, pa) == (poke_eng(v, pa).0, false),
{
    let a = (pa + 0x18) as u64;
    if view_u64(v, a) != BOOTVID_LFB_KVA {
        assert forall|j: int| 0 <= j < 8 implies #[trigger] (v.ram)((a + j) as u64) by {
            assert((pa + (0x18 + j)) as u64 == (a + j) as u64);
        }
        lemma_u64_read_back(v, a, BOOTVID_LFB_KVA);
    }
}

/// What `poke_surf` writes lies in `[pa + 0x28, pa + 0x50)`: a `u64` outside reads as before,
/// and memory stores where it did.
proof fn lemma_poke_surf_elsewhere(v: PhysView, pa: u64, force: bool, c: u64)
    requires
        pa <= u64::MAX - 0x50,
        c <= u64::MAX - 8,
        c + 8 <= pa + 0x28 || pa + 0x50 <= c,
    ensures
        view_u64(poke_surf(v, pa, force).0, c) == view_u64(v, c),
        poke_surf(v, pa, force).0.ram == v.ram,
{
    let pv = view_u64(v, (pa + 0x30) as u64);
    let v1 = if pv != BOOTVID_LFB_KVA {
        let w1 = write_u64(v, (pa + 0x30) as u64, BOOTVID_LFB_KVA);
        let w2 = write_u64(w1, (pa + 0x38) as u64, BOOTVID_LFB_KVA);
        let cur = view_u64(w2, (pa + 0x40) as u64);
        lemma_u64_elsewhere(v, (pa + 0x30) as u64, BOOTVID_LFB_KVA, c);
        lemma_u64_elsewhere(w1, (pa + 0x38) as u64, BOOTVID_LFB_KVA, c);
        lemma_u64_elsewhere(w2, (pa + 0x40) as u64, (cur & !0xffff_ffffu64) | 0x1000, c);
        lemma_write_keeps_ram(v, (pa + 0x30) as u64, BOOTVID_LFB_KVA);
        lemma_write_keeps_ram(w1, (pa + 0x38) as u64, BOOTVID_LFB_KVA);
        lemma_write_keeps_ram(w2, (pa + 0x40) as u64, (cur & !0xffff_ffffu64) | 0x1000);
        write_u64(w2, (pa + 0x40) as u64, (cur & !0xffff_ffffu64) | 0x1000)
    } else {
        v
    };
    let t = view_u64(v1, (pa + 0x48) as u64);
    if force && (t >> 32u64) & 0xffff != 0 {
        let nt = (t & 0xffff_ffff) | (((t >> 48u64) & 0xffff) << 48u64);
        let v2 = write_u64(v1, (pa + 0x48) as u64, nt);
        let mid = view_u64(v2, (pa + 0x28) as u64);
        lemma_u64_elsewhere(v1, (pa + 0x48) as u64, nt, c);
        lemma_u64_elsewhere(v2, (pa + 0x28) as u64, mid & !0xffff_ffffu64, c);
        lemma_write_keeps_ram(v1, (pa + 0x48) as u64, nt);
        lemma_write_keeps_ram(v2, (pa + 0x28) as u64, mid & !0xffff_ffffu64);
    }
}

/// Re-pointing a surface that was just pointed at the bootvid mapping (and made a device
/// surface, when forced) changes nothing and reports no rewrite.
pub proof fn lemma_poke_surf_settles(v: PhysView, pa: u64, force: bool)
    requires
        pa <= u64::MAX - 0x50,
        ram_span(v, pa, 0x28, 0x50),
    ensures
        poke_surf(poke_surf(v, pa, force).0, pa, force) == (poke_surf(v, pa, force).0, false),
{
    let s30 = (pa + 0x30) as u64;
    let s38 = (pa + 0x38) as u64;
    let s40 = (pa + 0x40) as u64;
    let s48 = (pa + 0x48) as u64;
    let s28 = (pa + 0x28) as u64;
    assert forall|q: int, j: int| 0x28 <= q && q + 8 <= 0x50 && 0 <= j < 8 implies #[trigger] (v.ram)(
        ((pa + q) as u64 + j) as u64,
    ) by {
        assert(((pa + q) as u64 + j) as u64 == (pa + (q + j)) as u64);
    }
    let pv = view_u64(v, s30);
    let v1 = if pv != BOOTVID_LFB_KVA {
        let w1 = write_u64(v, s30, BOOTVID_LFB_KVA);
        lemma_u64_read_back(v, s30, BOOTVID_LFB_KVA);
        let w2 = write_u64(w1, s38, BOOTVID_LFB_KVA);
        lemma_u64_elsewhere(w1, s38, BOOTVID_LFB_KVA, s30);
        lemma_write_keeps_ram(w1, s38, BOOTVID_LFB_KVA);
        let cur = view_u64(w2, s40);
        let w3 = write_u64(w2, s40, (cur & !0xffff_ffffu64) | 0x1000);
        lemma_u64_elsewhere(w2, s40, (cur & !0xffff_ffffu64) | 0x1000, s30);
        lemma_write_keeps_ram(w2, s40, (cur & !0xffff_ffffu64) | 0x1000);
        w3
    } else {
        v
    };
    assert(view_u64(v1, s30) == BOOTVID_LFB_KVA);
    assert(v1.ram == v.ram);
    let t = view_u64(v1, s48);
    if force && (t >> 32u64) & 0xffff != 0 {
        let nt = (t & 0xffff_ffff) | (((t >> 48u64) & 0xffff) << 48u64);
        let v2 = write_u64(v1, s48, nt);
        lemma_u64_read_back(v1, s48, nt);
        lemma_u64_elsewhere(v1, s48, nt, s30);
        let mid = view_u64(v2, s28);
        let v3 = write_u64(v2, s28, mid & !0xffff_ffffu64);
        lemma_write_keeps_ram(v1, s48, nt);
        lemma_u64_elsewhere(v2, s28, mid & !0xffff_ffffu64, s30);
        lemma_u64_elsewhere(v2, s28, mid & !0xffff_ffffu64, s48);
        assert((nt >> 32u64) & 0xffff == 0) by (bit_vector)
            requires
                nt == (t & 0xffff_ffff) | (((t >> 48u64) & 0xffff) << 48u64),
        ;
        assert(view_u64(v3, s30) == BOOTVID_LFB_KVA);
        assert(view_u64(v3, s48) == nt);
    }
}

/// Re-applying the sticky redirect to the addresses it has just rewritten changes nothing
/// and reports no rewrites, when the descriptor's and the surface's fields do not overlap
/// and memory stores there.
pub proof fn lemma_sticky_redirect_settles(
    v: PhysView,
    lfb: u64,
    bar0: u64,
    force_device: bool,
    scan_mb: u64,
    e: u64,
    s: u64,
    r: Result<EngRedirect, EngRedirectError>,
    v2: PhysView,
    r2: Result<EngRedirect, EngRedirectError>,
    v3: PhysView,
)
    requires
        lfb != 0,
        e <= u64::MAX - 0x50,
        s <= u64::MAX - 0x50,
        e + 0x20 <= s + 0x28 || s + 0x50 <= e + 0x18,
        ram_span(v, e, 0x18, 0x20),
        ram_span(v, s, 0x28, 0x50),
        eng_redirect_of(v, lfb, bar0, force_device, scan_mb, Some((Some(e), Some(s))), r, v2),
        eng_redirect_of(v2, lfb, bar0, force_device, scan_mb, Some((Some(e), Some(s))), r2, v3),
    ensures
        v3 == v2,
        r2 == Ok::<EngRedirect, EngRedirectError>(
            EngRedirect { sticky: true, eng_pa: Some(e), eng_rewrites: 0, surf_pa: Some(s), surf_rewrites: 0 },
        ),
{
    let pe = poke_eng(v, e);
    lemma_poke_eng_settles(v, e);
    let ea = (e + 0x18) as u64;
    if view_u64(v, ea) != BOOTVID_LFB_KVA {
        lemma_write_keeps_ram(v, ea, BOOTVID_LFB_KVA);
    }
    assert(pe.0.ram == v.ram);
    let ps = poke_surf(pe.0, s, force_device);
    lemma_poke_surf_elsewhere(pe.0, s, force_device, ea);
    lemma_poke_surf_settles(pe.0, s, force_device);
    assert(view_u64(ps.0, ea) == BOOTVID_LFB_KVA);
    assert(poke_eng(ps.0, e) == (ps.0, false));
}

} // verus!
