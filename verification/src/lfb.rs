//! Mapping the VBE linear framebuffer into a stopped guest's page tables: as one identity
//! 2 MiB page, or page by page at a chosen virtual address.

use vstd::prelude::*;
use vstd::bytes::*;

use crate::cli::GuestPhysical;
use crate::patch::{byte_in, view_of, view_u64, write_bytes, write_run, PhysView};

verus! {

/// Whether the 4 KiB page at `page` reads as zeros.
pub open spec fn page_zero(v: PhysView, page: u64) -> bool {
    forall|j: int| 0 <= j < 0x1000 ==> #[trigger] (v.byte)(page.wrapping_add(j as u64)) == 0
}

/// The first zero page of `n` from `page` upward.
pub open spec fn free_up(v: PhysView, page: u64, n: nat) -> Option<u64>
    decreases n,
{
    if n == 0 {
        None
    } else if page_zero(v, page) {
        Some(page)
    } else {
        free_up(v, page.wrapping_add(0x1000), (n - 1) as nat)
    }
}

/// The first zero page of `n` below `page`, downward.
pub open spec fn free_down(v: PhysView, page: u64, n: nat) -> Option<u64>
    decreases n,
{
    if n == 0 {
        None
    } else {
        let p = page.wrapping_sub(0x1000);
        if page_zero(v, p) {
            Some(p)
        } else {
            free_down(v, p, (n - 1) as nat)
        }
    }
}

/// The page a new page table goes into: the first zero page in 1..4 MiB, else the first
/// below 8 MiB going down to 2 MiB.
pub open spec fn free_page(v: PhysView) -> Option<u64> {
    match free_up(v, 0x10_0000, 0x300) {
        Some(p) => Some(p),
        None => free_down(v, 0x80_0000, 0x600),
    }
}

fn page_is_zero<M: GuestPhysical>(m: &mut M, Ghost(v): Ghost<PhysView>, page: u64) -> (r: bool)
    requires
        view_of(old(m)) == v,
    ensures
        r == page_zero(v, page),
        view_of(final(m)) == v,
{
    let mut j: u64 = 0;
    while j < 0x1000
        invariant
            j <= 0x1000,
            view_of(m) == v,
            forall|k: int| 0 <= k < j ==> #[trigger] (v.byte)(page.wrapping_add(k as u64)) == 0,
        decreases 0x1000 - j,
    {
        if byte_in(m, Ghost(v), page.wrapping_add(j)) != 0 {
            assert((v.byte)(page.wrapping_add((j as int) as u64)) != 0);
            return false;
        }
        j += 1;
    }
    true
}

/// Find a zero page for a new page table.
fn find_free_page<M: GuestPhysical>(m: &mut M, Ghost(v): Ghost<PhysView>) -> (r: Option<u64>)
    requires
        view_of(old(m)) == v,
    ensures
        r == free_page(v),
        view_of(final(m)) == v,
{
    let mut page: u64 = 0x10_0000;
    let mut n: u64 = 0x300;
    while n > 0
        invariant
            n <= 0x300,
            view_of(m) == v,
            free_up(v, 0x10_0000, 0x300) == free_up(v, page, n as nat),
        decreases n,
    {
        if page_is_zero(m, Ghost(v), page) {
            return Some(page);
        }
        page = page.wrapping_add(0x1000);
        n -= 1;
    }
    let mut page: u64 = 0x80_0000;
    let mut n: u64 = 0x600;
    while n > 0
        invariant
            n <= 0x600,
            view_of(m) == v,
            free_up(v, 0x10_0000, 0x300) is None,
            free_down(v, 0x80_0000, 0x600) == free_down(v, page, n as nat),
        decreases n,
    {
        let p = page.wrapping_sub(0x1000);
        if page_is_zero(m, Ghost(v), p) {
            return Some(p);
        }
        page = p;
        n -= 1;
    }
    None
}

/// Read the physical `u64` at `pa`.
pub(crate) fn read_u64_in<M: GuestPhysical>(m: &mut M, Ghost(v): Ghost<PhysView>, pa: u64) -> (r: u64)
    requires
        view_of(old(m)) == v,
    ensures
        r == view_u64(v, pa),
        view_of(final(m)) == v,
{
    let mut b: Vec<u8> = Vec::new();
    let mut j: u64 = 0;
    while j < 8
        invariant
            j <= 8,
            view_of(m) == v,
            b@ =~= Seq::new(j as nat, |k: int| (v.byte)(pa.wrapping_add(k as u64))),
        decreases 8 - j,
    {
        let x = byte_in(m, Ghost(v), pa.wrapping_add(j));
        b.push(x);
        j += 1;
    }
    u64_from_le_bytes(b.as_slice())
}

/// `v` after writing the little-endian `val` at `pa`.
pub open spec fn write_u64(v: PhysView, pa: u64, val: u64) -> PhysView {
    write_run(v, pa, spec_u64_to_le_bytes(val))
}

pub(crate) fn write_u64_in<M: GuestPhysical>(m: &mut M, Ghost(v): Ghost<PhysView>, pa: u64, val: u64)
    requires
        view_of(old(m)) == v,
    ensures
        view_of(final(m)) == write_u64(v, pa, val),
{
    let b = u64_to_le_bytes(val);
    write_bytes(m, Ghost(v), pa, &b);
}

/// Why the framebuffer could not be mapped.
#[derive(Debug, Clone, Copy, PartialEq, Eq, Structural)]
pub enum LfbMapError {
    /// The VBE framebuffer base is 0.
    NoLfb,
    /// The PML4 entry on the way is not present.
    Pml4NotPresent { index: u64, cr3: u64 },
    /// The PDPT entry maps a 1 GiB page, which is not split.
    PdptLargePage(u64),
    /// The PD entry maps a 2 MiB page, which is not split.
    PdeLargePage { index: u64, va: u64 },
    /// No zero page for a new table.
    NoFreePage,
}

/// What the identity mapping did.
#[derive(Debug, Clone, Copy, PartialEq, Eq, Structural)]
pub struct LfbIdentityMap {
    pub cr3: u64,
    pub lfb: u64,
    pub phys_2m: u64,
    pub pml4_index: u64,
    pub pdpt_index: u64,
    /// The PDPT entry after the mapping (a new directory when it was not present).
    pub pdpte: u64,
    pub pd_index: u64,
    pub old_pde: u64,
    pub pde: u64,
}

/// The identity 2 MiB mapping of the framebuffer at `lfb` under `cr3`: the memory after it
/// and its outcome.
pub open spec fn lfb_identity_of(v: PhysView, lfb: u64, cr3_raw: u64, after: PhysView, r: Result<LfbIdentityMap, LfbMapError>) -> bool {
    let phys_2m = lfb & !0x1f_ffffu64;
    let cr3 = cr3_raw & !0xfffu64;
    let pml4_i = (phys_2m >> 39u64) & 0x1ff;
    let pdpt_i = (phys_2m >> 30u64) & 0x1ff;
    let pd_i = (phys_2m >> 21u64) & 0x1ff;
    let pml4e = view_u64(v, cr3.wrapping_add((pml4_i * 8) as u64));
    let pdpt = pml4e & 0x000f_ffff_ffff_f000;
    let pdpte = view_u64(v, pdpt.wrapping_add((pdpt_i * 8) as u64));
    if lfb == 0 {
        after == v && r == Err::<LfbIdentityMap, LfbMapError>(LfbMapError::NoLfb)
    } else if pml4e & 1 == 0 {
        after == v && r == Err::<LfbIdentityMap, LfbMapError>(
            LfbMapError::Pml4NotPresent { index: pml4_i, cr3 },
        )
    } else if pdpte & 1 == 0 && free_page(v) is None {
        after == v && r == Err::<LfbIdentityMap, LfbMapError>(LfbMapError::NoFreePage)
    } else if pdpte & 1 != 0 && pdpte & 0x80 != 0 {
        after == v && r == Err::<LfbIdentityMap, LfbMapError>(LfbMapError::PdptLargePage(pdpt_i))
    } else {
        let (v1, pd, new_pdpte) = if pdpte & 1 == 0 {
            let pd_pa = free_page(v)->0;
            (write_u64(v, pdpt.wrapping_add((pdpt_i * 8) as u64), pd_pa | 7), pd_pa, pd_pa | 7)
        } else {
            (v, pdpte & 0x000f_ffff_ffff_f000, pdpte)
        };
        let pde = phys_2m | 0xFF;
        &&& after == write_u64(v1, pd.wrapping_add((pd_i * 8) as u64), pde)
        &&& r == Ok::<LfbIdentityMap, LfbMapError>(
            LfbIdentityMap {
                cr3,
                lfb,
                phys_2m,
                pml4_index: pml4_i,
                pdpt_index: pdpt_i,
                pdpte: new_pdpte,
                pd_index: pd_i,
                old_pde: view_u64(v1, pd.wrapping_add((pd_i * 8) as u64)),
                pde,
            },
        )
    }
}

/// Identity-map the 2 MiB region holding the VBE framebuffer at `lfb` into the page tables
/// at `cr3` with one present, writable, user, uncached large page, adding a page directory
/// when the PDPT entry is empty. The caller reloads `CR3` to flush the TLB.
pub fn map_vbe_lfb_identity_2m<M: GuestPhysical>(m: &mut M, lfb: u64, cr3: u64) -> (r: Result<
    LfbIdentityMap,
    LfbMapError,
>)
    ensures
        lfb_identity_of(view_of(old(m)), lfb, cr3, view_of(final(m)), r),
{
    let ghost v = view_of(m);
    if lfb == 0 {
        return Err(LfbMapError::NoLfb);
    }
    let phys_2m = lfb & !0x1f_ffffu64;
    let cr3 = cr3 & !0xfffu64;
    let pml4_i = (phys_2m >> 39u64) & 0x1ff;
    let pdpt_i = (phys_2m >> 30u64) & 0x1ff;
    let pd_i = (phys_2m >> 21u64) & 0x1ff;
    assert(pml4_i <= 0x1ff && pdpt_i <= 0x1ff && pd_i <= 0x1ff) by (bit_vector)
        requires
            pml4_i == (phys_2m >> 39u64) & 0x1ff,
            pdpt_i == (phys_2m >> 30u64) & 0x1ff,
            pd_i == (phys_2m >> 21u64) & 0x1ff,
    ;
    let pml4e = read_u64_in(m, Ghost(v), cr3.wrapping_add(pml4_i * 8));
    if pml4e & 1 == 0 {
        return Err(LfbMapError::Pml4NotPresent { index: pml4_i, cr3 });
    }
    let pdpt = pml4e & 0x000f_ffff_ffff_f000;
    let pdpte = read_u64_in(m, Ghost(v), pdpt.wrapping_add(pdpt_i * 8));
    let ghost v1: PhysView;
    let pd: u64;
    let new_pdpte: u64;
    if pdpte & 1 == 0 {
        let pd_pa = match find_free_page(m, Ghost(v)) {
            Some(p) => p,
            None => {
                return Err(LfbMapError::NoFreePage);
            },
        };
        write_u64_in(m, Ghost(v), pdpt.wrapping_add(pdpt_i * 8), pd_pa | 7);
        proof {
            v1 = write_u64(v, pdpt.wrapping_add((pdpt_i * 8) as u64), pd_pa | 7);
        }
        pd = pd_pa;
        new_pdpte = pd_pa | 7;
    } else if pdpte & 0x80 != 0 {
        return Err(LfbMapError::PdptLargePage(pdpt_i));
    } else {
        proof {
            v1 = v;
        }
        pd = pdpte & 0x000f_ffff_ffff_f000;
        new_pdpte = pdpte;
    }
    let pde = phys_2m | 0xFF;
    let old_pde = read_u64_in(m, Ghost(v1), pd.wrapping_add(pd_i * 8));
    write_u64_in(m, Ghost(v1), pd.wrapping_add(pd_i * 8), pde);
    Ok(
        LfbIdentityMap {
            cr3,
            lfb,
            phys_2m,
            pml4_index: pml4_i,
            pdpt_index: pdpt_i,
            pdpte: new_pdpte,
            pd_index: pd_i,
            old_pde,
            pde,
        },
    )
}

/// The page table for `va` under the tables at `cr3`, adding empty tables (present,
/// writable, user; the PT also accessed) where entries are not present: the memory after,
/// and the table or why there is none.
pub open spec fn ensure_pt(v: PhysView, cr3: u64, va: u64) -> (PhysView, Result<u64, LfbMapError>) {
    let pml4_i = (va >> 39u64) & 0x1ff;
    let pdpt_i = (va >> 30u64) & 0x1ff;
    let pd_i = (va >> 21u64) & 0x1ff;
    let e1 = view_u64(v, cr3.wrapping_add((pml4_i * 8) as u64));
    if e1 & 1 == 0 && free_page(v) is None {
        (v, Err(LfbMapError::NoFreePage))
    } else {
        let (v1, pdpt) = if e1 & 1 == 0 {
            let pa = free_page(v)->0;
            (write_u64(v, cr3.wrapping_add((pml4_i * 8) as u64), pa | 7), pa)
        } else {
            (v, e1 & 0x000f_ffff_ffff_f000)
        };
        let e2 = view_u64(v1, pdpt.wrapping_add((pdpt_i * 8) as u64));
        if e2 & 1 == 0 && free_page(v1) is None {
            (v1, Err(LfbMapError::NoFreePage))
        } else if e2 & 1 != 0 && e2 & 0x80 != 0 {
            (v1, Err(LfbMapError::PdptLargePage(pdpt_i)))
        } else {
            let (v2, pd) = if e2 & 1 == 0 {
                let pa = free_page(v1)->0;
                (write_u64(v1, pdpt.wrapping_add((pdpt_i * 8) as u64), pa | 7), pa)
            } else {
                (v1, e2 & 0x000f_ffff_ffff_f000)
            };
            let e3 = view_u64(v2, pd.wrapping_add((pd_i * 8) as u64));
            if e3 & 1 == 0 && free_page(v2) is None {
                (v2, Err(LfbMapError::NoFreePage))
            } else if e3 & 1 != 0 && e3 & 0x80 != 0 {
                (v2, Err(LfbMapError::PdeLargePage { index: pd_i, va }))
            } else if e3 & 1 == 0 {
                let pa = free_page(v2)->0;
                (write_u64(v2, pd.wrapping_add((pd_i * 8) as u64), pa | 0x27), Ok(pa))
            } else {
                (v2, Ok(e3 & 0x000f_ffff_ffff_f000))
            }
        }
    }
}

fn ensure_pt_in<M: GuestPhysical>(m: &mut M, Ghost(v): Ghost<PhysView>, cr3: u64, va: u64) -> (r:
    Result<u64, LfbMapError>)
    requires
        view_of(old(m)) == v,
    ensures
        view_of(final(m)) == ensure_pt(v, cr3, va).0,
        r == ensure_pt(v, cr3, va).1,
{
    let pml4_i = (va >> 39u64) & 0x1ff;
    let pdpt_i = (va >> 30u64) & 0x1ff;
    let pd_i = (va >> 21u64) & 0x1ff;
    assert(pml4_i <= 0x1ff && pdpt_i <= 0x1ff && pd_i <= 0x1ff) by (bit_vector)
        requires
            pml4_i == (va >> 39u64) & 0x1ff,
            pdpt_i == (va >> 30u64) & 0x1ff,
            pd_i == (va >> 21u64) & 0x1ff,
    ;
    let e1 = read_u64_in(m, Ghost(v), cr3.wrapping_add(pml4_i * 8));
    let ghost v1: PhysView;
    let pdpt: u64;
    if e1 & 1 == 0 {
        let pa = match find_free_page(m, Ghost(v)) {
            Some(p) => p,
            None => {
                return Err(LfbMapError::NoFreePage);
            },
        };
        write_u64_in(m, Ghost(v), cr3.wrapping_add(pml4_i * 8), pa | 7);
        proof {
            v1 = write_u64(v, cr3.wrapping_add((pml4_i * 8) as u64), pa | 7);
        }
        pdpt = pa;
    } else {
        proof {
            v1 = v;
        }
        pdpt = e1 & 0x000f_ffff_ffff_f000;
    }
    let e2 = read_u64_in(m, Ghost(v1), pdpt.wrapping_add(pdpt_i * 8));
    let ghost v2: PhysView;
    let pd: u64;
    if e2 & 1 == 0 {
        let pa = match find_free_page(m, Ghost(v1)) {
            Some(p) => p,
            None => {
                return Err(LfbMapError::NoFreePage);
            },
        };
        write_u64_in(m, Ghost(v1), pdpt.wrapping_add(pdpt_i * 8), pa | 7);
        proof {
            v2 = write_u64(v1, pdpt.wrapping_add((pdpt_i * 8) as u64), pa | 7);
        }
        pd = pa;
    } else if e2 & 0x80 != 0 {
        return Err(LfbMapError::PdptLargePage(pdpt_i));
    } else {
        proof {
            v2 = v1;
        }
        pd = e2 & 0x000f_ffff_ffff_f000;
    }
    let e3 = read_u64_in(m, Ghost(v2), pd.wrapping_add(pd_i * 8));
    if e3 & 1 == 0 {
        let pa = match find_free_page(m, Ghost(v2)) {
            Some(p) => p,
            None => {
                return Err(LfbMapError::NoFreePage);
            },
        };
        write_u64_in(m, Ghost(v2), pd.wrapping_add(pd_i * 8), pa | 0x27);
        Ok(pa)
    } else if e3 & 0x80 != 0 {
        Err(LfbMapError::PdeLargePage { index: pd_i, va })
    } else {
        Ok(e3 & 0x000f_ffff_ffff_f000)
    }
}

/// The framebuffer bytes mapped (1024 x 768 x 4).
pub const FB_BYTES: u64 = 0x30_0000;

/// The 4 KiB pages mapped.
pub const FB_PAGES: u64 = 0x300;

/// Pages `i..n` of the framebuffer mapped under `cr3`.
pub open spec fn map_pages(v: PhysView, cr3: u64, va_base: u64, phys_base: u64, i: nat, n: nat) -> (
    PhysView,
    Result<(), LfbMapError>,
)
    decreases n - i,
{
    if i >= n {
        (v, Ok(()))
    } else {
        let page_va = va_base.wrapping_add((i * 0x1000) as u64);
        let page_pa = phys_base.wrapping_add((i * 0x1000) as u64);
        let e = ensure_pt(v, cr3, page_va);
        match e.1 {
            Err(x) => (e.0, Err(x)),
            Ok(pt) => map_pages(
                write_u64(e.0, pt.wrapping_add((((page_va >> 12u64) & 0x1ff) * 8) as u64), page_pa | 0x7F),
                cr3,
                va_base,
                phys_base,
                i + 1,
                n,
            ),
        }
    }
}

/// The page-table roots the framebuffer is mapped under: System's, then the current one
/// when it differs.
pub open spec fn lfb_roots(cr3: u64) -> Seq<u64> {
    let cur = cr3 & !0xfffu64;
    if cur == 0x187000 {
        seq![0x187000u64]
    } else {
        seq![0x187000u64, cur]
    }
}

/// Roots `k..` mapped in turn.
pub open spec fn map_roots(v: PhysView, roots: Seq<u64>, k: int, va_base: u64, phys_base: u64) -> (
    PhysView,
    Result<(), LfbMapError>,
)
    decreases roots.len() - k,
{
    if k < 0 || k >= roots.len() {
        (v, Ok(()))
    } else {
        let r = map_pages(v, roots[k], va_base, phys_base, 0, FB_PAGES as nat);
        match r.1 {
            Err(x) => (r.0, Err(x)),
            Ok(_) => map_roots(r.0, roots, k + 1, va_base, phys_base),
        }
    }
}

/// What mapping the framebuffer at a virtual address did.
#[derive(Debug, Clone, PartialEq, Eq)]
pub struct LfbVaMap {
    pub va: u64,
    pub lfb: u64,
    /// The roots mapped, each with `FB_PAGES` pages.
    pub roots: Vec<u64>,
}

/// The mapping of the framebuffer at `lfb` to `va`: the memory after it and its outcome.
pub open spec fn lfb_va_of(v: PhysView, lfb: u64, cr3: u64, va: u64, after: PhysView, r: Result<LfbVaMap, LfbMapError>) -> bool {
    if lfb == 0 {
        after == v && r == Err::<LfbVaMap, LfbMapError>(LfbMapError::NoLfb)
    } else {
        let m = map_roots(v, lfb_roots(cr3), 0, va & !0xfffu64, lfb & !0xfffu64);
        &&& after == m.0
        &&& match m.1 {
            Ok(_) => r matches Ok(x) && x.va == va && x.lfb == lfb && x.roots@ == lfb_roots(cr3),
            Err(e) => r == Err::<LfbVaMap, LfbMapError>(e),
        }
    }
}

/// Map `va` onward to the VBE framebuffer at `lfb` with 4 KiB pages (present, writable,
/// user, write-through, uncached, accessed, dirty) covering a 1024x768x32 frame, under the
/// System page tables and the current ones, adding tables where needed. The caller reloads
/// `CR3` to flush the TLB.
pub fn map_va_to_vbe_lfb_2m<M: GuestPhysical>(m: &mut M, lfb: u64, cr3: u64, va: u64) -> (r: Result<
    LfbVaMap,
    LfbMapError,
>)
    ensures
        lfb_va_of(view_of(old(m)), lfb, cr3, va, view_of(final(m)), r),
{
    let ghost v0 = view_of(m);
    if lfb == 0 {
        return Err(LfbMapError::NoLfb);
    }
    let va_base = va & !0xfffu64;
    let phys_base = lfb & !0xfffu64;
    let cur = cr3 & !0xfffu64;
    let mut roots: Vec<u64> = Vec::new();
    roots.push(0x187000);
    if cur != 0x187000 {
        roots.push(cur);
    }
    assert(roots@ =~= lfb_roots(cr3));
    let ghost whole = map_roots(v0, roots@, 0, va_base, phys_base);
    let mut k: usize = 0;
    while k < roots.len()
        invariant
            k <= roots@.len(),
            roots@ == lfb_roots(cr3),
            v0 == view_of(old(m)),
            lfb != 0,
            va_base == va & !0xfffu64,
            phys_base == lfb & !0xfffu64,
            whole == map_roots(v0, roots@, 0, va_base, phys_base),
            whole == map_roots(view_of(m), roots@, k as int, va_base, phys_base),
        decreases roots@.len() - k,
    {
        let root = roots[k];
        let ghost vk = view_of(m);
        let ghost pages = map_pages(vk, root, va_base, phys_base, 0, FB_PAGES as nat);
        let mut i: u64 = 0;
        while i < FB_PAGES
            invariant
                i <= FB_PAGES,
                k < roots@.len(),
                root == roots@[k as int],
                roots@ == lfb_roots(cr3),
                v0 == view_of(old(m)),
                lfb != 0,
                va_base == va & !0xfffu64,
                phys_base == lfb & !0xfffu64,
                whole == map_roots(v0, roots@, 0, va_base, phys_base),
                whole == map_roots(vk, roots@, k as int, va_base, phys_base),
                pages == map_pages(vk, root, va_base, phys_base, 0, FB_PAGES as nat),
                pages == map_pages(view_of(m), root, va_base, phys_base, i as nat, FB_PAGES as nat),
            decreases FB_PAGES - i,
        {
            let page_va = va_base.wrapping_add(i * 0x1000);
            let page_pa = phys_base.wrapping_add(i * 0x1000);
            let ghost vi = view_of(m);
            let pt = match ensure_pt_in(m, Ghost(vi), root, page_va) {
                Ok(p) => p,
                Err(e) => {
                    return Err(e);
                },
            };
            let pt_i = (page_va >> 12u64) & 0x1ff;
            assert(pt_i <= 0x1ff) by (bit_vector)
                requires
                    pt_i == (page_va >> 12u64) & 0x1ff,
            ;
            let ghost ve = view_of(m);
            write_u64_in(m, Ghost(ve), pt.wrapping_add(pt_i * 8), page_pa | 0x7F);
            i += 1;
        }
        k += 1;
    }
    Ok(LfbVaMap { va, lfb, roots })
}

/// Writing a run stores each of its bytes where memory stores, and leaves the rest.
pub proof fn lemma_write_run_byte(v: PhysView, addr: u64, b: Seq<u8>, x: u64)
    requires
        addr + b.len() <= u64::MAX,
    ensures
        (write_run(v, addr, b).byte)(x) == if addr <= x < addr + b.len() && (v.ram)(x) {
            b[x - addr]
        } else {
            (v.byte)(x)
        },
        write_run(v, addr, b).ram == v.ram,
    decreases b.len(),
{
    if b.len() > 0 {
        lemma_write_run_byte(v, addr, b.drop_last(), x);
        assert(addr.wrapping_add((b.len() - 1) as u64) == addr + b.len() - 1);
    }
}

/// A `u64` written reads back where memory stores all eight bytes.
pub proof fn lemma_u64_read_back(v: PhysView, a: u64, val: u64)
    requires
        a + 8 <= u64::MAX,
        forall|j: int| 0 <= j < 8 ==> #[trigger] (v.ram)((a + j) as u64),
    ensures
        view_u64(write_u64(v, a, val), a) == val,
        write_u64(v, a, val).ram == v.ram,
{
    let b = spec_u64_to_le_bytes(val);
    lemma_auto_spec_u64_to_from_le_bytes();
    let w = write_u64(v, a, val);
    assert forall|j: int| 0 <= j < 8 implies #[trigger] (w.byte)(a.wrapping_add(j as u64)) == b[j] by {
        assert(a.wrapping_add(j as u64) == a + j);
        lemma_write_run_byte(v, a, b, a.wrapping_add(j as u64));
    }
    assert(Seq::new(8, |j: int| (w.byte)(a.wrapping_add(j as u64))) =~= b);
    lemma_write_run_byte(v, a, b, a);
}

/// A `u64` written leaves a `u64` elsewhere as it was.
pub proof fn lemma_u64_elsewhere(v: PhysView, a: u64, val: u64, c: u64)
    requires
        a + 8 <= u64::MAX,
        c + 8 <= u64::MAX,
        c + 8 <= a || a + 8 <= c,
    ensures
        view_u64(write_u64(v, a, val), c) == view_u64(v, c),
{
    let b = spec_u64_to_le_bytes(val);
    lemma_auto_spec_u64_to_from_le_bytes();
    let w = write_u64(v, a, val);
    assert forall|j: int| 0 <= j < 8 implies #[trigger] (w.byte)(c.wrapping_add(j as u64)) == (v.byte)(
        c.wrapping_add(j as u64),
    ) by {
        assert(c.wrapping_add(j as u64) == c + j);
        lemma_write_run_byte(v, a, b, c.wrapping_add(j as u64));
    }
    assert(Seq::new(8, |j: int| (w.byte)(c.wrapping_add(j as u64))) =~= Seq::new(
        8,
        |j: int| (v.byte)(c.wrapping_add(j as u64)),
    ));
}

} // verus!
