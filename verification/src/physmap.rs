//! Which virtual addresses map a physical address: a scan of whole page-table trees.

use vstd::prelude::*;

use crate::cli::{
    env_hex, parse_env_hex, parse_hex, parse_hex_range, phys_u64, pieces, rd64_phys,
    same_memory, split_on, strip_all, strip_hex_prefix, trim, GuestPhysical,
};
use crate::resume::trimmed;
use crate::text::chars_of;

verus! {

/// Which page-table root a hit was found under.
#[derive(Debug, Clone, Copy, PartialEq, Eq, Structural)]
pub enum RootTag {
    System,
    Current,
    Extra,
}

/// The size of the page that maps the address.
#[derive(Debug, Clone, Copy, PartialEq, Eq, Structural)]
pub enum MapSize {
    Huge1G,
    Large2M,
    Small4K,
}

/// A virtual address that maps the physical address, and the entry that maps it.
#[derive(Debug, Clone, Copy, PartialEq, Eq, Structural)]
pub struct PhysHit {
    pub tag: RootTag,
    pub va: u64,
    pub size: MapSize,
    pub pte: u64,
}

/// The most hits reported.
pub const MAX_HITS: usize = 32;

/// `va` sign-extended from bit 47.
pub open spec fn canonical_va(va: u64) -> u64 {
    if va & 0x8000_0000_0000 != 0 {
        va | 0xffff_0000_0000_0000
    } else {
        va
    }
}

/// The frame of a table entry.
pub open spec fn frame(e: u64) -> u64 {
    e & 0x000f_ffff_ffff_f000
}

/// The hits among the first `n` entries of the page table at `pt` (under PML4 entry `l4`,
/// PDPT entry `l3`, PD entry `l2`).
pub open spec fn pt_hits<M: GuestPhysical>(m: &M, pt: u64, tag: RootTag, phys: u64, l4: u64, l3: u64, l2: u64, n: nat) -> Seq<PhysHit>
    decreases n,
{
    if n == 0 {
        Seq::empty()
    } else {
        let i = (n - 1) as u64;
        let rest = pt_hits(m, pt, tag, phys, l4, l3, l2, (n - 1) as nat);
        let pte = phys_u64(m, (pt + i * 8) as u64);
        if pte & 1 != 0 && frame(pte) == phys & !0xfffu64 {
            rest.push(
                PhysHit {
                    tag,
                    va: canonical_va((l4 << 39u64) | (l3 << 30u64) | (l2 << 21u64) | (i << 12u64) | (phys & 0xfff)),
                    size: MapSize::Small4K,
                    pte,
                },
            )
        } else {
            rest
        }
    }
}

/// The hits under the first `n` entries of the page directory at `pd`.
pub open spec fn pd_hits<M: GuestPhysical>(m: &M, pd: u64, tag: RootTag, phys: u64, l4: u64, l3: u64, n: nat) -> Seq<PhysHit>
    decreases n,
{
    if n == 0 {
        Seq::empty()
    } else {
        let i = (n - 1) as u64;
        let rest = pd_hits(m, pd, tag, phys, l4, l3, (n - 1) as nat);
        let pde = phys_u64(m, (pd + i * 8) as u64);
        if pde & 1 == 0 {
            rest
        } else if pde & 0x80 != 0 {
            if pde & 0x000f_ffff_ffe0_0000 == phys & !0x1f_ffffu64 {
                rest.push(
                    PhysHit {
                        tag,
                        va: canonical_va((l4 << 39u64) | (l3 << 30u64) | (i << 21u64) | (phys & 0x1f_ffff)),
                        size: MapSize::Large2M,
                        pte: pde,
                    },
                )
            } else {
                rest
            }
        } else {
            rest + pt_hits(m, frame(pde), tag, phys, l4, l3, i, 512)
        }
    }
}

/// The hits under the first `n` entries of the PDPT at `pdpt`.
pub open spec fn pdpt_hits<M: GuestPhysical>(m: &M, pdpt: u64, tag: RootTag, phys: u64, l4: u64, n: nat) -> Seq<PhysHit>
    decreases n,
{
    if n == 0 {
        Seq::empty()
    } else {
        let i = (n - 1) as u64;
        let rest = pdpt_hits(m, pdpt, tag, phys, l4, (n - 1) as nat);
        let e = phys_u64(m, (pdpt + i * 8) as u64);
        if e & 1 == 0 {
            rest
        } else if e & 0x80 != 0 {
            let base = e & 0x000f_ffff_c000_0000;
            if base <= phys && phys < base + 0x4000_0000 {
                rest.push(
                    PhysHit {
                        tag,
                        va: canonical_va((l4 << 39u64) | (i << 30u64) | (phys & 0x3fff_ffff)),
                        size: MapSize::Huge1G,
                        pte: e,
                    },
                )
            } else {
                rest
            }
        } else {
            rest + pd_hits(m, frame(e), tag, phys, l4, i, 512)
        }
    }
}

/// The PML4 index scanned in position `q`: the low half's first 16, then the high half.
pub open spec fn pml4_index(q: nat) -> u64 {
    if q < 16 {
        q as u64
    } else {
        (q + 240) as u64
    }
}

/// The PML4 positions scanned.
pub const PML4_POSITIONS: u64 = 272;

/// The hits under the first `n` scanned PML4 entries of the root at `cr3`.
pub open spec fn pml4_hits<M: GuestPhysical>(m: &M, cr3: u64, tag: RootTag, phys: u64, n: nat) -> Seq<PhysHit>
    decreases n,
{
    if n == 0 {
        Seq::empty()
    } else {
        let l4 = pml4_index((n - 1) as nat);
        let rest = pml4_hits(m, cr3, tag, phys, (n - 1) as nat);
        let e = phys_u64(m, (frame(cr3) + l4 * 8) as u64);
        if e & 1 == 0 {
            rest
        } else {
            rest + pdpt_hits(m, frame(e), tag, phys, l4, 512)
        }
    }
}

/// The hits under the first `n` roots.
pub open spec fn roots_hits<M: GuestPhysical>(m: &M, roots: Seq<(u64, RootTag)>, phys: u64, n: nat) -> Seq<PhysHit>
    decreases n,
{
    if n == 0 || n > roots.len() {
        Seq::empty()
    } else {
        roots_hits(m, roots, phys, (n - 1) as nat) + pml4_hits(
            m,
            roots[n - 1].0,
            roots[n - 1].1,
            phys,
            PML4_POSITIONS as nat,
        )
    }
}

/// At most the first 32 of `s`.
pub open spec fn cap_hits(s: Seq<PhysHit>) -> Seq<PhysHit> {
    if s.len() >= MAX_HITS {
        s.take(MAX_HITS as int)
    } else {
        s
    }
}

/// Capping ignores what comes after 32 hits.
pub proof fn lemma_cap_prefix(s: Seq<PhysHit>, t: Seq<PhysHit>)
    requires
        s.len() >= MAX_HITS,
        s.is_prefix_of(t),
    ensures
        cap_hits(t) == cap_hits(s),
{
    assert(cap_hits(t) =~= cap_hits(s));
}

proof fn lemma_pt_prefix<M: GuestPhysical>(m: &M, pt: u64, tag: RootTag, phys: u64, l4: u64, l3: u64, l2: u64, i: nat, n: nat)
    requires
        i <= n,
    ensures
        pt_hits(m, pt, tag, phys, l4, l3, l2, i).is_prefix_of(pt_hits(m, pt, tag, phys, l4, l3, l2, n)),
    decreases n - i,
{
    if i < n {
        lemma_pt_prefix(m, pt, tag, phys, l4, l3, l2, i, (n - 1) as nat);
    }
}

proof fn lemma_pd_prefix<M: GuestPhysical>(m: &M, pd: u64, tag: RootTag, phys: u64, l4: u64, l3: u64, i: nat, n: nat)
    requires
        i <= n,
    ensures
        pd_hits(m, pd, tag, phys, l4, l3, i).is_prefix_of(pd_hits(m, pd, tag, phys, l4, l3, n)),
    decreases n - i,
{
    if i < n {
        lemma_pd_prefix(m, pd, tag, phys, l4, l3, i, (n - 1) as nat);
    }
}

proof fn lemma_pdpt_prefix<M: GuestPhysical>(m: &M, pdpt: u64, tag: RootTag, phys: u64, l4: u64, i: nat, n: nat)
    requires
        i <= n,
    ensures
        pdpt_hits(m, pdpt, tag, phys, l4, i).is_prefix_of(pdpt_hits(m, pdpt, tag, phys, l4, n)),
    decreases n - i,
{
    if i < n {
        lemma_pdpt_prefix(m, pdpt, tag, phys, l4, i, (n - 1) as nat);
    }
}

proof fn lemma_pml4_prefix<M: GuestPhysical>(m: &M, cr3: u64, tag: RootTag, phys: u64, i: nat, n: nat)
    requires
        i <= n,
    ensures
        pml4_hits(m, cr3, tag, phys, i).is_prefix_of(pml4_hits(m, cr3, tag, phys, n)),
    decreases n - i,
{
    if i < n {
        lemma_pml4_prefix(m, cr3, tag, phys, i, (n - 1) as nat);
    }
}

proof fn lemma_roots_prefix<M: GuestPhysical>(m: &M, roots: Seq<(u64, RootTag)>, phys: u64, i: nat, n: nat)
    requires
        i <= n <= roots.len(),
    ensures
        roots_hits(m, roots, phys, i).is_prefix_of(roots_hits(m, roots, phys, n)),
    decreases n - i,
{
    if i < n {
        lemma_roots_prefix(m, roots, phys, i, (n - 1) as nat);
    }
}

/// Capping a sequence shorter than the cap leaves it alone.
proof fn lemma_cap_short(s: Seq<PhysHit>)
    requires
        s.len() < MAX_HITS,
    ensures
        cap_hits(s) == s,
{
}

fn read64<M: GuestPhysical>(m: &mut M, Ghost(m0): Ghost<M>, pa: u64) -> (v: u64)
    requires
        same_memory(old(m), &m0),
    ensures
        v == phys_u64(&m0, pa),
        same_memory(final(m), &m0),
{
    let ghost before = *m;
    let v = rd64_phys(m, pa);
    proof {
        crate::cli::lemma_same_memory_u64(&before, &m0, pa);
    }
    v
}

fn scan_pt<M: GuestPhysical>(
    m: &mut M,
    Ghost(m0): Ghost<M>,
    pt: u64,
    tag: RootTag,
    phys: u64,
    l4: u64,
    l3: u64,
    l2: u64,
    hits: &mut Vec<PhysHit>,
)
    requires
        same_memory(old(m), &m0),
        old(hits)@.len() < MAX_HITS,
        pt == frame(pt),
    ensures
        same_memory(final(m), &m0),
        final(hits)@ == cap_hits(old(hits)@ + pt_hits(&m0, pt, tag, phys, l4, l3, l2, 512)),
{
    let ghost start = hits@;
    assert(pt <= 0x000f_ffff_ffff_f000) by (bit_vector)
        requires
            pt == pt & 0x000f_ffff_ffff_f000,
    ;
    let mut i: u64 = 0;
    assert(start + Seq::<PhysHit>::empty() =~= start);
    while i < 512
        invariant_except_break
            i <= 512,
            pt <= 0x000f_ffff_ffff_f000,
            same_memory(m, &m0),
            hits@.len() < MAX_HITS,
            hits@ == start + pt_hits(&m0, pt, tag, phys, l4, l3, l2, i as nat),
        ensures
            same_memory(m, &m0),
            hits@ == cap_hits(start + pt_hits(&m0, pt, tag, phys, l4, l3, l2, 512)),
        decreases 512 - i,
    {
        let pte = read64(m, Ghost(m0), pt + i * 8);
        let ghost before = hits@;
        if pte & 1 != 0 && pte & 0x000f_ffff_ffff_f000 == phys & !0xfffu64 {
            let va = (l4 << 39u64) | (l3 << 30u64) | (l2 << 21u64) | (i << 12u64) | (phys & 0xfff);
            let va = if va & 0x8000_0000_0000 != 0 {
                va | 0xffff_0000_0000_0000
            } else {
                va
            };
            hits.push(PhysHit { tag, va, size: MapSize::Small4K, pte });
        }
        assert(hits@ =~= start + pt_hits(&m0, pt, tag, phys, l4, l3, l2, (i + 1) as nat));
        if hits.len() >= MAX_HITS {
            proof {
                lemma_pt_prefix(&m0, pt, tag, phys, l4, l3, l2, (i + 1) as nat, 512);
                lemma_cap_prefix(hits@, start + pt_hits(&m0, pt, tag, phys, l4, l3, l2, 512));
                assert(hits@.take(MAX_HITS as int) =~= hits@);
            }
            break;
        }
        i += 1;
    }
    proof {
        if hits@.len() < MAX_HITS {
            lemma_cap_short(hits@);
        }
    }
}

fn scan_pd<M: GuestPhysical>(
    m: &mut M,
    Ghost(m0): Ghost<M>,
    pd: u64,
    tag: RootTag,
    phys: u64,
    l4: u64,
    l3: u64,
    hits: &mut Vec<PhysHit>,
)
    requires
        same_memory(old(m), &m0),
        old(hits)@.len() < MAX_HITS,
        pd == frame(pd),
    ensures
        same_memory(final(m), &m0),
        final(hits)@ == cap_hits(old(hits)@ + pd_hits(&m0, pd, tag, phys, l4, l3, 512)),
{
    let ghost start = hits@;
    assert(pd <= 0x000f_ffff_ffff_f000) by (bit_vector)
        requires
            pd == pd & 0x000f_ffff_ffff_f000,
    ;
    let mut i: u64 = 0;
    assert(start + Seq::<PhysHit>::empty() =~= start);
    while i < 512
        invariant_except_break
            i <= 512,
            pd <= 0x000f_ffff_ffff_f000,
            same_memory(m, &m0),
            hits@.len() < MAX_HITS,
            hits@ == start + pd_hits(&m0, pd, tag, phys, l4, l3, i as nat),
        ensures
            same_memory(m, &m0),
            hits@ == cap_hits(start + pd_hits(&m0, pd, tag, phys, l4, l3, 512)),
        decreases 512 - i,
    {
        let pde = read64(m, Ghost(m0), pd + i * 8);
        let ghost before = hits@;
        if pde & 1 != 0 {
            if pde & 0x80 != 0 {
                if pde & 0x000f_ffff_ffe0_0000 == phys & !0x1f_ffffu64 {
                    let va = (l4 << 39u64) | (l3 << 30u64) | (i << 21u64) | (phys & 0x1f_ffff);
                    let va = if va & 0x8000_0000_0000 != 0 {
                        va | 0xffff_0000_0000_0000
                    } else {
                        va
                    };
                    hits.push(PhysHit { tag, va, size: MapSize::Large2M, pte: pde });
                }
                assert(hits@ =~= start + pd_hits(&m0, pd, tag, phys, l4, l3, (i + 1) as nat));
            } else {
                let pt = pde & 0x000f_ffff_ffff_f000;
                assert(pt == pt & 0x000f_ffff_ffff_f000) by (bit_vector)
                    requires
                        pt == pde & 0x000f_ffff_ffff_f000,
                ;
                scan_pt(m, Ghost(m0), pt, tag, phys, l4, l3, i, hits);
                assert(before + pt_hits(&m0, pt, tag, phys, l4, l3, i, 512) =~= start + pd_hits(
                    &m0,
                    pd,
                    tag,
                    phys,
                    l4,
                    l3,
                    (i + 1) as nat,
                ));
            }
        } else {
            assert(hits@ =~= start + pd_hits(&m0, pd, tag, phys, l4, l3, (i + 1) as nat));
        }
        if hits.len() >= MAX_HITS {
            proof {
                let whole = start + pd_hits(&m0, pd, tag, phys, l4, l3, (i + 1) as nat);
                lemma_pd_prefix(&m0, pd, tag, phys, l4, l3, (i + 1) as nat, 512);
                if whole.len() < MAX_HITS {
                    lemma_cap_short(whole);
                }
                lemma_cap_prefix(whole, start + pd_hits(&m0, pd, tag, phys, l4, l3, 512));
            }
            break;
        }
        proof {
            lemma_cap_short(start + pd_hits(&m0, pd, tag, phys, l4, l3, (i + 1) as nat));
        }
        i += 1;
    }
    proof {
        if hits@.len() < MAX_HITS {
            lemma_cap_short(hits@);
        }
    }
}

fn scan_pdpt<M: GuestPhysical>(
    m: &mut M,
    Ghost(m0): Ghost<M>,
    pdpt: u64,
    tag: RootTag,
    phys: u64,
    l4: u64,
    hits: &mut Vec<PhysHit>,
)
    requires
        same_memory(old(m), &m0),
        old(hits)@.len() < MAX_HITS,
        pdpt == frame(pdpt),
    ensures
        same_memory(final(m), &m0),
        final(hits)@ == cap_hits(old(hits)@ + pdpt_hits(&m0, pdpt, tag, phys, l4, 512)),
{
    let ghost start = hits@;
    assert(pdpt <= 0x000f_ffff_ffff_f000) by (bit_vector)
        requires
            pdpt == pdpt & 0x000f_ffff_ffff_f000,
    ;
    let mut i: u64 = 0;
    assert(start + Seq::<PhysHit>::empty() =~= start);
    while i < 512
        invariant_except_break
            i <= 512,
            pdpt <= 0x000f_ffff_ffff_f000,
            same_memory(m, &m0),
            hits@.len() < MAX_HITS,
            hits@ == start + pdpt_hits(&m0, pdpt, tag, phys, l4, i as nat),
        ensures
            same_memory(m, &m0),
            hits@ == cap_hits(start + pdpt_hits(&m0, pdpt, tag, phys, l4, 512)),
        decreases 512 - i,
    {
        let e = read64(m, Ghost(m0), pdpt + i * 8);
        let ghost before = hits@;
        if e & 1 != 0 {
            if e & 0x80 != 0 {
                let base = e & 0x000f_ffff_c000_0000;
                assert(base <= 0x000f_ffff_c000_0000) by (bit_vector)
                    requires
                        base == e & 0x000f_ffff_c000_0000,
                ;
                if phys >= base && phys < base + 0x4000_0000 {
                    let va = (l4 << 39u64) | (i << 30u64) | (phys & 0x3fff_ffff);
                    let va = if va & 0x8000_0000_0000 != 0 {
                        va | 0xffff_0000_0000_0000
                    } else {
                        va
                    };
                    hits.push(PhysHit { tag, va, size: MapSize::Huge1G, pte: e });
                }
                assert(hits@ =~= start + pdpt_hits(&m0, pdpt, tag, phys, l4, (i + 1) as nat));
            } else {
                let pd = e & 0x000f_ffff_ffff_f000;
                assert(pd == pd & 0x000f_ffff_ffff_f000) by (bit_vector)
                    requires
                        pd == e & 0x000f_ffff_ffff_f000,
                ;
                scan_pd(m, Ghost(m0), pd, tag, phys, l4, i, hits);
                assert(before + pd_hits(&m0, pd, tag, phys, l4, i, 512) =~= start + pdpt_hits(
                    &m0,
                    pdpt,
                    tag,
                    phys,
                    l4,
                    (i + 1) as nat,
                ));
            }
        } else {
            assert(hits@ =~= start + pdpt_hits(&m0, pdpt, tag, phys, l4, (i + 1) as nat));
        }
        if hits.len() >= MAX_HITS {
            proof {
                let whole = start + pdpt_hits(&m0, pdpt, tag, phys, l4, (i + 1) as nat);
                lemma_pdpt_prefix(&m0, pdpt, tag, phys, l4, (i + 1) as nat, 512);
                if whole.len() < MAX_HITS {
                    lemma_cap_short(whole);
                }
                lemma_cap_prefix(whole, start + pdpt_hits(&m0, pdpt, tag, phys, l4, 512));
            }
            break;
        }
        proof {
            lemma_cap_short(start + pdpt_hits(&m0, pdpt, tag, phys, l4, (i + 1) as nat));
        }
        i += 1;
    }
    proof {
        if hits@.len() < MAX_HITS {
            lemma_cap_short(hits@);
        }
    }
}

fn scan_root<M: GuestPhysical>(
    m: &mut M,
    Ghost(m0): Ghost<M>,
    cr3: u64,
    tag: RootTag,
    phys: u64,
    hits: &mut Vec<PhysHit>,
)
    requires
        same_memory(old(m), &m0),
        old(hits)@.len() < MAX_HITS,
    ensures
        same_memory(final(m), &m0),
        final(hits)@ == cap_hits(old(hits)@ + pml4_hits(&m0, cr3, tag, phys, PML4_POSITIONS as nat)),
{
    let ghost start = hits@;
    let pml4 = cr3 & 0x000f_ffff_ffff_f000;
    assert(pml4 <= 0x000f_ffff_ffff_f000) by (bit_vector)
        requires
            pml4 == cr3 & 0x000f_ffff_ffff_f000,
    ;
    let mut q: u64 = 0;
    assert(start + Seq::<PhysHit>::empty() =~= start);
    while q < PML4_POSITIONS
        invariant_except_break
            q <= PML4_POSITIONS,
            pml4 == frame(cr3),
            pml4 <= 0x000f_ffff_ffff_f000,
            same_memory(m, &m0),
            hits@.len() < MAX_HITS,
            hits@ == start + pml4_hits(&m0, cr3, tag, phys, q as nat),
        ensures
            same_memory(m, &m0),
            hits@ == cap_hits(start + pml4_hits(&m0, cr3, tag, phys, PML4_POSITIONS as nat)),
        decreases PML4_POSITIONS - q,
    {
        let l4 = if q < 16 {
            q
        } else {
            q + 240
        };
        let e = read64(m, Ghost(m0), pml4 + l4 * 8);
        let ghost before = hits@;
        if e & 1 != 0 {
            let pdpt = e & 0x000f_ffff_ffff_f000;
            assert(pdpt == pdpt & 0x000f_ffff_ffff_f000) by (bit_vector)
                requires
                    pdpt == e & 0x000f_ffff_ffff_f000,
            ;
            scan_pdpt(m, Ghost(m0), pdpt, tag, phys, l4, hits);
            assert(before + pdpt_hits(&m0, pdpt, tag, phys, l4, 512) =~= start + pml4_hits(
                &m0,
                cr3,
                tag,
                phys,
                (q + 1) as nat,
            ));
        } else {
            assert(hits@ =~= start + pml4_hits(&m0, cr3, tag, phys, (q + 1) as nat));
        }
        if hits.len() >= MAX_HITS {
            proof {
                let whole = start + pml4_hits(&m0, cr3, tag, phys, (q + 1) as nat);
                lemma_pml4_prefix(&m0, cr3, tag, phys, (q + 1) as nat, PML4_POSITIONS as nat);
                if whole.len() < MAX_HITS {
                    lemma_cap_short(whole);
                }
                lemma_cap_prefix(whole, start + pml4_hits(&m0, cr3, tag, phys, PML4_POSITIONS as nat));
            }
            break;
        }
        proof {
            lemma_cap_short(start + pml4_hits(&m0, cr3, tag, phys, (q + 1) as nat));
        }
        q += 1;
    }
    proof {
        if hits@.len() < MAX_HITS {
            lemma_cap_short(hits@);
        }
    }
}

/// The extra roots of `AERO_FIND_PHYS_CR3`: its comma-separated pieces, trimmed, empty
/// ones skipped, each hexadecimal after any leading `0x`, page-aligned; the first piece
/// that is not hexadecimal fails it.
pub open spec fn extra_roots(ps: Seq<Seq<char>>) -> Result<Seq<u64>, Seq<char>>
    decreases ps.len(),
{
    if ps.len() == 0 {
        Ok(Seq::empty())
    } else {
        match extra_roots(ps.drop_last()) {
            Err(e) => Err(e),
            Ok(r) => {
                let t = trim(ps.last());
                if t.len() == 0 {
                    Ok(r)
                } else {
                    match parse_hex(strip_all(t, seq!['0', 'x']), u64::MAX as nat) {
                        None => Err(t),
                        Some(v) => Ok(r.push((v as u64) & !0xfffu64)),
                    }
                }
            },
        }
    }
}

/// `s` without an entry whose root equals the one kept just before it.
pub open spec fn dedup_roots(s: Seq<(u64, RootTag)>) -> Seq<(u64, RootTag)>
    decreases s.len(),
{
    if s.len() == 0 {
        s
    } else {
        let d = dedup_roots(s.drop_last());
        if d.len() > 0 && d.last().0 == s.last().0 {
            d
        } else {
            d.push(s.last())
        }
    }
}

/// The roots scanned: System's, the current one, then the extra ones.
pub open spec fn scan_roots(cr3: u64, extra: Seq<u64>) -> Seq<(u64, RootTag)> {
    dedup_roots(
        seq![(0x187000u64, RootTag::System), (cr3 & !0xfffu64, RootTag::Current)] + Seq::new(
            extra.len(),
            |i: int| (extra[i], RootTag::Extra),
        ),
    )
}

/// Why the search could not run.
#[derive(Debug, Clone, PartialEq, Eq)]
pub enum FindPhysError {
    /// The physical address is not hexadecimal.
    BadAddress(Vec<char>),
    /// An extra root is not hexadecimal.
    BadRoot(Vec<char>),
}

/// The mappings found.
#[derive(Debug, Clone, PartialEq, Eq)]
pub struct PhysMaps {
    pub phys: u64,
    /// The first hits, at most `MAX_HITS`, in scan order.
    pub hits: Vec<PhysHit>,
    /// The scan stopped at `MAX_HITS`.
    pub capped: bool,
}

/// The whole search, from the memory, `CR3` and the two texts.
pub open spec fn phys_maps_of<M: GuestPhysical>(m: &M, cr3: u64, spec: Seq<char>, extra: Seq<char>, r: Result<PhysMaps, FindPhysError>) -> bool {
    match env_hex(spec) {
        None => r matches Err(FindPhysError::BadAddress(t)) && t@ == spec,
        Some(phys) => match extra_roots(pieces(extra, ',')) {
            Err(t) => r matches Err(FindPhysError::BadRoot(x)) && x@ == t,
            Ok(ex) => {
                let roots = scan_roots(cr3, ex);
                let all = roots_hits(m, roots, phys as u64, roots.len());
                &&& r matches Ok(pm)
                &&& pm.phys == phys as u64
                &&& pm.hits@ == cap_hits(all)
                &&& pm.capped == (all.len() >= MAX_HITS)
            },
        },
    }
}


fn parse_extra_roots(extra: &str) -> (r: Result<Vec<u64>, Vec<char>>)
    ensures
        match extra_roots(pieces(extra@, ',')) {
            Ok(v) => r matches Ok(x) && x@ == v,
            Err(t) => r matches Err(x) && x@ == t,
        },
{
    let chars = chars_of(extra);
    let parts = split_on(chars.as_slice(), ',');
    let ghost ps = pieces(extra@, ',');
    let mut out: Vec<u64> = Vec::new();
    let mut i: usize = 0;
    while i < parts.len()
        invariant
            i <= parts@.len(),
            parts@.len() == ps.len(),
            ps == pieces(extra@, ','),
            forall|q: int| 0 <= q < parts@.len() ==> #[trigger] parts@[q]@ == ps[q],
            extra_roots(ps.subrange(0, i as int)) == Ok::<Seq<u64>, Seq<char>>(out@),
        decreases parts@.len() - i,
    {
        assert(ps.subrange(0, i + 1).drop_last() =~= ps.subrange(0, i as int));
        let p = &parts[i];
        let t = trimmed(p.as_slice(), 0, p.len());
        assert(p@.subrange(0, p@.len() as int) =~= p@);
        if t.len() != 0 {
            let start = strip_hex_prefix(t.as_slice());
            match parse_hex_range(t.as_slice(), start, t.len(), u64::MAX) {
                Some(v) => out.push(v & !0xfffu64),
                None => {
                    proof {
                        assert(ps.subrange(0, i + 1).last() == ps[i as int]);
                        assert(extra_roots(ps.subrange(0, i + 1)) == Err::<Seq<u64>, Seq<char>>(t@));
                        lemma_extra_roots_err(ps, (i + 1) as nat);
                    }
                    return Err(t);
                },
            }
        }
        i += 1;
    }
    assert(ps.subrange(0, ps.len() as int) =~= ps);
    Ok(out)
}

/// A failing piece fails every longer list.
proof fn lemma_extra_roots_err(ps: Seq<Seq<char>>, n: nat)
    requires
        n <= ps.len(),
        extra_roots(ps.subrange(0, n as int)) is Err,
    ensures
        extra_roots(ps) == extra_roots(ps.subrange(0, n as int)),
    decreases ps.len() - n,
{
    if n < ps.len() {
        assert(ps.subrange(0, (n + 1) as int).drop_last() =~= ps.subrange(0, n as int));
        lemma_extra_roots_err(ps, n + 1);
    } else {
        assert(ps.subrange(0, n as int) =~= ps);
    }
}

/// Find the virtual addresses that map the physical address in `spec` (hexadecimal) under
/// System's page tables, the current ones, and the extra roots listed in `extra`, scanning
/// PML4 entries 0..16 and 256..512; at most 32 hits are reported.
pub fn find_phys_maps<M: GuestPhysical>(m: &mut M, cr3: u64, spec: &str, extra: &str) -> (r: Result<
    PhysMaps,
    FindPhysError,
>)
    ensures
        phys_maps_of(old(m), cr3, spec@, extra@, r),
        same_memory(final(m), old(m)),
{
    let ghost m0 = *m;
    let phys = match parse_env_hex(spec) {
        Some(p) => p,
        None => {
            let c = chars_of(spec);
            return Err(FindPhysError::BadAddress(c));
        },
    };
    let ex = match parse_extra_roots(extra) {
        Ok(v) => v,
        Err(t) => {
            return Err(FindPhysError::BadRoot(t));
        },
    };
    let mut all: Vec<(u64, RootTag)> = Vec::new();
    all.push((0x187000, RootTag::System));
    all.push((cr3 & !0xfffu64, RootTag::Current));
    let mut k: usize = 0;
    while k < ex.len()
        invariant
            k <= ex@.len(),
            all@ == seq![(0x187000u64, RootTag::System), (cr3 & !0xfffu64, RootTag::Current)] + Seq::new(
                k as nat,
                |i: int| (ex@[i], RootTag::Extra),
            ),
        decreases ex@.len() - k,
    {
        all.push((ex[k], RootTag::Extra));
        k += 1;
        assert(all@ =~= seq![(0x187000u64, RootTag::System), (cr3 & !0xfffu64, RootTag::Current)] + Seq::new(
            k as nat,
            |i: int| (ex@[i], RootTag::Extra),
        ));
    }
    let mut roots: Vec<(u64, RootTag)> = Vec::new();
    let mut j: usize = 0;
    while j < all.len()
        invariant
            j <= all@.len(),
            roots@ == dedup_roots(all@.subrange(0, j as int)),
        decreases all@.len() - j,
    {
        assert(all@.subrange(0, j + 1).drop_last() =~= all@.subrange(0, j as int));
        let e = all[j];
        if roots.len() > 0 && roots[roots.len() - 1].0 == e.0 {
        } else {
            roots.push(e);
        }
        j += 1;
    }
    assert(all@.subrange(0, all@.len() as int) =~= all@);
    assert(roots@ == scan_roots(cr3, ex@));
    let ghost rs = roots@;
    let mut hits: Vec<PhysHit> = Vec::new();
    let mut r: usize = 0;
    assert(Seq::<PhysHit>::empty() + Seq::<PhysHit>::empty() =~= Seq::<PhysHit>::empty());
    while r < roots.len()
        invariant_except_break
            r <= roots@.len(),
            rs == roots@,
            same_memory(m, &m0),
            hits@.len() < MAX_HITS,
            hits@ == roots_hits(&m0, rs, phys, r as nat),
        ensures
            same_memory(m, &m0),
            hits@ == cap_hits(roots_hits(&m0, rs, phys, rs.len())),
        decreases roots@.len() - r,
    {
        let ghost before = hits@;
        let (root, tag) = roots[r];
        scan_root(m, Ghost(m0), root, tag, phys, &mut hits);
        assert(before + pml4_hits(&m0, root, tag, phys, PML4_POSITIONS as nat) == roots_hits(
            &m0,
            rs,
            phys,
            (r + 1) as nat,
        ));
        if hits.len() >= MAX_HITS {
            proof {
                let whole = roots_hits(&m0, rs, phys, (r + 1) as nat);
                lemma_roots_prefix(&m0, rs, phys, (r + 1) as nat, rs.len());
                if whole.len() < MAX_HITS {
                    lemma_cap_short(whole);
                }
                lemma_cap_prefix(whole, roots_hits(&m0, rs, phys, rs.len()));
            }
            break;
        }
        proof {
            lemma_cap_short(roots_hits(&m0, rs, phys, (r + 1) as nat));
        }
        r += 1;
    }
    proof {
        if hits@.len() < MAX_HITS {
            lemma_cap_short(hits@);
        }
    }
    let capped = hits.len() >= MAX_HITS;
    proof {
        let all_hits = roots_hits(&m0, rs, phys, rs.len());
        if all_hits.len() >= MAX_HITS {
            assert(hits@.len() == MAX_HITS);
        } else {
            lemma_cap_short(all_hits);
        }
    }
    Ok(PhysMaps { phys, hits, capped })
}

} // verus!
