//! Reading and writing guest memory by linear address through the guest's page tables.

use vstd::prelude::*;

use crate::cli::{
    dump_regions, pieces, pte_frame, read_linear_bytes_cr3, same_memory, split_on,
    walk_from, walk_pt, GuestPhysical,
};
use crate::inspect::{lemma_same_memory_linear, linear_bytes, paged_long_mode, CpuSnapshot};
use crate::patch::{poke_region, read_region, view_of, PhysView, PokeError, PokeFault, RegionRead};
use crate::sce::{write_va, write_va_in};
use crate::text::chars_of;

verus! {

/// The page-table root to use: the one given, else the CPU's `CR3`.
pub open spec fn root_of(cpu: CpuSnapshot, cr3: Option<u64>) -> u64 {
    match cr3 {
        Some(c) => c,
        None => cpu.cr3,
    }
}

/// A dumped linear region.
#[derive(Debug, Clone, PartialEq, Eq)]
pub struct LinearDump {
    pub va: u64,
    pub len: usize,
    /// The page-table walk for `va`, in long mode.
    pub walk: Option<Vec<(u64, u64)>>,
    pub bytes: Vec<u8>,
}

/// The dump of region `r` (address and requested length) of `m`: at most 0x100 bytes, read
/// through the page tables at `cr3` in long mode (`0xFE` where unmapped) and as physical
/// addresses otherwise, with the walk for its address in long mode.
pub open spec fn linear_dump_of<M: GuestPhysical>(m: &M, long_mode: bool, cr3: u64, r: (u64, nat), d: LinearDump) -> bool {
    let len: nat = if r.1 < 0x100 {
        r.1
    } else {
        0x100
    };
    &&& d.va == r.0
    &&& d.len == len
    &&& match d.walk {
        Some(w) => long_mode && w@ == walk_from(m, pte_frame(cr3), r.0, 0),
        None => !long_mode,
    }
    &&& d.bytes@ == linear_bytes(m, r.0, len, long_mode, cr3)
}

/// Dump guest linear regions `<va>:<len>[,...]` (hexadecimal, each at most 0x100 bytes;
/// regions that do not parse are skipped), through the page tables at `cr3` (else the
/// CPU's).
pub fn dump_linear_regions<M: GuestPhysical>(m: &mut M, cpu: &CpuSnapshot, cr3: Option<u64>, spec: &str) -> (r: Vec<
    LinearDump,
>)
    ensures
        r@.len() == dump_regions(pieces(spec@, ',')).len(),
        forall|k: int|
            0 <= k < r@.len() ==> linear_dump_of(
                old(m),
                paged_long_mode(*cpu),
                root_of(*cpu, cr3),
                dump_regions(pieces(spec@, ','))[k],
                #[trigger] r@[k],
            ),
        same_memory(final(m), old(m)),
{
    let ghost m0 = *m;
    let long_mode = cpu.long_mode();
    let root = match cr3 {
        Some(c) => c,
        None => cpu.cr3,
    };
    let regions = crate::cli::dump_request(spec);
    let ghost rs = dump_regions(pieces(spec@, ','));
    let mut out: Vec<LinearDump> = Vec::new();
    let mut k: usize = 0;
    while k < regions.len()
        invariant
            k <= regions@.len(),
            regions@.len() == rs.len(),
            forall|q: int| 0 <= q < rs.len() ==> #[trigger] regions@[q].0 == rs[q].0 && regions@[q].1 == rs[q].1,
            same_memory(m, &m0),
            long_mode == paged_long_mode(*cpu),
            root == root_of(*cpu, cr3),
            out@.len() == k,
            forall|q: int| 0 <= q < k ==> linear_dump_of(&m0, long_mode, root, rs[q], #[trigger] out@[q]),
        decreases regions@.len() - k,
    {
        let (va, req) = regions[k];
        let len: usize = if req < 0x100 {
            req
        } else {
            0x100
        };
        let walk = if long_mode {
            let ghost before = *m;
            let w = walk_pt(m, root, va);
            proof {
                crate::inspect::lemma_same_memory_walk(&before, &m0, pte_frame(root), va, 0);
            }
            Some(w)
        } else {
            None
        };
        let ghost before = *m;
        let bytes = read_linear_bytes_cr3(m, va, len, long_mode, root);
        proof {
            lemma_same_memory_linear(&before, &m0, va, len as nat, long_mode, root);
            assert(bytes@ =~= linear_bytes(&before, va, len as nat, long_mode, root));
        }
        out.push(LinearDump { va, len, walk, bytes });
        k += 1;
    }
    out
}

/// The outcome of a linear poke request so far.
pub enum LinearRun {
    /// Every region written: its address and length.
    Done(Seq<(u64, nat)>),
    Failed(PokeFault),
    /// A byte's linear address did not translate.
    Unmapped(u64),
    Splits,
}

/// Regions `i..` written in order through the page tables at `cr3`, each byte translated when
/// it is written, after the regions `done`; a bad region or an unmapped byte stops the
/// request, after what came before it was written.
pub open spec fn linear_pokes_from(
    v: PhysView,
    cr3: u64,
    regions: Seq<Seq<char>>,
    i: int,
    done: Seq<(u64, nat)>,
) -> (PhysView, LinearRun)
    decreases regions.len() - i,
{
    if i < 0 || i >= regions.len() {
        (v, LinearRun::Done(done))
    } else {
        match poke_region(regions[i]) {
            RegionRead::Fails(e) => (v, LinearRun::Failed(e)),
            RegionRead::Splits => (v, LinearRun::Splits),
            RegionRead::Write(addr, b) => {
                let w = write_va(v, cr3, addr, b);
                match w.1 {
                    Some(va) => (w.0, LinearRun::Unmapped(va)),
                    None => linear_pokes_from(w.0, cr3, regions, i + 1, done.push((addr, b.len()))),
                }
            },
        }
    }
}

/// A linear poke request `<va>:<hexbytes>[,...]` run on memory `v` through the page tables at
/// `cr3`.
pub open spec fn linear_pokes(v: PhysView, cr3: u64, spec: Seq<char>) -> (PhysView, LinearRun) {
    linear_pokes_from(v, cr3, pieces(spec, ','), 0, Seq::empty())
}

/// Why a linear poke request failed.
#[derive(Debug, Clone, PartialEq, Eq)]
pub enum LinearPokeError {
    /// The CPU is not in long mode with paging.
    NotLongMode,
    /// A region does not parse.
    Poke(PokeError),
    /// A byte's linear address does not translate under `cr3`.
    Unmapped { va: u64, cr3: u64 },
}

/// Write guest memory by linear address: `<va>:<hexbytes>[,...]`, through the page tables at
/// `cr3` (else the CPU's), in long mode only. Regions are written in order, each byte where
/// its address translates; the first bad region or unmapped byte ends the request.
pub fn poke_linear_regions<M: GuestPhysical>(m: &mut M, cpu: &CpuSnapshot, cr3: Option<u64>, spec: &str) -> (r:
    Result<Vec<(u64, usize)>, LinearPokeError>)
    requires
        paged_long_mode(*cpu) ==> !(linear_pokes(view_of(old(m)), root_of(*cpu, cr3), spec@).1 is Splits),
    ensures
        if !paged_long_mode(*cpu) {
            r == Err::<Vec<(u64, usize)>, LinearPokeError>(LinearPokeError::NotLongMode) && view_of(final(m))
                == view_of(old(m))
        } else {
            let p = linear_pokes(view_of(old(m)), root_of(*cpu, cr3), spec@);
            &&& view_of(final(m)) == p.0
            &&& match p.1 {
                LinearRun::Done(w) => r matches Ok(out) && out@.len() == w.len() && forall|k: int|
                    0 <= k < w.len() ==> (#[trigger] out@[k]).0 == w[k].0 && out@[k].1 == w[k].1,
                LinearRun::Failed(e) => r matches Err(LinearPokeError::Poke(x)) && x@ == e,
                LinearRun::Unmapped(va) => r == Err::<Vec<(u64, usize)>, LinearPokeError>(
                    LinearPokeError::Unmapped { va, cr3: root_of(*cpu, cr3) },
                ),
                LinearRun::Splits => false,
            }
        },
{
    if !cpu.long_mode() {
        return Err(LinearPokeError::NotLongMode);
    }
    let root = match cr3 {
        Some(c) => c,
        None => cpu.cr3,
    };
    let ghost v0 = view_of(m);
    let chars = chars_of(spec);
    let regions = split_on(chars.as_slice(), ',');
    let ghost all = pieces(spec@, ',');
    let ghost whole = linear_pokes(v0, root, spec@);
    let mut out: Vec<(u64, usize)> = Vec::new();
    assert(Seq::new(out@.len(), |k: int| (out@[k].0, out@[k].1 as nat)) =~= Seq::<(u64, nat)>::empty());
    let mut i: usize = 0;
    while i < regions.len()
        invariant
            i <= regions@.len(),
            regions@.len() == all.len(),
            forall|q: int| 0 <= q < regions@.len() ==> #[trigger] regions@[q]@ == all[q],
            all == pieces(spec@, ','),
            paged_long_mode(*cpu),
            root == root_of(*cpu, cr3),
            v0 == view_of(old(m)),
            whole == linear_pokes(v0, root, spec@),
            !(whole.1 is Splits),
            whole == linear_pokes_from(
                view_of(m),
                root,
                all,
                i as int,
                Seq::new(out@.len(), |k: int| (out@[k].0, out@[k].1 as nat)),
            ),
        decreases regions@.len() - i,
    {
        let ghost v = view_of(m);
        assert(regions@[i as int]@ == all[i as int]);
        let (addr, bytes) = match read_region(&regions[i]) {
            Ok(w) => w,
            Err(e) => return Err(LinearPokeError::Poke(e)),
        };
        match write_va_in(m, Ghost(v), root, addr, bytes.as_slice()) {
            Some(va) => return Err(LinearPokeError::Unmapped { va, cr3: root }),
            None => {},
        }
        let ghost before = Seq::new(out@.len(), |k: int| (out@[k].0, out@[k].1 as nat));
        out.push((addr, bytes.len()));
        assert(Seq::new(out@.len(), |k: int| (out@[k].0, out@[k].1 as nat)) =~= before.push(
            (addr, bytes@.len()),
        ));
        i += 1;
    }
    Ok(out)
}

} // verus!
