//! Finding Windows 7 SP1 x64 processes by scanning physical memory for `EPROCESS`
//! image-name tags, cross-checked with the live process list.

use vstd::prelude::*;

use crate::cli::{
    filter_matches_chars, filter_selects, first_nul_from, is_known_eprocess_image_name,
    lower_bytes, phys_bytes, plausible_image_name, same_memory, translate, translate_long,
    GuestPhysical,
};
use crate::inspect::{
    active_processes, eprocess_threads_of, modules_in, modules_of, processes_in, process_view,
    read_phys, threads_in, u32_at, u32_le, u64_at, u64_le, CpuSnapshot, ModulesDump,
    ThreadsDump,
};
use crate::text::chars_of;
use crate::text::{eq_ignore_ascii_case, names_match};
use vstd::slice::slice_subrange;

verus! {

/// `ImageFileName` within an `EPROCESS`.
pub const OFF_IMAGE: usize = 0x2e0;

/// The bytes of physical memory read at once.
pub const SCAN_CHUNK: u64 = 0x10_0000;

/// The most processes reported from the scan.
pub const MAX_FOUND: usize = 64;

/// The bytes scanned for `mb` MiB asked for: at most 4 GiB.
pub open spec fn scan_limit(mb: u64) -> u64 {
    if mb * 0x10_0000 < 0x1_0000_0000 {
        (mb * 0x10_0000) as u64
    } else {
        0x1_0000_0000
    }
}

/// `s` is an ASCII-case-insensitive `.exe`, `.com` or `.scr`.
pub open spec fn image_ext(s: Seq<u8>) -> bool {
    let l = lower_bytes(s);
    ||| l == seq![0x2Eu8, 0x65, 0x78, 0x65]
    ||| l == seq![0x2Eu8, 0x63, 0x6F, 0x6D]
    ||| l == seq![0x2Eu8, 0x73, 0x63, 0x72]
}

/// A name of at least five bytes holding an image extension somewhere.
pub open spec fn full_image_name(name: Seq<u8>) -> bool {
    name.len() >= 5 && exists|i: int| 0 <= i && i + 4 <= name.len() && #[trigger] image_ext(name.subrange(i, i + 4))
}

/// What the scan reports of a process.
#[derive(Debug, Clone, Copy, PartialEq, Eq, Structural)]
pub struct ImageFacts {
    pub pid: u64,
    pub dtb: u64,
    pub eproc_pa: u64,
    pub alive: bool,
    pub exit_status: u32,
}

/// The process whose `ImageFileName` would sit at offset `off` of the chunk `buf` read at
/// physical `addr`, if it passes: a plausible name with the whole `EPROCESS` head in the
/// chunk, a page-aligned `DirectoryTableBase` below 4 GiB, process id 0 for `Idle` or a
/// multiple of 4 in 4..=0x4000 otherwise, and not exited unless its name is a full image
/// name, `Idle` or `System`.
pub open spec fn record_at<M: GuestPhysical>(m: &M, addr: u64, buf: Seq<u8>, off: int) -> Option<(Seq<u8>, ImageFacts)> {
    let image = buf.subrange(off, off + 15);
    if !plausible_image_name(image) || off < OFF_IMAGE {
        None
    } else {
        let e = off - OFF_IMAGE;
        let dtb = u64_le(buf, e + 0x28);
        let pid = u64_le(buf, e + 0x180);
        let pa = (addr + e) as u64;
        let exit_time = u64_le(phys_bytes(m, (pa + 0x170) as u64, 8), 0);
        let exit_status = u32_le(phys_bytes(m, (pa + 0x444) as u64, 4), 0);
        let name = image.subrange(0, first_nul_from(image, 0));
        let idle = lower_bytes(name) == seq![0x69u8, 0x64, 0x6C, 0x65];
        let system = lower_bytes(name) == seq![0x73u8, 0x79, 0x73, 0x74, 0x65, 0x6D];
        if dtb != 0 && dtb & 0xfff == 0 && dtb < 0x1_0000_0000 && ((idle && pid == 0) || (!idle && 4
            <= pid <= 0x4000 && pid % 4 == 0)) && (exit_time == 0 || full_image_name(name) || idle
            || system) {
            Some((name, ImageFacts { pid, dtb, eproc_pa: pa, alive: exit_time == 0, exit_status }))
        } else {
            None
        }
    }
}

/// The processes at the first `n` offsets of the chunk.
pub open spec fn chunk_records<M: GuestPhysical>(m: &M, addr: u64, buf: Seq<u8>, n: nat) -> Seq<(Seq<u8>, ImageFacts)>
    decreases n,
{
    if n == 0 {
        Seq::empty()
    } else {
        let rest = chunk_records(m, addr, buf, (n - 1) as nat);
        match record_at(m, addr, buf, n - 1) {
            Some(r) => rest.push(r),
            None => rest,
        }
    }
}

/// The offsets of a chunk of `len` bytes that start a 15-byte window.
pub open spec fn windows(len: nat) -> nat {
    if len >= 15 {
        (len - 14) as nat
    } else {
        0
    }
}

/// The processes in the first `k` chunks of the `total` bytes scanned.
pub open spec fn scan_records<M: GuestPhysical>(m: &M, total: u64, k: nat) -> Seq<(Seq<u8>, ImageFacts)>
    decreases k,
{
    if k == 0 {
        Seq::empty()
    } else {
        let addr = ((k - 1) * SCAN_CHUNK) as u64;
        let rest = scan_records(m, total, (k - 1) as nat);
        if addr >= total {
            rest
        } else {
            let len: nat = if total - addr < SCAN_CHUNK {
                (total - addr) as nat
            } else {
                SCAN_CHUNK as nat
            };
            rest + chunk_records(m, addr, phys_bytes(m, addr, len), windows(len))
        }
    }
}

/// The most chunks scanned (4 GiB).
pub const MAX_CHUNKS: u64 = 4096;

/// At most the first 64 of `s`.
pub open spec fn cap_found<T>(s: Seq<T>) -> Seq<T> {
    if s.len() >= MAX_FOUND {
        s.take(MAX_FOUND as int)
    } else {
        s
    }
}

/// The characters `String::from_utf8_lossy` makes of `b`: its UTF-8 text, each invalid
/// sequence replaced by U+FFFD.
pub uninterp spec fn utf8_lossy(b: Seq<u8>) -> Seq<char>;

/// A process found by the scan.
#[derive(Debug, Clone, PartialEq, Eq)]
pub struct ImageRecord {
    /// `ImageFileName` up to its first NUL.
    pub name: Vec<u8>,
    pub facts: ImageFacts,
    /// Its threads, when the thread filter selects its name.
    pub threads: Option<ThreadsDump>,
    /// Its modules, when the module filter names it.
    pub modules: Option<ModulesDump>,
}

/// A process of the live list, with its threads when the thread filter selects it (`None`
/// inside when its `EPROCESS` does not translate).
#[derive(Debug, Clone, PartialEq, Eq)]
pub struct LiveProcess {
    pub pid: u64,
    pub name: [u8; 15],
    pub eprocess: u64,
    pub threads: Option<Option<ThreadsDump>>,
}

/// The process report.
#[derive(Debug, Clone, PartialEq, Eq)]
pub struct ImageNamesDump {
    pub records: Vec<ImageRecord>,
    pub live: Vec<LiveProcess>,
}

/// The record `r` reports the process `f` found by the scan, with the dumps the filters ask
/// for.
pub open spec fn record_matches<M: GuestPhysical>(
    m: &M,
    c: CpuSnapshot,
    tf: Option<Seq<char>>,
    mf: Option<Seq<char>>,
    r: ImageRecord,
    f: (Seq<u8>, ImageFacts),
) -> bool {
    &&& r.name@ == f.0
    &&& r.facts == f.1
    &&& match tf {
        Some(t) if filter_selects(t, utf8_lossy(f.0)) => r.threads matches Some(d) && eprocess_threads_of(
            m,
            c.cr3,
            f.1.eproc_pa,
            d,
        ),
        _ => r.threads is None,
    }
    &&& match mf {
        Some(n) if eq_ignore_ascii_case(utf8_lossy(f.0), n) => r.modules matches Some(d) && modules_of(
            m,
            f.1.dtb,
            f.1.eproc_pa,
            d,
        ),
        _ => r.modules is None,
    }
}

/// The live entry `l` reports the process `p` of the live list.
pub open spec fn live_matches<M: GuestPhysical>(
    m: &M,
    c: CpuSnapshot,
    tf: Option<Seq<char>>,
    l: LiveProcess,
    p: (u64, Seq<u8>, u64),
) -> bool {
    &&& l.pid == p.0
    &&& l.name@ == p.1
    &&& l.eprocess == p.2
    &&& match tf {
        Some(t) if filter_selects(t, utf8_lossy(p.1.subrange(0, first_nul_from(p.1, 0)))) => match translate(
            m,
            c.cr3,
            p.2,
        ) {
            Some(pa) => l.threads matches Some(Some(d)) && eprocess_threads_of(m, c.cr3, pa, d),
            None => l.threads == Some(None::<ThreadsDump>),
        },
        _ => l.threads is None,
    }
}

/// A filter given and not empty.
pub open spec fn given(f: Option<&str>) -> Option<Seq<char>> {
    match f {
        Some(s) => if s@.len() > 0 {
            Some(s@)
        } else {
            None
        },
        None => None,
    }
}

/// The process report, from the memory, the CPU, the bytes to scan and the filters.
pub open spec fn image_names_of<M: GuestPhysical>(
    m: &M,
    c: CpuSnapshot,
    scan_mb: u64,
    tf: Option<Seq<char>>,
    mf: Option<Seq<char>>,
    d: ImageNamesDump,
) -> bool {
    let found = cap_found(scan_records(m, scan_limit(scan_mb), MAX_CHUNKS as nat));
    let live = active_processes(m, c);
    &&& d.records@.len() == found.len()
    &&& forall|i: int| 0 <= i < found.len() ==> record_matches(m, c, tf, mf, #[trigger] d.records@[i], found[i])
    &&& d.live@.len() == live.len()
    &&& forall|i: int| 0 <= i < live.len() ==> live_matches(m, c, tf, #[trigger] d.live@[i], live[i])
}

proof fn lemma_cap_found_prefix<T>(s: Seq<T>, t: Seq<T>)
    requires
        s.len() >= MAX_FOUND,
        s.is_prefix_of(t),
    ensures
        cap_found(t) == cap_found(s),
{
    assert(cap_found(t) =~= cap_found(s));
}

proof fn lemma_chunk_prefix<M: GuestPhysical>(m: &M, addr: u64, buf: Seq<u8>, i: nat, n: nat)
    requires
        i <= n,
    ensures
        chunk_records(m, addr, buf, i).is_prefix_of(chunk_records(m, addr, buf, n)),
    decreases n - i,
{
    if i < n {
        lemma_chunk_prefix(m, addr, buf, i, (n - 1) as nat);
    }
}

proof fn lemma_scan_prefix<M: GuestPhysical>(m: &M, total: u64, i: nat, n: nat)
    requires
        i <= n,
    ensures
        scan_records(m, total, i).is_prefix_of(scan_records(m, total, n)),
    decreases n - i,
{
    if i < n {
        lemma_scan_prefix(m, total, i, (n - 1) as nat);
    }
}

/// Chunks past the end add nothing.
proof fn lemma_scan_past_end<M: GuestPhysical>(m: &M, total: u64, k: nat, n: nat)
    requires
        k <= n <= MAX_CHUNKS,
        k * SCAN_CHUNK >= total,
    ensures
        scan_records(m, total, n) == scan_records(m, total, k),
    decreases n - k,
{
    if k < n {
        lemma_scan_past_end(m, total, k, (n - 1) as nat);
        assert(k * SCAN_CHUNK <= (n - 1) * SCAN_CHUNK <= 4095 * SCAN_CHUNK) by (nonlinear_arith)
            requires
                k <= n - 1,
                n - 1 < 4096,
        ;
        assert(((n - 1) * SCAN_CHUNK) as u64 == (n - 1) * SCAN_CHUNK);
    }
}

fn name_end(image: &[u8]) -> (e: usize)
    ensures
        e == first_nul_from(image@, 0),
        e <= image@.len(),
{
    let mut e: usize = 0;
    while e < image.len() && image[e] != 0
        invariant
            e <= image@.len(),
            first_nul_from(image@, 0) == first_nul_from(image@, e as int),
        decreases image@.len() - e,
    {
        e += 1;
    }
    e
}

fn lower_is(name: &[u8], want: &[u8]) -> (r: bool)
    ensures
        r == (lower_bytes(name@) == want@),
{
    if name.len() != want.len() {
        assert(lower_bytes(name@).len() != want@.len());
        return false;
    }
    let mut i: usize = 0;
    while i < name.len()
        invariant
            i <= name@.len(),
            name@.len() == want@.len(),
            forall|j: int| 0 <= j < i ==> lower_bytes(name@)[j] == want@[j],
        decreases name@.len() - i,
    {
        let b = name[i];
        let l = if b >= 0x41 && b <= 0x5A {
            b + 32
        } else {
            b
        };
        if l != want[i] {
            assert(lower_bytes(name@)[i as int] != want@[i as int]);
            return false;
        }
        i += 1;
    }
    assert(lower_bytes(name@) =~= want@);
    true
}

fn has_image_ext(name: &[u8]) -> (r: bool)
    ensures
        r == full_image_name(name@),
{
    if name.len() < 5 {
        return false;
    }
    let exe: [u8; 4] = [0x2E, 0x65, 0x78, 0x65];
    let com: [u8; 4] = [0x2E, 0x63, 0x6F, 0x6D];
    let scr: [u8; 4] = [0x2E, 0x73, 0x63, 0x72];
    assert(exe@ =~= seq![0x2Eu8, 0x65, 0x78, 0x65]);
    assert(com@ =~= seq![0x2Eu8, 0x63, 0x6F, 0x6D]);
    assert(scr@ =~= seq![0x2Eu8, 0x73, 0x63, 0x72]);
    let mut i: usize = 0;
    while i <= name.len() - 4
        invariant
            name@.len() >= 5,
            i <= name@.len(),
            exe@ == seq![0x2Eu8, 0x65, 0x78, 0x65],
            com@ == seq![0x2Eu8, 0x63, 0x6F, 0x6D],
            scr@ == seq![0x2Eu8, 0x73, 0x63, 0x72],
            forall|j: int| 0 <= j < i && j + 4 <= name@.len() ==> !image_ext(#[trigger] name@.subrange(j, j + 4)),
        decreases name@.len() - i,
    {
        let w = slice_subrange(name, i, i + 4);
        if lower_is(w, exe.as_slice()) || lower_is(w, com.as_slice()) || lower_is(w, scr.as_slice()) {
            assert(image_ext(name@.subrange(i as int, i + 4)));
            return true;
        }
        i += 1;
    }
    false
}

/// Calls std's `String::from_utf8_lossy` and lists the characters of the text; the result
/// is named `utf8_lossy` and depends on the bytes alone.
#[verifier::external_body]
fn lossy_chars(b: &[u8]) -> (r: Vec<char>)
    ensures
        r@ == utf8_lossy(b@),
{
    String::from_utf8_lossy(b).chars().collect()
}

fn copy_bytes(b: &[u8]) -> (r: Vec<u8>)
    ensures
        r@ == b@,
{
    let mut r: Vec<u8> = Vec::new();
    let mut i: usize = 0;
    while i < b.len()
        invariant
            i <= b@.len(),
            r@ == b@.subrange(0, i as int),
        decreases b@.len() - i,
    {
        r.push(b[i]);
        i += 1;
        assert(r@ =~= b@.subrange(0, i as int));
    }
    assert(b@.subrange(0, b@.len() as int) =~= b@);
    r
}

/// The process the scan finds at offset `off` of the chunk, if any.
fn record_here<M: GuestPhysical>(
    m: &mut M,
    Ghost(m0): Ghost<M>,
    addr: u64,
    buf: &Vec<u8>,
    off: usize,
) -> (r: Option<(Vec<u8>, ImageFacts)>)
    requires
        same_memory(old(m), &m0),
        off + 15 <= buf@.len(),
        buf@.len() <= SCAN_CHUNK,
        addr < 0x1_0000_0000,
    ensures
        same_memory(final(m), &m0),
        match record_at(&m0, addr, buf@, off as int) {
            Some(x) => r matches Some(y) && y.0@ == x.0 && y.1 == x.1,
            None => r is None,
        },
{
    let image = slice_subrange(buf.as_slice(), off, off + 15);
    if !is_known_eprocess_image_name(image) || off < OFF_IMAGE {
        return None;
    }
    let e = off - OFF_IMAGE;
    let dtb = u64_at(buf.as_slice(), e + 0x28);
    let pid = u64_at(buf.as_slice(), e + 0x180);
    let pa = addr + e as u64;
    let et = read_phys(m, Ghost(m0), pa + 0x170, 8);
    let exit_time = u64_at(et.as_slice(), 0);
    let es = read_phys(m, Ghost(m0), pa + 0x444, 4);
    let exit_status = u32_at(es.as_slice(), 0);
    let end = name_end(image);
    let name = slice_subrange(image, 0, end);
    let idle_w: [u8; 4] = [0x69, 0x64, 0x6C, 0x65];
    let system_w: [u8; 6] = [0x73, 0x79, 0x73, 0x74, 0x65, 0x6D];
    assert(idle_w@ =~= seq![0x69u8, 0x64, 0x6C, 0x65]);
    assert(system_w@ =~= seq![0x73u8, 0x79, 0x73, 0x74, 0x65, 0x6D]);
    let idle = lower_is(name, idle_w.as_slice());
    let system = lower_is(name, system_w.as_slice());
    let full = has_image_ext(name);
    if dtb != 0 && dtb & 0xfff == 0 && dtb < 0x1_0000_0000 && ((idle && pid == 0) || (!idle && pid
        >= 4 && pid <= 0x4000 && pid % 4 == 0)) && (exit_time == 0 || full || idle || system) {
        Some(
            (
                copy_bytes(name),
                ImageFacts { pid, dtb, eproc_pa: pa, alive: exit_time == 0, exit_status },
            ),
        )
    } else {
        None
    }
}

fn given_chars(f: Option<&str>) -> (r: Option<Vec<char>>)
    ensures
        match given(f) {
            Some(s) => r matches Some(v) && v@ == s,
            None => r is None,
        },
{
    match f {
        Some(s) => {
            let c = chars_of(s);
            if c.len() > 0 {
                Some(c)
            } else {
                None
            }
        },
        None => None,
    }
}

/// The record for a process the scan found, with the dumps the filters ask for.
fn make_record<M: GuestPhysical>(
    m: &mut M,
    Ghost(m0): Ghost<M>,
    cpu: &CpuSnapshot,
    tf: &Option<Vec<char>>,
    mf: &Option<Vec<char>>,
    name: Vec<u8>,
    facts: ImageFacts,
) -> (r: ImageRecord)
    requires
        same_memory(old(m), &m0),
    ensures
        same_memory(final(m), &m0),
        record_matches(
            &m0,
            *cpu,
            match tf {
                Some(v) => Some(v@),
                None => None,
            },
            match mf {
                Some(v) => Some(v@),
                None => None,
            },
            r,
            (name@, facts),
        ),
{
    let chars = lossy_chars(name.as_slice());
    let threads = match tf {
        Some(t) => if filter_matches_chars(t.as_slice(), chars.as_slice()) {
            Some(threads_in(m, Ghost(m0), cpu, facts.eproc_pa))
        } else {
            None
        },
        None => None,
    };
    let modules = match mf {
        Some(n) => if names_match(chars.as_slice(), n.as_slice()) {
            Some(modules_in(m, Ghost(m0), facts.dtb, facts.eproc_pa))
        } else {
            None
        },
        None => None,
    };
    ImageRecord { name, facts, threads, modules }
}

/// Scan physical memory (`scan_mb` MiB, at most 4 GiB, a MiB at a time) for Win7 SP1 x64
/// `EPROCESS` objects by their `ImageFileName` tag, reporting at most 64, then add the live
/// process list. Threads are dumped for the processes `thread_filter` selects, modules for
/// the one `module_filter` names.
pub fn dump_eprocess_image_names<M: GuestPhysical>(
    m: &mut M,
    cpu: &CpuSnapshot,
    scan_mb: u64,
    thread_filter: Option<&str>,
    module_filter: Option<&str>,
) -> (d: ImageNamesDump)
    ensures
        image_names_of(old(m), *cpu, scan_mb, given(thread_filter), given(module_filter), d),
        same_memory(final(m), old(m)),
{
    let ghost m0 = *m;
    let tf = given_chars(thread_filter);
    let mf = given_chars(module_filter);
    let ghost tfs = given(thread_filter);
    let ghost mfs = given(module_filter);
    assert(tfs == match tf {
        Some(v) => Some(v@),
        None => None::<Seq<char>>,
    });
    assert(mfs == match mf {
        Some(v) => Some(v@),
        None => None::<Seq<char>>,
    });
    let total: u64 = match scan_mb.checked_mul(0x10_0000) {
        Some(b) => if b < 0x1_0000_0000 {
            b
        } else {
            0x1_0000_0000
        },
        None => 0x1_0000_0000,
    };
    assert(total == scan_limit(scan_mb));
    let mut records: Vec<ImageRecord> = Vec::new();
    let ghost mut facts: Seq<(Seq<u8>, ImageFacts)> = Seq::empty();
    let mut k: u64 = 0;
    while k < MAX_CHUNKS && k * SCAN_CHUNK < total && records.len() < MAX_FOUND
        invariant
            k <= MAX_CHUNKS,
            total <= 0x1_0000_0000,
            same_memory(m, &m0),
            records@.len() == facts.len(),
            facts.len() <= MAX_FOUND,
            facts == cap_found(scan_records(&m0, total, k as nat)),
            forall|i: int| 0 <= i < facts.len() ==> record_matches(&m0, *cpu, tfs, mfs, #[trigger] records@[i], facts[i]),
            tfs == match tf {
                Some(v) => Some(v@),
                None => None::<Seq<char>>,
            },
            mfs == match mf {
                Some(v) => Some(v@),
                None => None::<Seq<char>>,
            },
        decreases MAX_CHUNKS - k,
    {
        let addr = k * SCAN_CHUNK;
        let len: u64 = if total - addr < SCAN_CHUNK {
            total - addr
        } else {
            SCAN_CHUNK
        };
        let buf = read_phys(m, Ghost(m0), addr, len as usize);
        let ghost prefix = scan_records(&m0, total, k as nat);
        proof {
            lemma_cap_short_found(prefix, facts);
        }
        let n: usize = if len >= 15 {
            (len - 14) as usize
        } else {
            0
        };
        let mut off: usize = 0;
        while off < n
            invariant_except_break
                off <= n,
                n == windows(len as nat),
                buf@.len() == len,
                len <= SCAN_CHUNK,
                addr == k * SCAN_CHUNK,
                addr < total,
                total <= 0x1_0000_0000,
                same_memory(m, &m0),
                records@.len() == facts.len(),
                facts.len() < MAX_FOUND,
                facts == prefix + chunk_records(&m0, addr, buf@, off as nat),
                forall|i: int| 0 <= i < facts.len() ==> record_matches(&m0, *cpu, tfs, mfs, #[trigger] records@[i], facts[i]),
                tfs == match tf {
                    Some(v) => Some(v@),
                    None => None::<Seq<char>>,
                },
                mfs == match mf {
                    Some(v) => Some(v@),
                    None => None::<Seq<char>>,
                },
            ensures
                same_memory(m, &m0),
                records@.len() == facts.len(),
                facts.len() <= MAX_FOUND,
                facts == cap_found(prefix + chunk_records(&m0, addr, buf@, n as nat)),
                forall|i: int| 0 <= i < facts.len() ==> record_matches(&m0, *cpu, tfs, mfs, #[trigger] records@[i], facts[i]),
            decreases n - off,
        {
            match record_here(m, Ghost(m0), addr, &buf, off) {
                Some((name, f)) => {
                    let ghost entry = (name@, f);
                    let r = make_record(m, Ghost(m0), cpu, &tf, &mf, name, f);
                    records.push(r);
                    proof {
                        facts = facts.push(entry);
                    }
                },
                None => {},
            }
            assert(facts =~= prefix + chunk_records(&m0, addr, buf@, (off + 1) as nat));
            off += 1;
            if records.len() >= MAX_FOUND {
                proof {
                    lemma_chunk_prefix(&m0, addr, buf@, off as nat, n as nat);
                    lemma_cap_found_prefix(facts, prefix + chunk_records(&m0, addr, buf@, n as nat));
                    assert(facts.take(MAX_FOUND as int) =~= facts);
                }
                break;
            }
        }
        proof {
            if facts.len() < MAX_FOUND {
                assert(facts == prefix + chunk_records(&m0, addr, buf@, n as nat));
            }
            assert(scan_records(&m0, total, (k + 1) as nat) == prefix + chunk_records(
                &m0,
                addr,
                phys_bytes(&m0, addr, len as nat),
                windows(len as nat),
            ));
            if facts.len() >= MAX_FOUND {
                let p1 = prefix + chunk_records(&m0, addr, buf@, n as nat);
                lemma_cap_found_prefix(facts, p1);
            }
        }
        k += 1;
    }
    proof {
        let all = scan_records(&m0, total, MAX_CHUNKS as nat);
        if facts.len() >= MAX_FOUND {
            lemma_scan_prefix(&m0, total, k as nat, MAX_CHUNKS as nat);
            let p = scan_records(&m0, total, k as nat);
            lemma_cap_short_found_ge(p, facts);
            lemma_cap_found_prefix(p, all);
        } else if k < MAX_CHUNKS {
            lemma_scan_past_end(&m0, total, k as nat, MAX_CHUNKS as nat);
        }
    }
    let procs = processes_in(m, Ghost(m0), cpu);
    let ghost live_spec = active_processes(&m0, *cpu);
    let mut live: Vec<LiveProcess> = Vec::new();
    let mut i: usize = 0;
    while i < procs.len()
        invariant
            i <= procs@.len(),
            process_view(procs@) == live_spec,
            same_memory(m, &m0),
            live@.len() == i,
            forall|j: int| 0 <= j < i ==> live_matches(&m0, *cpu, tfs, #[trigger] live@[j], live_spec[j]),
            tfs == match tf {
                Some(v) => Some(v@),
                None => None::<Seq<char>>,
            },
        decreases procs@.len() - i,
    {
        let (pid, name, eprocess) = procs[i];
        let threads = match &tf {
            Some(t) => {
                let end = name_end(name.as_slice());
                let nm = lossy_chars(slice_subrange(name.as_slice(), 0, end));
                if filter_matches_chars(t.as_slice(), nm.as_slice()) {
                    let ghost before = *m;
                    let tr = translate_long(m, cpu.cr3, eprocess);
                    proof {
                        crate::cli::lemma_same_memory_translate(
                            &before,
                            &m0,
                            crate::cli::pte_frame(cpu.cr3),
                            eprocess,
                            0,
                        );
                    }
                    match tr {
                        Some(pa) => Some(Some(threads_in(m, Ghost(m0), cpu, pa))),
                        None => Some(None),
                    }
                } else {
                    None
                }
            },
            None => None,
        };
        live.push(LiveProcess { pid, name, eprocess, threads });
        i += 1;
    }
    ImageNamesDump { records, live }
}

proof fn lemma_cap_short_found<T>(s: Seq<T>, f: Seq<T>)
    requires
        f == cap_found(s),
        f.len() < MAX_FOUND,
    ensures
        f == s,
{
}

proof fn lemma_cap_short_found_ge<T>(s: Seq<T>, f: Seq<T>)
    requires
        f == cap_found(s),
        f.len() >= MAX_FOUND,
    ensures
        s.len() >= MAX_FOUND,
        f == s.take(MAX_FOUND as int),
{
}

} // verus!
