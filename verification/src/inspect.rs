//! Read-only views of a stopped guest: the context around a fault, and Windows kernel
//! structures (processes, threads, loaded modules) found through the guest's page tables.

use vstd::prelude::*;

use vstd::bytes::*;
use vstd::slice::slice_subrange;

use crate::hive::{spec_utf16_lossy, utf16_string, utf16_units};
use crate::cli::{
    lemma_same_memory_translate, linear_byte, phys_bytes, pte_frame, read_linear_bytes_cr3,
    same_memory, walk_from, walk_pt, GuestPhysical,
};

verus! {

/// The boot processor's state that the inspectors read, as plain values.
#[derive(Debug, Clone, Copy, PartialEq, Eq, Structural)]
pub struct CpuSnapshot {
    pub rip: u64,
    pub cs_selector: u16,
    pub cs_base: u64,
    pub ss_base: u64,
    /// The stack pointer at the current operand size (SP, ESP or RSP).
    pub stack_ptr: u64,
    pub gdtr_base: u64,
    pub gdtr_limit: u16,
    pub cr0: u64,
    pub cr3: u64,
    pub efer: u64,
    pub gs_base: u64,
    pub kernel_gs_base: u64,
    pub lstar: u64,
}

/// Long mode with paging: `EFER.LMA` (bit 10) and `CR0.PG` (bit 31).
pub open spec fn paged_long_mode(c: CpuSnapshot) -> bool {
    c.efer & 0x400 != 0 && c.cr0 & 0x8000_0000 != 0
}

impl CpuSnapshot {
    /// Whether linear addresses go through the four-level page tables.
    pub fn long_mode(&self) -> (r: bool)
        ensures
            r == paged_long_mode(*self),
    {
        self.efer & 0x400 != 0 && self.cr0 & 0x8000_0000 != 0
    }
}

/// The `len` bytes a read at linear address `linear` gives.
pub open spec fn linear_bytes<M: GuestPhysical>(
    m: &M,
    linear: u64,
    len: nat,
    long_mode: bool,
    cr3: u64,
) -> Seq<u8> {
    Seq::new(len, |i: int| linear_byte(m, linear.wrapping_add(i as u64), long_mode, cr3))
}

/// Memories that read alike give the same linear bytes.
pub proof fn lemma_same_memory_linear<M: GuestPhysical>(
    a: &M,
    b: &M,
    linear: u64,
    len: nat,
    long_mode: bool,
    cr3: u64,
)
    requires
        same_memory(a, b),
    ensures
        linear_bytes(a, linear, len, long_mode, cr3) == linear_bytes(b, linear, len, long_mode, cr3),
{
    assert forall|i: int| 0 <= i < len implies linear_byte(
        a,
        #[trigger] linear.wrapping_add(i as u64),
        long_mode,
        cr3,
    ) == linear_byte(b, linear.wrapping_add(i as u64), long_mode, cr3) by {
        lemma_same_memory_translate(a, b, pte_frame(cr3), linear.wrapping_add(i as u64), 0);
    }
    assert(linear_bytes(a, linear, len, long_mode, cr3) =~= linear_bytes(
        b,
        linear,
        len,
        long_mode,
        cr3,
    ));
}

/// Memories that read alike are walked alike.
pub proof fn lemma_same_memory_walk<M: GuestPhysical>(a: &M, b: &M, table: u64, va: u64, level: int)
    requires
        same_memory(a, b),
    ensures
        walk_from(a, table, va, level) == walk_from(b, table, va, level),
    decreases 4 - level,
{
    if 0 <= level < 4 {
        crate::cli::lemma_same_memory_u64(
            a,
            b,
            table.wrapping_add((crate::cli::pt_index(va, level) * 8) as u64),
        );
        let pte = crate::cli::pt_entry(a, table, va, level);
        lemma_same_memory_walk(a, b, pte_frame(pte), va, level + 1);
    }
}

/// Read `len` linear bytes of a memory that reads as `m0` does.
pub(crate) fn read_at<M: GuestPhysical>(
    m: &mut M,
    Ghost(m0): Ghost<M>,
    linear: u64,
    len: usize,
    long_mode: bool,
    cr3: u64,
) -> (out: Vec<u8>)
    requires
        same_memory(old(m), &m0),
    ensures
        out@ == linear_bytes(&m0, linear, len as nat, long_mode, cr3),
        same_memory(final(m), &m0),
{
    let ghost before = *m;
    let out = read_linear_bytes_cr3(m, linear, len, long_mode, cr3);
    proof {
        assert(out@ =~= linear_bytes(&before, linear, len as nat, long_mode, cr3));
        lemma_same_memory_linear(&before, &m0, linear, len as nat, long_mode, cr3);
    }
    out
}

/// Read `len` bytes at a guest linear address with the CPU's own `CR3`.
pub fn read_linear_bytes<M: GuestPhysical>(
    m: &mut M,
    cpu: &CpuSnapshot,
    linear: u64,
    len: usize,
    long_mode: bool,
) -> (out: Vec<u8>)
    ensures
        out@ == linear_bytes(old(m), linear, len as nat, long_mode, cpu.cr3),
        same_memory(final(m), old(m)),
{
    let out = read_linear_bytes_cr3(m, linear, len, long_mode, cpu.cr3);
    assert(out@ =~= linear_bytes(old(m), linear, len as nat, long_mode, cpu.cr3));
    out
}

/// A decoded GDT descriptor: its 32-bit base, 20-bit limit and access byte.
#[derive(Debug, Clone, Copy, PartialEq, Eq, Structural)]
pub struct GdtEntry {
    pub base: u32,
    pub limit: u32,
    pub access: u8,
}

/// The base, limit and access byte of the 8-byte descriptor `e`.
pub open spec fn gdt_entry_of(e: Seq<u8>) -> GdtEntry {
    GdtEntry {
        base: (e[2] + e[3] * 0x100 + e[4] * 0x1_0000 + e[7] * 0x100_0000) as u32,
        limit: (e[0] + e[1] * 0x100 + (e[6] % 16) * 0x1_0000) as u32,
        access: e[5],
    }
}

/// The little-endian 16-bit words of `s`.
pub open spec fn le_words16(s: Seq<u8>, n: nat) -> Seq<u16> {
    Seq::new(n, |i: int| (s[2 * i] + s[2 * i + 1] * 0x100) as u16)
}

/// The little-endian 32-bit words of `s`.
pub open spec fn le_words32(s: Seq<u8>, n: nat) -> Seq<u32> {
    Seq::new(
        n,
        |i: int|
            (s[4 * i] + s[4 * i + 1] * 0x100 + s[4 * i + 2] * 0x1_0000 + s[4 * i + 3]
                * 0x100_0000) as u32,
    )
}

/// What the runner reports about the instruction and tables at a stop.
#[derive(Debug, Clone, PartialEq, Eq)]
pub struct ExceptionContext {
    /// `CS.base + RIP`.
    pub linear: u64,
    pub long_mode: bool,
    /// The 16 bytes at `linear`.
    pub code: Vec<u8>,
    /// The 24 bytes before `linear`.
    pub code_before: Vec<u8>,
    /// The 8 words at `SS.base + SP`.
    pub stack_words: Vec<u16>,
    /// The index of the descriptor a far transfer fetched (8).
    pub desc_index: u64,
    pub desc: Vec<u8>,
    /// The current `CS` selector's descriptor index and bytes.
    pub cs_desc_index: u64,
    pub cs_desc: Vec<u8>,
    /// The 4 dwords from 8 bytes below the stack top.
    pub below_sp: Vec<u32>,
    /// Every descriptor the GDT limit covers.
    pub gdt: Vec<GdtEntry>,
    pub cr3: u64,
    /// The page walks for `linear` and for the kernel's high half.
    pub walk_rip: Vec<(u64, u64)>,
    pub walk_high: Vec<(u64, u64)>,
}

/// A probe address in the kernel's high half.
pub const HIGH_HALF_PROBE: u64 = 0xFFFF_F880_0000_0000;

/// Descriptor `idx` of the GDT at `base`, as read at the stop.
pub open spec fn gdt_bytes<M: GuestPhysical>(m: &M, c: CpuSnapshot, idx: int) -> Seq<u8> {
    linear_bytes(m, c.gdtr_base.wrapping_add((idx * 8) as u64), 8, paged_long_mode(c), c.cr3)
}

/// Every field of the context as it is read from `m` and `c`.
pub open spec fn exception_context_of<M: GuestPhysical>(
    m: &M,
    c: CpuSnapshot,
    x: ExceptionContext,
) -> bool {
    let lm = paged_long_mode(c);
    let linear = c.cs_base.wrapping_add(c.rip);
    let stack = c.ss_base.wrapping_add(c.stack_ptr);
    &&& x.linear == linear
    &&& x.long_mode == lm
    &&& x.code@ == linear_bytes(m, linear, 16, lm, c.cr3)
    &&& x.code_before@ == linear_bytes(m, linear.wrapping_sub(24), 24, lm, c.cr3)
    &&& x.stack_words@ == le_words16(linear_bytes(m, stack, 16, lm, c.cr3), 8)
    &&& x.desc_index == 8
    &&& x.desc@ == gdt_bytes(m, c, 8)
    &&& x.cs_desc_index == (c.cs_selector / 8) as u64
    &&& x.cs_desc@ == gdt_bytes(m, c, (c.cs_selector / 8) as int)
    &&& x.below_sp@ == le_words32(linear_bytes(m, stack.wrapping_sub(8), 16, lm, c.cr3), 4)
    &&& x.gdt@.len() == (c.gdtr_limit + 1) / 8
    &&& forall|i: int| 0 <= i < x.gdt@.len() ==> #[trigger] x.gdt@[i] == gdt_entry_of(gdt_bytes(m, c, i))
    &&& x.cr3 == c.cr3
    &&& x.walk_rip@ == walk_from(m, pte_frame(c.cr3), linear, 0)
    &&& x.walk_high@ == walk_from(m, pte_frame(c.cr3), HIGH_HALF_PROBE, 0)
}

/// The words of `bytes`, two bytes each, little-endian.
fn words16(bytes: &Vec<u8>, n: usize) -> (r: Vec<u16>)
    requires
        bytes@.len() == 2 * n,
        n <= 0x1000,
    ensures
        r@ == le_words16(bytes@, n as nat),
{
    let mut r: Vec<u16> = Vec::new();
    let mut i: usize = 0;
    while i < n
        invariant
            i <= n,
            bytes@.len() == 2 * n,
            n <= 0x1000,
            r@ == le_words16(bytes@, i as nat),
        decreases n - i,
    {
        let w = bytes[2 * i] as u16 + bytes[2 * i + 1] as u16 * 0x100;
        r.push(w);
        assert(r@ =~= le_words16(bytes@, (i + 1) as nat));
        i += 1;
    }
    r
}

/// The dwords of `bytes`, four bytes each, little-endian.
fn words32(bytes: &Vec<u8>, n: usize) -> (r: Vec<u32>)
    requires
        bytes@.len() == 4 * n,
        n <= 0x1000,
    ensures
        r@ == le_words32(bytes@, n as nat),
{
    let mut r: Vec<u32> = Vec::new();
    let mut i: usize = 0;
    while i < n
        invariant
            i <= n,
            bytes@.len() == 4 * n,
            n <= 0x1000,
            r@ == le_words32(bytes@, i as nat),
        decreases n - i,
    {
        let w = bytes[4 * i] as u32 + bytes[4 * i + 1] as u32 * 0x100 + bytes[4 * i + 2] as u32
            * 0x1_0000 + bytes[4 * i + 3] as u32 * 0x100_0000;
        r.push(w);
        assert(r@ =~= le_words32(bytes@, (i + 1) as nat));
        i += 1;
    }
    r
}

/// Decode an 8-byte descriptor.
fn decode_gdt_entry(e: &Vec<u8>) -> (r: GdtEntry)
    requires
        e@.len() == 8,
    ensures
        r == gdt_entry_of(e@),
{
    GdtEntry {
        base: e[2] as u32 + e[3] as u32 * 0x100 + e[4] as u32 * 0x1_0000 + e[7] as u32
            * 0x100_0000,
        limit: e[0] as u32 + e[1] as u32 * 0x100 + (e[6] % 16) as u32 * 0x1_0000,
        access: e[5],
    }
}

/// The code, stack and descriptor-table context of a stopped CPU, read without changing
/// memory.
pub fn exception_debug_context<M: GuestPhysical>(m: &mut M, cpu: &CpuSnapshot) -> (x:
    ExceptionContext)
    ensures
        exception_context_of(old(m), *cpu, x),
        same_memory(final(m), old(m)),
{
    let ghost m0 = *m;
    let c = *cpu;
    let linear = c.cs_base.wrapping_add(c.rip);
    let lm = c.long_mode();
    let code = read_at(m, Ghost(m0), linear, 16, lm, c.cr3);
    let code_before = read_at(m, Ghost(m0), linear.wrapping_sub(24), 24, lm, c.cr3);
    let stack = c.ss_base.wrapping_add(c.stack_ptr);
    let stack_bytes = read_at(m, Ghost(m0), stack, 16, lm, c.cr3);
    let stack_words = words16(&stack_bytes, 8);
    let desc = read_at(m, Ghost(m0), c.gdtr_base.wrapping_add(64), 8, lm, c.cr3);
    let cs_desc_index = (c.cs_selector / 8) as u64;
    let cs_desc = read_at(m, Ghost(m0), c.gdtr_base.wrapping_add(cs_desc_index * 8), 8, lm, c.cr3);
    let below = read_at(m, Ghost(m0), stack.wrapping_sub(8), 16, lm, c.cr3);
    let below_sp = words32(&below, 4);
    let count = (c.gdtr_limit as u64 + 1) / 8;
    let mut gdt: Vec<GdtEntry> = Vec::new();
    let mut idx: u64 = 0;
    while idx < count
        invariant
            idx <= count,
            count == (c.gdtr_limit + 1) / 8,
            c == *cpu,
            lm == paged_long_mode(c),
            same_memory(m, &m0),
            gdt@.len() == idx,
            forall|i: int| 0 <= i < idx ==> #[trigger] gdt@[i] == gdt_entry_of(gdt_bytes(&m0, c, i)),
        decreases count - idx,
    {
        let e = read_at(m, Ghost(m0), c.gdtr_base.wrapping_add(idx * 8), 8, lm, c.cr3);
        gdt.push(decode_gdt_entry(&e));
        idx += 1;
    }
    let ghost before = *m;
    let walk_rip = walk_pt(m, c.cr3, linear);
    let ghost mid = *m;
    let walk_high = walk_pt(m, c.cr3, HIGH_HALF_PROBE);
    proof {
        lemma_same_memory_walk(&before, &m0, pte_frame(c.cr3), linear, 0);
        lemma_same_memory_walk(&mid, &m0, pte_frame(c.cr3), HIGH_HALF_PROBE, 0);
    }
    ExceptionContext {
        linear,
        long_mode: lm,
        code,
        code_before,
        stack_words,
        desc_index: 8,
        desc,
        cs_desc_index,
        cs_desc,
        below_sp,
        gdt,
        cr3: c.cr3,
        walk_rip,
        walk_high,
    }
}

/// The little-endian `u64` at `off` in `s`, or 0 past its end.
pub open spec fn u64_le(s: Seq<u8>, off: int) -> u64 {
    if 0 <= off && off + 8 <= s.len() {
        spec_u64_from_le_bytes(s.subrange(off, off + 8))
    } else {
        0
    }
}

/// The little-endian `u32` at `off` in `s`, or 0 past its end.
pub open spec fn u32_le(s: Seq<u8>, off: int) -> u32 {
    if 0 <= off && off + 4 <= s.len() {
        spec_u32_from_le_bytes(s.subrange(off, off + 4))
    } else {
        0
    }
}

/// The little-endian `u16` at `off` in `s`, or 0 past its end.
pub open spec fn u16_le(s: Seq<u8>, off: int) -> u16 {
    if 0 <= off && off + 2 <= s.len() {
        spec_u16_from_le_bytes(s.subrange(off, off + 2))
    } else {
        0
    }
}

pub(crate) fn u64_at(bytes: &[u8], off: usize) -> (r: u64)
    ensures
        r == u64_le(bytes@, off as int),
{
    if off <= bytes.len() && bytes.len() - off >= 8 {
        let s = slice_subrange(bytes, off, off + 8);
        u64_from_le_bytes(s)
    } else {
        0
    }
}

pub(crate) fn u32_at(bytes: &[u8], off: usize) -> (r: u32)
    ensures
        r == u32_le(bytes@, off as int),
{
    if off <= bytes.len() && bytes.len() - off >= 4 {
        let s = slice_subrange(bytes, off, off + 4);
        u32_from_le_bytes(s)
    } else {
        0
    }
}

pub(crate) fn u16_at(bytes: &[u8], off: usize) -> (r: u16)
    ensures
        r == u16_le(bytes@, off as int),
{
    if off <= bytes.len() && bytes.len() - off >= 2 {
        let s = slice_subrange(bytes, off, off + 2);
        u16_from_le_bytes(s)
    } else {
        0
    }
}

/// Read `len` physical bytes of a memory that reads as `m0` does.
pub(crate) fn read_phys<M: GuestPhysical>(m: &mut M, Ghost(m0): Ghost<M>, addr: u64, len: usize) -> (out: Vec<u8>)
    requires
        same_memory(old(m), &m0),
    ensures
        out@ == phys_bytes(&m0, addr, len as nat),
        same_memory(final(m), &m0),
{
    let mut out: Vec<u8> = Vec::new();
    let mut i: usize = 0;
    while i < len
        invariant
            i <= len,
            same_memory(m, &m0),
            out@ =~= Seq::new(i as nat, |j: int| m0.phys_byte(addr.wrapping_add(j as u64))),
        decreases len - i,
    {
        let b = m.read_physical_u8(addr.wrapping_add(i as u64));
        out.push(b);
        i += 1;
    }
    out
}

/// Whether `v` holds `x`.
pub(crate) fn contains_u64(v: &Vec<u64>, x: u64) -> (r: bool)
    ensures
        r == v@.contains(x),
{
    let mut i: usize = 0;
    while i < v.len()
        invariant
            i <= v@.len(),
            forall|j: int| 0 <= j < i ==> v@[j] != x,
        decreases v@.len() - i,
    {
        if v[i] == x {
            return true;
        }
        i += 1;
    }
    false
}

/// Every byte reads as the unmapped filler `0xFE`.
pub open spec fn all_unmapped(s: Seq<u8>) -> bool {
    forall|i: int| 0 <= i < s.len() ==> #[trigger] s[i] == 0xFE
}

pub(crate) fn is_all_unmapped(s: &Vec<u8>) -> (r: bool)
    ensures
        r == all_unmapped(s@),
{
    let mut i: usize = 0;
    while i < s.len()
        invariant
            i <= s@.len(),
            forall|j: int| 0 <= j < i ==> #[trigger] s@[j] == 0xFE,
        decreases s@.len() - i,
    {
        if s[i] != 0xFE {
            return false;
        }
        i += 1;
    }
    true
}

/// The lowest address of the kernel's canonical high half.
pub const KERNEL_SPACE: u64 = 0xffff_8000_0000_0000;

/// `ETHREAD.ThreadListEntry` (the link within the thread).
pub const ETHREAD_THREAD_LIST_ENTRY: u64 = 0x420;

/// The bytes of an `ETHREAD` that are read.
pub const ETHREAD_BYTES: usize = 0x430;

/// One thread of a process, as its `ETHREAD`/`KTHREAD` reads.
#[derive(Debug, Clone, Copy, PartialEq, Eq, Structural)]
pub struct ThreadInfo {
    pub tid: u64,
    pub ethread: u64,
    pub state: u8,
    pub wait_reason: u8,
    pub context_switches: u32,
    pub wait_time: u32,
    pub start: u64,
    pub win32_start: u64,
}

/// Why a thread walk stopped before reading all of the threads it was to read.
#[derive(Debug, Clone, Copy, PartialEq, Eq, Structural)]
pub enum ThreadWalkStop {
    /// The link is not a kernel address, or was seen already.
    InvalidLink { index: u32, link: u64 },
    /// The link is below the list entry's offset.
    UnderflowLink { index: u32, link: u64 },
    /// None of the `ETHREAD` translates under `cr3`.
    Unmapped { index: u32, ethread: u64, cr3: u64 },
}

/// The threads linked from an `EPROCESS`.
#[derive(Debug, Clone, PartialEq, Eq)]
pub struct ThreadsDump {
    /// `EPROCESS.ActiveThreads`.
    pub active_threads: u32,
    pub threads: Vec<ThreadInfo>,
    pub stop: Option<ThreadWalkStop>,
}

/// The fields of the thread whose `ETHREAD` at `ethread` reads as `b`: `KTHREAD.State` at
/// 0x164, `WaitReason` at 0x26b, `ContextSwitches` at 0x134, `WaitTime` at 0x194,
/// `StartAddress` at 0x388, `Cid.UniqueThread` at 0x3b8, `Win32StartAddress` at 0x410.
pub open spec fn thread_info_of(b: Seq<u8>, ethread: u64) -> ThreadInfo {
    ThreadInfo {
        tid: u64_le(b, 0x3b8),
        ethread,
        state: b[0x164],
        wait_reason: b[0x26b],
        context_switches: u32_le(b, 0x134),
        wait_time: u32_le(b, 0x194),
        start: u64_le(b, 0x388),
        win32_start: u64_le(b, 0x410),
    }
}

/// The threads read by following `link` through `ThreadListEntry` under `cr3`, from thread
/// `index` up to `limit`, and why the walk stopped early, if it did.
pub open spec fn thread_walk<M: GuestPhysical>(
    m: &M,
    cr3: u64,
    link: u64,
    seen: Seq<u64>,
    index: nat,
    limit: nat,
) -> (Seq<ThreadInfo>, Option<ThreadWalkStop>)
    decreases limit - index,
{
    if index >= limit {
        (Seq::empty(), None)
    } else if link < KERNEL_SPACE || seen.contains(link) {
        (Seq::empty(), Some(ThreadWalkStop::InvalidLink { index: index as u32, link }))
    } else if link < ETHREAD_THREAD_LIST_ENTRY {
        (Seq::empty(), Some(ThreadWalkStop::UnderflowLink { index: index as u32, link }))
    } else {
        let ethread = (link - ETHREAD_THREAD_LIST_ENTRY) as u64;
        let b = linear_bytes(m, ethread, ETHREAD_BYTES as nat, true, cr3);
        if all_unmapped(b) {
            (Seq::empty(), Some(ThreadWalkStop::Unmapped { index: index as u32, ethread, cr3 }))
        } else {
            let rest = thread_walk(m, cr3, u64_le(b, 0x420), seen.push(link), index + 1, limit);
            (seq![thread_info_of(b, ethread)] + rest.0, rest.1)
        }
    }
}

/// The thread dump of the `EPROCESS` at physical address `pe`: `ThreadListHead` at 0x308
/// and `ActiveThreads` 0x20 after it, walked (at most 16 threads) under the process's own
/// `DirectoryTableBase` (at 0x28), or under `cr3` when that is zero.
pub open spec fn eprocess_threads_of<M: GuestPhysical>(m: &M, cr3: u64, pe: u64, d: ThreadsDump) -> bool {
    let list = phys_bytes(m, pe.saturating_add(0x308), 0x24);
    let active = u32_le(list, 0x20);
    let dtb = u64_le(phys_bytes(m, pe.saturating_add(0x28), 8), 0) & !0xfffu64;
    let walk_cr3 = if dtb != 0 {
        dtb
    } else {
        cr3
    };
    let limit: nat = if active < 16 {
        active as nat
    } else {
        16
    };
    let w = thread_walk(m, walk_cr3, u64_le(list, 0), Seq::empty(), 0, limit);
    &&& d.active_threads == active
    &&& d.threads@ == w.0
    &&& d.stop == w.1
}

/// Walk the threads linked from a Win7 SP1 x64 `EPROCESS` at physical address
/// `phys_eprocess`.
pub fn dump_eprocess_threads<M: GuestPhysical>(
    m: &mut M,
    cpu: &CpuSnapshot,
    phys_eprocess: u64,
) -> (d: ThreadsDump)
    ensures
        eprocess_threads_of(old(m), cpu.cr3, phys_eprocess, d),
        same_memory(final(m), old(m)),
{
    let ghost m0 = *m;
    threads_in(m, Ghost(m0), cpu, phys_eprocess)
}

/// `dump_eprocess_threads` on a memory that reads as `m0` does.
pub(crate) fn threads_in<M: GuestPhysical>(
    m: &mut M,
    Ghost(m0): Ghost<M>,
    cpu: &CpuSnapshot,
    phys_eprocess: u64,
) -> (d: ThreadsDump)
    requires
        same_memory(old(m), &m0),
    ensures
        eprocess_threads_of(&m0, cpu.cr3, phys_eprocess, d),
        same_memory(final(m), &m0),
{
    let list = read_phys(m, Ghost(m0), phys_eprocess.saturating_add(0x308), 0x24);
    let active_threads = u32_at(list.as_slice(), 0x20);
    let mut link = u64_at(list.as_slice(), 0);
    let dtb_bytes = read_phys(m, Ghost(m0), phys_eprocess.saturating_add(0x28), 8);
    let proc_dtb = u64_at(dtb_bytes.as_slice(), 0) & !0xfffu64;
    let cr3 = if proc_dtb != 0 {
        proc_dtb
    } else {
        cpu.cr3
    };
    let limit: u32 = if active_threads < 16 {
        active_threads
    } else {
        16
    };
    let ghost whole = thread_walk(&m0, cr3, link, Seq::empty(), 0, limit as nat);
    let mut threads: Vec<ThreadInfo> = Vec::new();
    let mut seen: Vec<u64> = Vec::new();
    let mut index: u32 = 0;
    let mut stop: Option<ThreadWalkStop> = None;
    while index < limit
        invariant_except_break
            index <= limit,
            same_memory(m, &m0),
            stop is None,
            whole.0 == threads@ + thread_walk(&m0, cr3, link, seen@, index as nat, limit as nat).0,
            whole.1 == thread_walk(&m0, cr3, link, seen@, index as nat, limit as nat).1,
        ensures
            same_memory(m, &m0),
            whole.0 == threads@,
            whole.1 == stop,
        decreases limit - index,
    {
        if link < KERNEL_SPACE || contains_u64(&seen, link) {
            stop = Some(ThreadWalkStop::InvalidLink { index, link });
            assert(threads@ + Seq::<ThreadInfo>::empty() =~= threads@);
            break;
        }
        if link < ETHREAD_THREAD_LIST_ENTRY {
            stop = Some(ThreadWalkStop::UnderflowLink { index, link });
            assert(threads@ + Seq::<ThreadInfo>::empty() =~= threads@);
            break;
        }
        let ethread = link - ETHREAD_THREAD_LIST_ENTRY;
        let bytes = read_at(m, Ghost(m0), ethread, ETHREAD_BYTES, true, cr3);
        if is_all_unmapped(&bytes) {
            stop = Some(ThreadWalkStop::Unmapped { index, ethread, cr3 });
            assert(threads@ + Seq::<ThreadInfo>::empty() =~= threads@);
            break;
        }
        let info = ThreadInfo {
            tid: u64_at(bytes.as_slice(), 0x3b8),
            ethread,
            state: bytes[0x164],
            wait_reason: bytes[0x26b],
            context_switches: u32_at(bytes.as_slice(), 0x134),
            wait_time: u32_at(bytes.as_slice(), 0x194),
            start: u64_at(bytes.as_slice(), 0x388),
            win32_start: u64_at(bytes.as_slice(), 0x410),
        };
        let ghost old_threads = threads@;
        let ghost rest = thread_walk(
            &m0,
            cr3,
            u64_le(bytes@, 0x420),
            seen@.push(link),
            (index + 1) as nat,
            limit as nat,
        );
        threads.push(info);
        seen.push(link);
        link = u64_at(bytes.as_slice(), 0x420);
        assert(old_threads + (seq![info] + rest.0) =~= threads@ + rest.0);
        index += 1;
    }
    proof {
        if index >= limit && stop is None {
            assert(threads@ + Seq::<ThreadInfo>::empty() =~= threads@);
        }
    }
    ThreadsDump { active_threads, threads, stop }
}

/// The `u64` a kernel read at `va` gives, unless none of its bytes translate.
pub open spec fn kernel_u64<M: GuestPhysical>(m: &M, cr3: u64, va: u64) -> Option<u64> {
    let b = linear_bytes(m, va, 8, true, cr3);
    if all_unmapped(b) {
        None
    } else {
        Some(spec_u64_from_le_bytes(b))
    }
}

fn read_kernel_u64<M: GuestPhysical>(m: &mut M, Ghost(m0): Ghost<M>, cr3: u64, va: u64) -> (r:
    Option<u64>)
    requires
        same_memory(old(m), &m0),
    ensures
        r == kernel_u64(&m0, cr3, va),
        same_memory(final(m), &m0),
{
    let b = read_at(m, Ghost(m0), va, 8, true, cr3);
    if is_all_unmapped(&b) {
        None
    } else {
        Some(u64_from_le_bytes(b.as_slice()))
    }
}

/// `ActiveProcessLinks` within an `EPROCESS`.
pub const EPROCESS_LINKS: u64 = 0x188;

/// A plausible `ImageFileName`: it starts with an ASCII letter or digit and holds only
/// graphic ASCII or NUL.
pub open spec fn image_tag_ok(n: Seq<u8>) -> bool {
    &&& n.len() == 15
    &&& ((0x30 <= n[0] <= 0x39) || (0x41 <= n[0] <= 0x5A) || (0x61 <= n[0] <= 0x7A))
    &&& forall|i: int| 0 <= i < n.len() ==> #[trigger] n[i] == 0 || (0x21 <= n[i] <= 0x7E)
}

/// The processes met following `ActiveProcessLinks` from `link` (at most `fuel` more), each
/// as `(UniqueProcessId, ImageFileName, EPROCESS)`, keeping those with a plausible name and a
/// process id that is a multiple of 4 no larger than 0x10000.
pub open spec fn process_walk<M: GuestPhysical>(
    m: &M,
    cr3: u64,
    head: u64,
    link: u64,
    seen: Seq<u64>,
    fuel: nat,
) -> Seq<(u64, Seq<u8>, u64)>
    decreases fuel,
{
    if fuel == 0 || seen.contains(link) || link < KERNEL_SPACE {
        Seq::empty()
    } else {
        let p = link.wrapping_sub(EPROCESS_LINKS);
        match kernel_u64(m, cr3, p.wrapping_add(0x180)) {
            None => Seq::empty(),
            Some(pid) => {
                let name = linear_bytes(m, p.wrapping_add(0x2e0), 15, true, cr3);
                let here: Seq<(u64, Seq<u8>, u64)> = if image_tag_ok(name) && pid <= 0x1_0000
                    && pid % 4 == 0 {
                    seq![(pid, name, p)]
                } else {
                    Seq::empty()
                };
                here + match kernel_u64(m, cr3, link) {
                    None => Seq::empty(),
                    Some(next) => if next == head {
                        Seq::empty()
                    } else {
                        process_walk(m, cr3, head, next, seen.push(link), (fuel - 1) as nat)
                    },
                }
            },
        }
    }
}

/// The live process list: from the processor control region (`GS` base in the kernel,
/// `KERNEL_GS_BASE` in user mode), `CurrentThread` at 0x188, its `KTHREAD.Process` at 0x210,
/// then at most 64 steps along `ActiveProcessLinks`.
pub open spec fn active_processes<M: GuestPhysical>(m: &M, c: CpuSnapshot) -> Seq<(u64, Seq<u8>, u64)> {
    let kpcr = if c.rip & 0x8000_0000_0000_0000 != 0 {
        c.gs_base
    } else {
        c.kernel_gs_base
    };
    if !paged_long_mode(c) || kpcr < KERNEL_SPACE {
        Seq::empty()
    } else {
        match kernel_u64(m, c.cr3, kpcr.wrapping_add(0x188)) {
            None => Seq::empty(),
            Some(ethread) => match kernel_u64(m, c.cr3, ethread.wrapping_add(0x210)) {
                None => Seq::empty(),
                Some(eprocess) => if eprocess < KERNEL_SPACE {
                    Seq::empty()
                } else {
                    let head = eprocess.wrapping_add(EPROCESS_LINKS);
                    process_walk(m, c.cr3, head, head, Seq::empty(), 64)
                },
            },
        }
    }
}

fn image_tag_is_ok(n: &Vec<u8>) -> (r: bool)
    requires
        n@.len() == 15,
    ensures
        r == image_tag_ok(n@),
{
    let b0 = n[0];
    if !((b0 >= 0x30 && b0 <= 0x39) || (b0 >= 0x41 && b0 <= 0x5A) || (b0 >= 0x61 && b0 <= 0x7A)) {
        return false;
    }
    let mut i: usize = 0;
    while i < 15
        invariant
            i <= 15,
            n@.len() == 15,
            forall|j: int| 0 <= j < i ==> #[trigger] n@[j] == 0 || (0x21 <= n@[j] <= 0x7E),
        decreases 15 - i,
    {
        if !(n[i] == 0 || (n[i] >= 0x21 && n[i] <= 0x7E)) {
            return false;
        }
        i += 1;
    }
    true
}

fn tag_array(n: &Vec<u8>) -> (a: [u8; 15])
    requires
        n@.len() == 15,
    ensures
        a@ == n@,
{
    let mut a = [0u8; 15];
    let mut i: usize = 0;
    while i < 15
        invariant
            i <= 15,
            n@.len() == 15,
            a@.len() == 15,
            forall|j: int| 0 <= j < i ==> #[trigger] a@[j] == n@[j],
        decreases 15 - i,
    {
        a.set(i, n[i]);
        i += 1;
    }
    assert(a@ =~= n@);
    a
}

/// The process list as `(pid, name, EPROCESS)` values.
pub open spec fn process_view(v: Seq<(u64, [u8; 15], u64)>) -> Seq<(u64, Seq<u8>, u64)> {
    Seq::new(v.len(), |i: int| (v[i].0, v[i].1@, v[i].2))
}

/// Walk the live `EPROCESS` list of a Win7 SP1 x64 guest from the current thread.
pub fn walk_active_process_image_names<M: GuestPhysical>(m: &mut M, cpu: &CpuSnapshot) -> (r: Vec<
    (u64, [u8; 15], u64),
>)
    ensures
        process_view(r@) == active_processes(old(m), *cpu),
        same_memory(final(m), old(m)),
{
    let ghost m0 = *m;
    processes_in(m, Ghost(m0), cpu)
}

/// `walk_active_process_image_names` on a memory that reads as `m0` does.
pub(crate) fn processes_in<M: GuestPhysical>(m: &mut M, Ghost(m0): Ghost<M>, cpu: &CpuSnapshot) -> (r: Vec<
    (u64, [u8; 15], u64),
>)
    requires
        same_memory(old(m), &m0),
    ensures
        process_view(r@) == active_processes(&m0, *cpu),
        same_memory(final(m), &m0),
{
    let c = *cpu;
    let mut out: Vec<(u64, [u8; 15], u64)> = Vec::new();
    if !c.long_mode() {
        assert(process_view(out@) =~= Seq::<(u64, Seq<u8>, u64)>::empty());
        return out;
    }
    let kpcr = if c.rip & 0x8000_0000_0000_0000 != 0 {
        c.gs_base
    } else {
        c.kernel_gs_base
    };
    if kpcr < KERNEL_SPACE {
        assert(process_view(out@) =~= Seq::<(u64, Seq<u8>, u64)>::empty());
        return out;
    }
    let ethread = match read_kernel_u64(m, Ghost(m0), c.cr3, kpcr.wrapping_add(0x188)) {
        Some(e) => e,
        None => {
            assert(process_view(out@) =~= Seq::<(u64, Seq<u8>, u64)>::empty());
            return out;
        },
    };
    let eprocess = match read_kernel_u64(m, Ghost(m0), c.cr3, ethread.wrapping_add(0x210)) {
        Some(e) => e,
        None => {
            assert(process_view(out@) =~= Seq::<(u64, Seq<u8>, u64)>::empty());
            return out;
        },
    };
    if eprocess < KERNEL_SPACE {
        assert(process_view(out@) =~= Seq::<(u64, Seq<u8>, u64)>::empty());
        return out;
    }
    let head = eprocess.wrapping_add(EPROCESS_LINKS);
    let ghost whole = process_walk(&m0, c.cr3, head, head, Seq::empty(), 64);
    let mut link = head;
    let mut seen: Vec<u64> = Vec::new();
    let mut fuel: u32 = 64;
    while fuel > 0
        invariant_except_break
            fuel <= 64,
            same_memory(m, &m0),
            c == *cpu,
            whole == process_view(out@) + process_walk(&m0, c.cr3, head, link, seen@, fuel as nat),
        ensures
            same_memory(m, &m0),
            whole == process_view(out@),
        decreases fuel,
    {
        if contains_u64(&seen, link) || link < KERNEL_SPACE {
            assert(process_view(out@) + Seq::<(u64, Seq<u8>, u64)>::empty() =~= process_view(out@));
            break;
        }
        let p = link.wrapping_sub(EPROCESS_LINKS);
        let pid = match read_kernel_u64(m, Ghost(m0), c.cr3, p.wrapping_add(0x180)) {
            Some(v) => v,
            None => {
                assert(process_view(out@) + Seq::<(u64, Seq<u8>, u64)>::empty() =~= process_view(out@));
                break;
            },
        };
        let name = read_at(m, Ghost(m0), p.wrapping_add(0x2e0), 15, true, c.cr3);
        let ghost before = process_view(out@);
        let keep = image_tag_is_ok(&name) && pid <= 0x1_0000 && pid % 4 == 0;
        if keep {
            let tag = tag_array(&name);
            out.push((pid, tag, p));
        }
        let ghost here: Seq<(u64, Seq<u8>, u64)> = if keep {
            seq![(pid, name@, p)]
        } else {
            Seq::empty()
        };
        assert(process_view(out@) =~= before + here);
        let next = match read_kernel_u64(m, Ghost(m0), c.cr3, link) {
            Some(v) => v,
            None => {
                assert(process_view(out@) + Seq::<(u64, Seq<u8>, u64)>::empty() =~= process_view(out@));
                break;
            },
        };
        if next == head {
            assert(process_view(out@) + Seq::<(u64, Seq<u8>, u64)>::empty() =~= process_view(out@));
            break;
        }
        let ghost rest = process_walk(&m0, c.cr3, head, next, seen@.push(link), (fuel - 1) as nat);
        assert(before + (here + rest) =~= process_view(out@) + rest);
        seen.push(link);
        link = next;
        fuel -= 1;
    }
    proof {
        if fuel == 0 {
            assert(process_view(out@) + Seq::<(u64, Seq<u8>, u64)>::empty() =~= process_view(out@));
        }
    }
    out
}

/// A canonical user-mode address above the first 64 KiB.
pub open spec fn user_pointer(v: u64) -> bool {
    0x1_0000 <= v < 0x0000_8000_0000_0000
}

/// The text of the `UNICODE_STRING` descriptor `desc` (length at 0, buffer at 8) read under
/// `dtb`: empty for length 0; nothing for an odd or over-long (over 1024 bytes) length, a
/// buffer outside user space, or a buffer with bytes that do not translate.
pub open spec fn unicode_at<M: GuestPhysical>(m: &M, dtb: u64, desc: Seq<u8>) -> Option<Seq<char>> {
    let len = u16_le(desc, 0);
    let buf = u64_le(desc, 8);
    if len == 0 {
        Some(Seq::empty())
    } else if len > 1024 || len % 2 != 0 || !user_pointer(buf) {
        None
    } else {
        let b = linear_bytes(m, buf, len as nat, true, dtb);
        if b.contains(0xFEu8) {
            None
        } else {
            Some(spec_utf16_lossy(utf16_units(b)))
        }
    }
}

/// A loaded module: its base name (else its full name; `None` when neither reads), base,
/// size and entry point.
#[derive(Debug, Clone, PartialEq, Eq)]
pub struct ModuleInfo {
    pub name: Option<String>,
    pub dll_base: u64,
    pub size: u32,
    pub entry_point: u64,
}

/// `ModuleInfo` as values.
pub struct ModuleFacts {
    pub name: Option<Seq<char>>,
    pub dll_base: u64,
    pub size: u32,
    pub entry_point: u64,
}

impl View for ModuleInfo {
    type V = ModuleFacts;

    open spec fn view(&self) -> ModuleFacts {
        ModuleFacts {
            name: match self.name {
                Some(s) => Some(s@),
                None => None,
            },
            dll_base: self.dll_base,
            size: self.size,
            entry_point: self.entry_point,
        }
    }
}

/// The module whose `LDR_DATA_TABLE_ENTRY` reads as `e`: `DllBase` 0x30, `EntryPoint` 0x38,
/// `SizeOfImage` 0x40, `FullDllName` 0x48, `BaseDllName` 0x58.
pub open spec fn module_facts<M: GuestPhysical>(m: &M, dtb: u64, e: Seq<u8>) -> ModuleFacts {
    ModuleFacts {
        name: match unicode_at(m, dtb, e.subrange(0x58, 0x68)) {
            Some(n) => Some(n),
            None => unicode_at(m, dtb, e.subrange(0x48, 0x58)),
        },
        dll_base: u64_le(e, 0x30),
        size: u32_le(e, 0x40),
        entry_point: u64_le(e, 0x38),
    }
}

/// The modules met following `InLoadOrderLinks` from `link` back to `head`, stopping at a
/// link outside user space or seen before, after at most `fuel` more.
pub open spec fn module_walk<M: GuestPhysical>(
    m: &M,
    dtb: u64,
    head: u64,
    link: u64,
    seen: Seq<u64>,
    fuel: nat,
) -> Seq<ModuleFacts>
    decreases fuel,
{
    if fuel == 0 || link == head || !user_pointer(link) || seen.contains(link) {
        Seq::empty()
    } else {
        let e = linear_bytes(m, link, 0x68, true, dtb);
        seq![module_facts(m, dtb, e)] + module_walk(m, dtb, head, u64_le(e, 0), seen.push(link), (fuel - 1) as nat)
    }
}

/// The module list of a process.
#[derive(Debug, Clone, PartialEq, Eq)]
pub enum ModulesDump {
    /// `EPROCESS.Peb` is not a user address.
    InvalidPeb(u64),
    /// `PEB.Ldr` is not a user address.
    InvalidLdr { ldr: u64, peb: u64 },
    Modules { peb: u64, ldr: u64, modules: Vec<ModuleInfo> },
}

/// The module dump of the process whose `EPROCESS` is at physical `pe` and whose page tables
/// are at `dtb`: `EPROCESS.Peb` at 0x338, `PEB.Ldr` at 0x18, the load-order list at
/// `Ldr + 0x10`, at most 128 entries.
pub open spec fn modules_of<M: GuestPhysical>(m: &M, dtb: u64, pe: u64, d: ModulesDump) -> bool {
    let peb = u64_le(phys_bytes(m, pe.saturating_add(0x338), 8), 0);
    if !user_pointer(peb) {
        d == ModulesDump::InvalidPeb(peb)
    } else {
        let ldr = u64_le(linear_bytes(m, peb, 0x20, true, dtb), 0x18);
        if !user_pointer(ldr) {
            d == ModulesDump::InvalidLdr { ldr, peb }
        } else {
            let head = (ldr + 0x10) as u64;
            let first = u64_le(linear_bytes(m, head, 16, true, dtb), 0);
            &&& d matches ModulesDump::Modules { peb: p, ldr: l, modules }
            &&& p == peb
            &&& l == ldr
            &&& modules@.map_values(|x: ModuleInfo| x@) == module_walk(m, dtb, head, first, Seq::empty(), 128)
        }
    }
}

fn read_unicode<M: GuestPhysical>(m: &mut M, Ghost(m0): Ghost<M>, dtb: u64, desc: &[u8]) -> (r:
    Option<String>)
    requires
        same_memory(old(m), &m0),
    ensures
        same_memory(final(m), &m0),
        match unicode_at(&m0, dtb, desc@) {
            Some(n) => r matches Some(s) && s@ == n,
            None => r is None,
        },
{
    let len = u16_at(desc, 0);
    let buf = u64_at(desc, 8);
    if len == 0 {
        return Some(String::new());
    }
    if len > 1024 || len % 2 != 0 || !(buf >= 0x1_0000 && buf < 0x0000_8000_0000_0000) {
        return None;
    }
    let b = read_at(m, Ghost(m0), buf, len as usize, true, dtb);
    let mut i: usize = 0;
    while i < b.len()
        invariant
            i <= b@.len(),
            same_memory(m, &m0),
            b@ == linear_bytes(&m0, buf, len as nat, true, dtb),
            len == u16_le(desc@, 0),
            buf == u64_le(desc@, 8),
            len != 0,
            len <= 1024,
            len % 2 == 0,
            user_pointer(buf),
            forall|j: int| 0 <= j < i ==> b@[j] != 0xFEu8,
        decreases b@.len() - i,
    {
        if b[i] == 0xFE {
            assert(b@.contains(0xFEu8));
            return None;
        }
        i += 1;
    }
    assert(!b@.contains(0xFEu8));
    Some(utf16_string(b.as_slice()))
}

/// Walk the native 64-bit PEB loader list of a Win7 SP1 x64 process.
pub fn dump_eprocess_modules<M: GuestPhysical>(m: &mut M, dtb: u64, phys_eprocess: u64) -> (d:
    ModulesDump)
    ensures
        modules_of(old(m), dtb, phys_eprocess, d),
        same_memory(final(m), old(m)),
{
    let ghost m0 = *m;
    modules_in(m, Ghost(m0), dtb, phys_eprocess)
}

/// `dump_eprocess_modules` on a memory that reads as `m0` does.
pub(crate) fn modules_in<M: GuestPhysical>(m: &mut M, Ghost(m0): Ghost<M>, dtb: u64, phys_eprocess: u64) -> (d:
    ModulesDump)
    requires
        same_memory(old(m), &m0),
    ensures
        modules_of(&m0, dtb, phys_eprocess, d),
        same_memory(final(m), &m0),
{
    let pb = read_phys(m, Ghost(m0), phys_eprocess.saturating_add(0x338), 8);
    let peb = u64_at(pb.as_slice(), 0);
    if !(peb >= 0x1_0000 && peb < 0x0000_8000_0000_0000) {
        return ModulesDump::InvalidPeb(peb);
    }
    let peb_bytes = read_at(m, Ghost(m0), peb, 0x20, true, dtb);
    let ldr = u64_at(peb_bytes.as_slice(), 0x18);
    if !(ldr >= 0x1_0000 && ldr < 0x0000_8000_0000_0000) {
        return ModulesDump::InvalidLdr { ldr, peb };
    }
    let head = ldr + 0x10;
    let list = read_at(m, Ghost(m0), head, 16, true, dtb);
    let mut link = u64_at(list.as_slice(), 0);
    let ghost whole = module_walk(&m0, dtb, head, link, Seq::empty(), 128);
    let mut seen: Vec<u64> = Vec::new();
    let mut modules: Vec<ModuleInfo> = Vec::new();
    let mut fuel: u32 = 128;
    while fuel > 0 && link != head && link >= 0x1_0000 && link < 0x0000_8000_0000_0000
        && !contains_u64(&seen, link)
        invariant
            fuel <= 128,
            same_memory(m, &m0),
            whole == modules@.map_values(|x: ModuleInfo| x@) + module_walk(
                &m0,
                dtb,
                head,
                link,
                seen@,
                fuel as nat,
            ),
        decreases fuel,
    {
        let e = read_at(m, Ghost(m0), link, 0x68, true, dtb);
        let next = u64_at(e.as_slice(), 0);
        let base_name = read_unicode(m, Ghost(m0), dtb, slice_subrange(e.as_slice(), 0x58, 0x68));
        let name = match base_name {
            Some(n) => Some(n),
            None => read_unicode(m, Ghost(m0), dtb, slice_subrange(e.as_slice(), 0x48, 0x58)),
        };
        let info = ModuleInfo {
            name,
            dll_base: u64_at(e.as_slice(), 0x30),
            size: u32_at(e.as_slice(), 0x40),
            entry_point: u64_at(e.as_slice(), 0x38),
        };
        let ghost before = modules@.map_values(|x: ModuleInfo| x@);
        let ghost rest = module_walk(&m0, dtb, head, next, seen@.push(link), (fuel - 1) as nat);
        assert(info@ == module_facts(&m0, dtb, e@));
        modules.push(info);
        assert(modules@.map_values(|x: ModuleInfo| x@) =~= before.push(info@));
        assert(before + (seq![info@] + rest) =~= modules@.map_values(|x: ModuleInfo| x@) + rest);
        seen.push(link);
        link = next;
        fuel -= 1;
    }
    assert(modules@.map_values(|x: ModuleInfo| x@) + Seq::<ModuleFacts>::empty() =~= modules@.map_values(
        |x: ModuleInfo| x@,
    ));
    ModulesDump::Modules { peb, ldr, modules }
}

} // verus!
