//! Repairs written into a stopped guest's memory: the win32k handle-table fix that breaks
//! the HOOK `Find(0)` livelock, and raw physical pokes.

use vstd::prelude::*;
use vstd::bytes::*;

use crate::cli::{
    hook_entry_is_bad, is_space, is_white_space, parse_hex, parse_hex_range, pieces, pt_index,
    pte_frame, same_memory, split_on, strip_all, strip_hex_prefix, translate, translate_from,
    translate_long, trim, type5_hook_entry_is_bad, GuestPhysical,
};
use crate::resume::trimmed;
use crate::text::chars_of;

verus! {

/// Physical memory as a function: what each address reads, and whether a write there is
/// stored.
#[verifier::ext_equal]
pub struct PhysView {
    pub byte: spec_fn(u64) -> u8,
    pub ram: spec_fn(u64) -> bool,
}

/// The view of `m`.
pub open spec fn view_of<M: GuestPhysical>(m: &M) -> PhysView {
    PhysView { byte: |a: u64| m.phys_byte(a), ram: |a: u64| m.is_ram(a) }
}

/// `v` after writing `val` at `pa`.
pub open spec fn view_write(v: PhysView, pa: u64, val: u8) -> PhysView {
    PhysView {
        byte: |a: u64|
            if a == pa && (v.ram)(pa) {
                val
            } else {
                (v.byte)(a)
            },
        ram: v.ram,
    }
}

/// Memories that read alike have one view.
pub proof fn lemma_same_view<M: GuestPhysical>(a: &M, b: &M)
    requires
        same_memory(a, b),
    ensures
        view_of(a) == view_of(b),
{
    assert(view_of(a) =~= view_of(b));
}

/// The little-endian `u64` at `pa` in `v`.
pub open spec fn view_u64(v: PhysView, pa: u64) -> u64 {
    spec_u64_from_le_bytes(Seq::new(8, |j: int| (v.byte)(pa.wrapping_add(j as u64))))
}

/// `translate_from` over a view.
pub open spec fn view_translate_from(v: PhysView, table: u64, va: u64, level: int) -> Option<u64>
    decreases 4 - level,
{
    if level < 0 || level >= 4 {
        None
    } else {
        let pte = view_u64(v, table.wrapping_add((pt_index(va, level) * 8) as u64));
        if pte & 1 == 0 {
            None
        } else if pte & 0x80 != 0 && level == 1 {
            Some((pte & 0x000F_FFFF_C000_0000) | (va & 0x3FFF_FFFF))
        } else if pte & 0x80 != 0 && level == 2 {
            Some((pte & 0x000F_FFFF_FFE0_0000) | (va & 0x001F_FFFF))
        } else if level == 3 {
            Some(pte_frame(pte) | (va & 0xFFF))
        } else {
            view_translate_from(v, pte_frame(pte), va, level + 1)
        }
    }
}

/// `translate` over a view.
pub open spec fn view_translate(v: PhysView, cr3: u64, va: u64) -> Option<u64> {
    view_translate_from(v, pte_frame(cr3), va, 0)
}

/// Translation reads the memory only through its view.
pub proof fn lemma_view_translate<M: GuestPhysical>(m: &M, table: u64, va: u64, level: int)
    ensures
        translate_from(m, table, va, level) == view_translate_from(view_of(m), table, va, level),
    decreases 4 - level,
{
    if 0 <= level < 4 {
        let at = table.wrapping_add((pt_index(va, level) * 8) as u64);
        assert(Seq::new(8, |j: int| m.phys_byte(at.wrapping_add(j as u64))) =~= Seq::new(
            8,
            |j: int| (view_of(m).byte)(at.wrapping_add(j as u64)),
        ));
        let pte = view_u64(view_of(m), at);
        lemma_view_translate(m, pte_frame(pte), va, level + 1);
    }
}

/// The `u64` at linear `va` when all eight of its bytes translate, each read where it
/// translates to.
pub open spec fn view_word(v: PhysView, cr3: u64, va: u64) -> Option<u64> {
    if forall|j: int| 0 <= j < 8 ==> #[trigger] view_translate(v, cr3, va.wrapping_add(j as u64)) is Some {
        Some(
            spec_u64_from_le_bytes(
                Seq::new(
                    8,
                    |j: int| (v.byte)(view_translate(v, cr3, va.wrapping_add(j as u64))->0),
                ),
            ),
        )
    } else {
        None
    }
}

/// Translate `va` in a memory whose view is `v`.
pub(crate) fn translate_in<M: GuestPhysical>(m: &mut M, Ghost(v): Ghost<PhysView>, cr3: u64, va: u64) -> (r:
    Option<u64>)
    requires
        view_of(old(m)) == v,
    ensures
        r == view_translate(v, cr3, va),
        view_of(final(m)) == v,
{
    let ghost before = *m;
    let r = translate_long(m, cr3, va);
    proof {
        lemma_view_translate(&before, pte_frame(cr3), va, 0);
        lemma_same_view(m, &before);
    }
    r
}

/// Read the physical byte at `pa` in a memory whose view is `v`.
pub(crate) fn byte_in<M: GuestPhysical>(m: &mut M, Ghost(v): Ghost<PhysView>, pa: u64) -> (b: u8)
    requires
        view_of(old(m)) == v,
    ensures
        b == (v.byte)(pa),
        view_of(final(m)) == v,
{
    let ghost before = *m;
    let b = m.read_physical_u8(pa);
    proof {
        assert(same_memory(m, &before));
        lemma_same_view(m, &before);
    }
    b
}

/// Write `val` at `pa`.
pub(crate) fn write_in<M: GuestPhysical>(m: &mut M, Ghost(v): Ghost<PhysView>, pa: u64, val: u8)
    requires
        view_of(old(m)) == v,
    ensures
        view_of(final(m)) == view_write(v, pa, val),
{
    m.write_physical_u8(pa, val);
    assert(view_of(m) =~= view_write(v, pa, val));
}

/// Read the word at linear `va`, byte by byte through the page tables.
pub(crate) fn word_in<M: GuestPhysical>(m: &mut M, Ghost(v): Ghost<PhysView>, cr3: u64, va: u64) -> (r:
    Option<u64>)
    requires
        view_of(old(m)) == v,
    ensures
        r == view_word(v, cr3, va),
        view_of(final(m)) == v,
{
    let mut bytes: Vec<u8> = Vec::new();
    let mut j: u64 = 0;
    while j < 8
        invariant
            j <= 8,
            view_of(m) == v,
            bytes@.len() == j,
            forall|k: int| 0 <= k < j ==> #[trigger] view_translate(v, cr3, va.wrapping_add(k as u64)) is Some,
            forall|k: int|
                0 <= k < j ==> #[trigger] bytes@[k] == (v.byte)(
                    view_translate(v, cr3, va.wrapping_add(k as u64))->0,
                ),
        decreases 8 - j,
    {
        match translate_in(m, Ghost(v), cr3, va.wrapping_add(j)) {
            Some(pa) => {
                let b = byte_in(m, Ghost(v), pa);
                bytes.push(b);
            },
            None => {
                assert(view_translate(v, cr3, va.wrapping_add((j as int) as u64)) is None);
                return None;
            },
        }
        j += 1;
    }
    assert(bytes@ =~= Seq::new(
        8,
        |k: int| (v.byte)(view_translate(v, cr3, va.wrapping_add(k as u64))->0),
    ));
    Some(u64_from_le_bytes(bytes.as_slice()))
}

/// Size of a win32k session handle-table entry.
pub const TYPE5_ENTRY_STRIDE: u64 = 0x18;

/// Offset of the object-type byte in a handle-table entry.
pub const TYPE5_TYPE_OFF: u64 = 0x0e;

/// The HOOK object type.
pub const TYPE5_HOOK_TYPE: u8 = 5;

/// The historical session handle-table base.
pub const TYPE5_DEFAULT_TABLE_BASE: u64 = 0xffff_f900_c020_0000;

/// The default number of entries scanned.
pub const TYPE5_DEFAULT_MAX_ENTRIES: u32 = 512;

/// The most entries ever scanned.
pub const TYPE5_ENTRY_CAP: u32 = 4096;

/// The type byte of historical entry 198, always re-cleared.
pub const TYPE5_LEGACY_TYPE_VA: u64 = 0xffff_f900_c020_129e;

/// What one handle-table entry calls for.
#[derive(Debug, Clone, Copy, PartialEq, Eq, Structural)]
pub enum Type5Step {
    /// The entry's type byte does not translate: the scan ends.
    Stop,
    /// Not a HOOK entry.
    Skip,
    /// A healthy HOOK entry.
    Keep,
    /// A HOOK entry to free by zeroing its type byte at this physical address.
    Clear(u64),
}

/// The step for the entry at linear address `entry`.
pub open spec fn type5_entry(v: PhysView, cr3: u64, entry: u64) -> Type5Step {
    match view_translate(v, cr3, entry.wrapping_add(TYPE5_TYPE_OFF)) {
        None => Type5Step::Stop,
        Some(tpa) => if (v.byte)(tpa) != TYPE5_HOOK_TYPE {
            Type5Step::Skip
        } else {
            match view_word(v, cr3, entry) {
                None => Type5Step::Clear(tpa),
                Some(raw) => {
                    let obj = raw & !7u64;
                    let head = if obj == 0 {
                        Some(0u64)
                    } else {
                        view_word(v, cr3, obj)
                    };
                    if hook_entry_is_bad(raw, head) {
                        Type5Step::Clear(tpa)
                    } else {
                        Type5Step::Keep
                    }
                },
            }
        },
    }
}

/// The scan of entries `idx..max` of the table at `base`: the memory after it, the indices
/// it cleared, and how many HOOK entries it saw.
pub open spec fn type5_scan(v: PhysView, cr3: u64, base: u64, idx: nat, max: nat) -> (
    PhysView,
    Seq<u32>,
    nat,
)
    decreases max - idx,
{
    if idx >= max {
        (v, Seq::empty(), 0)
    } else {
        let entry = base.wrapping_add((idx * TYPE5_ENTRY_STRIDE) as u64);
        match type5_entry(v, cr3, entry) {
            Type5Step::Stop => (v, Seq::empty(), 0),
            Type5Step::Skip => type5_scan(v, cr3, base, idx + 1, max),
            Type5Step::Keep => {
                let r = type5_scan(v, cr3, base, idx + 1, max);
                (r.0, r.1, r.2 + 1)
            },
            Type5Step::Clear(tpa) => {
                let r = type5_scan(view_write(v, tpa, 0), cr3, base, idx + 1, max);
                (r.0, seq![idx as u32] + r.1, r.2 + 1)
            },
        }
    }
}

/// `s` with `x` appended unless it holds it already.
pub open spec fn push_new(s: Seq<u64>, x: u64) -> Seq<u64> {
    if s.contains(x) {
        s
    } else {
        s.push(x)
    }
}

/// Page-table roots of processes that map session space in the captured bring-up state
/// (winlogon, winpeshl, csrss session 0, csrss session 1, services, System).
pub open spec fn known_session_dtbs() -> Seq<u64> {
    seq![0x2b2f_b000u64, 0x2a60_1000u64, 0x2c05_f000u64, 0x2b87_5000u64, 0x2b52_c000u64, 0x187_000u64]
}

/// The roots tried for session space: an explicit one first, then the current `CR3`, then
/// the known ones, without repeats after the first.
pub open spec fn type5_candidates(cr3: u64, extra: Option<u64>) -> Seq<u64> {
    let d = known_session_dtbs();
    let base = push_new(
        push_new(
            push_new(
                push_new(push_new(push_new(seq![cr3 & !0xfffu64], d[0]), d[1]), d[2]),
                d[3],
            ),
            d[4],
        ),
        d[5],
    );
    match extra {
        Some(c) => seq![c & !0xfffu64] + base,
        None => base,
    }
}

/// The first of `cands[i..]` under which `va` translates.
pub open spec fn first_mapped(v: PhysView, cands: Seq<u64>, va: u64, i: int) -> Option<u64>
    decreases cands.len() - i,
{
    if i < 0 || i >= cands.len() {
        None
    } else if view_translate(v, cands[i], va) is Some {
        Some(cands[i])
    } else {
        first_mapped(v, cands, va, i + 1)
    }
}

/// The outcome of the handle-table repair.
#[derive(Debug, Clone, PartialEq, Eq)]
pub struct Type5Report {
    pub table_base: u64,
    pub cr3: u64,
    pub scanned_type5: u32,
    /// The indices of the entries freed, in order (198 for the historical entry).
    pub cleared: Vec<u32>,
}

/// Why the repair did not run.
#[derive(Debug, Clone, Copy, PartialEq, Eq, Structural)]
pub enum Type5Error {
    /// The CPU is not in long mode with paging.
    NotLongMode,
    /// The table base translates under none of the roots tried.
    TableUnmapped(u64),
}

/// The memory and cleared indices after the historical entry 198 is re-cleared.
pub open spec fn type5_legacy(v: PhysView, cr3: u64, cleared: Seq<u32>) -> (PhysView, Seq<u32>) {
    match view_translate(v, cr3, TYPE5_LEGACY_TYPE_VA) {
        Some(pa) => if (v.byte)(pa) != 0 {
            (
                view_write(v, pa, 0),
                if cleared.contains(198u32) {
                    cleared
                } else {
                    cleared.push(198u32)
                },
            )
        } else {
            (v, cleared)
        },
        None => (v, cleared),
    }
}

/// The whole repair, from the memory `v` before it.
pub open spec fn type5_wedge_of(
    v: PhysView,
    long_mode: bool,
    cr3: u64,
    extra_cr3: Option<u64>,
    table_base: u64,
    max_entries: u32,
    after: PhysView,
    r: Result<Type5Report, Type5Error>,
) -> bool {
    if !long_mode {
        after == v && r == Err::<Type5Report, Type5Error>(Type5Error::NotLongMode)
    } else {
        match first_mapped(v, type5_candidates(cr3, extra_cr3), table_base, 0) {
            None => after == v && r == Err::<Type5Report, Type5Error>(
                Type5Error::TableUnmapped(table_base),
            ),
            Some(c) => {
                let max: nat = if max_entries < TYPE5_ENTRY_CAP {
                    max_entries as nat
                } else {
                    TYPE5_ENTRY_CAP as nat
                };
                let s = type5_scan(v, c, table_base, 0, max);
                let l = type5_legacy(s.0, c, s.1);
                &&& after == l.0
                &&& r matches Ok(rep)
                &&& rep.table_base == table_base
                &&& rep.cr3 == c
                &&& rep.scanned_type5 == s.2
                &&& rep.cleared@ == l.1
            },
        }
    }
}

/// The step for one entry, decided.
fn type5_step<M: GuestPhysical>(m: &mut M, Ghost(v): Ghost<PhysView>, cr3: u64, entry: u64) -> (r:
    Type5Step)
    requires
        view_of(old(m)) == v,
    ensures
        view_of(final(m)) == v,
        r == type5_entry(v, cr3, entry),
{
    let tpa = match translate_in(m, Ghost(v), cr3, entry.wrapping_add(TYPE5_TYPE_OFF)) {
        Some(p) => p,
        None => {
            return Type5Step::Stop;
        },
    };
    let typ = byte_in(m, Ghost(v), tpa);
    if typ != TYPE5_HOOK_TYPE {
        return Type5Step::Skip;
    }
    let raw = match word_in(m, Ghost(v), cr3, entry) {
        Some(w) => w,
        None => {
            return Type5Step::Clear(tpa);
        },
    };
    let obj = raw & !7u64;
    let head = if obj == 0 {
        Some(0u64)
    } else {
        word_in(m, Ghost(v), cr3, obj)
    };
    if type5_hook_entry_is_bad(raw, head) {
        Type5Step::Clear(tpa)
    } else {
        Type5Step::Keep
    }
}

/// Scan the win32k session handle table and free (zero the type byte of) every HOOK entry
/// that would livelock the window manager's `Find` walk: a null object, or one whose
/// `HEAD.h` is unreadable or null. The table is read under the first root that maps it.
/// The historical entry 198 is always re-cleared.
pub fn wedge_type5_handle_table<M: GuestPhysical>(
    m: &mut M,
    long_mode: bool,
    cr3: u64,
    extra_cr3: Option<u64>,
    table_base: u64,
    max_entries: u32,
) -> (r: Result<Type5Report, Type5Error>)
    ensures
        type5_wedge_of(
            view_of(old(m)),
            long_mode,
            cr3,
            extra_cr3,
            table_base,
            max_entries,
            view_of(final(m)),
            r,
        ),
{
    let ghost v0 = view_of(m);
    if !long_mode {
        return Err(Type5Error::NotLongMode);
    }
    let known: [u64; 6] = [0x2b2f_b000, 0x2a60_1000, 0x2c05_f000, 0x2b87_5000, 0x2b52_c000, 0x187_000];
    assert(known@ =~= known_session_dtbs());
    let mut cands: Vec<u64> = Vec::new();
    cands.push(cr3 & !0xfffu64);
    let mut k: usize = 0;
    while k < 6
        invariant
            k <= 6,
            known@ == known_session_dtbs(),
            cands@ == (if k == 0 {
                seq![cr3 & !0xfffu64]
            } else if k == 1 {
                push_new(seq![cr3 & !0xfffu64], known@[0])
            } else if k == 2 {
                push_new(push_new(seq![cr3 & !0xfffu64], known@[0]), known@[1])
            } else if k == 3 {
                push_new(push_new(push_new(seq![cr3 & !0xfffu64], known@[0]), known@[1]), known@[2])
            } else if k == 4 {
                push_new(
                    push_new(push_new(push_new(seq![cr3 & !0xfffu64], known@[0]), known@[1]), known@[2]),
                    known@[3],
                )
            } else if k == 5 {
                push_new(
                    push_new(
                        push_new(push_new(push_new(seq![cr3 & !0xfffu64], known@[0]), known@[1]), known@[2]),
                        known@[3],
                    ),
                    known@[4],
                )
            } else {
                push_new(
                    push_new(
                        push_new(
                            push_new(push_new(push_new(seq![cr3 & !0xfffu64], known@[0]), known@[1]), known@[2]),
                            known@[3],
                        ),
                        known@[4],
                    ),
                    known@[5],
                )
            }),
        decreases 6 - k,
    {
        let d = known[k];
        let mut present = false;
        let mut q: usize = 0;
        while q < cands.len()
            invariant
                q <= cands@.len(),
                present == (exists|i: int| 0 <= i < q && cands@[i] == d),
            decreases cands@.len() - q,
        {
            if cands[q] == d {
                present = true;
            }
            q += 1;
        }
        proof {
            if present {
                let i = choose|i: int| 0 <= i < q && cands@[i] == d;
                assert(cands@.contains(d));
            } else {
                assert(!cands@.contains(d));
            }
        }
        if !present {
            cands.push(d);
        }
        k += 1;
    }
    if let Some(c) = extra_cr3 {
        cands.insert(0, c & !0xfffu64);
    }
    assert(cands@ =~= type5_candidates(cr3, extra_cr3));
    let ghost all = cands@;
    let mut i: usize = 0;
    let mut chosen: Option<u64> = None;
    while i < cands.len()
        invariant_except_break
            i <= cands@.len(),
            cands@ == all,
            view_of(m) == v0,
            chosen is None,
            first_mapped(v0, all, table_base, 0) == first_mapped(v0, all, table_base, i as int),
        ensures
            view_of(m) == v0,
            match chosen {
                Some(c) => first_mapped(v0, all, table_base, 0) == Some(c),
                None => first_mapped(v0, all, table_base, 0) is None,
            },
        decreases cands@.len() - i,
    {
        if translate_in(m, Ghost(v0), cands[i], table_base).is_some() {
            chosen = Some(cands[i]);
            break;
        }
        i += 1;
    }
    let c = match chosen {
        Some(c) => c,
        None => {
            return Err(Type5Error::TableUnmapped(table_base));
        },
    };
    let max: u32 = if max_entries < TYPE5_ENTRY_CAP {
        max_entries
    } else {
        TYPE5_ENTRY_CAP
    };
    let ghost whole = type5_scan(v0, c, table_base, 0, max as nat);
    let mut cleared: Vec<u32> = Vec::new();
    let mut scanned: u32 = 0;
    let mut idx: u32 = 0;
    let mut done = false;
    while idx < max && !done
        invariant
            idx <= max <= TYPE5_ENTRY_CAP,
            scanned <= idx,
            done ==> type5_scan(view_of(m), c, table_base, idx as nat, max as nat) == (
                view_of(m),
                Seq::<u32>::empty(),
                0nat,
            ),
            whole.0 == type5_scan(view_of(m), c, table_base, idx as nat, max as nat).0,
            whole.1 == cleared@ + type5_scan(view_of(m), c, table_base, idx as nat, max as nat).1,
            whole.2 == scanned + type5_scan(view_of(m), c, table_base, idx as nat, max as nat).2,
        decreases max - idx + if done {
            0int
        } else {
            1int
        },
    {
        let ghost v = view_of(m);
        let entry = table_base.wrapping_add(idx as u64 * TYPE5_ENTRY_STRIDE);
        assert(entry == table_base.wrapping_add((idx * TYPE5_ENTRY_STRIDE) as u64));
        match type5_step(m, Ghost(v), c, entry) {
            Type5Step::Stop => {
                done = true;
            },
            Type5Step::Skip => {
                idx += 1;
            },
            Type5Step::Keep => {
                scanned += 1;
                idx += 1;
            },
            Type5Step::Clear(tpa) => {
                write_in(m, Ghost(v), tpa, 0);
                let ghost rest = type5_scan(
                    view_write(v, tpa, 0),
                    c,
                    table_base,
                    (idx + 1) as nat,
                    max as nat,
                );
                let ghost before = cleared@;
                cleared.push(idx);
                assert(before + (seq![idx] + rest.1) =~= cleared@ + rest.1);
                scanned += 1;
                idx += 1;
            },
        }
    }
    proof {
        if !done {
            assert(cleared@ + Seq::<u32>::empty() =~= cleared@);
        } else {
            assert(cleared@ + Seq::<u32>::empty() =~= cleared@);
        }
    }
    let ghost v1 = view_of(m);
    if let Some(pa) = translate_in(m, Ghost(v1), c, TYPE5_LEGACY_TYPE_VA) {
        if byte_in(m, Ghost(v1), pa) != 0 {
            write_in(m, Ghost(v1), pa, 0);
            let mut found198 = false;
            let mut q: usize = 0;
            while q < cleared.len()
                invariant
                    q <= cleared@.len(),
                    found198 == (exists|j: int| 0 <= j < q && cleared@[j] == 198u32),
                decreases cleared@.len() - q,
            {
                if cleared[q] == 198 {
                    found198 = true;
                }
                q += 1;
            }
            proof {
                if found198 {
                    let j = choose|j: int| 0 <= j < q && cleared@[j] == 198u32;
                    assert(cleared@.contains(198u32));
                }
            }
            if !found198 {
                cleared.push(198);
            }
        }
    }
    Ok(Type5Report { table_base, cr3: c, scanned_type5: scanned, cleared })
}

/// How many bytes UTF-8 uses for `c`.
pub open spec fn utf8_width(c: char) -> nat {
    if (c as u32) < 0x80 {
        1
    } else if (c as u32) < 0x800 {
        2
    } else if (c as u32) < 0x1_0000 {
        3
    } else {
        4
    }
}

/// How many bytes UTF-8 uses for `s`.
pub open spec fn utf8_len(s: Seq<char>) -> nat
    decreases s.len(),
{
    if s.len() == 0 {
        0
    } else {
        utf8_len(s.drop_last()) + utf8_width(s.last())
    }
}

/// `s` without its white space.
pub open spec fn non_space(s: Seq<char>) -> Seq<char>
    decreases s.len(),
{
    if s.len() == 0 {
        s
    } else if is_white_space(s.last()) {
        non_space(s.drop_last())
    } else {
        non_space(s.drop_last()).push(s.last())
    }
}

/// What reading two-character hexadecimal bytes comes to.
pub enum PairsRead {
    Bytes(Seq<u8>),
    /// The text that is not a hexadecimal byte.
    Bad(Seq<char>),
    /// Slicing the text two bytes at a time would split a character.
    Splits,
}

/// Reading bytes from character `k` of `h` (where the characters before `k` are ASCII and
/// `k` is even): two characters make a byte as `u8::from_str_radix(_, 16)` reads them.
pub open spec fn hex_pairs(h: Seq<char>, k: nat) -> PairsRead
    decreases h.len() - k,
{
    if k >= h.len() {
        PairsRead::Bytes(Seq::empty())
    } else {
        let c0 = h[k as int];
        if (c0 as u32) >= 0x80 {
            if utf8_width(c0) == 2 {
                PairsRead::Bad(seq![c0])
            } else {
                PairsRead::Splits
            }
        } else if k + 1 >= h.len() {
            PairsRead::Bad(seq![c0])
        } else {
            let c1 = h[(k + 1) as int];
            if (c1 as u32) >= 0x80 {
                PairsRead::Splits
            } else {
                match parse_hex(seq![c0, c1], 255) {
                    None => PairsRead::Bad(seq![c0, c1]),
                    Some(v) => match hex_pairs(h, k + 2) {
                        PairsRead::Bytes(r) => PairsRead::Bytes(seq![v as u8] + r),
                        other => other,
                    },
                }
            }
        }
    }
}

/// Why a physical poke request failed.
#[derive(Debug, Clone, PartialEq, Eq)]
pub enum PokeError {
    /// The hex bytes of a region have an odd length (in UTF-8 bytes).
    OddHexLength(Vec<char>),
    /// A region's address is not hexadecimal.
    BadRegion(Vec<char>),
    /// Two characters that are not a hexadecimal byte.
    BadHexByte(Vec<char>),
}

/// `PokeError` as values.
pub enum PokeFault {
    OddHexLength(Seq<char>),
    BadRegion(Seq<char>),
    BadHexByte(Seq<char>),
}

impl View for PokeError {
    type V = PokeFault;

    open spec fn view(&self) -> PokeFault {
        match self {
            PokeError::OddHexLength(t) => PokeFault::OddHexLength(t@),
            PokeError::BadRegion(t) => PokeFault::BadRegion(t@),
            PokeError::BadHexByte(t) => PokeFault::BadHexByte(t@),
        }
    }
}

/// What one region `addr:hexbytes` asks for.
pub enum RegionRead {
    Write(u64, Seq<u8>),
    Fails(PokeFault),
    Splits,
}

/// The hex bytes of a region: its second `:` piece, trimmed, without white space.
pub open spec fn region_hex(region: Seq<char>) -> Seq<char> {
    let ps = pieces(region, ':');
    if ps.len() >= 2 {
        non_space(trim(ps[1]))
    } else {
        Seq::empty()
    }
}

/// A region of a poke request: the length check, then the address, then the bytes.
pub open spec fn poke_region(region: Seq<char>) -> RegionRead {
    let hex = region_hex(region);
    if utf8_len(hex) % 2 == 1 {
        RegionRead::Fails(PokeFault::OddHexLength(hex))
    } else {
        match parse_hex(strip_all(trim(pieces(region, ':')[0]), seq!['0', 'x']), u64::MAX as nat) {
            None => RegionRead::Fails(PokeFault::BadRegion(region)),
            Some(addr) => match hex_pairs(hex, 0) {
                PairsRead::Bytes(b) => RegionRead::Write(addr as u64, b),
                PairsRead::Bad(t) => RegionRead::Fails(PokeFault::BadHexByte(t)),
                PairsRead::Splits => RegionRead::Splits,
            },
        }
    }
}

/// `v` after writing `b` at `addr`, `addr + 1`, ... (addresses wrap).
pub open spec fn write_run(v: PhysView, addr: u64, b: Seq<u8>) -> PhysView
    decreases b.len(),
{
    if b.len() == 0 {
        v
    } else {
        view_write(write_run(v, addr, b.drop_last()), addr.wrapping_add((b.len() - 1) as u64), b.last())
    }
}

/// The outcome of a poke request so far.
pub enum PokeRun {
    /// Every region written: its address and length.
    Done(Seq<(u64, nat)>),
    Failed(PokeFault),
    Splits,
}

/// Regions `i..` written in order into `v`; a failing region stops the request, after the
/// regions before it were written.
pub open spec fn pokes_from(v: PhysView, regions: Seq<Seq<char>>, i: int) -> (PhysView, PokeRun)
    decreases regions.len() - i,
{
    if i < 0 || i >= regions.len() {
        (v, PokeRun::Done(Seq::empty()))
    } else {
        match poke_region(regions[i]) {
            RegionRead::Fails(e) => (v, PokeRun::Failed(e)),
            RegionRead::Splits => (v, PokeRun::Splits),
            RegionRead::Write(addr, b) => {
                let r = pokes_from(write_run(v, addr, b), regions, i + 1);
                (
                    r.0,
                    match r.1 {
                        PokeRun::Done(w) => PokeRun::Done(seq![(addr, b.len())] + w),
                        other => other,
                    },
                )
            },
        }
    }
}

fn non_space_chars(s: &Vec<char>) -> (r: Vec<char>)
    ensures
        r@ == non_space(s@),
{
    let mut r: Vec<char> = Vec::new();
    let mut i: usize = 0;
    while i < s.len()
        invariant
            i <= s@.len(),
            r@ == non_space(s@.subrange(0, i as int)),
        decreases s@.len() - i,
    {
        assert(s@.subrange(0, i + 1).drop_last() =~= s@.subrange(0, i as int));
        if !is_space(s[i]) {
            r.push(s[i]);
        }
        i += 1;
    }
    assert(s@.subrange(0, s@.len() as int) =~= s@);
    r
}

fn width_of(c: char) -> (w: usize)
    ensures
        w == utf8_width(c),
{
    let v = c as u32;
    if v < 0x80 {
        1
    } else if v < 0x800 {
        2
    } else if v < 0x1_0000 {
        3
    } else {
        4
    }
}

/// Whether `s` takes an odd number of UTF-8 bytes.
fn utf8_len_is_odd(s: &Vec<char>) -> (r: bool)
    ensures
        r == (utf8_len(s@) % 2 == 1),
{
    let mut odd = false;
    let mut i: usize = 0;
    while i < s.len()
        invariant
            i <= s@.len(),
            odd == (utf8_len(s@.subrange(0, i as int)) % 2 == 1),
        decreases s@.len() - i,
    {
        assert(s@.subrange(0, i + 1).drop_last() =~= s@.subrange(0, i as int));
        if width_of(s[i]) % 2 == 1 {
            odd = !odd;
        }
        i += 1;
    }
    assert(s@.subrange(0, s@.len() as int) =~= s@);
    odd
}

/// Parse one region; writes nothing.
pub(crate) fn read_region(region: &Vec<char>) -> (r: Result<(u64, Vec<u8>), PokeError>)
    requires
        !(poke_region(region@) is Splits),
    ensures
        match poke_region(region@) {
            RegionRead::Write(addr, b) => r matches Ok(w) && w.0 == addr && w.1@ == b,
            RegionRead::Fails(e) => r matches Err(x) && x@ == e,
            RegionRead::Splits => false,
        },
{
    let parts = split_on(region.as_slice(), ':');
    proof {
        crate::cli::lemma_pieces_nonempty(region@, ':');
    }
    let raw = if parts.len() >= 2 {
        let p = &parts[1];
        let t = trimmed(p.as_slice(), 0, p.len());
        assert(p@.subrange(0, p@.len() as int) =~= p@);
        t
    } else {
        Vec::new()
    };
    let hex = non_space_chars(&raw);
    proof {
        if parts@.len() < 2 {
            assert(raw@ =~= Seq::<char>::empty());
            assert(non_space(raw@) =~= Seq::<char>::empty());
        }
        assert(hex@ == region_hex(region@));
    }
    if utf8_len_is_odd(&hex) {
        return Err(PokeError::OddHexLength(hex));
    }
    let a = &parts[0];
    let t = trimmed(a.as_slice(), 0, a.len());
    assert(a@.subrange(0, a@.len() as int) =~= a@);
    let start = strip_hex_prefix(t.as_slice());
    let addr = match parse_hex_range(t.as_slice(), start, t.len(), u64::MAX) {
        Some(v) => v,
        None => {
            let mut copy: Vec<char> = Vec::new();
            let mut q: usize = 0;
            while q < region.len()
                invariant
                    q <= region@.len(),
                    copy@ == region@.subrange(0, q as int),
                decreases region@.len() - q,
            {
                copy.push(region[q]);
                q += 1;
                assert(copy@ =~= region@.subrange(0, q as int));
            }
            assert(copy@ =~= region@);
            return Err(PokeError::BadRegion(copy));
        },
    };
    let mut bytes: Vec<u8> = Vec::new();
    let mut k: usize = 0;
    while k < hex.len()
        invariant
            k <= hex@.len() + 1,
            k % 2 == 0,
            hex@ == region_hex(region@),
            utf8_len(hex@) % 2 != 1,
            parse_hex(strip_all(trim(pieces(region@, ':')[0]), seq!['0', 'x']), u64::MAX as nat) == Some(
                addr as nat,
            ),
            !(hex_pairs(hex@, 0) is Splits),
            match hex_pairs(hex@, 0) {
                PairsRead::Bytes(all) => match hex_pairs(hex@, k as nat) {
                    PairsRead::Bytes(rest) => all == bytes@ + rest,
                    _ => false,
                },
                other => hex_pairs(hex@, k as nat) == other,
            },
        decreases hex@.len() + 1 - k,
    {
        let c0 = hex[k];
        if (c0 as u32) >= 0x80 || k + 1 >= hex.len() {
            let mut t: Vec<char> = Vec::new();
            t.push(c0);
            assert(t@ =~= seq![c0]);
            return Err(PokeError::BadHexByte(t));
        }
        let c1 = hex[k + 1];
        let mut t: Vec<char> = Vec::new();
        t.push(c0);
        t.push(c1);
        assert(t@ =~= seq![c0, c1]);
        if (c1 as u32) >= 0x80 {
            assert(false);
            return Err(PokeError::BadHexByte(t));
        }
        let pair: [char; 2] = [c0, c1];
        assert(pair@ =~= seq![c0, c1]);
        assert(pair@.subrange(0, 2) =~= pair@);
        match parse_hex_range(pair.as_slice(), 0, 2, 255) {
            None => {
                return Err(PokeError::BadHexByte(t));
            },
            Some(v) => {
                let ghost before = bytes@;
                bytes.push(v as u8);
                proof {
                    match hex_pairs(hex@, 0) {
                        PairsRead::Bytes(all) => {
                            match hex_pairs(hex@, (k + 2) as nat) {
                                PairsRead::Bytes(rest) => {
                                    assert(before + (seq![v as u8] + rest) =~= bytes@ + rest);
                                },
                                _ => {},
                            }
                        },
                        _ => {},
                    }
                }
            },
        }
        k += 2;
    }
    proof {
        match hex_pairs(hex@, 0) {
            PairsRead::Bytes(all) => {
                assert(bytes@ + Seq::<u8>::empty() =~= bytes@);
            },
            _ => {},
        }
    }
    Ok((addr, bytes))
}

pub(crate) fn write_bytes<M: GuestPhysical>(m: &mut M, Ghost(v): Ghost<PhysView>, addr: u64, bytes: &Vec<u8>)
    requires
        view_of(old(m)) == v,
    ensures
        view_of(final(m)) == write_run(v, addr, bytes@),
{
    let mut i: usize = 0;
    while i < bytes.len()
        invariant
            i <= bytes@.len(),
            view_of(m) == write_run(v, addr, bytes@.subrange(0, i as int)),
        decreases bytes@.len() - i,
    {
        let ghost cur = view_of(m);
        write_in(m, Ghost(cur), addr.wrapping_add(i as u64), bytes[i]);
        assert(bytes@.subrange(0, i + 1).drop_last() =~= bytes@.subrange(0, i as int));
        i += 1;
    }
    assert(bytes@.subrange(0, bytes@.len() as int) =~= bytes@);
}

/// Reading regions `i..` reaches one whose hex text would be sliced through a character
/// before any region fails.
pub open spec fn splits_from(regions: Seq<Seq<char>>, i: int) -> bool
    decreases regions.len() - i,
{
    if i < 0 || i >= regions.len() {
        false
    } else {
        match poke_region(regions[i]) {
            RegionRead::Fails(_) => false,
            RegionRead::Splits => true,
            RegionRead::Write(_, _) => splits_from(regions, i + 1),
        }
    }
}

/// A poke request whose hex text, read two bytes at a time, would cut a multi-byte character
/// in half; such requests are outside what the poke functions accept.
pub open spec fn poke_splits(spec: Seq<char>) -> bool {
    splits_from(pieces(spec, ','), 0)
}

/// Whether the run splits a character does not depend on the memory.
pub proof fn lemma_splits_from(v: PhysView, regions: Seq<Seq<char>>, i: int)
    ensures
        (pokes_from(v, regions, i).1 is Splits) == splits_from(regions, i),
    decreases regions.len() - i,
{
    if 0 <= i < regions.len() {
        match poke_region(regions[i]) {
            RegionRead::Write(addr, b) => lemma_splits_from(write_run(v, addr, b), regions, i + 1),
            _ => {},
        }
    }
}

/// Whether `poke_phys_regions` would slice a character apart on `spec`.
pub fn poke_request_splits(spec: &str) -> (r: bool)
    ensures
        r == poke_splits(spec@),
{
    let chars = chars_of(spec);
    let regions = split_on(chars.as_slice(), ',');
    let ghost all = pieces(spec@, ',');
    let mut i: usize = 0;
    while i < regions.len()
        invariant
            i <= regions@.len(),
            regions@.len() == all.len(),
            forall|q: int| 0 <= q < regions@.len() ==> #[trigger] regions@[q]@ == all[q],
            all == pieces(spec@, ','),
            splits_from(all, 0) == splits_from(all, i as int),
        decreases regions@.len() - i,
    {
        assert(regions@[i as int]@ == all[i as int]);
        match region_splits(&regions[i]) {
            Some(true) => {
                return true;
            },
            Some(false) => {
                return false;
            },
            None => {},
        }
        i += 1;
    }
    false
}

/// `Some(true)` when the region splits a character, `Some(false)` when it fails, `None` when
/// it would be written.
fn region_splits(region: &Vec<char>) -> (r: Option<bool>)
    ensures
        match poke_region(region@) {
            RegionRead::Splits => r == Some(true),
            RegionRead::Fails(_) => r == Some(false),
            RegionRead::Write(_, _) => r is None,
        },
{
    let parts = split_on(region.as_slice(), ':');
    proof {
        crate::cli::lemma_pieces_nonempty(region@, ':');
    }
    let raw = if parts.len() >= 2 {
        let p = &parts[1];
        let t = trimmed(p.as_slice(), 0, p.len());
        assert(p@.subrange(0, p@.len() as int) =~= p@);
        t
    } else {
        Vec::new()
    };
    let hex = non_space_chars(&raw);
    proof {
        if parts@.len() < 2 {
            assert(raw@ =~= Seq::<char>::empty());
            assert(non_space(raw@) =~= Seq::<char>::empty());
        }
        assert(hex@ == region_hex(region@));
    }
    if utf8_len_is_odd(&hex) {
        return Some(false);
    }
    let a = &parts[0];
    let t = trimmed(a.as_slice(), 0, a.len());
    assert(a@.subrange(0, a@.len() as int) =~= a@);
    let start = strip_hex_prefix(t.as_slice());
    if parse_hex_range(t.as_slice(), start, t.len(), u64::MAX).is_none() {
        return Some(false);
    }
    let mut k: usize = 0;
    while k < hex.len()
        invariant
            k <= hex@.len() + 1,
            k % 2 == 0,
            hex@ == region_hex(region@),
            utf8_len(hex@) % 2 != 1,
            parse_hex(strip_all(trim(pieces(region@, ':')[0]), seq!['0', 'x']), u64::MAX as nat) is Some,
            (hex_pairs(hex@, 0) is Splits) == (hex_pairs(hex@, k as nat) is Splits),
            (hex_pairs(hex@, 0) is Bad) == (hex_pairs(hex@, k as nat) is Bad),
        decreases hex@.len() + 1 - k,
    {
        let c0 = hex[k];
        if (c0 as u32) >= 0x80 {
            return Some(width_of(c0) != 2);
        }
        if k + 1 >= hex.len() {
            return Some(false);
        }
        let c1 = hex[k + 1];
        if (c1 as u32) >= 0x80 {
            return Some(true);
        }
        let pair: [char; 2] = [c0, c1];
        assert(pair@ =~= seq![c0, c1]);
        assert(pair@.subrange(0, 2) =~= pair@);
        if parse_hex_range(pair.as_slice(), 0, 2, 255).is_none() {
            return Some(false);
        }
        k += 2;
    }
    None
}

/// Write physical memory: `<pa>:<hexbytes>[,...]` (hex address, contiguous hex digits for
/// bytes). Regions are written in order; the first bad region ends the request.
pub fn poke_phys_regions<M: GuestPhysical>(m: &mut M, spec: &str) -> (r: Result<Vec<(u64, usize)>, PokeError>)
    requires
        !poke_splits(spec@),
    ensures
        ({
            let p = pokes_from(view_of(old(m)), pieces(spec@, ','), 0);
            &&& view_of(final(m)) == p.0
            &&& match p.1 {
                PokeRun::Done(w) => r matches Ok(out) && out@.len() == w.len() && forall|k: int|
                    0 <= k < w.len() ==> (#[trigger] out@[k]).0 == w[k].0 && out@[k].1 == w[k].1,
                PokeRun::Failed(e) => r matches Err(x) && x@ == e,
                PokeRun::Splits => false,
            }
        }),
{
    let ghost v0 = view_of(m);
    let chars = chars_of(spec);
    let regions = split_on(chars.as_slice(), ',');
    let ghost all = pieces(spec@, ',');
    let ghost whole = pokes_from(v0, all, 0);
    proof {
        lemma_splits_from(v0, all, 0);
    }
    let mut out: Vec<(u64, usize)> = Vec::new();
    let mut i: usize = 0;
    while i < regions.len()
        invariant
            i <= regions@.len(),
            regions@.len() == all.len(),
            forall|q: int| 0 <= q < regions@.len() ==> #[trigger] regions@[q]@ == all[q],
            all == pieces(spec@, ','),
            v0 == view_of(old(m)),
            whole == pokes_from(v0, all, 0),
            !(whole.1 is Splits),
            whole.0 == pokes_from(view_of(m), all, i as int).0,
            match whole.1 {
                PokeRun::Done(w) => match pokes_from(view_of(m), all, i as int).1 {
                    PokeRun::Done(rest) => w == Seq::new(out@.len(), |k: int| (out@[k].0, out@[k].1 as nat)) + rest,
                    _ => false,
                },
                other => pokes_from(view_of(m), all, i as int).1 == other,
            },
        decreases regions@.len() - i,
    {
        let ghost v = view_of(m);
        assert(regions@[i as int]@ == all[i as int]);
        let (addr, bytes) = match read_region(&regions[i]) {
            Ok(w) => w,
            Err(e) => {
                assert(pokes_from(view_of(m), all, i as int).1 == PokeRun::Failed(e@));
                return Err(e);
            },
        };
        write_bytes(m, Ghost(v), addr, &bytes);
        let ghost before = Seq::new(out@.len(), |k: int| (out@[k].0, out@[k].1 as nat));
        out.push((addr, bytes.len()));
        proof {
            match whole.1 {
                PokeRun::Done(w) => {
                    match pokes_from(view_of(m), all, i + 1).1 {
                        PokeRun::Done(rest) => {
                            assert(Seq::new(out@.len(), |k: int| (out@[k].0, out@[k].1 as nat)) =~= before.push(
                                (addr, bytes@.len()),
                            ));
                            assert(before + (seq![(addr, bytes@.len())] + rest) =~= Seq::new(
                                out@.len(),
                                |k: int| (out@[k].0, out@[k].1 as nat),
                            ) + rest);
                        },
                        _ => {},
                    }
                },
                _ => {},
            }
        }
        i += 1;
    }
    proof {
        match whole.1 {
            PokeRun::Done(w) => {
                assert(w =~= Seq::new(out@.len(), |k: int| (out@[k].0, out@[k].1 as nat)));
            },
            _ => {},
        }
    }
    Ok(out)
}

} // verus!
