//! Forcing the boot processor into a chosen process context: parsing the request
//! `cr3=<hex>,rip=<hex>,rsp=<hex>[,rax=..][,rcx=..][,rdx=..][,rbx=..][,teb=..][,kernel=..]`
//! and the register state it leaves.

use vstd::prelude::*;

use crate::cli::{
    chars_equal, hex_text, is_white_space, parse_hex, parse_hex_chars, pieces, split_on, trim,
    trim_end, trim_start, BadHex,
};
use crate::text::{chars_of, lower_code};

verus! {

/// What a forced resume sets.
#[derive(Debug, Clone, Copy, PartialEq, Eq, Structural)]
pub struct ResumeRequest {
    pub cr3: u64,
    pub rip: u64,
    pub rsp: u64,
    pub rax: u64,
    pub rcx: Option<u64>,
    pub rdx: Option<u64>,
    pub rbx: Option<u64>,
    pub teb: Option<u64>,
    /// Resume at CPL0 rather than CPL3.
    pub kernel: bool,
}

/// The keys read so far.
#[derive(Debug, Clone, Copy, PartialEq, Eq, Structural)]
pub struct ResumeFields {
    pub cr3: Option<u64>,
    pub rip: Option<u64>,
    pub rsp: Option<u64>,
    pub rax: u64,
    pub rcx: Option<u64>,
    pub rdx: Option<u64>,
    pub rbx: Option<u64>,
    pub teb: Option<u64>,
    pub kernel: bool,
}

/// No key read yet.
pub open spec fn no_fields() -> ResumeFields {
    ResumeFields {
        cr3: None,
        rip: None,
        rsp: None,
        rax: 0,
        rcx: None,
        rdx: None,
        rbx: None,
        teb: None,
        kernel: false,
    }
}

/// A request that cannot be carried out.
#[derive(Debug, Clone, PartialEq, Eq)]
pub enum ResumeError {
    /// A value is not hexadecimal.
    BadHex(BadHex),
    /// A key (lower-cased) that is not one of the known ones.
    UnknownKey(Vec<char>),
    MissingCr3,
    MissingRip,
    MissingRsp,
}

/// `ResumeError` as a value.
pub enum ResumeFault {
    BadHex(Seq<char>),
    UnknownKey(Seq<char>),
    MissingCr3,
    MissingRip,
    MissingRsp,
}

impl View for ResumeError {
    type V = ResumeFault;

    open spec fn view(&self) -> ResumeFault {
        match self {
            ResumeError::BadHex(e) => ResumeFault::BadHex(e.text@),
            ResumeError::UnknownKey(k) => ResumeFault::UnknownKey(k@),
            ResumeError::MissingCr3 => ResumeFault::MissingCr3,
            ResumeError::MissingRip => ResumeFault::MissingRip,
            ResumeError::MissingRsp => ResumeFault::MissingRsp,
        }
    }
}

/// The index of the first `c` in `s` at or after `from`.
pub open spec fn first_index_of(s: Seq<char>, c: char, from: int) -> Option<int>
    decreases s.len() - from,
{
    if from < 0 || from >= s.len() {
        None
    } else if s[from] == c {
        Some(from)
    } else {
        first_index_of(s, c, from + 1)
    }
}

/// The key and the value of `key=value`, each trimmed; without `=` the value is empty.
pub open spec fn key_and_value(p: Seq<char>) -> (Seq<char>, Seq<char>) {
    match first_index_of(p, '=', 0) {
        Some(i) => (trim(p.subrange(0, i)), trim(p.subrange(i + 1, p.len() as int))),
        None => (trim(p), Seq::empty()),
    }
}

/// `s` with its ASCII letters lower-cased.
pub open spec fn ascii_lower(s: Seq<char>) -> Seq<char> {
    Seq::new(s.len(), |i: int| lower_code(s[i] as u32) as char)
}

/// A hexadecimal value, or the text that is not one.
pub open spec fn hex_field(v: Seq<char>) -> Result<u64, Seq<char>> {
    match parse_hex(hex_text(v), u64::MAX as nat) {
        Some(x) => Ok(x as u64),
        None => Err(hex_text(v)),
    }
}

/// The values of `kernel` that turn it on.
pub open spec fn switch_on(v: Seq<char>) -> bool {
    ||| v == seq!['1']
    ||| v == seq!['t', 'r', 'u', 'e']
    ||| v == seq!['y', 'e', 's']
    ||| v == seq!['o', 'n']
    ||| v.len() == 0
}

/// The fields after reading one comma-separated part of the request.
pub open spec fn apply_resume_part(f: ResumeFields, part: Seq<char>) -> Result<ResumeFields, ResumeFault> {
    let p = trim(part);
    if p.len() == 0 {
        Ok(f)
    } else {
        let kv = key_and_value(p);
        let key = ascii_lower(kv.0);
        let v = kv.1;
        if key == seq!['k', 'e', 'r', 'n', 'e', 'l'] {
            Ok(ResumeFields { kernel: switch_on(v), ..f })
        } else if key == seq!['c', 'r', '3'] || key == seq!['r', 'i', 'p'] || key == seq!['r', 's', 'p']
            || key == seq!['r', 'a', 'x'] || key == seq!['r', 'c', 'x'] || key == seq!['r', 'd', 'x']
            || key == seq!['r', 'b', 'x'] || key == seq!['t', 'e', 'b'] {
            match hex_field(v) {
                Err(t) => Err(ResumeFault::BadHex(t)),
                Ok(x) => Ok(
                    if key == seq!['c', 'r', '3'] {
                        ResumeFields { cr3: Some(x), ..f }
                    } else if key == seq!['r', 'i', 'p'] {
                        ResumeFields { rip: Some(x), ..f }
                    } else if key == seq!['r', 's', 'p'] {
                        ResumeFields { rsp: Some(x), ..f }
                    } else if key == seq!['r', 'a', 'x'] {
                        ResumeFields { rax: x, ..f }
                    } else if key == seq!['r', 'c', 'x'] {
                        ResumeFields { rcx: Some(x), ..f }
                    } else if key == seq!['r', 'd', 'x'] {
                        ResumeFields { rdx: Some(x), ..f }
                    } else if key == seq!['r', 'b', 'x'] {
                        ResumeFields { rbx: Some(x), ..f }
                    } else {
                        ResumeFields { teb: Some(x), ..f }
                    },
                ),
            }
        } else {
            Err(ResumeFault::UnknownKey(key))
        }
    }
}

/// The fields after reading parts `i..` in order; the first failing part decides.
pub open spec fn resume_fields_from(parts: Seq<Seq<char>>, i: int, f: ResumeFields) -> Result<
    ResumeFields,
    ResumeFault,
>
    decreases parts.len() - i,
{
    if i < 0 || i >= parts.len() {
        Ok(f)
    } else {
        match apply_resume_part(f, parts[i]) {
            Ok(g) => resume_fields_from(parts, i + 1, g),
            Err(e) => Err(e),
        }
    }
}

/// The request a resume specification asks for: its parts read in order, then `cr3`, `rip`
/// and `rsp` required, in that order.
pub open spec fn resume_request_of(spec: Seq<char>) -> Result<ResumeRequest, ResumeFault> {
    match resume_fields_from(pieces(spec, ','), 0, no_fields()) {
        Err(e) => Err(e),
        Ok(f) => if f.cr3 is None {
            Err(ResumeFault::MissingCr3)
        } else if f.rip is None {
            Err(ResumeFault::MissingRip)
        } else if f.rsp is None {
            Err(ResumeFault::MissingRsp)
        } else {
            Ok(
                ResumeRequest {
                    cr3: f.cr3.unwrap(),
                    rip: f.rip.unwrap(),
                    rsp: f.rsp.unwrap(),
                    rax: f.rax,
                    rcx: f.rcx,
                    rdx: f.rdx,
                    rbx: f.rbx,
                    teb: f.teb,
                    kernel: f.kernel,
                },
            )
        },
    }
}

fn is_space_char(c: char) -> (r: bool)
    ensures
        r == is_white_space(c),
{
    let v = c as u32;
    (v >= 0x09 && v <= 0x0D) || v == 0x20 || v == 0x85 || v == 0xA0 || v == 0x1680 || (v
        >= 0x2000 && v <= 0x200A) || v == 0x2028 || v == 0x2029 || v == 0x202F || v == 0x205F
        || v == 0x3000
}

/// `s[a..b]` trimmed, as a new run of characters.
pub(crate) fn trimmed(s: &[char], a: usize, b: usize) -> (r: Vec<char>)
    requires
        a <= b <= s@.len(),
    ensures
        r@ == trim(s@.subrange(a as int, b as int)),
{
    let ghost t = s@.subrange(a as int, b as int);
    let mut lo = a;
    assert(t =~= s@.subrange(lo as int, b as int));
    while lo < b && is_space_char(s[lo])
        invariant
            a <= lo <= b <= s@.len(),
            t == s@.subrange(a as int, b as int),
            trim_start(t) == trim_start(s@.subrange(lo as int, b as int)),
        decreases b - lo,
    {
        assert(s@.subrange(lo as int, b as int).drop_first() =~= s@.subrange(lo + 1, b as int));
        lo += 1;
    }
    let mut hi = b;
    while hi > lo && is_space_char(s[hi - 1])
        invariant
            a <= lo <= hi <= b <= s@.len(),
            t == s@.subrange(a as int, b as int),
            trim_start(t) == s@.subrange(lo as int, b as int),
            trim(t) == trim_end(s@.subrange(lo as int, hi as int)),
        decreases hi - lo,
    {
        assert(s@.subrange(lo as int, hi as int).drop_last() =~= s@.subrange(lo as int, hi - 1));
        hi -= 1;
    }
    let mut r: Vec<char> = Vec::new();
    let mut k = lo;
    while k < hi
        invariant
            lo <= k <= hi <= s@.len(),
            r@ == s@.subrange(lo as int, k as int),
        decreases hi - k,
    {
        r.push(s[k]);
        k += 1;
        assert(r@ =~= s@.subrange(lo as int, k as int));
    }
    r
}

/// `c` with an ASCII capital lower-cased.
fn lower_char(c: char) -> (r: char)
    ensures
        r == lower_code(c as u32) as char,
{
    if c >= 'A' && c <= 'Z' {
        let v = c as u8 + 32;
        v as char
    } else {
        c
    }
}

pub(crate) fn lower_all(s: &Vec<char>) -> (r: Vec<char>)
    ensures
        r@ == ascii_lower(s@),
{
    let mut r: Vec<char> = Vec::new();
    let mut i: usize = 0;
    while i < s.len()
        invariant
            i <= s@.len(),
            r@ == ascii_lower(s@).subrange(0, i as int),
        decreases s@.len() - i,
    {
        r.push(lower_char(s[i]));
        i += 1;
        assert(r@ =~= ascii_lower(s@).subrange(0, i as int));
    }
    assert(r@ =~= ascii_lower(s@));
    r
}

/// The index of the first `c` in `s`.
fn find_char(s: &[char], c: char) -> (r: Option<usize>)
    ensures
        match first_index_of(s@, c, 0) {
            Some(i) => r == Some(i as usize),
            None => r is None,
        },
        r matches Some(i) ==> i < s@.len() && first_index_of(s@, c, 0) == Some(i as int),
{
    let mut i: usize = 0;
    while i < s.len()
        invariant
            i <= s@.len(),
            first_index_of(s@, c, 0) == first_index_of(s@, c, i as int),
        decreases s@.len() - i,
    {
        if s[i] == c {
            return Some(i);
        }
        i += 1;
    }
    None
}

fn is_key(key: &Vec<char>, name: &[char]) -> (r: bool)
    ensures
        r == (key@ == name@),
{
    chars_equal(key.as_slice(), name)
}

/// Read one part of a resume specification into `f`.
fn apply_part(f: ResumeFields, part: &Vec<char>) -> (r: Result<ResumeFields, ResumeError>)
    ensures
        match apply_resume_part(f, part@) {
            Ok(g) => r == Ok::<ResumeFields, ResumeError>(g),
            Err(e) => r matches Err(x) && x@ == e,
        },
{
    let p = trimmed(part.as_slice(), 0, part.len());
    assert(part@.subrange(0, part@.len() as int) =~= part@);
    if p.len() == 0 {
        return Ok(f);
    }
    let found = find_char(p.as_slice(), '=');
    let k: Vec<char>;
    let v: Vec<char>;
    match found {
        Some(i) => {
            k = trimmed(p.as_slice(), 0, i);
            v = trimmed(p.as_slice(), i + 1, p.len());
            assert(first_index_of(p@, '=', 0) == Some(i as int));
            assert(k@ == key_and_value(p@).0);
            assert(v@ == key_and_value(p@).1);
        },
        None => {
            assert(p@.subrange(0, p@.len() as int) =~= p@);
            k = trimmed(p.as_slice(), 0, p.len());
            v = Vec::new();
            assert(v@ =~= Seq::<char>::empty());
            assert(first_index_of(p@, '=', 0) is None);
            assert(k@ == key_and_value(p@).0);
        },
    }
    assert(k@ == key_and_value(p@).0 && v@ == key_and_value(p@).1);
    let key = lower_all(&k);
    let kernel: [char; 6] = ['k', 'e', 'r', 'n', 'e', 'l'];
    let cr3: [char; 3] = ['c', 'r', '3'];
    let rip: [char; 3] = ['r', 'i', 'p'];
    let rsp: [char; 3] = ['r', 's', 'p'];
    let rax: [char; 3] = ['r', 'a', 'x'];
    let rcx: [char; 3] = ['r', 'c', 'x'];
    let rdx: [char; 3] = ['r', 'd', 'x'];
    let rbx: [char; 3] = ['r', 'b', 'x'];
    let teb: [char; 3] = ['t', 'e', 'b'];
    assert(kernel@ =~= seq!['k', 'e', 'r', 'n', 'e', 'l']);
    assert(cr3@ =~= seq!['c', 'r', '3']);
    assert(rip@ =~= seq!['r', 'i', 'p']);
    assert(rsp@ =~= seq!['r', 's', 'p']);
    assert(rax@ =~= seq!['r', 'a', 'x']);
    assert(rcx@ =~= seq!['r', 'c', 'x']);
    assert(rdx@ =~= seq!['r', 'd', 'x']);
    assert(rbx@ =~= seq!['r', 'b', 'x']);
    assert(teb@ =~= seq!['t', 'e', 'b']);
    if is_key(&key, kernel.as_slice()) {
        let one: [char; 1] = ['1'];
        let tru: [char; 4] = ['t', 'r', 'u', 'e'];
        let yes: [char; 3] = ['y', 'e', 's'];
        let on: [char; 2] = ['o', 'n'];
        assert(one@ =~= seq!['1']);
        assert(tru@ =~= seq!['t', 'r', 'u', 'e']);
        assert(yes@ =~= seq!['y', 'e', 's']);
        assert(on@ =~= seq!['o', 'n']);
        let vs = v.as_slice();
        let kernel_on = chars_equal(vs, one.as_slice()) || chars_equal(vs, tru.as_slice())
            || chars_equal(vs, yes.as_slice()) || chars_equal(vs, on.as_slice()) || v.len() == 0;
        return Ok(ResumeFields { kernel: kernel_on, ..f });
    }
    let is_hex_key = is_key(&key, cr3.as_slice()) || is_key(&key, rip.as_slice()) || is_key(
        &key,
        rsp.as_slice(),
    ) || is_key(&key, rax.as_slice()) || is_key(&key, rcx.as_slice()) || is_key(
        &key,
        rdx.as_slice(),
    ) || is_key(&key, rbx.as_slice()) || is_key(&key, teb.as_slice());
    if !is_hex_key {
        return Err(ResumeError::UnknownKey(key));
    }
    let x = match parse_hex_chars(v.as_slice()) {
        Ok(x) => x,
        Err(e) => {
            return Err(ResumeError::BadHex(e));
        },
    };
    if is_key(&key, cr3.as_slice()) {
        Ok(ResumeFields { cr3: Some(x), ..f })
    } else if is_key(&key, rip.as_slice()) {
        Ok(ResumeFields { rip: Some(x), ..f })
    } else if is_key(&key, rsp.as_slice()) {
        Ok(ResumeFields { rsp: Some(x), ..f })
    } else if is_key(&key, rax.as_slice()) {
        Ok(ResumeFields { rax: x, ..f })
    } else if is_key(&key, rcx.as_slice()) {
        Ok(ResumeFields { rcx: Some(x), ..f })
    } else if is_key(&key, rdx.as_slice()) {
        Ok(ResumeFields { rdx: Some(x), ..f })
    } else if is_key(&key, rbx.as_slice()) {
        Ok(ResumeFields { rbx: Some(x), ..f })
    } else {
        Ok(ResumeFields { teb: Some(x), ..f })
    }
}

/// Parse a forced-resume specification.
pub fn parse_force_resume(spec: &str) -> (r: Result<ResumeRequest, ResumeError>)
    ensures
        match resume_request_of(spec@) {
            Ok(q) => r == Ok::<ResumeRequest, ResumeError>(q),
            Err(e) => r matches Err(x) && x@ == e,
        },
{
    let chars = chars_of(spec);
    let parts = split_on(chars.as_slice(), ',');
    let ghost all = pieces(spec@, ',');
    let mut f = ResumeFields {
        cr3: None,
        rip: None,
        rsp: None,
        rax: 0,
        rcx: None,
        rdx: None,
        rbx: None,
        teb: None,
        kernel: false,
    };
    let mut i: usize = 0;
    while i < parts.len()
        invariant
            i <= parts@.len(),
            parts@.len() == all.len(),
            all == pieces(spec@, ','),
            forall|q: int| 0 <= q < parts@.len() ==> #[trigger] parts@[q]@ == all[q],
            resume_fields_from(all, 0, no_fields()) == resume_fields_from(all, i as int, f),
        decreases parts@.len() - i,
    {
        match apply_part(f, &parts[i]) {
            Ok(g) => {
                f = g;
            },
            Err(e) => {
                return Err(e);
            },
        }
        i += 1;
    }
    if f.cr3.is_none() {
        return Err(ResumeError::MissingCr3);
    }
    if f.rip.is_none() {
        return Err(ResumeError::MissingRip);
    }
    if f.rsp.is_none() {
        return Err(ResumeError::MissingRsp);
    }
    Ok(
        ResumeRequest {
            cr3: f.cr3.unwrap(),
            rip: f.rip.unwrap(),
            rsp: f.rsp.unwrap(),
            rax: f.rax,
            rcx: f.rcx,
            rdx: f.rdx,
            rbx: f.rbx,
            teb: f.teb,
            kernel: f.kernel,
        },
    )
}

/// A segment register as the processor holds it.
#[derive(Debug, Clone, Copy, PartialEq, Eq, Structural)]
pub struct Segment {
    pub selector: u16,
    pub base: u64,
    pub limit: u32,
    pub access: u32,
}

/// The registers a forced resume reads or writes.
#[derive(Debug, Clone, Copy)]
pub struct ResumeRegs {
    /// RAX, RCX, RDX, RBX, RSP, RBP, RSI, RDI, R8..R15.
    pub gpr: [u64; 16],
    pub rip: u64,
    pub rflags: u64,
    pub halted: bool,
    pub cr2: u64,
    pub cr3: u64,
    pub cr8: u64,
    pub cs: Segment,
    pub ss: Segment,
    pub ds: Segment,
    pub es: Segment,
    pub fs: Segment,
    pub gs: Segment,
    pub gs_base: u64,
    pub kernel_gs_base: u64,
}

/// `RFLAGS` with only the always-one bit and `IF` set.
pub const RESUME_RFLAGS: u64 = 0x202;

/// Present, S, DPL `dpl`, execute/read accessed code, 64-bit.
pub open spec fn code_access(dpl: u32) -> u32 {
    0x80 | (dpl << 5) | 0x10 | 0xB | 0x200
}

/// Present, S, DPL `dpl`, read/write accessed data.
pub open spec fn data_access(dpl: u32) -> u32 {
    0x80 | (dpl << 5) | 0x10 | 0x3
}

/// The code segment of a resume: Win7 x64 `KGDT64_R0_CODE` (0x10) in the kernel, the
/// 64-bit user code selector (0x33) otherwise.
pub open spec fn resume_cs(kernel: bool) -> Segment {
    if kernel {
        Segment { selector: 0x10, base: 0, limit: 0, access: 0x29B }
    } else {
        Segment { selector: 0x33, base: 0, limit: 0, access: 0x2FB }
    }
}

/// The data segment of a resume: 0x18 in the kernel, 0x2B for user mode.
pub open spec fn resume_data(kernel: bool) -> Segment {
    if kernel {
        Segment { selector: 0x18, base: 0, limit: 0xfffff, access: 0x93 }
    } else {
        Segment { selector: 0x2b, base: 0, limit: 0xfffff, access: 0xF3 }
    }
}

/// The general registers after a resume: RAX and RSP always set; RCX, RDX, RBX set when
/// given and otherwise kept in the kernel and cleared for user mode; for user mode RSI,
/// RDI and R8..R11 cleared too.
pub open spec fn resumed_gprs(g: Seq<u64>, q: ResumeRequest) -> Seq<u64> {
    Seq::new(
        16,
        |i: int|
            if i == 0 {
                q.rax
            } else if i == 4 {
                q.rsp
            } else if 1 <= i <= 3 {
                let given = if i == 1 {
                    q.rcx
                } else if i == 2 {
                    q.rdx
                } else {
                    q.rbx
                };
                match given {
                    Some(v) => v,
                    None => if q.kernel {
                        g[i]
                    } else {
                        0
                    },
                }
            } else if !q.kernel && (i == 6 || i == 7 || 8 <= i < 12) {
                0
            } else {
                g[i]
            },
    )
}

/// The registers after `q` is applied to `a`.
pub open spec fn resumed(a: ResumeRegs, b: ResumeRegs, q: ResumeRequest) -> bool {
    &&& b.gpr@ == resumed_gprs(a.gpr@, q)
    &&& b.rip == q.rip
    &&& b.rflags == RESUME_RFLAGS
    &&& !b.halted
    &&& b.cr2 == 0
    &&& b.cr3 == q.cr3
    &&& b.cr8 == 0
    &&& b.cs == resume_cs(q.kernel)
    &&& b.ss == resume_data(q.kernel)
    &&& b.ds == resume_data(q.kernel)
    &&& b.es == resume_data(q.kernel)
    &&& b.fs == if q.kernel {
        resume_data(true)
    } else {
        a.fs
    }
    &&& match (q.kernel, q.teb) {
        (false, Some(t)) => {
            &&& b.gs == Segment { selector: 0x2b, base: t, limit: 0xfffff, access: 0xF3 }
            &&& b.gs_base == t
            &&& b.kernel_gs_base == if a.gs_base > KERNEL_GS_MIN {
                a.gs_base
            } else {
                a.kernel_gs_base
            }
        },
        _ => {
            &&& b.gs == a.gs
            &&& b.gs_base == a.gs_base
            &&& b.kernel_gs_base == a.kernel_gs_base
        },
    }
}

/// `GS` bases above this are the kernel's processor control region.
pub const KERNEL_GS_MIN: u64 = 0xffff_8000_0000_0000;

/// Put the registers in the state `q` asks for. Long-mode `CR0`, `CR4` and `EFER` are kept;
/// user mode installs the TEB in `GS` (keeping the PCR in `KERNEL_GS_BASE` for `swapgs`).
pub fn apply_force_resume(regs: &mut ResumeRegs, q: &ResumeRequest)
    ensures
        resumed(*old(regs), *final(regs), *q),
{
    let ghost a = *regs;
    regs.cr3 = q.cr3;
    regs.cr8 = 0;
    regs.cr2 = 0;
    let (cs, data) = if q.kernel {
        (
            Segment { selector: 0x10, base: 0, limit: 0, access: 0x29B },
            Segment { selector: 0x18, base: 0, limit: 0xfffff, access: 0x93 },
        )
    } else {
        (
            Segment { selector: 0x33, base: 0, limit: 0, access: 0x2FB },
            Segment { selector: 0x2b, base: 0, limit: 0xfffff, access: 0xF3 },
        )
    };
    regs.cs = cs;
    regs.ss = data;
    regs.ds = data;
    regs.es = data;
    if q.kernel {
        regs.fs = data;
    } else if let Some(teb) = q.teb {
        let pcr = regs.gs_base;
        if pcr > KERNEL_GS_MIN {
            regs.kernel_gs_base = pcr;
        }
        regs.gs_base = teb;
        regs.gs = Segment { selector: 0x2b, base: teb, limit: 0xfffff, access: 0xF3 };
    }
    let mut g = regs.gpr;
    g.set(0, q.rax);
    g.set(4, q.rsp);
    match q.rcx {
        Some(v) => g.set(1, v),
        None => if !q.kernel {
            g.set(1, 0)
        },
    }
    match q.rdx {
        Some(v) => g.set(2, v),
        None => if !q.kernel {
            g.set(2, 0)
        },
    }
    match q.rbx {
        Some(v) => g.set(3, v),
        None => if !q.kernel {
            g.set(3, 0)
        },
    }
    if !q.kernel {
        let mut r: usize = 8;
        while r < 12
            invariant
                8 <= r <= 12,
                !q.kernel,
                g@.len() == 16,
                forall|i: int| 0 <= i < 8 ==> #[trigger] g@[i] == resumed_gprs(a.gpr@, *q)[i]
                    || i == 6 || i == 7,
                forall|i: int| 6 <= i < 8 ==> #[trigger] g@[i] == a.gpr@[i],
                forall|i: int| 8 <= i < r ==> #[trigger] g@[i] == 0,
                forall|i: int| r <= i < 16 ==> #[trigger] g@[i] == a.gpr@[i],
            decreases 12 - r,
        {
            g.set(r, 0);
            r += 1;
        }
        g.set(6, 0);
        g.set(7, 0);
    }
    regs.gpr = g;
    regs.rip = q.rip;
    regs.rflags = RESUME_RFLAGS;
    regs.halted = false;
    assert(regs.gpr@ =~= resumed_gprs(a.gpr@, *q));
}

/// Parse `spec` and, if it is a valid request, apply it; the registers are left alone
/// otherwise.
pub fn force_user_resume(regs: &mut ResumeRegs, spec: &str) -> (r: Result<ResumeRequest, ResumeError>)
    ensures
        match resume_request_of(spec@) {
            Ok(q) => r == Ok::<ResumeRequest, ResumeError>(q) && resumed(*old(regs), *final(regs), q),
            Err(e) => (r matches Err(x) && x@ == e) && *final(regs) == *old(regs),
        },
{
    let q = parse_force_resume(spec)?;
    apply_force_resume(regs, &q);
    Ok(q)
}

} // verus!
