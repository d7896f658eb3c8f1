//! The Windows 7 SP1 x64 PnP device-node tree of a stopped guest: finding the kernel image,
//! its `IopRootDeviceNode`, and the nodes whose instance paths match a filter.

use vstd::prelude::*;

use crate::cli::{pieces, same_memory, split_on, trim, GuestPhysical};
use crate::hive::{spec_utf16_lossy, utf16_string, utf16_units};
use crate::inspect::{
    contains_u64, linear_bytes, read_at, u16_at, u16_le, u32_at, u32_le, u64_at, u64_le,
    CpuSnapshot, KERNEL_SPACE,
};
use crate::resources::{
    cm_list_of, decode_cm_resource_list, decode_io_resource_requirements, io_list_of, CmFacts,
    CmList, IoFacts, IoList,
};
use crate::resume::{ascii_lower, lower_all, trimmed};
use crate::text::{chars_of, fmt_hex, push_chars, push_hex};

verus! {

/// `IopRootDeviceNode`'s RVA in the install-image kernel.
pub const IOP_ROOT_DEVICE_NODE_RVA: u64 = 0x27_03b0;

/// `IopRootDeviceNode`'s RVA in the older boot-image kernel.
pub const IOP_ROOT_DEVICE_NODE_RVA_LEGACY: u64 = 0x27_c5b0;

/// The kernel base seen on the bring-up boot, the first guess and the fallback.
pub const EXPECTED_KERNEL_BASE: u64 = 0xffff_f800_0260_f000;

/// The first page the kernel-image scan tries (2 MiB below the expected base).
pub const NTOS_SCAN_START: u64 = 0xffff_f800_0240_f000;

/// Pages scanned upward from `NTOS_SCAN_START` (to 2 MiB above the expected base).
pub const NTOS_SCAN_PAGES: u64 = 0x401;

/// Pages scanned downward from `LSTAR`.
pub const LSTAR_SCAN_PAGES: u64 = 4096;

/// Bytes of a `DEVICE_NODE` that are read.
pub const DEVICE_NODE_SIZE: usize = 0x268;

/// The most nodes walked.
pub const MAX_NODES: usize = 1024;

/// Whether the kernel image looks mapped at `base`: an `MZ` header whose `e_lfanew` (in
/// 0x40..0x400) leads to an AMD64 `PE\0\0` header with a PE32+ optional header, 1 to 64
/// sections and an image size of 4 to 32 MiB.
pub open spec fn looks_like_ntos<M: GuestPhysical>(m: &M, cr3: u64, base: u64) -> bool {
    let dos = linear_bytes(m, base, 0x40, true, cr3);
    let e = u32_le(dos, 0x3c) as u64;
    let pe = linear_bytes(m, base.wrapping_add(e), 0x58, true, cr3);
    &&& dos[0] == 0x4D && dos[1] == 0x5A
    &&& 0x40 <= e < 0x400
    &&& pe[0] == 0x50 && pe[1] == 0x45 && pe[2] == 0 && pe[3] == 0
    &&& pe[4] == 0x64 && pe[5] == 0x86
    &&& pe[24] == 0x0b && pe[25] == 0x02
    &&& 1 <= u16_le(pe, 6) <= 64
    &&& 0x40_0000 <= u32_le(pe, 0x50) <= 0x200_0000
}

/// The first of `n` pages upward from `base` where the kernel image looks mapped.
pub open spec fn scan_up<M: GuestPhysical>(m: &M, cr3: u64, base: u64, n: nat) -> Option<u64>
    decreases n,
{
    if n == 0 {
        None
    } else if looks_like_ntos(m, cr3, base) {
        Some(base)
    } else {
        scan_up(m, cr3, base.wrapping_add(0x1000), (n - 1) as nat)
    }
}

/// The first of `n` pages downward from `base` where the kernel image looks mapped, not
/// going below the kernel half.
pub open spec fn scan_down<M: GuestPhysical>(m: &M, cr3: u64, base: u64, n: nat) -> Option<u64>
    decreases n,
{
    if n == 0 {
        None
    } else if looks_like_ntos(m, cr3, base) {
        Some(base)
    } else if base < 0xffff_8000_0000_1000 {
        None
    } else {
        scan_down(m, cr3, (base - 0x1000) as u64, (n - 1) as nat)
    }
}

/// The kernel base found around the expected one, else below the system-call entry point.
pub open spec fn discovered_kernel_base<M: GuestPhysical>(m: &M, cr3: u64, lstar: u64) -> Option<u64> {
    match scan_up(m, cr3, NTOS_SCAN_START, NTOS_SCAN_PAGES as nat) {
        Some(b) => Some(b),
        None => if lstar >= KERNEL_SPACE {
            scan_down(m, cr3, lstar & !0xfffu64, LSTAR_SCAN_PAGES as nat)
        } else {
            None
        },
    }
}

fn bytes_are(b: &Vec<u8>, at: usize, want: &[u8]) -> (r: bool)
    requires
        at + want@.len() <= b.len(),
    ensures
        r == (b@.subrange(at as int, at + want@.len()) == want@),
{
    let mut i: usize = 0;
    while i < want.len()
        invariant
            i <= want@.len(),
            at + want@.len() <= b.len(),
            forall|j: int| 0 <= j < i ==> b@[at + j] == want@[j],
        decreases want@.len() - i,
    {
        if b[at + i] != want[i] {
            assert(b@.subrange(at as int, at + want@.len())[i as int] != want@[i as int]);
            return false;
        }
        i += 1;
    }
    assert(b@.subrange(at as int, at + want@.len()) =~= want@);
    true
}

fn pe_looks_like_ntos<M: GuestPhysical>(m: &mut M, Ghost(m0): Ghost<M>, cr3: u64, base: u64) -> (r:
    bool)
    requires
        same_memory(old(m), &m0),
    ensures
        r == looks_like_ntos(&m0, cr3, base),
        same_memory(final(m), &m0),
{
    let dos = read_at(m, Ghost(m0), base, 0x40, true, cr3);
    if !(dos[0] == 0x4D && dos[1] == 0x5A) {
        return false;
    }
    let e = u32_at(dos.as_slice(), 0x3c) as u64;
    if !(e >= 0x40 && e < 0x400) {
        return false;
    }
    let pe = read_at(m, Ghost(m0), base.wrapping_add(e), 0x58, true, cr3);
    let sig: [u8; 6] = [0x50, 0x45, 0, 0, 0x64, 0x86];
    let magic: [u8; 2] = [0x0b, 0x02];
    let sig_ok = bytes_are(&pe, 0, sig.as_slice());
    let magic_ok = bytes_are(&pe, 24, magic.as_slice());
    proof {
        if sig_ok {
            assert(pe@[0] == pe@.subrange(0, 6)[0]);
            assert(pe@[1] == pe@.subrange(0, 6)[1]);
            assert(pe@[2] == pe@.subrange(0, 6)[2]);
            assert(pe@[3] == pe@.subrange(0, 6)[3]);
            assert(pe@[4] == pe@.subrange(0, 6)[4]);
            assert(pe@[5] == pe@.subrange(0, 6)[5]);
        } else if pe@[0] == 0x50 && pe@[1] == 0x45 && pe@[2] == 0 && pe@[3] == 0 && pe@[4] == 0x64
            && pe@[5] == 0x86 {
            assert(pe@.subrange(0, 6) =~= sig@);
        }
        if magic_ok {
            assert(pe@[24] == pe@.subrange(24, 26)[0]);
            assert(pe@[25] == pe@.subrange(24, 26)[1]);
        } else if pe@[24] == 0x0b && pe@[25] == 0x02 {
            assert(pe@.subrange(24, 26) =~= magic@);
        }
    }
    if !sig_ok || !magic_ok {
        return false;
    }
    let sections = u16_at(pe.as_slice(), 6);
    let image_size = u32_at(pe.as_slice(), 0x50);
    sections >= 1 && sections <= 64 && image_size >= 0x40_0000 && image_size <= 0x200_0000
}

/// Find the kernel image: page by page around the expected base, then down from `LSTAR`.
pub fn discover_kernel_base<M: GuestPhysical>(m: &mut M, cr3: u64, lstar: u64) -> (r: Option<u64>)
    ensures
        r == discovered_kernel_base(old(m), cr3, lstar),
        same_memory(final(m), old(m)),
{
    let ghost m0 = *m;
    let mut base = NTOS_SCAN_START;
    let mut n: u64 = NTOS_SCAN_PAGES;
    while n > 0
        invariant
            n <= NTOS_SCAN_PAGES,
            m0 == *old(m),
            same_memory(m, &m0),
            scan_up(&m0, cr3, NTOS_SCAN_START, NTOS_SCAN_PAGES as nat) == scan_up(&m0, cr3, base, n as nat),
        decreases n,
    {
        if pe_looks_like_ntos(m, Ghost(m0), cr3, base) {
            return Some(base);
        }
        base = base.wrapping_add(0x1000);
        n -= 1;
    }
    if lstar < KERNEL_SPACE {
        return None;
    }
    let mut base = lstar & !0xfffu64;
    let mut n: u64 = LSTAR_SCAN_PAGES;
    while n > 0
        invariant
            n <= LSTAR_SCAN_PAGES,
            m0 == *old(m),
            lstar >= KERNEL_SPACE,
            scan_up(&m0, cr3, NTOS_SCAN_START, NTOS_SCAN_PAGES as nat) is None,
            same_memory(m, &m0),
            scan_down(&m0, cr3, lstar & !0xfffu64, LSTAR_SCAN_PAGES as nat) == scan_down(&m0, cr3, base, n as nat),
        decreases n,
    {
        if pe_looks_like_ntos(m, Ghost(m0), cr3, base) {
            return Some(base);
        }
        if base < 0xffff_8000_0000_1000 {
            return None;
        }
        base = base - 0x1000;
        n -= 1;
    }
    None
}

/// The text shown for a `UNICODE_STRING` that cannot be read.
pub open spec fn invalid_unicode_text(len: u16, buf: u64) -> Seq<char> {
    seq!['<', 'i', 'n', 'v', 'a', 'l', 'i', 'd', ' ', 'U', 'N', 'I', 'C', 'O', 'D', 'E', '_', 'S', 'T', 'R', 'I', 'N', 'G', ' ', 'l', 'e', 'n', '=']
        + fmt_hex(len as nat) + seq![' ', 'b', 'u', 'f', '='] + fmt_hex(buf as nat) + seq!['>']
}

/// The text of the kernel `UNICODE_STRING` at `off` in `node`: empty for length 0; a marker
/// naming the length and buffer when the length is odd or over 0x400 or the buffer is not a
/// kernel address; else the UTF-16 it points to.
pub open spec fn kernel_unicode<M: GuestPhysical>(m: &M, cr3: u64, node: Seq<u8>, off: int) -> Seq<char> {
    let len = u16_le(node, off);
    let buf = u64_le(node, off + 8);
    if len == 0 {
        Seq::empty()
    } else if len > 0x400 || len % 2 != 0 || buf < KERNEL_SPACE {
        invalid_unicode_text(len, buf)
    } else {
        spec_utf16_lossy(utf16_units(linear_bytes(m, buf, len as nat, true, cr3)))
    }
}


fn read_kernel_unicode<M: GuestPhysical>(
    m: &mut M,
    Ghost(m0): Ghost<M>,
    cr3: u64,
    node: &Vec<u8>,
    off: usize,
) -> (r: Vec<char>)
    requires
        same_memory(old(m), &m0),
        off + 16 <= node.len(),
    ensures
        r@ == kernel_unicode(&m0, cr3, node@, off as int),
        same_memory(final(m), &m0),
{
    let len = u16_at(node.as_slice(), off);
    let buf = u64_at(node.as_slice(), off + 8);
    if len == 0 {
        return Vec::new();
    }
    if len > 0x400 || len % 2 != 0 || buf < KERNEL_SPACE {
        let mut out: Vec<char> = Vec::new();
        let a: [char; 28] = ['<', 'i', 'n', 'v', 'a', 'l', 'i', 'd', ' ', 'U', 'N', 'I', 'C', 'O', 'D', 'E', '_', 'S', 'T', 'R', 'I', 'N', 'G', ' ', 'l', 'e', 'n', '='];
        let b: [char; 5] = [' ', 'b', 'u', 'f', '='];
        push_chars(&mut out, a.as_slice());
        push_hex(&mut out, len as u64);
        push_chars(&mut out, b.as_slice());
        push_hex(&mut out, buf);
        out.push('>');
        assert(out@ =~= invalid_unicode_text(len, buf));
        return out;
    }
    let bytes = read_at(m, Ghost(m0), buf, len as usize, true, cr3);
    let s = utf16_string(bytes.as_slice());
    chars_of(s.as_str())
}

/// `needle` occurs in `hay`.
pub open spec fn has_substring(hay: Seq<char>, needle: Seq<char>) -> bool {
    exists|i: int| 0 <= i && i + needle.len() <= hay.len() && #[trigger] hay.subrange(i, i + needle.len()) == needle
}

fn find_substring(hay: &Vec<char>, needle: &Vec<char>) -> (r: bool)
    ensures
        r == has_substring(hay@, needle@),
{
    if needle.len() > hay.len() {
        assert(!has_substring(hay@, needle@));
        return false;
    }
    let n = needle.len();
    let mut i: usize = 0;
    while i <= hay.len() - n
        invariant
            n == needle@.len(),
            n <= hay.len(),
            i <= hay@.len() - n + 1,
            forall|k: int| 0 <= k < i ==> #[trigger] hay@.subrange(k, k + n) != needle@,
        decreases hay@.len() - n + 1 - i,
    {
        let mut j: usize = 0;
        let mut same = true;
        while j < n
            invariant
                j <= n,
                n == needle@.len(),
                i + n <= hay.len(),
                same == (forall|q: int| 0 <= q < j ==> hay@[i + q] == needle@[q]),
            decreases n - j,
        {
            if hay[i + j] != needle[j] {
                same = false;
            }
            j += 1;
        }
        if same {
            assert(hay@.subrange(i as int, i + n) =~= needle@);
            return true;
        }
        assert(hay@.subrange(i as int, i + n) != needle@) by {
            let q = choose|q: int| 0 <= q < n && hay@[i + q] != needle@[q];
            assert(hay@.subrange(i as int, i + n)[q] != needle@[q]);
        }
        i += 1;
    }
    assert forall|k: int| 0 <= k && k + n <= hay@.len() implies #[trigger] hay@.subrange(k, k + n) != needle@ by {}
    false
}

/// The filters of a device-node request: its comma-separated pieces, trimmed and
/// lower-cased, empty ones dropped.
pub open spec fn filters_from(ps: Seq<Seq<char>>) -> Seq<Seq<char>>
    decreases ps.len(),
{
    if ps.len() == 0 {
        Seq::empty()
    } else {
        let rest = filters_from(ps.drop_last());
        let t = trim(ps.last());
        if t.len() == 0 {
            rest
        } else {
            rest.push(ascii_lower(t))
        }
    }
}

/// Some filter occurs in the lower-cased instance path.
pub open spec fn path_selected(filters: Seq<Seq<char>>, path: Seq<char>) -> bool {
    exists|k: int| 0 <= k < filters.len() && has_substring(ascii_lower(path), #[trigger] filters[k])
}

fn device_filters(spec: &str) -> (r: Vec<Vec<char>>)
    ensures
        r@.len() == filters_from(pieces(spec@, ',')).len(),
        forall|k: int| 0 <= k < r@.len() ==> #[trigger] r@[k]@ == filters_from(pieces(spec@, ','))[k],
{
    let chars = chars_of(spec);
    let parts = split_on(chars.as_slice(), ',');
    let ghost ps = pieces(spec@, ',');
    let mut out: Vec<Vec<char>> = Vec::new();
    let mut i: usize = 0;
    while i < parts.len()
        invariant
            i <= parts@.len(),
            parts@.len() == ps.len(),
            forall|q: int| 0 <= q < parts@.len() ==> #[trigger] parts@[q]@ == ps[q],
            out@.len() == filters_from(ps.subrange(0, i as int)).len(),
            forall|k: int| 0 <= k < out@.len() ==> #[trigger] out@[k]@ == filters_from(ps.subrange(0, i as int))[k],
        decreases parts@.len() - i,
    {
        assert(ps.subrange(0, i + 1).drop_last() =~= ps.subrange(0, i as int));
        let p = &parts[i];
        let t = trimmed(p.as_slice(), 0, p.len());
        assert(p@.subrange(0, p@.len() as int) =~= p@);
        if t.len() != 0 {
            let l = lower_all(&t);
            out.push(l);
        }
        i += 1;
    }
    assert(ps.subrange(0, ps.len() as int) =~= ps);
    out
}

fn selected(filters: &Vec<Vec<char>>, path: &Vec<char>) -> (r: bool)
    ensures
        r == path_selected(filters@.map_values(|f: Vec<char>| f@), path@),
{
    let lower = lower_all(path);
    let ghost fs = filters@.map_values(|f: Vec<char>| f@);
    let mut k: usize = 0;
    while k < filters.len()
        invariant
            k <= filters@.len(),
            fs == filters@.map_values(|f: Vec<char>| f@),
            lower@ == ascii_lower(path@),
            forall|q: int| 0 <= q < k ==> !has_substring(ascii_lower(path@), #[trigger] fs[q]),
        decreases filters@.len() - k,
    {
        if find_substring(&lower, &filters[k]) {
            assert(has_substring(ascii_lower(path@), fs[k as int]));
            return true;
        }
        k += 1;
    }
    false
}

/// A matching device node.
#[derive(Debug, Clone, PartialEq, Eq)]
pub struct DevnodeMatch {
    pub depth: u64,
    pub node: u64,
    pub parent: u64,
    pub parent_path: Vec<char>,
    pub child: u64,
    pub sibling: u64,
    pub path: Vec<char>,
    pub service: Vec<char>,
    pub state: u32,
    pub completion: u32,
    pub problem: u32,
    pub flags: u32,
    /// The node's resource lists, when asked for.
    pub resources: Option<DevnodeResources>,
}

/// The resource lists of a device node, each with the pointer it was read from.
#[derive(Debug, Clone, PartialEq, Eq)]
pub struct DevnodeResources {
    pub raw: u64,
    pub raw_list: CmList,
    pub translated: u64,
    pub translated_list: CmList,
    pub requirements: u64,
    pub requirements_list: IoList,
    pub boot: u64,
    pub boot_list: CmList,
    pub boot_translated: u64,
    pub boot_translated_list: CmList,
}

/// `DevnodeResources` as values.
pub struct ResourceFacts {
    pub raw: u64,
    pub raw_list: CmFacts,
    pub translated: u64,
    pub translated_list: CmFacts,
    pub requirements: u64,
    pub requirements_list: IoFacts,
    pub boot: u64,
    pub boot_list: CmFacts,
    pub boot_translated: u64,
    pub boot_translated_list: CmFacts,
}

impl View for DevnodeResources {
    type V = ResourceFacts;

    open spec fn view(&self) -> ResourceFacts {
        ResourceFacts {
            raw: self.raw,
            raw_list: self.raw_list@,
            translated: self.translated,
            translated_list: self.translated_list@,
            requirements: self.requirements,
            requirements_list: self.requirements_list@,
            boot: self.boot,
            boot_list: self.boot_list@,
            boot_translated: self.boot_translated,
            boot_translated_list: self.boot_translated_list@,
        }
    }
}

/// The resource lists of the node whose bytes are `node`: raw at 0x150, translated 0x158,
/// requirements 0x168, boot 0x1d0, boot translated 0x1d8.
pub open spec fn resource_facts<M: GuestPhysical>(m: &M, cr3: u64, node: Seq<u8>) -> ResourceFacts {
    ResourceFacts {
        raw: u64_le(node, 0x150),
        raw_list: cm_list_of(m, cr3, u64_le(node, 0x150)),
        translated: u64_le(node, 0x158),
        translated_list: cm_list_of(m, cr3, u64_le(node, 0x158)),
        requirements: u64_le(node, 0x168),
        requirements_list: io_list_of(m, cr3, u64_le(node, 0x168)),
        boot: u64_le(node, 0x1d0),
        boot_list: cm_list_of(m, cr3, u64_le(node, 0x1d0)),
        boot_translated: u64_le(node, 0x1d8),
        boot_translated_list: cm_list_of(m, cr3, u64_le(node, 0x1d8)),
    }
}

/// `DevnodeMatch` as values.
pub struct DevnodeFacts {
    pub depth: u64,
    pub node: u64,
    pub parent: u64,
    pub parent_path: Seq<char>,
    pub child: u64,
    pub sibling: u64,
    pub path: Seq<char>,
    pub service: Seq<char>,
    pub state: u32,
    pub completion: u32,
    pub problem: u32,
    pub flags: u32,
    pub resources: Option<ResourceFacts>,
}

impl View for DevnodeMatch {
    type V = DevnodeFacts;

    open spec fn view(&self) -> DevnodeFacts {
        DevnodeFacts {
            depth: self.depth,
            node: self.node,
            parent: self.parent,
            parent_path: self.parent_path@,
            child: self.child,
            sibling: self.sibling,
            path: self.path@,
            service: self.service@,
            state: self.state,
            completion: self.completion,
            problem: self.problem,
            flags: self.flags,
            resources: match self.resources {
                Some(a) => Some(a@),
                None => None,
            },
        }
    }
}

/// The facts of the node at `address` (depth `depth`) whose bytes are `node`: sibling at
/// 0x00, child 0x08, parent 0x10, instance path 0x28, service 0x38, state 0xe0, completion
/// status 0x13c, flags 0x140, problem 0x148; the resource lists when asked for.
pub open spec fn devnode_facts<M: GuestPhysical>(
    m: &M,
    cr3: u64,
    address: u64,
    depth: u64,
    node: Seq<u8>,
    resources: bool,
) -> DevnodeFacts {
    let parent = u64_le(node, 0x10);
    DevnodeFacts {
        depth,
        node: address,
        parent,
        parent_path: if parent >= KERNEL_SPACE {
            kernel_unicode(m, cr3, linear_bytes(m, parent, DEVICE_NODE_SIZE as nat, true, cr3), 0x28)
        } else {
            Seq::empty()
        },
        child: u64_le(node, 0x08),
        sibling: u64_le(node, 0x00),
        path: kernel_unicode(m, cr3, node, 0x28),
        service: kernel_unicode(m, cr3, node, 0x38),
        state: u32_le(node, 0xe0),
        completion: u32_le(node, 0x13c),
        problem: u32_le(node, 0x148),
        flags: u32_le(node, 0x140),
        resources: if resources {
            Some(resource_facts(m, cr3, node))
        } else {
            None
        },
    }
}

/// Room left in the walk.
pub open spec fn walk_measure(stack: Seq<(u64, u64)>, seen: Seq<u64>) -> nat {
    (3 * (if seen.len() <= MAX_NODES {
        (MAX_NODES - seen.len()) as nat
    } else {
        0nat
    }) + stack.len()) as nat
}

/// The depth-first walk from the nodes on `stack` (the last is taken first), skipping nodes
/// seen before and stopping after `MAX_NODES`: the nodes walked, and the facts of those
/// whose instance path a filter selects. Siblings are pushed before children.
pub open spec fn devnode_walk<M: GuestPhysical>(
    m: &M,
    cr3: u64,
    filters: Seq<Seq<char>>,
    resources: bool,
    stack: Seq<(u64, u64)>,
    seen: Seq<u64>,
) -> (Seq<u64>, Seq<DevnodeFacts>)
    decreases walk_measure(stack, seen),
{
    if stack.len() == 0 {
        (seen, Seq::empty())
    } else {
        let top = stack.last();
        let rest = stack.drop_last();
        if seen.len() >= MAX_NODES || seen.contains(top.0) {
            devnode_walk(m, cr3, filters, resources, rest, seen)
        } else {
            let node = linear_bytes(m, top.0, DEVICE_NODE_SIZE as nat, true, cr3);
            let sibling = u64_le(node, 0x00);
            let child = u64_le(node, 0x08);
            let here: Seq<DevnodeFacts> = if path_selected(filters, kernel_unicode(m, cr3, node, 0x28)) {
                seq![devnode_facts(m, cr3, top.0, top.1, node, resources)]
            } else {
                Seq::empty()
            };
            let s1 = if sibling >= KERNEL_SPACE {
                rest.push((sibling, top.1))
            } else {
                rest
            };
            let s2 = if child >= KERNEL_SPACE {
                s1.push((child, top.1.saturating_add(1)))
            } else {
                s1
            };
            let r = devnode_walk(m, cr3, filters, resources, s2, seen.push(top.0));
            (r.0, here + r.1)
        }
    }
}

/// Where the kernel base came from.
#[derive(Debug, Clone, Copy, PartialEq, Eq, Structural)]
pub enum KernelBaseSource {
    Override,
    Discovered,
    Fallback,
}

/// The device-node report.
#[derive(Debug, Clone, PartialEq, Eq)]
pub enum DevnodeDump {
    /// No candidate slot holds a kernel pointer; the last one tried.
    InvalidRoot { root: u64, slot: u64, rva: u64, kernel_base: u64, source: KernelBaseSource, cr3: u64 },
    /// The walk: how many nodes it visited, where the root came from, and the matches.
    Walked {
        walked: u64,
        root: u64,
        slot: u64,
        rva: u64,
        kernel_base: u64,
        source: KernelBaseSource,
        cr3: u64,
        matches: Vec<DevnodeMatch>,
    },
}

/// The root-slot RVAs tried.
pub open spec fn root_rvas(over: Option<u64>) -> Seq<u64> {
    match over {
        Some(r) => seq![r],
        None => seq![IOP_ROOT_DEVICE_NODE_RVA, IOP_ROOT_DEVICE_NODE_RVA_LEGACY],
    }
}

/// The word at linear `va` read with unmapped bytes as `0xFE`.
pub open spec fn filled_u64<M: GuestPhysical>(m: &M, cr3: u64, va: u64) -> u64 {
    u64_le(linear_bytes(m, va, 8, true, cr3), 0)
}

/// The first RVA (from `i`) whose slot holds a kernel pointer, or the last one tried.
pub open spec fn resolve_root<M: GuestPhysical>(m: &M, cr3: u64, kbase: u64, rvas: Seq<u64>, i: int) -> (bool, u64, u64, u64)
    decreases rvas.len() - i,
{
    if i < 0 || i >= rvas.len() {
        (false, 0, kbase.wrapping_add(IOP_ROOT_DEVICE_NODE_RVA), IOP_ROOT_DEVICE_NODE_RVA)
    } else {
        let slot = kbase.wrapping_add(rvas[i]);
        let root = filled_u64(m, cr3, slot);
        if root >= KERNEL_SPACE || i == rvas.len() - 1 {
            (root >= KERNEL_SPACE, root, slot, rvas[i])
        } else {
            resolve_root(m, cr3, kbase, rvas, i + 1)
        }
    }
}

/// The whole report, from the memory, the CPU and the request.
pub open spec fn devnodes_of<M: GuestPhysical>(
    m: &M,
    c: CpuSnapshot,
    spec: Seq<char>,
    dump_cr3: Option<u64>,
    kernel_base: Option<u64>,
    root_rva: Option<u64>,
    resources: bool,
    d: DevnodeDump,
) -> bool {
    let cr3 = match dump_cr3 {
        Some(x) => x,
        None => c.cr3,
    };
    let found = if kernel_base is None {
        discovered_kernel_base(m, cr3, c.lstar)
    } else {
        None
    };
    let kbase = match kernel_base {
        Some(b) => b,
        None => match found {
            Some(b) => b,
            None => EXPECTED_KERNEL_BASE,
        },
    };
    let source = if kernel_base is Some {
        KernelBaseSource::Override
    } else if found is Some {
        KernelBaseSource::Discovered
    } else {
        KernelBaseSource::Fallback
    };
    let r = resolve_root(m, cr3, kbase, root_rvas(root_rva), 0);
    if !r.0 {
        d == DevnodeDump::InvalidRoot { root: r.1, slot: r.2, rva: r.3, kernel_base: kbase, source, cr3 }
    } else {
        let w = devnode_walk(
            m,
            cr3,
            filters_from(pieces(spec, ',')),
            resources,
            seq![(r.1, 0u64)],
            Seq::empty(),
        );
        &&& d matches DevnodeDump::Walked { walked, root, slot, rva, kernel_base: kb, source: src, cr3: c3, matches }
        &&& walked == w.0.len()
        &&& root == r.1
        &&& slot == r.2
        &&& rva == r.3
        &&& kb == kbase
        &&& src == source
        &&& c3 == cr3
        &&& matches@.map_values(|x: DevnodeMatch| x@) == w.1
    }
}

/// Memories that read alike decode the same resource lists.
proof fn lemma_same_lists<M: GuestPhysical>(a: &M, b: &M, cr3: u64, at: u64)
    requires
        same_memory(a, b),
    ensures
        cm_list_of(a, cr3, at) == cm_list_of(b, cr3, at),
        io_list_of(a, cr3, at) == io_list_of(b, cr3, at),
{
    crate::inspect::lemma_same_memory_linear(a, b, at, 4, true, cr3);
    crate::inspect::lemma_same_memory_linear(a, b, at, 32, true, cr3);
    crate::inspect::lemma_same_memory_linear(a, b, at, crate::resources::CM_LIST_BYTES as nat, true, cr3);
    let size = u32_le(linear_bytes(a, at, 32, true, cr3), 0);
    crate::inspect::lemma_same_memory_linear(a, b, at, size as nat, true, cr3);
}

fn node_match<M: GuestPhysical>(
    m: &mut M,
    Ghost(m0): Ghost<M>,
    cr3: u64,
    address: u64,
    depth: u64,
    node: &Vec<u8>,
    resources: bool,
) -> (r: DevnodeMatch)
    requires
        same_memory(old(m), &m0),
        node@.len() == DEVICE_NODE_SIZE,
    ensures
        r@ == devnode_facts(&m0, cr3, address, depth, node@, resources),
        same_memory(final(m), &m0),
{
    let parent = u64_at(node.as_slice(), 0x10);
    let parent_path = if parent >= KERNEL_SPACE {
        let pn = read_at(m, Ghost(m0), parent, DEVICE_NODE_SIZE, true, cr3);
        read_kernel_unicode(m, Ghost(m0), cr3, &pn, 0x28)
    } else {
        Vec::new()
    };
    let path = read_kernel_unicode(m, Ghost(m0), cr3, node, 0x28);
    let service = read_kernel_unicode(m, Ghost(m0), cr3, node, 0x38);
    let res = if resources {
        let raw = u64_at(node.as_slice(), 0x150);
        let translated = u64_at(node.as_slice(), 0x158);
        let requirements = u64_at(node.as_slice(), 0x168);
        let boot = u64_at(node.as_slice(), 0x1d0);
        let boot_translated = u64_at(node.as_slice(), 0x1d8);
        let ghost before = *m;
        let raw_list = decode_cm_resource_list(m, cr3, raw);
        let ghost m1 = *m;
        let translated_list = decode_cm_resource_list(m, cr3, translated);
        let ghost m2 = *m;
        let requirements_list = decode_io_resource_requirements(m, cr3, requirements);
        let ghost m3 = *m;
        let boot_list = decode_cm_resource_list(m, cr3, boot);
        let ghost m4 = *m;
        let boot_translated_list = decode_cm_resource_list(m, cr3, boot_translated);
        proof {
            lemma_same_lists(&before, &m0, cr3, raw);
            lemma_same_lists(&m1, &m0, cr3, translated);
            lemma_same_lists(&m2, &m0, cr3, requirements);
            lemma_same_lists(&m3, &m0, cr3, boot);
            lemma_same_lists(&m4, &m0, cr3, boot_translated);
        }
        Some(
            DevnodeResources {
                raw,
                raw_list,
                translated,
                translated_list,
                requirements,
                requirements_list,
                boot,
                boot_list,
                boot_translated,
                boot_translated_list,
            },
        )
    } else {
        None
    };
    let r = DevnodeMatch {
        depth,
        node: address,
        parent,
        parent_path,
        child: u64_at(node.as_slice(), 0x08),
        sibling: u64_at(node.as_slice(), 0x00),
        path,
        service,
        state: u32_at(node.as_slice(), 0xe0),
        completion: u32_at(node.as_slice(), 0x13c),
        problem: u32_at(node.as_slice(), 0x148),
        flags: u32_at(node.as_slice(), 0x140),
        resources: res,
    };
    assert(r@.parent_path == devnode_facts(&m0, cr3, address, depth, node@, resources).parent_path);
    r
}

fn walk_devnodes<M: GuestPhysical>(
    m: &mut M,
    Ghost(m0): Ghost<M>,
    cr3: u64,
    filters: &Vec<Vec<char>>,
    resources: bool,
    root: u64,
) -> (r: (u64, Vec<DevnodeMatch>))
    requires
        same_memory(old(m), &m0),
    ensures
        same_memory(final(m), &m0),
        ({
            let w = devnode_walk(
                &m0,
                cr3,
                filters@.map_values(|f: Vec<char>| f@),
                resources,
                seq![(root, 0u64)],
                Seq::empty(),
            );
            r.0 == w.0.len() && r.1@.map_values(|x: DevnodeMatch| x@) == w.1
        }),
{
    let ghost fs = filters@.map_values(|f: Vec<char>| f@);
    let ghost whole = devnode_walk(&m0, cr3, fs, resources, seq![(root, 0u64)], Seq::empty());
    let mut stack: Vec<(u64, u64)> = Vec::new();
    stack.push((root, 0));
    let mut seen: Vec<u64> = Vec::new();
    let mut matches: Vec<DevnodeMatch> = Vec::new();
    while stack.len() > 0
        invariant
            same_memory(m, &m0),
            fs == filters@.map_values(|f: Vec<char>| f@),
            seen@.len() <= MAX_NODES,
            whole.0 == devnode_walk(&m0, cr3, fs, resources, stack@, seen@).0,
            whole.1 == matches@.map_values(|x: DevnodeMatch| x@) + devnode_walk(
                &m0,
                cr3,
                fs,
                resources,
                stack@,
                seen@,
            ).1,
        decreases walk_measure(stack@, seen@),
    {
        let ghost st = stack@;
        let top = stack.pop().unwrap();
        assert(stack@ == st.drop_last());
        assert(top == st.last());
        let (address, depth) = top;
        if seen.len() >= MAX_NODES || contains_u64(&seen, address) {
            continue;
        }
        seen.push(address);
        let node = read_at(m, Ghost(m0), address, DEVICE_NODE_SIZE, true, cr3);
        let sibling = u64_at(node.as_slice(), 0x00);
        let child = u64_at(node.as_slice(), 0x08);
        let path = read_kernel_unicode(m, Ghost(m0), cr3, &node, 0x28);
        let ghost before = matches@.map_values(|x: DevnodeMatch| x@);
        let ghost here: Seq<DevnodeFacts> = if path_selected(fs, kernel_unicode(&m0, cr3, node@, 0x28)) {
            seq![devnode_facts(&m0, cr3, address, depth, node@, resources)]
        } else {
            Seq::empty()
        };
        if selected(filters, &path) {
            let mt = node_match(m, Ghost(m0), cr3, address, depth, &node, resources);
            matches.push(mt);
        }
        assert(matches@.map_values(|x: DevnodeMatch| x@) =~= before + here);
        if sibling >= KERNEL_SPACE {
            stack.push((sibling, depth));
        }
        if child >= KERNEL_SPACE {
            stack.push((child, depth.saturating_add(1)));
        }
        let ghost rest = devnode_walk(&m0, cr3, fs, resources, stack@, seen@);
        assert(before + (here + rest.1) =~= matches@.map_values(|x: DevnodeMatch| x@) + rest.1);
    }
    assert(matches@.map_values(|x: DevnodeMatch| x@) + Seq::<DevnodeFacts>::empty() =~= matches@.map_values(
        |x: DevnodeMatch| x@,
    ));
    (seen.len() as u64, matches)
}

/// Walk the Windows 7 SP1 x64 PnP device-node tree and report the nodes whose instance
/// paths contain one of the comma-separated, case-insensitive filters in `spec`. The page
/// tables are `dump_cr3` (else the CPU's); the kernel base is `kernel_base` (else found by
/// scanning, else the expected one); the root slot is at `root_rva` (else both known RVAs
/// are tried).
pub fn dump_win7_devnodes<M: GuestPhysical>(
    m: &mut M,
    cpu: &CpuSnapshot,
    spec: &str,
    dump_cr3: Option<u64>,
    kernel_base: Option<u64>,
    root_rva: Option<u64>,
    resources: bool,
) -> (d: DevnodeDump)
    ensures
        devnodes_of(old(m), *cpu, spec@, dump_cr3, kernel_base, root_rva, resources, d),
        same_memory(final(m), old(m)),
{
    let ghost m0 = *m;
    let cr3 = match dump_cr3 {
        Some(x) => x,
        None => cpu.cr3,
    };
    let found = if kernel_base.is_none() {
        discover_kernel_base(m, cr3, cpu.lstar)
    } else {
        None
    };
    let kbase = match kernel_base {
        Some(b) => b,
        None => match found {
            Some(b) => b,
            None => EXPECTED_KERNEL_BASE,
        },
    };
    let source = if kernel_base.is_some() {
        KernelBaseSource::Override
    } else if found.is_some() {
        KernelBaseSource::Discovered
    } else {
        KernelBaseSource::Fallback
    };
    let rvas: Vec<u64> = match root_rva {
        Some(r) => vec![r],
        None => vec![IOP_ROOT_DEVICE_NODE_RVA, IOP_ROOT_DEVICE_NODE_RVA_LEGACY],
    };
    assert(rvas@ =~= root_rvas(root_rva));
    let ghost res = resolve_root(&m0, cr3, kbase, rvas@, 0);
    let mut i: usize = 0;
    let mut slot: u64 = 0;
    let mut root: u64 = 0;
    let mut rva: u64 = 0;
    let mut ok = false;
    while i < rvas.len()
        invariant_except_break
            i < rvas@.len(),
            1 <= rvas@.len() <= 2,
            same_memory(m, &m0),
            !ok,
            res == resolve_root(&m0, cr3, kbase, rvas@, i as int),
        ensures
            same_memory(m, &m0),
            res == (ok, root, slot, rva),
        decreases rvas@.len() - i,
    {
        let sl = kbase.wrapping_add(rvas[i]);
        let b = read_at(m, Ghost(m0), sl, 8, true, cr3);
        let r = u64_at(b.as_slice(), 0);
        slot = sl;
        root = r;
        rva = rvas[i];
        if r >= KERNEL_SPACE || i == rvas.len() - 1 {
            ok = r >= KERNEL_SPACE;
            break;
        }
        i += 1;
    }
    if !ok {
        return DevnodeDump::InvalidRoot { root, slot, rva, kernel_base: kbase, source, cr3 };
    }
    let filters = device_filters(spec);
    assert(filters@.map_values(|f: Vec<char>| f@) =~= filters_from(pieces(spec@, ',')));
    let (walked, matches) = walk_devnodes(m, Ghost(m0), cr3, &filters, resources, root);
    DevnodeDump::Walked { walked, root, slot, rva, kernel_base: kbase, source, cr3, matches }
}

} // verus!
