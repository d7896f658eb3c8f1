//! Decoding the PnP resource lists a Windows device node points to: `CM_RESOURCE_LIST`
//! (assigned resources) and `IO_RESOURCE_REQUIREMENTS_LIST` (what the device can use).

use vstd::prelude::*;

use crate::cli::{same_memory, GuestPhysical};
use crate::inspect::{linear_bytes, read_at, u16_at, u16_le, u32_at, u32_le, u64_at, u64_le, KERNEL_SPACE};

verus! {

/// What a `CM_PARTIAL_RESOURCE_DESCRIPTOR` holds, by resource type.
#[derive(Debug, Clone, Copy, PartialEq, Eq, Structural)]
pub enum CmPayload {
    /// Port, memory and the like (types 1, 3, 8, 9, 128): start, last address, length.
    Range { start: u64, end: u64, length: u32 },
    /// Type 2.
    Interrupt { level: u32, vector: u32, affinity: u64 },
    /// Type 4.
    Dma { channel: u32, port: u32 },
    /// Type 5.
    DeviceSpecific { data_size: u32 },
    /// Type 6: first bus, last bus, count.
    BusNumber { start: u32, end: u32, length: u32 },
    Other,
}

/// One step of reading a `CM_RESOURCE_LIST`, in order.
#[derive(Debug, Clone, Copy, PartialEq, Eq, Structural)]
pub enum CmItem {
    Full { index: u32, interface_type: u32, bus_number: u32, version: u16, revision: u16, count: u32 },
    Descriptor { index: u32, resource_type: u8, share: u8, flags: u16, payload: CmPayload },
    TruncatedHeader,
    InvalidDescriptorCount,
    TruncatedDescriptor,
}

/// A decoded `CM_RESOURCE_LIST`.
#[derive(Debug, Clone, PartialEq, Eq)]
pub enum CmList {
    Null,
    InvalidPointer(u64),
    InvalidFullCount(u32),
    Decoded { full_count: u32, items: Vec<CmItem> },
}

/// How many bytes of a resource list are read at most.
pub const CM_LIST_BYTES: usize = 0x4000;

/// The payload of the descriptor of type `t` at `c` in `b`.
pub open spec fn cm_payload(b: Seq<u8>, c: int, t: u8) -> CmPayload {
    if t == 1 || t == 3 || t == 8 || t == 9 || t == 128 {
        let start = u64_le(b, c + 4);
        let length = u32_le(b, c + 12);
        CmPayload::Range { start, end: start.saturating_add((length as u64).saturating_sub(1)), length }
    } else if t == 2 {
        CmPayload::Interrupt { level: u32_le(b, c + 4), vector: u32_le(b, c + 8), affinity: u64_le(b, c + 12) }
    } else if t == 4 {
        CmPayload::Dma { channel: u32_le(b, c + 4), port: u32_le(b, c + 8) }
    } else if t == 5 {
        CmPayload::DeviceSpecific { data_size: u32_le(b, c + 4) }
    } else if t == 6 {
        let start = u32_le(b, c + 4);
        let length = u32_le(b, c + 8);
        CmPayload::BusNumber { start, end: start.saturating_add(length.saturating_sub(1)), length }
    } else {
        CmPayload::Other
    }
}

/// Descriptors `di..dc` of a full descriptor, from `c`: the items and where reading ended.
pub open spec fn cm_descs(b: Seq<u8>, c: int, di: nat, dc: nat) -> (Seq<CmItem>, int)
    decreases dc - di,
{
    if di >= dc {
        (Seq::empty(), c)
    } else if c + 20 > b.len() {
        (seq![CmItem::TruncatedDescriptor], c)
    } else {
        let t = b[c];
        let item = CmItem::Descriptor {
            index: di as u32,
            resource_type: t,
            share: b[c + 1],
            flags: u16_le(b, c + 2),
            payload: cm_payload(b, c, t),
        };
        let r = cm_descs(b, c + 20, di + 1, dc);
        (seq![item] + r.0, r.1)
    }
}

/// Full descriptors `fi..fc`, from `c`.
pub open spec fn cm_fulls(b: Seq<u8>, c: int, fi: nat, fc: nat) -> Seq<CmItem>
    decreases fc - fi,
{
    if fi >= fc {
        Seq::empty()
    } else if c + 16 > b.len() {
        seq![CmItem::TruncatedHeader]
    } else {
        let count = u32_le(b, c + 12);
        let full = CmItem::Full {
            index: fi as u32,
            interface_type: u32_le(b, c),
            bus_number: u32_le(b, c + 4),
            version: u16_le(b, c + 8),
            revision: u16_le(b, c + 10),
            count,
        };
        if count > 256 {
            seq![full, CmItem::InvalidDescriptorCount]
        } else {
            let d = cm_descs(b, c + 16, 0, count as nat);
            seq![full] + d.0 + cm_fulls(b, d.1, fi + 1, fc)
        }
    }
}

/// `CmList` as values.
pub enum CmFacts {
    Null,
    InvalidPointer(u64),
    InvalidFullCount(u32),
    Decoded { full_count: u32, items: Seq<CmItem> },
}

impl View for CmList {
    type V = CmFacts;

    open spec fn view(&self) -> CmFacts {
        match self {
            CmList::Null => CmFacts::Null,
            CmList::InvalidPointer(a) => CmFacts::InvalidPointer(*a),
            CmList::InvalidFullCount(n) => CmFacts::InvalidFullCount(*n),
            CmList::Decoded { full_count, items } => CmFacts::Decoded { full_count: *full_count, items: items@ },
        }
    }
}

/// The resource list at `a`: null, not a kernel address, a full-descriptor count outside
/// 1..=16, or its items as read from the first 0x4000 bytes.
pub open spec fn cm_list_of<M: GuestPhysical>(m: &M, cr3: u64, a: u64) -> CmFacts {
    if a == 0 {
        CmFacts::Null
    } else if a < KERNEL_SPACE {
        CmFacts::InvalidPointer(a)
    } else {
        let fc = u32_le(linear_bytes(m, a, 4, true, cr3), 0);
        if !(1 <= fc <= 16) {
            CmFacts::InvalidFullCount(fc)
        } else {
            CmFacts::Decoded {
                full_count: fc,
                items: cm_fulls(linear_bytes(m, a, CM_LIST_BYTES as nat, true, cr3), 4, 0, fc as nat),
            }
        }
    }
}

fn cm_payload_at(b: &Vec<u8>, c: usize, t: u8) -> (p: CmPayload)
    requires
        c + 20 <= b.len(),
    ensures
        p == cm_payload(b@, c as int, t),
{
    if t == 1 || t == 3 || t == 8 || t == 9 || t == 128 {
        let start = u64_at(b.as_slice(), c + 4);
        let length = u32_at(b.as_slice(), c + 12);
        CmPayload::Range { start, end: start.saturating_add((length as u64).saturating_sub(1)), length }
    } else if t == 2 {
        CmPayload::Interrupt {
            level: u32_at(b.as_slice(), c + 4),
            vector: u32_at(b.as_slice(), c + 8),
            affinity: u64_at(b.as_slice(), c + 12),
        }
    } else if t == 4 {
        CmPayload::Dma { channel: u32_at(b.as_slice(), c + 4), port: u32_at(b.as_slice(), c + 8) }
    } else if t == 5 {
        CmPayload::DeviceSpecific { data_size: u32_at(b.as_slice(), c + 4) }
    } else if t == 6 {
        let start = u32_at(b.as_slice(), c + 4);
        let length = u32_at(b.as_slice(), c + 8);
        CmPayload::BusNumber { start, end: start.saturating_add(length.saturating_sub(1)), length }
    } else {
        CmPayload::Other
    }
}

/// Decode the `CM_RESOURCE_LIST` at kernel address `address`.
pub fn decode_cm_resource_list<M: GuestPhysical>(m: &mut M, cr3: u64, address: u64) -> (r: CmList)
    ensures
        r@ == cm_list_of(old(m), cr3, address),
        same_memory(final(m), old(m)),
{
    let ghost m0 = *m;
    if address == 0 {
        return CmList::Null;
    }
    if address < KERNEL_SPACE {
        return CmList::InvalidPointer(address);
    }
    let header = read_at(m, Ghost(m0), address, 4, true, cr3);
    let fc = u32_at(header.as_slice(), 0);
    if !(fc >= 1 && fc <= 16) {
        return CmList::InvalidFullCount(fc);
    }
    let b = read_at(m, Ghost(m0), address, CM_LIST_BYTES, true, cr3);
    let ghost whole = cm_fulls(b@, 4, 0, fc as nat);
    let mut items: Vec<CmItem> = Vec::new();
    let mut cursor: usize = 4;
    let mut fi: u32 = 0;
    let mut stop = false;
    while fi < fc && !stop
        invariant
            b@.len() == CM_LIST_BYTES,
            fi <= fc <= 16,
            cursor <= CM_LIST_BYTES + 20,
            stop ==> whole == items@,
            !stop ==> whole == items@ + cm_fulls(b@, cursor as int, fi as nat, fc as nat),
        decreases fc - fi + if stop {
            0int
        } else {
            1int
        },
    {
        if cursor + 16 > b.len() {
            let ghost prev = items@;
            items.push(CmItem::TruncatedHeader);
            assert(items@ =~= prev + seq![CmItem::TruncatedHeader]);
            stop = true;
        } else {
            let count = u32_at(b.as_slice(), cursor + 12);
            let full = CmItem::Full {
                index: fi,
                interface_type: u32_at(b.as_slice(), cursor),
                bus_number: u32_at(b.as_slice(), cursor + 4),
                version: u16_at(b.as_slice(), cursor + 8),
                revision: u16_at(b.as_slice(), cursor + 10),
                count,
            };
            let ghost before = items@;
            items.push(full);
            if count > 256 {
                items.push(CmItem::InvalidDescriptorCount);
                assert(items@ =~= before + seq![full, CmItem::InvalidDescriptorCount]);
                stop = true;
            } else {
                let ghost c0 = cursor + 16;
                let ghost d = cm_descs(b@, c0 as int, 0, count as nat);
                cursor = cursor + 16;
                let mut di: u32 = 0;
                let mut dstop = false;
                let ghost mut ds: Seq<CmItem> = Seq::empty();
                while di < count && !dstop
                    invariant
                        b@.len() == CM_LIST_BYTES,
                        di <= count <= 256,
                        cursor <= CM_LIST_BYTES + 20,
                        items@ == before.push(full) + ds,
                        dstop ==> d == (ds, cursor as int),
                        !dstop ==> d.0 == ds + cm_descs(b@, cursor as int, di as nat, count as nat).0,
                        !dstop ==> d.1 == cm_descs(b@, cursor as int, di as nat, count as nat).1,
                    decreases count - di + if dstop {
                        0int
                    } else {
                        1int
                    },
                {
                    if cursor + 20 > b.len() {
                        items.push(CmItem::TruncatedDescriptor);
                        proof {
                            ds = ds.push(CmItem::TruncatedDescriptor);
                        }
                        dstop = true;
                    } else {
                        let t = b[cursor];
                        let item = CmItem::Descriptor {
                            index: di,
                            resource_type: t,
                            share: b[cursor + 1],
                            flags: u16_at(b.as_slice(), cursor + 2),
                            payload: cm_payload_at(&b, cursor, t),
                        };
                        items.push(item);
                        proof {
                            let old_ds = ds;
                            ds = ds.push(item);
                            assert(old_ds + (seq![item] + cm_descs(b@, cursor + 20, (di + 1) as nat, count as nat).0)
                                =~= ds + cm_descs(b@, cursor + 20, (di + 1) as nat, count as nat).0);
                        }
                        cursor = cursor + 20;
                        di += 1;
                    }
                    assert(items@ =~= before.push(full) + ds);
                }
                proof {
                    if !dstop {
                        assert(ds + Seq::<CmItem>::empty() =~= ds);
                    }
                    assert(whole == before + (seq![full] + d.0 + cm_fulls(b@, d.1, (fi + 1) as nat, fc as nat)));
                    assert(before + (seq![full] + d.0 + cm_fulls(b@, d.1, (fi + 1) as nat, fc as nat)) =~= items@
                        + cm_fulls(b@, cursor as int, (fi + 1) as nat, fc as nat));
                }
                fi += 1;
            }
        }
    }
    proof {
        if !stop {
            assert(items@ + Seq::<CmItem>::empty() =~= items@);
        }
    }
    CmList::Decoded { full_count: fc, items }
}

/// What an `IO_RESOURCE_DESCRIPTOR` holds, by resource type.
#[derive(Debug, Clone, Copy, PartialEq, Eq, Structural)]
pub enum IoPayload {
    /// Port or memory (types 1, 3).
    Range { length: u32, alignment: u32, minimum: u64, maximum: u64 },
    /// Type 2.
    Interrupt { minimum: u32, maximum: u32 },
    /// Type 4.
    Dma { minimum: u32, maximum: u32 },
    /// Type 6.
    BusNumber { length: u32, minimum: u32, maximum: u32 },
    Other,
}

/// One step of reading an `IO_RESOURCE_REQUIREMENTS_LIST`, in order.
#[derive(Debug, Clone, Copy, PartialEq, Eq, Structural)]
pub enum IoItem {
    Alternative { index: u32, version: u16, revision: u16, count: u32 },
    Descriptor { index: u32, option: u8, resource_type: u8, share: u8, flags: u16, payload: IoPayload },
    TruncatedList,
    InvalidDescriptorCount,
    TruncatedDescriptor,
}

/// A decoded `IO_RESOURCE_REQUIREMENTS_LIST`.
#[derive(Debug, Clone, PartialEq, Eq)]
pub enum IoList {
    Null,
    InvalidPointer(u64),
    /// The list size is outside 32..=0x10000 or it has over 64 alternatives.
    InvalidRequirements { size: u32, alternatives: u32 },
    Decoded {
        size: u32,
        interface_type: u32,
        bus_number: u32,
        slot_number: u32,
        alternatives: u32,
        items: Vec<IoItem>,
    },
}

/// `IoList` as values.
pub enum IoFacts {
    Null,
    InvalidPointer(u64),
    InvalidRequirements { size: u32, alternatives: u32 },
    Decoded {
        size: u32,
        interface_type: u32,
        bus_number: u32,
        slot_number: u32,
        alternatives: u32,
        items: Seq<IoItem>,
    },
}

impl View for IoList {
    type V = IoFacts;

    open spec fn view(&self) -> IoFacts {
        match self {
            IoList::Null => IoFacts::Null,
            IoList::InvalidPointer(a) => IoFacts::InvalidPointer(*a),
            IoList::InvalidRequirements { size, alternatives } => IoFacts::InvalidRequirements {
                size: *size,
                alternatives: *alternatives,
            },
            IoList::Decoded { size, interface_type, bus_number, slot_number, alternatives, items } => IoFacts::Decoded {
                size: *size,
                interface_type: *interface_type,
                bus_number: *bus_number,
                slot_number: *slot_number,
                alternatives: *alternatives,
                items: items@,
            },
        }
    }
}

/// The payload of the requirement descriptor of type `t` at `c` in `b`.
pub open spec fn io_payload(b: Seq<u8>, c: int, t: u8) -> IoPayload {
    if t == 1 || t == 3 {
        IoPayload::Range {
            length: u32_le(b, c + 8),
            alignment: u32_le(b, c + 12),
            minimum: u64_le(b, c + 16),
            maximum: u64_le(b, c + 24),
        }
    } else if t == 2 {
        IoPayload::Interrupt { minimum: u32_le(b, c + 8), maximum: u32_le(b, c + 12) }
    } else if t == 4 {
        IoPayload::Dma { minimum: u32_le(b, c + 8), maximum: u32_le(b, c + 12) }
    } else if t == 6 {
        IoPayload::BusNumber { length: u32_le(b, c + 8), minimum: u32_le(b, c + 12), maximum: u32_le(b, c + 16) }
    } else {
        IoPayload::Other
    }
}

/// Descriptors `di..dc` of an alternative, from `c`: the items and where reading ended.
pub open spec fn io_descs(b: Seq<u8>, c: int, di: nat, dc: nat) -> (Seq<IoItem>, int)
    decreases dc - di,
{
    if di >= dc {
        (Seq::empty(), c)
    } else if c + 32 > b.len() {
        (seq![IoItem::TruncatedDescriptor], c)
    } else {
        let t = b[c + 1];
        let item = IoItem::Descriptor {
            index: di as u32,
            option: b[c],
            resource_type: t,
            share: b[c + 2],
            flags: u16_le(b, c + 4),
            payload: io_payload(b, c, t),
        };
        let r = io_descs(b, c + 32, di + 1, dc);
        (seq![item] + r.0, r.1)
    }
}

/// Alternatives `ai..ac`, from `c`.
pub open spec fn io_alts(b: Seq<u8>, c: int, ai: nat, ac: nat) -> Seq<IoItem>
    decreases ac - ai,
{
    if ai >= ac {
        Seq::empty()
    } else if c + 8 > b.len() {
        seq![IoItem::TruncatedList]
    } else {
        let count = u32_le(b, c + 4);
        let alt = IoItem::Alternative {
            index: ai as u32,
            version: u16_le(b, c),
            revision: u16_le(b, c + 2),
            count,
        };
        if count > 512 {
            seq![alt, IoItem::InvalidDescriptorCount]
        } else {
            let d = io_descs(b, c + 8, 0, count as nat);
            seq![alt] + d.0 + io_alts(b, d.1, ai + 1, ac)
        }
    }
}

/// The requirements list at `a`: null, not a kernel address, an implausible size or
/// alternative count, or its items as read from the list's own size.
pub open spec fn io_list_of<M: GuestPhysical>(m: &M, cr3: u64, a: u64) -> IoFacts {
    if a == 0 {
        IoFacts::Null
    } else if a < KERNEL_SPACE {
        IoFacts::InvalidPointer(a)
    } else {
        let h = linear_bytes(m, a, 32, true, cr3);
        let size = u32_le(h, 0);
        let alts = u32_le(h, 28);
        if !(32 <= size <= 0x1_0000) || alts > 64 {
            IoFacts::InvalidRequirements { size, alternatives: alts }
        } else {
            IoFacts::Decoded {
                size,
                interface_type: u32_le(h, 4),
                bus_number: u32_le(h, 8),
                slot_number: u32_le(h, 12),
                alternatives: alts,
                items: io_alts(linear_bytes(m, a, size as nat, true, cr3), 32, 0, alts as nat),
            }
        }
    }
}

fn io_payload_at(b: &Vec<u8>, c: usize, t: u8) -> (p: IoPayload)
    requires
        c + 32 <= b.len(),
    ensures
        p == io_payload(b@, c as int, t),
{
    if t == 1 || t == 3 {
        IoPayload::Range {
            length: u32_at(b.as_slice(), c + 8),
            alignment: u32_at(b.as_slice(), c + 12),
            minimum: u64_at(b.as_slice(), c + 16),
            maximum: u64_at(b.as_slice(), c + 24),
        }
    } else if t == 2 {
        IoPayload::Interrupt { minimum: u32_at(b.as_slice(), c + 8), maximum: u32_at(b.as_slice(), c + 12) }
    } else if t == 4 {
        IoPayload::Dma { minimum: u32_at(b.as_slice(), c + 8), maximum: u32_at(b.as_slice(), c + 12) }
    } else if t == 6 {
        IoPayload::BusNumber {
            length: u32_at(b.as_slice(), c + 8),
            minimum: u32_at(b.as_slice(), c + 12),
            maximum: u32_at(b.as_slice(), c + 16),
        }
    } else {
        IoPayload::Other
    }
}

/// Decode the `IO_RESOURCE_REQUIREMENTS_LIST` at kernel address `address`.
pub fn decode_io_resource_requirements<M: GuestPhysical>(m: &mut M, cr3: u64, address: u64) -> (r:
    IoList)
    ensures
        r@ == io_list_of(old(m), cr3, address),
        same_memory(final(m), old(m)),
{
    let ghost m0 = *m;
    if address == 0 {
        return IoList::Null;
    }
    if address < KERNEL_SPACE {
        return IoList::InvalidPointer(address);
    }
    let h = read_at(m, Ghost(m0), address, 32, true, cr3);
    let size = u32_at(h.as_slice(), 0);
    let alts = u32_at(h.as_slice(), 28);
    if !(size >= 32 && size <= 0x1_0000) || alts > 64 {
        return IoList::InvalidRequirements { size, alternatives: alts };
    }
    let b = read_at(m, Ghost(m0), address, size as usize, true, cr3);
    let ghost whole = io_alts(b@, 32, 0, alts as nat);
    let mut items: Vec<IoItem> = Vec::new();
    let mut cursor: usize = 32;
    let mut ai: u32 = 0;
    let mut stop = false;
    while ai < alts && !stop
        invariant
            b@.len() == size,
            size <= 0x1_0000,
            ai <= alts <= 64,
            cursor <= 0x1_0000 + 32,
            stop ==> whole == items@,
            !stop ==> whole == items@ + io_alts(b@, cursor as int, ai as nat, alts as nat),
        decreases alts - ai + if stop {
            0int
        } else {
            1int
        },
    {
        if cursor + 8 > b.len() {
            let ghost prev = items@;
            items.push(IoItem::TruncatedList);
            assert(items@ =~= prev + seq![IoItem::TruncatedList]);
            stop = true;
        } else {
            let count = u32_at(b.as_slice(), cursor + 4);
            let alt = IoItem::Alternative {
                index: ai,
                version: u16_at(b.as_slice(), cursor),
                revision: u16_at(b.as_slice(), cursor + 2),
                count,
            };
            let ghost before = items@;
            items.push(alt);
            if count > 512 {
                items.push(IoItem::InvalidDescriptorCount);
                assert(items@ =~= before + seq![alt, IoItem::InvalidDescriptorCount]);
                stop = true;
            } else {
                let ghost d = io_descs(b@, cursor + 8, 0, count as nat);
                cursor = cursor + 8;
                let mut di: u32 = 0;
                let mut dstop = false;
                let ghost mut ds: Seq<IoItem> = Seq::empty();
                while di < count && !dstop
                    invariant
                        b@.len() == size,
                        size <= 0x1_0000,
                        di <= count <= 512,
                        cursor <= 0x1_0000 + 32,
                        items@ == before.push(alt) + ds,
                        dstop ==> d == (ds, cursor as int),
                        !dstop ==> d.0 == ds + io_descs(b@, cursor as int, di as nat, count as nat).0,
                        !dstop ==> d.1 == io_descs(b@, cursor as int, di as nat, count as nat).1,
                    decreases count - di + if dstop {
                        0int
                    } else {
                        1int
                    },
                {
                    if cursor + 32 > b.len() {
                        items.push(IoItem::TruncatedDescriptor);
                        proof {
                            ds = ds.push(IoItem::TruncatedDescriptor);
                        }
                        dstop = true;
                    } else {
                        let t = b[cursor + 1];
                        let item = IoItem::Descriptor {
                            index: di,
                            option: b[cursor],
                            resource_type: t,
                            share: b[cursor + 2],
                            flags: u16_at(b.as_slice(), cursor + 4),
                            payload: io_payload_at(&b, cursor, t),
                        };
                        items.push(item);
                        proof {
                            let old_ds = ds;
                            ds = ds.push(item);
                            assert(old_ds + (seq![item] + io_descs(b@, cursor + 32, (di + 1) as nat, count as nat).0)
                                =~= ds + io_descs(b@, cursor + 32, (di + 1) as nat, count as nat).0);
                        }
                        cursor = cursor + 32;
                        di += 1;
                    }
                    assert(items@ =~= before.push(alt) + ds);
                }
                proof {
                    if !dstop {
                        assert(ds + Seq::<IoItem>::empty() =~= ds);
                    }
                    assert(whole == before + (seq![alt] + d.0 + io_alts(b@, d.1, (ai + 1) as nat, alts as nat)));
                    assert(before + (seq![alt] + d.0 + io_alts(b@, d.1, (ai + 1) as nat, alts as nat)) =~= items@
                        + io_alts(b@, cursor as int, (ai + 1) as nat, alts as nat));
                }
                ai += 1;
            }
        }
    }
    proof {
        if !stop {
            assert(items@ + Seq::<IoItem>::empty() =~= items@);
        }
    }
    IoList::Decoded {
        size,
        interface_type: u32_at(h.as_slice(), 4),
        bus_number: u32_at(h.as_slice(), 8),
        slot_number: u32_at(h.as_slice(), 12),
        alternatives: alts,
        items,
    }
}

} // verus!
