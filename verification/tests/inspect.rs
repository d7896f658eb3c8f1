use aero::cli::GuestRam;
use aero::devnodes::{discover_kernel_base, dump_win7_devnodes, DevnodeDump, KernelBaseSource};
use aero::resources::{
    decode_cm_resource_list, decode_io_resource_requirements, CmItem, CmList, CmPayload, IoItem,
    IoList, IoPayload,
};
use aero::inspect::{
    dump_eprocess_modules, dump_eprocess_threads, exception_debug_context, read_linear_bytes,
    walk_active_process_image_names, CpuSnapshot, GdtEntry, ModulesDump, ThreadWalkStop,
};

const K: u64 = 0xffff_8000_0000_0000;

fn put64(ram: &mut GuestRam, at: u64, v: u64) {
    let a = at as usize;
    ram.bytes[a..a + 8].copy_from_slice(&v.to_le_bytes());
}

fn put32(ram: &mut GuestRam, at: u64, v: u32) {
    let a = at as usize;
    ram.bytes[a..a + 4].copy_from_slice(&v.to_le_bytes());
}

fn put16(ram: &mut GuestRam, at: u64, v: u16) {
    let a = at as usize;
    ram.bytes[a..a + 2].copy_from_slice(&v.to_le_bytes());
}

fn put_utf16(ram: &mut GuestRam, at: u64, s: &str) -> u16 {
    let mut a = at;
    for u in s.encode_utf16() {
        put16(ram, a, u);
        a += 2;
    }
    (a - at) as u16
}

/// 2 MiB of RAM with page tables at 0x1000 mapping the first 2 MiB both at 0 (user half)
/// and at `K` (kernel half) with one large page each.
fn paged() -> GuestRam {
    let mut ram = GuestRam { base: 0, bytes: vec![0u8; 0x20_0000] };
    put64(&mut ram, 0x1000, 0x4003); // PML4[0] -> PDPT 0x4000
    put64(&mut ram, 0x1000 + 256 * 8, 0x2003); // PML4[256] -> PDPT 0x2000
    put64(&mut ram, 0x2000, 0x3003);
    put64(&mut ram, 0x3000, 0x83); // 2 MiB page at 0
    put64(&mut ram, 0x4000, 0x5003);
    put64(&mut ram, 0x5000, 0x83);
    ram
}

fn cpu(cr3: u64, long: bool) -> CpuSnapshot {
    CpuSnapshot {
        rip: 0,
        cs_selector: 0,
        cs_base: 0,
        ss_base: 0,
        stack_ptr: 0,
        gdtr_base: 0,
        gdtr_limit: 0,
        cr0: if long { 0x8000_0011 } else { 0x11 },
        cr3,
        efer: if long { 0x500 } else { 0 },
        gs_base: 0,
        kernel_gs_base: 0,
        lstar: 0,
    }
}

#[test]
fn fault_context_reads_code_stack_and_descriptors() {
    let mut ram = GuestRam { base: 0, bytes: (0..0x2000u32).map(|i| (i % 251) as u8).collect() };
    // GDT at 0x800: entry 2 is a flat 4 GiB code segment.
    let gdt = 0x800u64;
    ram.bytes[0x800..0x800 + 24].fill(0);
    ram.bytes[0x810..0x818].copy_from_slice(&[0xFF, 0xFF, 0x00, 0x00, 0x00, 0x9A, 0xCF, 0x00]);
    let mut c = cpu(0, false);
    c.rip = 0x10;
    c.cs_base = 0x100;
    c.cs_selector = 0x10;
    c.ss_base = 0x300;
    c.stack_ptr = 0x20;
    c.gdtr_base = gdt;
    c.gdtr_limit = 23;
    let x = exception_debug_context(&mut ram, &c);
    assert_eq!(x.linear, 0x110);
    assert!(!x.long_mode);
    assert_eq!(x.code, ram.bytes[0x110..0x120].to_vec());
    assert_eq!(x.code_before, ram.bytes[0xF8..0x110].to_vec());
    let w0 = ram.bytes[0x320] as u16 | (ram.bytes[0x321] as u16) << 8;
    assert_eq!(x.stack_words.len(), 8);
    assert_eq!(x.stack_words[0], w0);
    let d0 = u32::from_le_bytes(ram.bytes[0x318..0x31C].try_into().unwrap());
    assert_eq!(x.below_sp[0], d0);
    assert_eq!(x.cs_desc_index, 2);
    assert_eq!(x.cs_desc, vec![0xFF, 0xFF, 0x00, 0x00, 0x00, 0x9A, 0xCF, 0x00]);
    assert_eq!(x.gdt.len(), 3);
    assert_eq!(x.gdt[2], GdtEntry { base: 0, limit: 0xFFFFF, access: 0x9A });
    assert_eq!(x.gdt[0], GdtEntry { base: 0, limit: 0, access: 0 });
    assert_eq!(x.desc_index, 8);
    assert_eq!(x.desc, ram.bytes[0x840..0x848].to_vec());
}

#[test]
fn linear_reads_use_the_cpu_page_tables() {
    let mut ram = paged();
    ram.bytes[0x1_2345] = 0x77;
    let c = cpu(0x1000, true);
    assert_eq!(read_linear_bytes(&mut ram, &c, K + 0x1_2345, 1, true), vec![0x77]);
    assert_eq!(read_linear_bytes(&mut ram, &c, 0x1_2345, 1, true), vec![0x77]);
    assert_eq!(read_linear_bytes(&mut ram, &c, 0x4000_0000, 2, true), vec![0xFE, 0xFE]);
}

/// An EPROCESS at physical 0x10000 (kernel VA `K + 0x10000`) with two threads.
fn with_threads(active: u32) -> GuestRam {
    let mut ram = paged();
    let pe = 0x10000u64;
    put64(&mut ram, pe + 0x28, 0x1000);
    put64(&mut ram, pe + 0x308, K + 0x20000 + 0x420);
    put32(&mut ram, pe + 0x328, active);
    for (i, phys) in [0x20000u64, 0x30000].iter().enumerate() {
        let t = *phys;
        ram.bytes[(t + 0x164) as usize] = 5;
        ram.bytes[(t + 0x26b) as usize] = 6;
        put32(&mut ram, t + 0x134, 100 + i as u32);
        put32(&mut ram, t + 0x194, 7);
        put64(&mut ram, t + 0x388, 0x1234);
        put64(&mut ram, t + 0x3b8, 0x44 + 4 * i as u64);
        put64(&mut ram, t + 0x410, 0x5678);
    }
    put64(&mut ram, 0x20000 + 0x420, K + 0x30000 + 0x420);
    put64(&mut ram, 0x30000 + 0x420, 0);
    ram
}

#[test]
fn threads_follow_the_thread_list() {
    let mut ram = with_threads(2);
    let d = dump_eprocess_threads(&mut ram, &cpu(0x1000, true), 0x10000);
    assert_eq!(d.active_threads, 2);
    assert_eq!(d.stop, None);
    assert_eq!(d.threads.len(), 2);
    assert_eq!(d.threads[0].tid, 0x44);
    assert_eq!(d.threads[0].ethread, K + 0x20000);
    assert_eq!(d.threads[0].state, 5);
    assert_eq!(d.threads[0].wait_reason, 6);
    assert_eq!(d.threads[0].context_switches, 100);
    assert_eq!(d.threads[1].tid, 0x48);
    assert_eq!(d.threads[1].win32_start, 0x5678);
}

#[test]
fn a_user_link_stops_the_thread_walk() {
    let mut ram = with_threads(3);
    let d = dump_eprocess_threads(&mut ram, &cpu(0x1000, true), 0x10000);
    assert_eq!(d.threads.len(), 2);
    assert_eq!(d.stop, Some(ThreadWalkStop::InvalidLink { index: 2, link: 0 }));
}

#[test]
fn processes_are_walked_from_the_current_thread() {
    let mut ram = paged();
    let kpcr = 0x40000u64;
    put64(&mut ram, kpcr + 0x188, K + 0x20000);
    put64(&mut ram, 0x20000 + 0x210, K + 0x10000);
    for (p, pid, name, next) in [
        (0x10000u64, 4u64, "System", K + 0x50000 + 0x188),
        (0x50000u64, 0x1f0u64, "smss.exe", K + 0x10000 + 0x188),
    ] {
        put64(&mut ram, p + 0x180, pid);
        put64(&mut ram, p + 0x188, next);
        let n = p as usize + 0x2e0;
        ram.bytes[n..n + name.len()].copy_from_slice(name.as_bytes());
    }
    let mut c = cpu(0x1000, true);
    c.rip = K + 0x1000;
    c.gs_base = K + kpcr;
    let procs = walk_active_process_image_names(&mut ram, &c);
    assert_eq!(procs.len(), 2);
    assert_eq!(procs[0].0, 4);
    assert_eq!(&procs[0].1[..6], b"System");
    assert_eq!(procs[0].2, K + 0x10000);
    assert_eq!(procs[1].0, 0x1f0);
    assert_eq!(&procs[1].1[..8], b"smss.exe");
    // Outside long mode nothing is walked.
    assert!(walk_active_process_image_names(&mut ram, &cpu(0x1000, false)).is_empty());
}

#[test]
fn modules_follow_the_loader_list() {
    let mut ram = paged();
    put64(&mut ram, 0x10000 + 0x338, 0x60000);
    put64(&mut ram, 0x60000 + 0x18, 0x61000);
    put64(&mut ram, 0x61010, 0x62000);
    let e = 0x62000u64;
    put64(&mut ram, e, 0x61010);
    put64(&mut ram, e + 0x30, 0x7ff0000);
    put64(&mut ram, e + 0x38, 0x7ff1000);
    put32(&mut ram, e + 0x40, 0x5000);
    let len = put_utf16(&mut ram, 0x63000, "ntdll.dll");
    put16(&mut ram, e + 0x58, len);
    put64(&mut ram, e + 0x60, 0x63000);
    match dump_eprocess_modules(&mut ram, 0x1000, 0x10000) {
        ModulesDump::Modules { peb, ldr, modules } => {
            assert_eq!(peb, 0x60000);
            assert_eq!(ldr, 0x61000);
            assert_eq!(modules.len(), 1);
            assert_eq!(modules[0].name.as_deref(), Some("ntdll.dll"));
            assert_eq!(modules[0].dll_base, 0x7ff0000);
            assert_eq!(modules[0].size, 0x5000);
            assert_eq!(modules[0].entry_point, 0x7ff1000);
        }
        other => panic!("unexpected {other:?}"),
    }
    assert_eq!(dump_eprocess_modules(&mut ram, 0x1000, 0x70000), ModulesDump::InvalidPeb(0));
}

fn put_ntos(ram: &mut GuestRam, at: u64) {
    ram.bytes[at as usize] = b'M';
    ram.bytes[at as usize + 1] = b'Z';
    put32(ram, at + 0x3c, 0x80);
    let pe = at + 0x80;
    ram.bytes[pe as usize..pe as usize + 6].copy_from_slice(&[b'P', b'E', 0, 0, 0x64, 0x86]);
    put16(ram, pe + 6, 3);
    ram.bytes[pe as usize + 24] = 0x0b;
    ram.bytes[pe as usize + 25] = 0x02;
    put32(ram, pe + 0x50, 0x60_0000);
}

#[test]
fn the_kernel_image_is_found_below_lstar() {
    let mut ram = paged();
    put_ntos(&mut ram, 0x7F000);
    assert_eq!(discover_kernel_base(&mut ram, 0x1000, K + 0x80123), Some(K + 0x7F000));
    assert_eq!(discover_kernel_base(&mut ram, 0x1000, 0x1000), None);
}

#[test]
fn device_nodes_matching_a_filter_are_reported() {
    let mut ram = paged();
    put64(&mut ram, 0x100, K + 0x70000);
    let root = 0x70000u64;
    let child = 0x71000u64;
    put64(&mut ram, root + 0x08, K + child);
    let l = put_utf16(&mut ram, 0x72000, "HTREE\\ROOT\\0");
    put16(&mut ram, root + 0x28, l);
    put64(&mut ram, root + 0x30, K + 0x72000);
    put64(&mut ram, child + 0x10, K + root);
    let l = put_utf16(&mut ram, 0x72100, "PCI\\VEN_1234&DEV_1111");
    put16(&mut ram, child + 0x28, l);
    put64(&mut ram, child + 0x30, K + 0x72100);
    put16(&mut ram, child + 0x38, 0x401);
    put64(&mut ram, child + 0x40, K);
    put32(&mut ram, child + 0xe0, 0x308);
    put32(&mut ram, child + 0x148, 0x1c);
    let c = cpu(0x1000, true);
    let d = dump_win7_devnodes(&mut ram, &c, " ven_1234 ,", None, Some(K), Some(0x100), true);
    match d {
        DevnodeDump::Walked { walked, root: r, slot, rva, kernel_base, source, cr3, matches } => {
            assert_eq!(walked, 2);
            assert_eq!(r, K + 0x70000);
            assert_eq!(slot, K + 0x100);
            assert_eq!(rva, 0x100);
            assert_eq!(kernel_base, K);
            assert_eq!(source, KernelBaseSource::Override);
            assert_eq!(cr3, 0x1000);
            assert_eq!(matches.len(), 1);
            let m = &matches[0];
            assert_eq!(m.depth, 1);
            assert_eq!(m.node, K + child);
            assert_eq!(m.parent, K + root);
            assert_eq!(m.parent_path.iter().collect::<String>(), "HTREE\\ROOT\\0");
            assert_eq!(m.path.iter().collect::<String>(), "PCI\\VEN_1234&DEV_1111");
            assert_eq!(
                m.service.iter().collect::<String>(),
                format!("<invalid UNICODE_STRING len={:#x} buf={:#x}>", 0x401, K)
            );
            assert_eq!(m.state, 0x308);
            assert_eq!(m.problem, 0x1c);
            let r = m.resources.as_ref().unwrap();
            assert_eq!((r.raw, r.translated, r.requirements, r.boot, r.boot_translated), (0, 0, 0, 0, 0));
            assert_eq!(r.raw_list, CmList::Null);
            assert_eq!(r.requirements_list, IoList::Null);
        }
        other => panic!("unexpected {other:?}"),
    }
    let none = dump_win7_devnodes(&mut ram, &c, "usb", None, Some(K), Some(0x100), false);
    assert!(matches!(none, DevnodeDump::Walked { walked: 2, ref matches, .. } if matches.is_empty()));
    let bad = dump_win7_devnodes(&mut ram, &c, "usb", None, Some(K), Some(0x200), false);
    assert_eq!(
        bad,
        DevnodeDump::InvalidRoot {
            root: 0,
            slot: K + 0x200,
            rva: 0x200,
            kernel_base: K,
            source: KernelBaseSource::Override,
            cr3: 0x1000
        }
    );
}

#[test]
fn assigned_resources_decode_descriptor_by_descriptor() {
    let mut ram = paged();
    let a = 0x74000u64;
    put32(&mut ram, a, 1);
    put32(&mut ram, a + 4, 5);
    put16(&mut ram, a + 12, 1);
    put16(&mut ram, a + 14, 1);
    put32(&mut ram, a + 16, 2);
    let d0 = a + 20;
    ram.bytes[d0 as usize] = 3;
    ram.bytes[d0 as usize + 1] = 1;
    put64(&mut ram, d0 + 4, 0xfebf_0000);
    put32(&mut ram, d0 + 12, 0x1000);
    let d1 = d0 + 20;
    ram.bytes[d1 as usize] = 2;
    put16(&mut ram, d1 + 2, 0x1);
    put32(&mut ram, d1 + 4, 10);
    put32(&mut ram, d1 + 8, 0x3a);
    put64(&mut ram, d1 + 12, 1);
    match decode_cm_resource_list(&mut ram, 0x1000, K + a) {
        CmList::Decoded { full_count, items } => {
            assert_eq!(full_count, 1);
            assert_eq!(
                items,
                vec![
                    CmItem::Full { index: 0, interface_type: 5, bus_number: 0, version: 1, revision: 1, count: 2 },
                    CmItem::Descriptor {
                        index: 0,
                        resource_type: 3,
                        share: 1,
                        flags: 0,
                        payload: CmPayload::Range { start: 0xfebf_0000, end: 0xfebf_0fff, length: 0x1000 },
                    },
                    CmItem::Descriptor {
                        index: 1,
                        resource_type: 2,
                        share: 0,
                        flags: 1,
                        payload: CmPayload::Interrupt { level: 10, vector: 0x3a, affinity: 1 },
                    },
                ]
            );
        }
        other => panic!("unexpected {other:?}"),
    }
    assert_eq!(decode_cm_resource_list(&mut ram, 0x1000, 0), CmList::Null);
    assert_eq!(decode_cm_resource_list(&mut ram, 0x1000, 0x1234), CmList::InvalidPointer(0x1234));
    assert_eq!(decode_cm_resource_list(&mut ram, 0x1000, K + 0x76000), CmList::InvalidFullCount(0));
    // A descriptor count over 256 ends the list.
    put32(&mut ram, a + 16, 300);
    match decode_cm_resource_list(&mut ram, 0x1000, K + a) {
        CmList::Decoded { items, .. } => {
            assert_eq!(items.len(), 2);
            assert_eq!(items[1], CmItem::InvalidDescriptorCount);
        }
        other => panic!("unexpected {other:?}"),
    }
}

#[test]
fn requirements_decode_alternative_by_alternative() {
    let mut ram = paged();
    let a = 0x75000u64;
    put32(&mut ram, a, 72);
    put32(&mut ram, a + 4, 5);
    put32(&mut ram, a + 12, 0x18);
    put32(&mut ram, a + 28, 1);
    put16(&mut ram, a + 32, 1);
    put16(&mut ram, a + 34, 1);
    put32(&mut ram, a + 36, 2);
    let d = a + 40;
    ram.bytes[d as usize + 1] = 1;
    ram.bytes[d as usize + 2] = 1;
    put16(&mut ram, d + 4, 5);
    put32(&mut ram, d + 8, 0x20);
    put32(&mut ram, d + 12, 1);
    put64(&mut ram, d + 16, 0xc000);
    put64(&mut ram, d + 24, 0xffff);
    match decode_io_resource_requirements(&mut ram, 0x1000, K + a) {
        IoList::Decoded { size, interface_type, bus_number, slot_number, alternatives, items } => {
            assert_eq!((size, interface_type, bus_number, slot_number, alternatives), (72, 5, 0, 0x18, 1));
            assert_eq!(
                items,
                vec![
                    IoItem::Alternative { index: 0, version: 1, revision: 1, count: 2 },
                    IoItem::Descriptor {
                        index: 0,
                        option: 0,
                        resource_type: 1,
                        share: 1,
                        flags: 5,
                        payload: IoPayload::Range { length: 0x20, alignment: 1, minimum: 0xc000, maximum: 0xffff },
                    },
                    IoItem::TruncatedDescriptor,
                ]
            );
        }
        other => panic!("unexpected {other:?}"),
    }
    put32(&mut ram, a, 16);
    assert_eq!(
        decode_io_resource_requirements(&mut ram, 0x1000, K + a),
        IoList::InvalidRequirements { size: 16, alternatives: 1 }
    );
}

use aero::physmap::{find_phys_maps, FindPhysError, MapSize, PhysHit, RootTag};

#[test]
fn physical_pages_are_found_in_every_mapping() {
    let mut ram = paged();
    // A 4 KiB mapping of page 0x12000 at PML4 1, PDPT 0, PD 0, PT 5.
    put64(&mut ram, 0x1000 + 8, 0x6003);
    put64(&mut ram, 0x6000, 0x7003);
    put64(&mut ram, 0x7000, 0x8003);
    put64(&mut ram, 0x8000 + 5 * 8, 0x12003);
    let r = find_phys_maps(&mut ram, 0x1000, " 0x12345 ", "").unwrap();
    assert_eq!(r.phys, 0x12345);
    assert!(!r.capped);
    assert_eq!(
        r.hits,
        vec![
            PhysHit { tag: RootTag::Current, va: 0x12345, size: MapSize::Large2M, pte: 0x83 },
            PhysHit { tag: RootTag::Current, va: 0x80_0000_5345, size: MapSize::Small4K, pte: 0x12003 },
            PhysHit {
                tag: RootTag::Current,
                va: 0xffff_8000_0001_2345,
                size: MapSize::Large2M,
                pte: 0x83
            },
        ]
    );
    // A repeated root is scanned once.
    let again = find_phys_maps(&mut ram, 0x1000, "12345", "0x1000").unwrap();
    assert_eq!(again.hits, r.hits);
}

#[test]
fn bad_search_requests_are_refused() {
    let mut ram = paged();
    assert_eq!(
        find_phys_maps(&mut ram, 0x1000, "zz", ""),
        Err(FindPhysError::BadAddress(vec!['z', 'z']))
    );
    assert_eq!(
        find_phys_maps(&mut ram, 0x1000, "1000", "2000, q ,"),
        Err(FindPhysError::BadRoot(vec!['q']))
    );
}
