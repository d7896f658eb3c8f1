use aero::cli::GuestRam;
use aero::inspect::{CpuSnapshot, ModulesDump};
use aero::procscan::{dump_eprocess_image_names, ImageFacts};

const K: u64 = 0xffff_8000_0000_0000;

fn put64(ram: &mut GuestRam, at: u64, v: u64) {
    let a = at as usize;
    ram.bytes[a..a + 8].copy_from_slice(&v.to_le_bytes());
}

fn put32(ram: &mut GuestRam, at: u64, v: u32) {
    let a = at as usize;
    ram.bytes[a..a + 4].copy_from_slice(&v.to_le_bytes());
}

fn put_name(ram: &mut GuestRam, eprocess: u64, name: &str) {
    let n = (eprocess + 0x2e0) as usize;
    ram.bytes[n..n + name.len()].copy_from_slice(name.as_bytes());
}

/// An `EPROCESS` head at physical `at` as the scan reads it.
fn put_eprocess(ram: &mut GuestRam, at: u64, name: &str, pid: u64, dtb: u64, exit_time: u64) {
    put64(ram, at + 0x28, dtb);
    put64(ram, at + 0x180, pid);
    put64(ram, at + 0x170, exit_time);
    put32(ram, at + 0x444, 0x103);
    put_name(ram, at, name);
}

/// 2 MiB of RAM with page tables at 0x1000 mapping the first 2 MiB at 0 and at `K`.
fn paged() -> GuestRam {
    let mut ram = GuestRam { base: 0, bytes: vec![0u8; 0x20_0000] };
    put64(&mut ram, 0x1000, 0x4003);
    put64(&mut ram, 0x1000 + 256 * 8, 0x2003);
    put64(&mut ram, 0x2000, 0x3003);
    put64(&mut ram, 0x3000, 0x83);
    put64(&mut ram, 0x4000, 0x5003);
    put64(&mut ram, 0x5000, 0x83);
    ram
}

fn cpu() -> CpuSnapshot {
    CpuSnapshot {
        rip: 0,
        cs_selector: 0,
        cs_base: 0,
        ss_base: 0,
        stack_ptr: 0,
        gdtr_base: 0,
        gdtr_limit: 0,
        cr0: 0x8000_0011,
        cr3: 0x1000,
        efer: 0x500,
        gs_base: 0,
        kernel_gs_base: 0,
        lstar: 0,
    }
}

fn scanned() -> GuestRam {
    let mut ram = paged();
    put_eprocess(&mut ram, 0x80000, "smss.exe", 0x1f0, 0x1000, 0);
    put_eprocess(&mut ram, 0x90000, "Idle", 0, 0x1000, 0);
    // Exited, but a real image name: reported as dead.
    put_eprocess(&mut ram, 0xa0000, "done.exe", 0x200, 0x7000, 5);
    // Exited and no image extension: a file-cache fragment, dropped.
    put_eprocess(&mut ram, 0xb0000, "softwin", 0x204, 0x7000, 5);
    // A process id that is not a multiple of four.
    put_eprocess(&mut ram, 0xc0000, "odd.exe", 0x1f1, 0x1000, 0);
    // A directory table base that is not page aligned.
    put_eprocess(&mut ram, 0xd0000, "skew.exe", 0x208, 0x1010, 0);
    // In the second MiB.
    put_eprocess(&mut ram, 0x180000, "late.exe", 0x300, 0x1000, 0);
    ram
}

#[test]
fn the_scan_reports_validated_processes_in_address_order() {
    let mut ram = scanned();
    let before = ram.bytes.clone();
    let d = dump_eprocess_image_names(&mut ram, &cpu(), 2, None, None);
    assert_eq!(ram.bytes, before);
    let names: Vec<&[u8]> = d.records.iter().map(|r| r.name.as_slice()).collect();
    assert_eq!(names, vec![&b"smss.exe"[..], b"Idle", b"done.exe", b"late.exe"]);
    assert_eq!(
        d.records[0].facts,
        ImageFacts { pid: 0x1f0, dtb: 0x1000, eproc_pa: 0x80000, alive: true, exit_status: 0x103 }
    );
    assert_eq!(d.records[1].facts.pid, 0);
    assert!(d.records[2].facts.eproc_pa == 0xa0000 && !d.records[2].facts.alive);
    assert_eq!(d.records[3].facts.eproc_pa, 0x180000);
    assert!(d.records.iter().all(|r| r.threads.is_none() && r.modules.is_none()));
    // No live list outside a running kernel thread.
    assert!(d.live.is_empty());
}

#[test]
fn the_scan_stops_at_the_requested_size() {
    let mut ram = scanned();
    let d = dump_eprocess_image_names(&mut ram, &cpu(), 1, None, None);
    assert_eq!(d.records.len(), 3);
    assert!(d.records.iter().all(|r| r.facts.eproc_pa < 0x10_0000));
    let none = dump_eprocess_image_names(&mut ram, &cpu(), 0, None, None);
    assert!(none.records.is_empty());
}

#[test]
fn at_most_sixty_four_processes_are_reported() {
    let mut ram = paged();
    for i in 0..70u64 {
        put_eprocess(&mut ram, 0x10000 + i * 0x1000, "svchost.exe", 0x400 + 4 * i, 0x1000, 0);
    }
    let d = dump_eprocess_image_names(&mut ram, &cpu(), 2, None, None);
    assert_eq!(d.records.len(), 64);
    assert_eq!(d.records[63].facts.pid, 0x400 + 4 * 63);
}

#[test]
fn the_filters_pick_the_processes_to_dump() {
    let mut ram = scanned();
    let d = dump_eprocess_image_names(&mut ram, &cpu(), 2, Some("SMSS.EXE,idle"), Some("done.exe"));
    assert!(d.records[0].threads.is_some());
    assert!(d.records[1].threads.is_some());
    assert!(d.records[2].threads.is_none());
    assert_eq!(d.records[2].modules, Some(ModulesDump::InvalidPeb(0)));
    assert!(d.records[0].modules.is_none());
    // An empty filter selects nothing.
    let e = dump_eprocess_image_names(&mut ram, &cpu(), 2, Some(""), Some(""));
    assert!(e.records.iter().all(|r| r.threads.is_none() && r.modules.is_none()));
}

#[test]
fn the_live_list_follows_the_scan() {
    let mut ram = paged();
    let kpcr = 0x40000u64;
    put64(&mut ram, kpcr + 0x188, K + 0x20000);
    put64(&mut ram, 0x20000 + 0x210, K + 0x10000);
    put64(&mut ram, 0x10000 + 0x180, 4);
    put64(&mut ram, 0x10000 + 0x188, K + 0x10000 + 0x188);
    put_name(&mut ram, 0x10000, "System");
    let mut c = cpu();
    c.rip = K + 0x1000;
    c.gs_base = K + kpcr;
    let d = dump_eprocess_image_names(&mut ram, &c, 2, Some("*"), None);
    // Its DirectoryTableBase is zero, so the scan drops it; the walk still lists it.
    assert!(d.records.is_empty());
    assert_eq!(d.live.len(), 1);
    assert_eq!(d.live[0].pid, 4);
    assert_eq!(&d.live[0].name[..6], b"System");
    assert_eq!(d.live[0].eprocess, K + 0x10000);
    assert!(matches!(d.live[0].threads, Some(Some(_))));
}

#[test]
fn live_names_select_threads_by_their_text() {
    let mut ram = paged();
    let kpcr = 0x40000u64;
    put64(&mut ram, kpcr + 0x188, K + 0x20000);
    put64(&mut ram, 0x20000 + 0x210, K + 0x10000);
    put64(&mut ram, 0x10000 + 0x180, 8);
    put64(&mut ram, 0x10000 + 0x188, K + 0x10000 + 0x188);
    put_name(&mut ram, 0x10000, "Setup.exe");
    let mut c = cpu();
    c.rip = K + 0x1000;
    c.gs_base = K + kpcr;
    let d = dump_eprocess_image_names(&mut ram, &c, 1, Some("SETUP.EXE"), None);
    assert!(matches!(d.live[0].threads, Some(Some(_))));
    let d = dump_eprocess_image_names(&mut ram, &c, 1, Some("setup"), None);
    assert!(d.live[0].threads.is_none());
    // A name with a byte outside printable ASCII is not a live process name.
    ram.bytes[0x10000 + 0x2e0 + 5] = 0xe9;
    let d = dump_eprocess_image_names(&mut ram, &c, 1, Some("*"), None);
    assert!(d.live.is_empty());
}
