use aero::cli::GuestRam;
use aero::inspect::CpuSnapshot;
use aero::sce::{wedge_sce_wpeutil_iat, SceTarget, SceWedge, SceWedgeError, SceWedgeState};

const ROOT: u64 = 0x10_0000;
const PEB: u64 = 0x07ff_fffd_b000;
const PARAMS: u64 = 0x7000_1000;
const PATH: u64 = 0x7000_2000;
const BASE: u64 = 0xff01_0000;

fn get64(ram: &GuestRam, at: u64) -> u64 {
    let a = at as usize;
    u64::from_le_bytes(ram.bytes[a..a + 8].try_into().unwrap())
}

fn put64(ram: &mut GuestRam, at: u64, v: u64) {
    let a = at as usize;
    ram.bytes[a..a + 8].copy_from_slice(&v.to_le_bytes());
}

fn put(ram: &mut GuestRam, at: u64, b: &[u8]) {
    let a = at as usize;
    ram.bytes[a..a + b.len()].copy_from_slice(b);
}

/// Map the 4 KiB page at `va` to `pa` under `ROOT`, taking new tables from `next`.
fn map(ram: &mut GuestRam, next: &mut u64, va: u64, pa: u64) {
    let mut table = ROOT;
    for level in 0..3u64 {
        let at = table + ((va >> (39 - 9 * level)) & 0x1ff) * 8;
        let e = get64(ram, at);
        table = if e & 1 == 0 {
            let t = *next;
            *next += 0x1000;
            put64(ram, at, t | 7);
            t
        } else {
            e & 0x000f_ffff_ffff_f000
        };
    }
    put64(ram, table + ((va >> 12) & 0x1ff) * 8, pa | 7);
}

/// winpeshl's image at `BASE` under `ROOT`: `MZ` with a PE header, six WpeUtil import slots
/// and `int3` padding at `+0xb806`; with `peb`, a PEB whose image path names it.
fn winpeshl(peb: bool) -> GuestRam {
    let mut ram = GuestRam { base: 0, bytes: vec![0u8; 0x20_0000] };
    let mut next = ROOT + 0x1000;
    map(&mut ram, &mut next, BASE, 0x13_0000);
    map(&mut ram, &mut next, BASE + 0x1000, 0x13_1000);
    map(&mut ram, &mut next, BASE + 0xb000, 0x13_b000);
    put(&mut ram, 0x13_0000, b"MZ");
    put(&mut ram, 0x13_0000 + 0x3c, &0x80u32.to_le_bytes());
    put(&mut ram, 0x13_0080, b"PE\0\0");
    put(&mut ram, 0x13_0080 + 24 + 0x38, &0x9_0000u32.to_le_bytes());
    for i in 0..6u64 {
        put64(&mut ram, 0x13_1240 + i * 8, 0x7fef_0000_1000 + i * 0x10);
    }
    put(&mut ram, 0x13_b800, &[0xff, 0x25, 0x3a, 0x5a, 0xff, 0xff, 0xcc, 0xcc, 0xcc, 0xcc]);
    if peb {
        map(&mut ram, &mut next, PEB, 0x12_0000);
        map(&mut ram, &mut next, PARAMS, 0x12_1000);
        map(&mut ram, &mut next, PATH, 0x12_2000);
        put64(&mut ram, 0x12_0010, BASE);
        put64(&mut ram, 0x12_0020, PARAMS);
        let path: Vec<u8> = "X:\\Windows\\System32\\WINPESHL.EXE"
            .encode_utf16()
            .flat_map(|u| u.to_le_bytes())
            .collect();
        put(&mut ram, 0x12_1060, &(path.len() as u16).to_le_bytes());
        put64(&mut ram, 0x12_1068, PATH);
        put(&mut ram, 0x12_2000, &path);
    }
    ram
}

fn cpu(cr3: u64, long: bool) -> CpuSnapshot {
    CpuSnapshot {
        rip: 0,
        cs_selector: 0,
        cs_base: 0,
        ss_base: 0,
        stack_ptr: 0,
        gdtr_base: 0,
        gdtr_limit: 0,
        cr0: if long { 0x8000_0011 } else { 0x11 },
        cr3,
        efer: if long { 0x500 } else { 0 },
        gs_base: 0,
        kernel_gs_base: 0,
        lstar: 0,
    }
}

const GADGET: u64 = BASE + 0xb806;

#[test]
fn the_wedge_points_the_imports_at_a_gadget_and_remembers_it() {
    let mut ram = winpeshl(true);
    let mut st = SceWedgeState::new();
    let r = wedge_sce_wpeutil_iat(&mut ram, &cpu(ROOT | 0x18, true), &mut st, 2);
    assert_eq!(
        r,
        Ok(SceWedge { pid: 0, dtb: ROOT, base: BASE, gadget: GADGET, iat_slots: 6, first_apply: true })
    );
    assert_eq!(&ram.bytes[0x13_b806..0x13_b80a], &[0x33, 0xc0, 0xc3, 0xcc]);
    for i in 0..6u64 {
        assert_eq!(get64(&ram, 0x13_1240 + i * 8), GADGET);
    }
    assert_eq!(
        st,
        SceWedgeState {
            cached: Some(SceTarget { pid: 0, dtb: ROOT, base: BASE, gadget: GADGET }),
            miss_ticks: 1,
            logged: true,
        }
    );
    // Re-applied: the cached process is used, the slots already point at the gadget.
    let again = wedge_sce_wpeutil_iat(&mut ram, &cpu(0x5000, true), &mut st, 2);
    assert_eq!(
        again,
        Ok(SceWedge { pid: 0, dtb: ROOT, base: BASE, gadget: GADGET, iat_slots: 6, first_apply: false })
    );
    assert_eq!(st.miss_ticks, 1);
}

#[test]
fn an_existing_gadget_is_reused() {
    let mut ram = winpeshl(true);
    put(&mut ram, 0x13_b100, &[0x33, 0xc0, 0xc3]);
    let mut st = SceWedgeState::new();
    let r = wedge_sce_wpeutil_iat(&mut ram, &cpu(ROOT, true), &mut st, 2).unwrap();
    assert_eq!(r.gadget, BASE + 0xb100);
    // The padding is left alone.
    assert_eq!(&ram.bytes[0x13_b806..0x13_b809], &[0xcc, 0xcc, 0xcc]);
}

#[test]
fn the_wedge_needs_long_mode() {
    let mut ram = winpeshl(true);
    let before = ram.bytes.clone();
    let mut st = SceWedgeState::new();
    let r = wedge_sce_wpeutil_iat(&mut ram, &cpu(ROOT, false), &mut st, 2);
    assert_eq!(r, Err(SceWedgeError::NotLongMode));
    assert_eq!(st, SceWedgeState::new());
    assert_eq!(ram.bytes, before);
}

#[test]
fn without_a_quick_root_memory_is_scanned_once_in_200_calls() {
    // No PEB names winpeshl, and no EPROCESS: the first call scans and finds nothing, the
    // next is throttled.
    let mut ram = winpeshl(false);
    let mut st = SceWedgeState::new();
    assert_eq!(
        wedge_sce_wpeutil_iat(&mut ram, &cpu(ROOT, true), &mut st, 2),
        Err(SceWedgeError::NotFound)
    );
    assert_eq!(
        wedge_sce_wpeutil_iat(&mut ram, &cpu(ROOT, true), &mut st, 2),
        Err(SceWedgeError::Throttled)
    );
    assert_eq!(st.miss_ticks, 2);
    assert_eq!(st.cached, None);
}

#[test]
fn the_scan_finds_winpeshl_by_its_eprocess() {
    let mut ram = winpeshl(false);
    let pe = 0x15_0000u64;
    put64(&mut ram, pe + 0x28, ROOT);
    put64(&mut ram, pe + 0x180, 0x2c0);
    put(&mut ram, pe + 0x2e0, b"winpeshl.exe");
    let mut st = SceWedgeState::new();
    let r = wedge_sce_wpeutil_iat(&mut ram, &cpu(0x1000, true), &mut st, 2).unwrap();
    // The image base comes from the PE scan of the high user half.
    assert_eq!((r.pid, r.dtb, r.base, r.gadget, r.iat_slots), (0x2c0, ROOT, BASE, GADGET, 6));
}

#[test]
fn an_image_without_sane_imports_is_refused() {
    let mut ram = winpeshl(false);
    for i in 2..6u64 {
        put64(&mut ram, 0x13_1240 + i * 8, 0);
    }
    let pe = 0x15_0000u64;
    put64(&mut ram, pe + 0x28, ROOT);
    put64(&mut ram, pe + 0x180, 0x2c0);
    put(&mut ram, pe + 0x2e0, b"winpeshl.exe");
    let mut st = SceWedgeState::new();
    assert_eq!(
        wedge_sce_wpeutil_iat(&mut ram, &cpu(0x1000, true), &mut st, 2),
        Err(SceWedgeError::IatInvalid(ROOT))
    );
}
