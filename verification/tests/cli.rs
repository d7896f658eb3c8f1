use aero::cli::{
    browser_code_to_bios_key, dump_mem_regions, find_bytes, inject_key_repeats_each_slice,
    is_known_eprocess_image_name, parse_hex_u64, ram_bytes, read_linear_bytes_cr3,
    resolve_boot_mode, split_on, thread_filter_matches, translate_long,
    type5_hook_entry_is_bad, walk_pt, BootMode, BootModeError, GuestRam,
};

#[test]
fn once_disables_periodic_reinject_on_idle_hlt() {
    assert!(
        !inject_key_repeats_each_slice(true),
        "AERO_INJECT_KEY_ONCE must not re-fire on idle slices"
    );
    assert!(inject_key_repeats_each_slice(false));
}

#[test]
fn escape_is_a_one_shot_bios_key() {
    assert_eq!(browser_code_to_bios_key("Escape"), Some(0x011b));
}

fn pad15(name: &str) -> [u8; 15] {
    let mut out = [0u8; 15];
    out[..name.len()].copy_from_slice(name.as_bytes());
    out
}

#[test]
fn dump_procs_sees_vds_loader_and_service() {
    assert!(
        is_known_eprocess_image_name(&pad15("vdsldr.exe")),
        "COM local-server launch is invisible if DUMP_PROCS drops vdsldr.exe"
    );
    assert!(is_known_eprocess_image_name(&pad15("vds.exe")));
    assert!(is_known_eprocess_image_name(&pad15("lsm.exe")));
    assert!(is_known_eprocess_image_name(&pad15("setup.exe")));
    assert!(
        is_known_eprocess_image_name(&pad15("setupcl.exe")),
        "first-boot specialize is invisible if DUMP_PROCS drops setupcl.exe"
    );
    assert!(
        is_known_eprocess_image_name(&pad15("Setup.exe")),
        "HDD first-boot paints Setup.exe (capital S); a lowercase-only gate hides it"
    );
    assert!(is_known_eprocess_image_name(&pad15("windeploy.exe")));
    assert!(is_known_eprocess_image_name(&pad15("drvinst.exe")));
    assert!(is_known_eprocess_image_name(&pad15("WerFault.exe")));
    assert!(
        is_known_eprocess_image_name(&pad15("SearchIndexer.")),
        "ImageFileName is 15 bytes; SearchIndexer.exe truncates to SearchIndexer."
    );
    assert!(
        !is_known_eprocess_image_name(&pad15("notareal")),
        "graphic junk without a dot is not an EPROCESS image tag"
    );
    assert!(!is_known_eprocess_image_name(&[0u8; 15]));
    assert!(
        !is_known_eprocess_image_name(&pad15("32\\mswsock.dll")),
        "path fragments in the file cache must not match"
    );
    assert!(!is_known_eprocess_image_name(&pad15("4e35~amd64~~6.1")));
    assert!(!is_known_eprocess_image_name(&pad15("dme.txt")));
}

#[test]
fn star_and_comma_list_select_setup_and_vds() {
    assert!(thread_filter_matches("*", "vdsldr.exe"));
    assert!(thread_filter_matches("setup.exe,vds.exe", "vds.exe"));
    assert!(!thread_filter_matches("setup.exe,vds.exe", "wmiprvse.exe"));
}

#[test]
fn bring_up_keys_have_classic_bios_words() {
    assert_eq!(browser_code_to_bios_key("Enter"), Some(0x1c0d));
    assert_eq!(browser_code_to_bios_key("Space"), Some(0x3920));
    assert_eq!(browser_code_to_bios_key("Escape"), Some(0x011b));
    assert_eq!(browser_code_to_bios_key("Tab"), Some(0x0f09));
    assert_eq!(browser_code_to_bios_key("KeyA"), None);
}

#[test]
fn null_object_is_bad() {
    assert!(type5_hook_entry_is_bad(0, Some(0x1234)));
    assert!(type5_hook_entry_is_bad(0x7, Some(0x1234)));
}

#[test]
fn zero_head_h_is_bad() {
    assert!(type5_hook_entry_is_bad(0xffff_f900_c010_4630, Some(0)));
}

#[test]
fn unreadable_head_is_bad() {
    assert!(type5_hook_entry_is_bad(0xffff_f900_c010_4630, None));
}

#[test]
fn healthy_hook_is_kept() {
    assert!(!type5_hook_entry_is_bad(
        0xffff_f900_c010_4630,
        Some(0x0000_0000_0d05_0027)
    ));
}

#[test]
fn filter_names_ignore_ascii_case_and_empty_pieces_match_nothing() {
    assert!(thread_filter_matches("SETUP.EXE", "setup.exe"));
    assert!(thread_filter_matches("a.exe,,Vds.Exe", "vds.exe"));
    assert!(!thread_filter_matches("", "vds.exe"));
    assert!(!thread_filter_matches("**", "vds.exe"));
}

#[test]
fn other_key_names_have_no_bios_word() {
    assert_eq!(browser_code_to_bios_key("enter"), None);
    assert_eq!(browser_code_to_bios_key(""), None);
    assert_eq!(browser_code_to_bios_key("Escape "), None);
}

#[test]
fn idle_and_system_and_exe_stems_are_image_names() {
    assert!(is_known_eprocess_image_name(&pad15("Idle")));
    assert!(is_known_eprocess_image_name(&pad15("System")));
    assert!(is_known_eprocess_image_name(&pad15("ab.com")));
    assert!(!is_known_eprocess_image_name(&pad15("a.com")));
    assert!(!is_known_eprocess_image_name(&pad15("ab.")));
    assert!(is_known_eprocess_image_name(&pad15("abcdefgh.e")));
    assert!(!is_known_eprocess_image_name(&pad15(".exe")));
    assert!(!is_known_eprocess_image_name(b"vds.exe"));
}

#[test]
fn split_keeps_empty_pieces() {
    let s: Vec<char> = "a,,b,".chars().collect();
    let parts = split_on(&s, ',');
    let strings: Vec<String> = parts.iter().map(|p| p.iter().collect()).collect();
    assert_eq!(strings, vec!["a", "", "b", ""]);
}

#[test]
fn find_bytes_reports_the_first_match() {
    assert_eq!(find_bytes(b"abcabc", b"bc"), Some(1));
    assert_eq!(find_bytes(b"abcabc", b"cab"), Some(2));
    assert_eq!(find_bytes(b"abc", b"abcd"), None);
    assert_eq!(find_bytes(b"abc", b"x"), None);
    assert_eq!(find_bytes(b"", b"x"), None);
}

#[test]
fn hex_values_parse_with_prefixes_and_white_space() {
    assert_eq!(parse_hex_u64("1f"), Ok(0x1f));
    assert_eq!(parse_hex_u64("  0x1F\n"), Ok(0x1f));
    assert_eq!(parse_hex_u64("0X10"), Ok(0x10));
    assert_eq!(parse_hex_u64("0x0x2"), Ok(2));
    assert_eq!(parse_hex_u64("+ff"), Ok(0xff));
    assert_eq!(parse_hex_u64("ffffffffffffffff"), Ok(u64::MAX));
}

#[test]
fn bad_hex_reports_the_digits_it_read() {
    let e = parse_hex_u64(" 0xzz ").unwrap_err();
    assert_eq!(e.text, vec!['z', 'z']);
    assert!(parse_hex_u64("").is_err());
    assert!(parse_hex_u64("0x").is_err());
    assert!(parse_hex_u64("+").is_err());
    assert!(parse_hex_u64("10000000000000000").is_err());
}

/// Page tables for `va = 0x40_1234` (PML4 0, PDPT 0, PD 2, PT 1) at 0x1000..0x5000, with a
/// 2 MiB page at PD 4 and the data page at 0x5000.
fn paged_ram() -> GuestRam {
    let mut bytes = vec![0u8; 0x6000];
    let put = |bytes: &mut Vec<u8>, at: usize, v: u64| {
        bytes[at..at + 8].copy_from_slice(&v.to_le_bytes());
    };
    put(&mut bytes, 0x1000, 0x2003);
    put(&mut bytes, 0x2000, 0x3003);
    put(&mut bytes, 0x3000 + 2 * 8, 0x4003);
    put(&mut bytes, 0x3000 + 4 * 8, 0x0020_0083);
    put(&mut bytes, 0x4000 + 8, 0x5003);
    bytes[0x5234] = 0xAB;
    bytes[0x5235] = 0xCD;
    bytes[0x5FFE] = 1;
    bytes[0x5FFF] = 2;
    GuestRam { base: 0, bytes }
}

#[test]
fn four_level_walk_translates_a_4k_page() {
    let mut m = paged_ram();
    assert_eq!(translate_long(&mut m, 0x1000, 0x40_1234), Some(0x5234));
    assert_eq!(
        walk_pt(&mut m, 0x1000, 0x40_1234),
        vec![(0, 0x2003), (0, 0x3003), (2, 0x4003), (1, 0x5003)]
    );
}

#[test]
fn large_and_missing_pages() {
    let mut m = paged_ram();
    assert_eq!(translate_long(&mut m, 0x1000, 0x80_1234), Some(0x20_1234));
    assert_eq!(
        walk_pt(&mut m, 0x1000, 0x80_1234),
        vec![(0, 0x2003), (0, 0x3003), (4, 0x0020_0083)]
    );
    assert_eq!(translate_long(&mut m, 0x1000, 0x60_0000), None);
    assert_eq!(walk_pt(&mut m, 0x1000, 0x60_0000), vec![(0, 0x2003), (0, 0x3003), (3, 0)]);
    // The low 12 bits of CR3 are flags, not address.
    assert_eq!(translate_long(&mut m, 0x1018, 0x40_1234), Some(0x5234));
}

#[test]
fn linear_reads_cross_into_unmapped_pages_as_fe() {
    let mut m = paged_ram();
    assert_eq!(read_linear_bytes_cr3(&mut m, 0x40_1234, 2, true, 0x1000), vec![0xAB, 0xCD]);
    assert_eq!(
        read_linear_bytes_cr3(&mut m, 0x40_1FFE, 4, true, 0x1000),
        vec![1, 2, 0xFE, 0xFE]
    );
    assert_eq!(read_linear_bytes_cr3(&mut m, 0x5FFF, 3, false, 0), vec![2, 0xFF, 0xFF]);
    assert_eq!(read_linear_bytes_cr3(&mut m, 0x5234, 0, true, 0x1000), Vec::<u8>::new());
    // Reading does not disturb memory.
    assert_eq!(m.bytes[0x5234], 0xAB);
}

#[test]
fn dump_requests_read_each_region_that_parses() {
    let mut m = paged_ram();
    let out = dump_mem_regions(&mut m, "0x5234:2,bad,5ffe:0x3,zz:1");
    assert_eq!(out, vec![(0x5234, vec![0xAB, 0xCD]), (0x5FFE, vec![1, 2, 0xFF])]);
    let big = dump_mem_regions(&mut m, "0:10000");
    assert_eq!(big.len(), 1);
    assert_eq!(big[0].1.len(), 0x400);
    assert!(dump_mem_regions(&mut m, "").is_empty());
}

#[test]
fn boot_policy_follows_the_attached_media() {
    assert_eq!(resolve_boot_mode(None, true, true), Ok(BootMode::CdFirst));
    assert_eq!(resolve_boot_mode(None, false, true), Ok(BootMode::Cdrom));
    assert_eq!(resolve_boot_mode(None, true, false), Ok(BootMode::Hdd));
    assert_eq!(
        resolve_boot_mode(None, false, false),
        Err(BootModeError::NeedsDisk(BootMode::Hdd))
    );
    assert_eq!(
        resolve_boot_mode(Some(BootMode::Cdrom), true, false),
        Err(BootModeError::NeedsInstallIso(BootMode::Cdrom))
    );
    assert_eq!(
        resolve_boot_mode(Some(BootMode::CdFirst), false, true),
        Err(BootModeError::NeedsDisk(BootMode::CdFirst))
    );
    assert_eq!(resolve_boot_mode(Some(BootMode::Hdd), true, true), Ok(BootMode::Hdd));
}

#[test]
fn ram_size_in_bytes_checks_overflow() {
    assert_eq!(ram_bytes(512), Some(512 * 1024 * 1024));
    assert_eq!(ram_bytes(0), Some(0));
    assert_eq!(ram_bytes(u64::MAX / (1024 * 1024) + 1), None);
}
