use aero::cli::GuestRam;
use aero::patch::{wedge_type5_handle_table, Type5Error};

fn put64(ram: &mut GuestRam, at: u64, v: u64) {
    let a = at as usize;
    ram.bytes[a..a + 8].copy_from_slice(&v.to_le_bytes());
}

/// 1 MiB of RAM identity-mapped below 2 MiB by page tables at 0x1000.
fn identity() -> GuestRam {
    let mut ram = GuestRam { base: 0, bytes: vec![0u8; 0x10_0000] };
    put64(&mut ram, 0x1000, 0x2003);
    put64(&mut ram, 0x2000, 0x3003);
    put64(&mut ram, 0x3000, 0x83);
    ram
}

fn hook_table() -> GuestRam {
    let mut ram = identity();
    let t = 0x80000u64;
    // 0: HOOK with a null object; 1: healthy HOOK; 2: HOOK whose HEAD.h is 0; 3: not a HOOK.
    for i in 0..4u64 {
        ram.bytes[(t + i * 0x18 + 0xe) as usize] = if i == 3 { 1 } else { 5 };
    }
    put64(&mut ram, t + 0x18, 0x90003);
    put64(&mut ram, 0x90000, 0x1234);
    put64(&mut ram, t + 0x30, 0x91000);
    ram
}

#[test]
fn bad_hook_entries_are_freed() {
    let mut ram = hook_table();
    let r = wedge_type5_handle_table(&mut ram, true, 0x1000, None, 0x80000, 4).unwrap();
    assert_eq!(r.table_base, 0x80000);
    assert_eq!(r.cr3, 0x1000);
    assert_eq!(r.scanned_type5, 3);
    assert_eq!(r.cleared, vec![0, 2]);
    assert_eq!(ram.bytes[0x80000 + 0xe], 0);
    assert_eq!(ram.bytes[0x80018 + 0xe], 5);
    assert_eq!(ram.bytes[0x80030 + 0xe], 0);
    assert_eq!(ram.bytes[0x80048 + 0xe], 1);
    // A second run finds nothing left to free.
    let again = wedge_type5_handle_table(&mut ram, true, 0x1000, None, 0x80000, 4).unwrap();
    assert_eq!((again.scanned_type5, again.cleared.len()), (1, 0));
}

#[test]
fn the_scan_stops_at_an_unmapped_entry() {
    let mut ram = hook_table();
    // Entries from 0x1FFFF0 on cross into the unmapped second 2 MiB.
    let r = wedge_type5_handle_table(&mut ram, true, 0x1000, None, 0x1F_FFE0, 8).unwrap();
    assert_eq!(r.scanned_type5, 0);
    assert!(r.cleared.is_empty());
}

#[test]
fn the_repair_needs_long_mode_and_a_mapped_table() {
    let mut ram = hook_table();
    assert_eq!(
        wedge_type5_handle_table(&mut ram, false, 0x1000, None, 0x80000, 4).unwrap_err(),
        Type5Error::NotLongMode
    );
    // Unmapped under the current root, the table is read under the next known root; outside
    // this RAM that root reads as open bus, whose all-ones entries map a 1 GiB page.
    let r = wedge_type5_handle_table(&mut ram, true, 0x1000, None, 0x4000_0000, 4).unwrap();
    assert_eq!(r.cr3, 0x2b2f_b000);
    assert_eq!(r.scanned_type5, 0);
    // An explicit root is tried first.
    let r = wedge_type5_handle_table(&mut ram, true, 0x9000, Some(0x1abc), 0x80000, 1).unwrap();
    assert_eq!(r.cr3, 0x1000);
    assert_eq!(r.cleared, vec![0]);
}

use aero::patch::{poke_phys_regions, poke_request_splits, PokeError};

#[test]
fn physical_pokes_write_each_region_in_order() {
    let mut ram = identity();
    let r = poke_phys_regions(&mut ram, "10:aabb, 0x20 : c c dd,30:+f").unwrap();
    assert_eq!(r, vec![(0x10, 2), (0x20, 2), (0x30, 1)]);
    assert_eq!(&ram.bytes[0x10..0x12], &[0xaa, 0xbb]);
    assert_eq!(&ram.bytes[0x20..0x22], &[0xcc, 0xdd]);
    assert_eq!(ram.bytes[0x30], 0x0f);
}

#[test]
fn a_bad_region_stops_the_pokes_after_the_earlier_ones() {
    let mut ram = identity();
    assert_eq!(
        poke_phys_regions(&mut ram, "10:ab,20:zz,30:cd"),
        Err(PokeError::BadHexByte(vec!['z', 'z']))
    );
    assert_eq!(ram.bytes[0x10], 0xab);
    assert_eq!(ram.bytes[0x30], 0);
    assert_eq!(
        poke_phys_regions(&mut ram, "10:abc"),
        Err(PokeError::OddHexLength(vec!['a', 'b', 'c']))
    );
    assert_eq!(
        poke_phys_regions(&mut ram, "zz:ab"),
        Err(PokeError::BadRegion("zz:ab".chars().collect()))
    );
    assert_eq!(poke_phys_regions(&mut ram, ""), Err(PokeError::BadRegion(vec![])));
    assert_eq!(
        poke_phys_regions(&mut ram, "10:\u{e9}"),
        Err(PokeError::BadHexByte(vec!['\u{e9}']))
    );
}

#[test]
fn hex_text_that_would_split_a_character_is_recognised() {
    assert!(poke_request_splits("10:a\u{e9}b"));
    assert!(poke_request_splits("10:\u{20ac}\u{20ac}"));
    assert!(!poke_request_splits("10:\u{e9}"));
    assert!(!poke_request_splits("10:abcd"));
    assert!(!poke_request_splits("zz:a\u{e9}"));
}

use aero::cli::translate_long;
use aero::lfb::{map_va_to_vbe_lfb_2m, map_vbe_lfb_identity_2m, LfbMapError};

fn get64(ram: &GuestRam, at: u64) -> u64 {
    let a = at as usize;
    u64::from_le_bytes(ram.bytes[a..a + 8].try_into().unwrap())
}

/// 8 MiB of zeroed RAM with a PML4 at 0x1000 whose entry 0 points to a PDPT at 0x2000.
fn eight_mib() -> GuestRam {
    let mut ram = GuestRam { base: 0, bytes: vec![0u8; 0x80_0000] };
    put64(&mut ram, 0x1000, 0x2003);
    ram
}

#[test]
fn the_framebuffer_is_identity_mapped_with_a_new_directory() {
    let mut ram = eight_mib();
    let lfb = 0xE040_1000u64;
    let r = map_vbe_lfb_identity_2m(&mut ram, lfb, 0x1018).unwrap();
    assert_eq!(r.cr3, 0x1000);
    assert_eq!(r.phys_2m, 0xE040_0000);
    assert_eq!((r.pml4_index, r.pdpt_index, r.pd_index), (0, 3, 0x102));
    assert_eq!(r.pdpte, 0x10_0007);
    assert_eq!(r.old_pde, 0);
    assert_eq!(r.pde, 0xE040_00FF);
    assert_eq!(get64(&ram, 0x2000 + 3 * 8), 0x10_0007);
    assert_eq!(get64(&ram, 0x10_0000 + 0x102 * 8), 0xE040_00FF);
    assert_eq!(translate_long(&mut ram, 0x1000, 0xE040_1234), Some(0xE040_1234));
}

#[test]
fn identity_mapping_refusals() {
    let mut ram = eight_mib();
    assert_eq!(map_vbe_lfb_identity_2m(&mut ram, 0, 0x1000), Err(LfbMapError::NoLfb));
    assert_eq!(
        map_vbe_lfb_identity_2m(&mut ram, 0xE040_0000, 0x9000),
        Err(LfbMapError::Pml4NotPresent { index: 0, cr3: 0x9000 })
    );
    put64(&mut ram, 0x2000 + 3 * 8, 0xC000_0083);
    assert_eq!(
        map_vbe_lfb_identity_2m(&mut ram, 0xE040_0000, 0x1000),
        Err(LfbMapError::PdptLargePage(3))
    );
}

#[test]
fn the_framebuffer_is_mapped_page_by_page_under_both_roots() {
    let mut ram = eight_mib();
    let va = 0xffff_f880_0000_0000u64;
    let lfb = 0xE040_1000u64;
    // Both roots share a PDPT at 0x3000 and a PD at 0x4000; page tables are added.
    put64(&mut ram, 0x187000 + 0x1f1 * 8, 0x3003);
    put64(&mut ram, 0x1000 + 0x1f1 * 8, 0x3003);
    put64(&mut ram, 0x3000, 0x4003);
    let r = map_va_to_vbe_lfb_2m(&mut ram, lfb, 0x1000, va + 0x123).unwrap();
    assert_eq!(r.roots, vec![0x187000, 0x1000]);
    for root in [0x187000u64, 0x1000] {
        assert_eq!(translate_long(&mut ram, root, va), Some(lfb));
        assert_eq!(translate_long(&mut ram, root, va + 0x2F_F123), Some(lfb + 0x2F_F123));
        assert_eq!(translate_long(&mut ram, root, va + 0x30_0000), None);
    }
    assert_eq!(get64(&ram, 0x4000), 0x10_0027);
    assert_eq!(get64(&ram, 0x4008), 0x10_1027);
    assert_eq!(map_va_to_vbe_lfb_2m(&mut ram, 0, 0x1000, va), Err(LfbMapError::NoLfb));
}

#[test]
fn tables_added_from_one_free_page_alias_each_other() {
    // With no tables at all, the PDPT and the PD are both carved from the same zero page
    // (it is still zero when the PD is chosen), so the first PTE lands on the shared entry
    // and the second page finds a bogus large PDE.
    let mut ram = eight_mib();
    let va = 0xffff_f880_0000_0000u64;
    assert_eq!(
        map_va_to_vbe_lfb_2m(&mut ram, 0xE040_1000, 0x1000, va),
        Err(LfbMapError::PdeLargePage { index: 0, va: va + 0x1000 })
    );
}
