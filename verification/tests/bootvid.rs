use aero::bootvid::{redir_eng_lfb_to_bootvid_kva, EngRedirect, EngRedirectError, BOOTVID_LFB_KVA};
use aero::cli::GuestRam;

const LFB: u64 = 0xfd00_0000;

fn get64(ram: &GuestRam, at: u64) -> u64 {
    let a = at as usize;
    u64::from_le_bytes(ram.bytes[a..a + 8].try_into().unwrap())
}

fn put(ram: &mut GuestRam, at: u64, b: &[u8]) {
    let a = at as usize;
    ram.bytes[a..a + b.len()].copy_from_slice(b);
}

fn put_eng(ram: &mut GuestRam, at: u64, phys: u64) {
    put(ram, at, &phys.to_le_bytes());
    put(ram, at + 8, &1024u32.to_le_bytes());
    put(ram, at + 12, &768u32.to_le_bytes());
    put(ram, at + 0x18, &0xffff_f880_03c0_0000u64.to_le_bytes());
}

fn put_surf(ram: &mut GuestRam, at: u64) {
    put(ram, at + 0x20, &1024u32.to_le_bytes());
    put(ram, at + 0x24, &768u32.to_le_bytes());
    put(ram, at + 0x28, &0x30_0000u32.to_le_bytes());
    put(ram, at + 0x2c, &0x77u32.to_le_bytes());
    put(ram, at + 0x40, &0x1234_0000_5678u64.to_le_bytes());
    put(ram, at + 0x48, &6u32.to_le_bytes());
    put(ram, at + 0x4c, &1u16.to_le_bytes());
    put(ram, at + 0x4e, &0x3u16.to_le_bytes());
}

fn memory() -> GuestRam {
    let mut ram = GuestRam { base: 0, bytes: vec![0u8; 0x20_0000] };
    put_eng(&mut ram, 0x4_0000, LFB);
    put_surf(&mut ram, 0x5_0000);
    ram
}

#[test]
fn the_descriptor_and_the_surface_are_pointed_at_the_bootvid_mapping() {
    let mut ram = memory();
    let r = redir_eng_lfb_to_bootvid_kva(&mut ram, LFB, 0, false, 2, None);
    assert_eq!(
        r,
        Ok(EngRedirect {
            sticky: false,
            eng_pa: Some(0x4_0000),
            eng_rewrites: 1,
            surf_pa: Some(0x5_0000),
            surf_rewrites: 1,
        })
    );
    assert_eq!(get64(&ram, 0x4_0018), BOOTVID_LFB_KVA);
    assert_eq!(get64(&ram, 0x5_0030), BOOTVID_LFB_KVA);
    assert_eq!(get64(&ram, 0x5_0038), BOOTVID_LFB_KVA);
    assert_eq!(get64(&ram, 0x5_0040), 0x1234_0000_1000);
    // Without force_device the surface type stays.
    assert_eq!(get64(&ram, 0x5_0048), 0x0003_0001_0000_0006);
    // Re-applied to the remembered addresses: nothing left to change.
    let again = redir_eng_lfb_to_bootvid_kva(&mut ram, LFB, 0, false, 2, Some((Some(0x4_0000), Some(0x5_0000))));
    assert_eq!(
        again,
        Ok(EngRedirect {
            sticky: true,
            eng_pa: Some(0x4_0000),
            eng_rewrites: 0,
            surf_pa: Some(0x5_0000),
            surf_rewrites: 0,
        })
    );
}

#[test]
fn a_descriptor_across_a_chunk_boundary_and_other_bases_are_found() {
    let mut ram = memory();
    // Its 1024x768 lies past the first MiB: found from the bytes carried into the next chunk.
    put_eng(&mut ram, 0xf_fff0, 0xe404_0000);
    put_eng(&mut ram, 0x18_0000, 0xfe00_0000);
    let r = redir_eng_lfb_to_bootvid_kva(&mut ram, LFB, 0xfe00_0000, false, 2, None).unwrap();
    assert_eq!(r.eng_pa, Some(0x4_0000));
    assert_eq!(r.eng_rewrites, 3);
    assert_eq!(get64(&ram, 0x10_0008), BOOTVID_LFB_KVA);
    assert_eq!(get64(&ram, 0x18_0018), BOOTVID_LFB_KVA);
    // Scanning only the first MiB misses the other two.
    let mut small = memory();
    put_eng(&mut small, 0xf_fff0, 0xe404_0000);
    let r = redir_eng_lfb_to_bootvid_kva(&mut small, LFB, 0, false, 1, None).unwrap();
    assert_eq!(r.eng_rewrites, 1);
    assert_eq!(get64(&small, 0x10_0008), 0xffff_f880_03c0_0000);
}

#[test]
fn forcing_a_device_surface_changes_its_type_and_size() {
    let mut ram = memory();
    let r = redir_eng_lfb_to_bootvid_kva(&mut ram, LFB, 0, true, 1, None).unwrap();
    assert_eq!(r.surf_rewrites, 1);
    assert_eq!(get64(&ram, 0x5_0048), 0x0003_0000_0000_0006);
    assert_eq!(get64(&ram, 0x5_0028), 0x77_0000_0000);
    // Already a device surface pointing at the mapping: nothing changes.
    let again = redir_eng_lfb_to_bootvid_kva(&mut ram, LFB, 0, true, 1, Some((None, Some(0x5_0000)))).unwrap();
    assert_eq!(again.surf_rewrites, 0);
}

#[test]
fn redirect_failures() {
    let mut ram = memory();
    assert_eq!(
        redir_eng_lfb_to_bootvid_kva(&mut ram, 0, 0, false, 2, None),
        Err(EngRedirectError::NoLfb)
    );
    let mut empty = GuestRam { base: 0, bytes: vec![0u8; 0x10_0000] };
    assert_eq!(
        redir_eng_lfb_to_bootvid_kva(&mut empty, LFB, 0, false, 1, None),
        Err(EngRedirectError::NotFound)
    );
}
