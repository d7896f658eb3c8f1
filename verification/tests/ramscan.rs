use aero::cli::GuestRam;
use aero::ramscan::{
    scan_ascii_in_ram, scan_bytes_in_ram, scan_le_int_in_ram, scan_surfobj_candidates, scan_utf16_in_ram,
    NeedleHits, SurfCandidate,
};

fn put(ram: &mut GuestRam, at: u64, b: &[u8]) {
    let a = at as usize;
    ram.bytes[a..a + b.len()].copy_from_slice(b);
}

fn memory() -> GuestRam {
    GuestRam { base: 0, bytes: vec![0u8; 0x20_0000] }
}

fn names(r: &[NeedleHits]) -> Vec<String> {
    r.iter().map(|h| h.name.iter().collect()).collect()
}

#[test]
fn text_is_found_across_the_mib_boundary() {
    let mut ram = memory();
    put(&mut ram, 0x1234, b"HelloWorld");
    put(&mut ram, 0xf_fffc, b"HelloWorld");
    let before = ram.bytes.clone();
    let r = scan_ascii_in_ram(&mut ram, " HelloWorld , ,xyz", 2);
    assert_eq!(ram.bytes, before);
    assert_eq!(names(&r), vec!["HelloWorld", "xyz"]);
    assert_eq!(r[0].needle, b"HelloWorld".to_vec());
    assert_eq!(r[0].hits, vec![0x1234, 0xf_fffc]);
    assert!(r[1].hits.is_empty());
    // One MiB only: the second copy is cut off.
    let r = scan_ascii_in_ram(&mut ram, "HelloWorld", 1);
    assert_eq!(r[0].hits, vec![0x1234]);
}

#[test]
fn text_requests_are_cut_to_eight_short_pieces() {
    let mut ram = memory();
    let long = "x".repeat(33);
    let spec = format!("a,{long},b,c,d,e,f,g,h,i");
    let r = scan_ascii_in_ram(&mut ram, &spec, 1);
    // The long piece counts towards the eight, then is dropped.
    assert_eq!(names(&r), vec!["a", "b", "c", "d", "e", "f", "g"]);
    assert!(scan_ascii_in_ram(&mut ram, " , ", 1).is_empty());
    // Non-ASCII text is searched by its UTF-8 bytes.
    put(&mut ram, 0x500, "Größe".as_bytes());
    let r = scan_ascii_in_ram(&mut ram, "Größe", 1);
    assert_eq!(r[0].needle, "Größe".as_bytes().to_vec());
    assert_eq!(r[0].hits, vec![0x500]);
}

#[test]
fn at_most_twelve_text_hits_are_kept() {
    let mut ram = memory();
    for i in 0..20u64 {
        put(&mut ram, 0x1000 + i * 0x100, b"needle");
    }
    let r = scan_ascii_in_ram(&mut ram, "needle", 1);
    assert_eq!(r[0].hits.len(), 12);
    assert_eq!(r[0].hits[11], 0x1000 + 11 * 0x100);
}

#[test]
fn utf16_text_is_found_by_whole_units() {
    let mut ram = memory();
    let setup: Vec<u8> = "Setup".encode_utf16().flat_map(|u| u.to_le_bytes()).collect();
    put(&mut ram, 0x3000, &setup);
    put(&mut ram, 0x3101, &setup);
    let r = scan_utf16_in_ram(&mut ram, "Setup,𝄞", 1);
    assert_eq!(names(&r), vec!["Setup", "𝄞"]);
    assert_eq!(r[0].needle, setup);
    assert_eq!(r[0].hits, vec![0x3000, 0x3101]);
    // A character outside the basic plane is a surrogate pair.
    assert_eq!(r[1].needle, vec![0x34, 0xd8, 0x1e, 0xdd]);
    // Overlapping copies a whole unit apart are both found.
    let aa: Vec<u8> = "aaa".encode_utf16().flat_map(|u| u.to_le_bytes()).collect();
    put(&mut ram, 0x8000, &aa);
    let r = scan_utf16_in_ram(&mut ram, "aa", 1);
    assert_eq!(r[0].hits, vec![0x8000, 0x8002]);
}

#[test]
fn integers_are_found_little_endian() {
    let mut ram = memory();
    put(&mut ram, 0x2000, &0xdead_beefu32.to_le_bytes());
    put(&mut ram, 0x2100, &0x1_2345_6789u64.to_le_bytes());
    let r = scan_le_int_in_ram(&mut ram, "0xdeadbeef, zz, 0X1_2345, +12", 4, 1);
    // `zz` and `1_2345` do not parse; `+12` does.
    assert_eq!(names(&r), vec!["0xdeadbeef", "0x12"]);
    assert_eq!(r[0].needle, vec![0xef, 0xbe, 0xad, 0xde]);
    assert_eq!(r[0].hits, vec![0x2000]);
    // A wide value is cut to 32 bits at width 4 ...
    let r = scan_le_int_in_ram(&mut ram, "123456789", 4, 1);
    assert_eq!(r[0].needle, 0x2345_6789u32.to_le_bytes().to_vec());
    assert_eq!(r[0].hits, vec![0x2100]);
    // ... and kept whole at width 8.
    let r = scan_le_int_in_ram(&mut ram, "0x123456789", 8, 1);
    assert_eq!(r[0].needle, 0x1_2345_6789u64.to_le_bytes().to_vec());
    assert_eq!(r[0].hits, vec![0x2100]);
}

#[test]
fn byte_strings_are_read_from_their_hex_digits() {
    let mut ram = memory();
    for i in 0..20u64 {
        put(&mut ram, 0x4000 + i * 0x40, &[0xde, 0xad, 0xbe, 0xef]);
    }
    let r = scan_bytes_in_ram(&mut ram, "de ad BE ef, 12, 0102030", 1);
    // Two digits, or an odd count, give no needle.
    assert_eq!(names(&r), vec!["deadBEef"]);
    assert_eq!(r[0].needle, vec![0xde, 0xad, 0xbe, 0xef]);
    assert_eq!(r[0].hits.len(), 16);
    assert_eq!(r[0].hits[0], 0x4000);
}

fn put_surf(ram: &mut GuestRam, at: u64, cj: u32, format: u32, surf_type: u16) {
    put(ram, at + 0x20, &1024u32.to_le_bytes());
    put(ram, at + 0x24, &768u32.to_le_bytes());
    put(ram, at + 0x28, &cj.to_le_bytes());
    put(ram, at + 0x30, &0xffff_f900_0000_1000u64.to_le_bytes());
    put(ram, at + 0x38, &0xffff_f900_0000_2000u64.to_le_bytes());
    put(ram, at + 0x40, &(-4096i32).to_le_bytes());
    put(ram, at + 0x48, &format.to_le_bytes());
    put(ram, at + 0x4c, &surf_type.to_le_bytes());
}

#[test]
fn plausible_surfaces_are_reported_with_their_fields() {
    let mut ram = memory();
    put_surf(&mut ram, 0x6000, 0x30_0000, 6, 1);
    put_surf(&mut ram, 0x7000, 0, 6, 0);
    // An unknown surface type.
    put_surf(&mut ram, 0x8000, 0, 6, 5);
    // An odd bitmap size.
    put_surf(&mut ram, 0x9000, 0x1234, 6, 1);
    let r = scan_surfobj_candidates(&mut ram, 1);
    assert_eq!(
        r,
        vec![
            SurfCandidate {
                surf_pa: 0x6000,
                cj_bits: 0x30_0000,
                pv_bits: 0xffff_f900_0000_1000,
                pv_scan0: 0xffff_f900_0000_2000,
                l_delta: -4096,
                format: 6,
                surf_type: 1,
            },
            SurfCandidate {
                surf_pa: 0x7000,
                cj_bits: 0,
                pv_bits: 0xffff_f900_0000_1000,
                pv_scan0: 0xffff_f900_0000_2000,
                l_delta: -4096,
                format: 6,
                surf_type: 0,
            },
        ]
    );
    assert!(scan_surfobj_candidates(&mut memory(), 1).is_empty());
}
