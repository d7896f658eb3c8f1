use aero::hive::{align_up, lf_hash, lh_hash, HiveError, InPlaceHive, PathError};

#[test]
fn lf_hash_uses_the_first_four_uppercased_characters() {
    assert_eq!(lf_hash("abcd"), u32::from_le_bytes(*b"ABCD"));
    assert_eq!(lf_hash("ab"), u32::from_le_bytes([b'A', b'B', 0, 0]));
    // Longer names are truncated rather than folded.
    assert_eq!(lf_hash("abcdef"), lf_hash("abcd"));
}

#[test]
fn lh_hash_is_case_insensitive() {
    assert_eq!(lh_hash("Elements"), lh_hash("ELEMENTS"));
    assert_ne!(lh_hash("Elements"), lh_hash("Element"));
}

#[test]
fn align_up_rounds_to_the_next_multiple() {
    assert_eq!(align_up(1, 8), 8);
    assert_eq!(align_up(8, 8), 8);
    assert_eq!(align_up(9, 8), 16);
}

#[test]
fn lh_hash_of_a_short_name_is_the_rolling_sum() {
    // 'A' = 0x41, 'B' = 0x42: (0x41 * 37) + 0x42.
    assert_eq!(lh_hash("ab"), 0x41 * 37 + 0x42);
    assert_eq!(lh_hash(""), 0);
}

const ROOT_REL: u32 = 0x20;

fn put_u32(d: &mut [u8], at: usize, v: u32) {
    d[at..at + 4].copy_from_slice(&v.to_le_bytes());
}

fn put_u16(d: &mut [u8], at: usize, v: u16) {
    d[at..at + 2].copy_from_slice(&v.to_le_bytes());
}

/// A base block, one 4 KiB bin holding a root key `ROOT` and one free cell, and `spare` bytes
/// past the declared bins.
fn synthetic_hive(spare: usize) -> Vec<u8> {
    let mut d = vec![0u8; 4096 + 4096 + spare];
    d[0..4].copy_from_slice(b"regf");
    put_u32(&mut d, 36, ROOT_REL);
    put_u32(&mut d, 40, 4096);
    let bin = 4096;
    d[bin..bin + 4].copy_from_slice(b"hbin");
    put_u32(&mut d, bin + 4, 0);
    put_u32(&mut d, bin + 8, 4096);
    let cell = bin + 32;
    put_u32(&mut d, cell, (-88i32) as u32);
    let p = cell + 4;
    d[p..p + 2].copy_from_slice(b"nk");
    put_u16(&mut d, p + 2, 0x0020);
    put_u32(&mut d, p + 0x14, 0);
    put_u32(&mut d, p + 0x1C, u32::MAX);
    put_u32(&mut d, p + 0x24, 0);
    put_u32(&mut d, p + 0x28, u32::MAX);
    put_u32(&mut d, p + 0x2C, 0x1234);
    put_u32(&mut d, p + 0x30, u32::MAX);
    put_u16(&mut d, p + 0x48, 4);
    d[p + 0x4C..p + 0x50].copy_from_slice(b"ROOT");
    let free = cell + 88;
    put_u32(&mut d, free, (4096 - 32 - 88) as u32);
    d
}

fn checksum_of(d: &[u8]) -> u32 {
    let mut sum = 0u32;
    for chunk in d[..508].chunks_exact(4) {
        sum ^= u32::from_le_bytes(chunk.try_into().unwrap());
    }
    if sum == 0xFFFF_FFFF {
        sum = 0xFFFF_FFFE;
    }
    if sum == 0 {
        sum = 1;
    }
    sum
}

#[test]
fn new_refuses_short_and_unsigned_images() {
    assert!(matches!(InPlaceHive::new(vec![0u8; 100]), Err(HiveError::TooSmall)));
    let mut d = synthetic_hive(0);
    d[0] = b'x';
    assert!(matches!(InPlaceHive::new(d), Err(HiveError::NotRegf)));
    assert!(InPlaceHive::new(synthetic_hive(0)).is_ok());
}

#[test]
fn into_bytes_writes_the_base_block_checksum() {
    let hive = InPlaceHive::new(synthetic_hive(0)).unwrap();
    let out = hive.into_bytes();
    let stored = u32::from_le_bytes(out[508..512].try_into().unwrap());
    assert_eq!(stored, checksum_of(&out));
    assert_eq!(stored, checksum_of(&synthetic_hive(0)));
}

#[test]
fn root_cell_comes_from_the_base_block() {
    let hive = InPlaceHive::new(synthetic_hive(0)).unwrap();
    assert_eq!(hive.root_cell(), ROOT_REL);
}

#[test]
fn a_created_path_is_found_again() {
    let mut hive = InPlaceHive::new(synthetic_hive(0)).unwrap();
    let root = hive.root_cell();
    assert_eq!(hive.open_path("Objects\\Elements"), None);
    let key = hive.ensure_path("Objects\\Elements").unwrap();
    assert_eq!(hive.open_path("Objects\\Elements"), Some(key));
    assert_eq!(hive.open_path("\\objects\\\\ELEMENTS\\"), Some(key));
    let objects = hive.find_subkey(root, "OBJECTS").unwrap();
    assert_eq!(hive.find_subkey(objects, "elements"), Some(key));
    // Asking again creates nothing new.
    assert_eq!(hive.ensure_subkey(objects, "Elements").unwrap(), key);
    assert_eq!(hive.ensure_path("objects\\elements").unwrap(), key);
    assert_eq!(hive.open_path(""), Some(root));
}

#[test]
fn siblings_are_kept_in_name_order() {
    let mut hive = InPlaceHive::new(synthetic_hive(0)).unwrap();
    let root = hive.root_cell();
    let b = hive.ensure_subkey(root, "Beta").unwrap();
    let a = hive.ensure_subkey(root, "alpha").unwrap();
    let c = hive.ensure_subkey(root, "Gamma").unwrap();
    assert_eq!(hive.find_subkey(root, "ALPHA"), Some(a));
    assert_eq!(hive.find_subkey(root, "beta"), Some(b));
    assert_eq!(hive.find_subkey(root, "gamma"), Some(c));
    let bytes = hive.into_bytes();
    // The root's subkey list: count 3, then the entries in name order.
    let rp = 4096 + ROOT_REL as usize + 4;
    assert_eq!(u32::from_le_bytes(bytes[rp + 0x14..rp + 0x18].try_into().unwrap()), 3);
    let list = u32::from_le_bytes(bytes[rp + 0x1C..rp + 0x20].try_into().unwrap());
    let lp = 4096 + list as usize + 4;
    assert_eq!(&bytes[lp..lp + 2], b"lf");
    let first = u32::from_le_bytes(bytes[lp + 4..lp + 8].try_into().unwrap());
    let second = u32::from_le_bytes(bytes[lp + 12..lp + 16].try_into().unwrap());
    let third = u32::from_le_bytes(bytes[lp + 20..lp + 24].try_into().unwrap());
    assert_eq!((first, second, third), (a, b, c));
    // `lf` lists store the first four characters, upper-cased.
    let hash = u32::from_le_bytes(bytes[lp + 8..lp + 12].try_into().unwrap());
    assert_eq!(hash, lf_hash("alpha"));
    // The longest subkey name is recorded in the parent.
    assert_eq!(u32::from_le_bytes(bytes[rp + 0x34..rp + 0x38].try_into().unwrap()), 5);
}

#[test]
fn only_ascii_key_names_are_created() {
    let mut hive = InPlaceHive::new(synthetic_hive(0)).unwrap();
    let root = hive.root_cell();
    assert_eq!(hive.ensure_subkey(root, "Caf\u{e9}"), Err(HiveError::NonAsciiName));
}

#[test]
fn binary_values_are_written_and_replaced() {
    let mut hive = InPlaceHive::new(synthetic_hive(0)).unwrap();
    let key = hive.ensure_path("Objects").unwrap();
    hive.set_binary_value(key, "Element", &[1, 2, 3, 4]).unwrap();
    hive.set_binary_value(key, "element", &[9, 9]).unwrap();
    let bytes = hive.into_bytes();
    let kp = 4096 + key as usize + 4;
    // One value, replaced in place.
    assert_eq!(u32::from_le_bytes(bytes[kp + 0x24..kp + 0x28].try_into().unwrap()), 1);
    let list = u32::from_le_bytes(bytes[kp + 0x28..kp + 0x2C].try_into().unwrap());
    let value = u32::from_le_bytes(bytes[4096 + list as usize + 4..4096 + list as usize + 8].try_into().unwrap());
    let vp = 4096 + value as usize + 4;
    assert_eq!(&bytes[vp..vp + 2], b"vk");
    assert_eq!(u32::from_le_bytes(bytes[vp + 4..vp + 8].try_into().unwrap()), 2);
    assert_eq!(u32::from_le_bytes(bytes[vp + 0x0C..vp + 0x10].try_into().unwrap()), 3);
    let data = u32::from_le_bytes(bytes[vp + 8..vp + 12].try_into().unwrap());
    let dp = 4096 + data as usize + 4;
    assert_eq!(&bytes[dp..dp + 2], &[9, 9]);
    // The key records the longest value name and data.
    assert_eq!(u32::from_le_bytes(bytes[kp + 0x3C..kp + 0x40].try_into().unwrap()), 7);
    assert_eq!(u32::from_le_bytes(bytes[kp + 0x40..kp + 0x44].try_into().unwrap()), 4);
}

#[test]
fn a_new_bin_is_appended_when_the_free_cells_run_out() {
    let mut hive = InPlaceHive::new(synthetic_hive(8192)).unwrap();
    let key = hive.ensure_path("Objects").unwrap();
    hive.set_binary_value(key, "Big", &[7u8; 5000]).unwrap();
    let bytes = hive.into_bytes();
    assert_eq!(&bytes[8192..8196], b"hbin");
    assert_eq!(u32::from_le_bytes(bytes[40..44].try_into().unwrap()), 4096 + 8192);
}

#[test]
fn a_file_without_room_for_a_new_bin_is_refused() {
    let mut hive = InPlaceHive::new(synthetic_hive(0)).unwrap();
    let key = hive.ensure_path("Objects").unwrap();
    let err = hive.set_binary_value(key, "Big", &[7u8; 5000]).unwrap_err();
    assert_eq!(err, HiveError::NoRoomForBin { need: 8192, offset: 8192, len: 8192 });
}

#[test]
fn reads_outside_the_hive_are_refused() {
    let mut hive = InPlaceHive::new(synthetic_hive(0)).unwrap();
    assert_eq!(hive.ensure_subkey(0x00FF_FFF0, "X"), Err(HiveError::OutOfBounds));
}

#[test]
fn utf16_key_names_are_matched_too() {
    let mut d = synthetic_hive(0);
    let root_p = 4096 + 0x20 + 4;
    // A child whose name is stored in UTF-16 (no compressed-name flag) ...
    let child_rel = 0x78usize;
    let c = 4096 + child_rel;
    put_u32(&mut d, c, (-96i32) as u32);
    d[c + 4..c + 6].copy_from_slice(b"nk");
    put_u16(&mut d, c + 4 + 0x02, 0);
    put_u32(&mut d, c + 4 + 0x1C, u32::MAX);
    put_u32(&mut d, c + 4 + 0x28, u32::MAX);
    let name: Vec<u8> = "Elements".encode_utf16().flat_map(|u| u.to_le_bytes()).collect();
    put_u16(&mut d, c + 4 + 0x48, name.len() as u16);
    d[c + 4 + 0x4C..c + 4 + 0x4C + name.len()].copy_from_slice(&name);
    // ... listed in an lf list under the root.
    let list_rel = 0xD8usize;
    let l = 4096 + list_rel;
    put_u32(&mut d, l, (-16i32) as u32);
    d[l + 4..l + 6].copy_from_slice(b"lf");
    put_u16(&mut d, l + 6, 1);
    put_u32(&mut d, l + 8, child_rel as u32);
    d[l + 12..l + 16].copy_from_slice(b"ELEM");
    put_u32(&mut d, root_p + 0x14, 1);
    put_u32(&mut d, root_p + 0x1C, list_rel as u32);
    let free = 4096 + 0xE8;
    put_u32(&mut d, free, (8192 - free) as u32);
    let hive = InPlaceHive::new(d).unwrap();
    assert_eq!(hive.find_subkey(ROOT_REL, "ELEMENTS"), Some(child_rel as u32));
    assert_eq!(hive.open_path("Elements"), Some(child_rel as u32));
    assert_eq!(hive.find_subkey(ROOT_REL, "Element"), None);
}

#[test]
fn a_failed_path_names_the_segment_being_created() {
    let mut hive = InPlaceHive::new(synthetic_hive(0)).unwrap();
    let err = hive.ensure_path("Objects\\Caf\u{e9}\\Elements").unwrap_err();
    assert_eq!(
        err,
        PathError {
            segment: "Caf\u{e9}".chars().collect(),
            full_path: "Objects\\Caf\u{e9}\\Elements".chars().collect(),
            cause: HiveError::NonAsciiName,
        }
    );
}
