use aero::cli::GuestRam;
use aero::inspect::CpuSnapshot;
use aero::linear::{dump_linear_regions, poke_linear_regions, LinearPokeError};
use aero::patch::PokeError;

const K: u64 = 0xffff_8000_0000_0000;

fn put64(ram: &mut GuestRam, at: u64, v: u64) {
    let a = at as usize;
    ram.bytes[a..a + 8].copy_from_slice(&v.to_le_bytes());
}

/// The first 2 MiB mapped at 0 and at `K` by tables at 0x1000.
fn paged() -> GuestRam {
    let mut ram = GuestRam { base: 0, bytes: vec![0u8; 0x20_0000] };
    put64(&mut ram, 0x1000, 0x4003);
    put64(&mut ram, 0x1000 + 256 * 8, 0x2003);
    put64(&mut ram, 0x2000, 0x3003);
    put64(&mut ram, 0x3000, 0x83);
    put64(&mut ram, 0x4000, 0x5003);
    put64(&mut ram, 0x5000, 0x83);
    ram
}

fn cpu(cr3: u64, long: bool) -> CpuSnapshot {
    CpuSnapshot {
        rip: 0,
        cs_selector: 0,
        cs_base: 0,
        ss_base: 0,
        stack_ptr: 0,
        gdtr_base: 0,
        gdtr_limit: 0,
        cr0: if long { 0x8000_0011 } else { 0x11 },
        cr3,
        efer: if long { 0x500 } else { 0 },
        gs_base: 0,
        kernel_gs_base: 0,
        lstar: 0,
    }
}

#[test]
fn linear_regions_are_dumped_through_the_page_tables() {
    let mut ram = paged();
    for i in 0..0x200usize {
        ram.bytes[0x7000 + i] = i as u8;
    }
    let d = dump_linear_regions(&mut ram, &cpu(0x1000, true), None, "ffff800000007000:10,zz:4,0x7000:0x200,1ff000:0x2000");
    assert_eq!(d.len(), 3);
    assert_eq!((d[0].va, d[0].len), (K + 0x7000, 0x10));
    assert_eq!(d[0].bytes, (0..0x10u8).collect::<Vec<u8>>());
    assert_eq!(d[0].walk.as_ref().unwrap()[0], (256, 0x2003));
    // Lengths are capped at 0x100.
    assert_eq!(d[1].len, 0x100);
    assert_eq!(d[1].bytes[0xff], 0xff);
    // Past the mapped 2 MiB the bytes read as 0xFE.
    assert!(d[2].len == 0x100 && d[2].bytes.iter().all(|&b| b == 0));
    let d = dump_linear_regions(&mut ram, &cpu(0x1000, true), None, "1ffff8:10");
    assert_eq!(&d[0].bytes[..8], &[0; 8]);
    assert_eq!(&d[0].bytes[8..], &[0xfe; 8]);
    // Without paging the addresses are physical and nothing is walked.
    let d = dump_linear_regions(&mut ram, &cpu(0x1000, false), None, "7004:4");
    assert_eq!(d[0].bytes, vec![4, 5, 6, 7]);
    assert!(d[0].walk.is_none());
}

#[test]
fn a_given_root_replaces_the_cpus() {
    let mut ram = paged();
    ram.bytes[0x7000] = 0x5a;
    // The CPU's CR3 points at empty tables; the given root maps the page.
    let d = dump_linear_regions(&mut ram, &cpu(0x9000, true), Some(0x1000), "7000:1");
    assert_eq!(d[0].bytes, vec![0x5a]);
    let d = dump_linear_regions(&mut ram, &cpu(0x9000, true), None, "7000:1");
    assert_eq!(d[0].bytes, vec![0xfe]);
}

#[test]
fn linear_pokes_are_written_where_the_addresses_translate() {
    let mut ram = paged();
    let r = poke_linear_regions(&mut ram, &cpu(0x1000, true), None, "ffff800000007000:de ad, 0x7100 : BEEF");
    assert_eq!(r, Ok(vec![(K + 0x7000, 2), (0x7100, 2)]));
    assert_eq!(&ram.bytes[0x7000..0x7002], &[0xde, 0xad]);
    assert_eq!(&ram.bytes[0x7100..0x7102], &[0xbe, 0xef]);
    // An unmapped byte stops the request after what came before it.
    let r = poke_linear_regions(&mut ram, &cpu(0x9000, true), Some(0x1000), "7200:aa,1fffff:bbcc");
    assert_eq!(r, Err(LinearPokeError::Unmapped { va: 0x20_0000, cr3: 0x1000 }));
    assert_eq!(ram.bytes[0x7200], 0xaa);
    assert_eq!(ram.bytes[0x1f_ffff], 0xbb);
}

#[test]
fn linear_poke_failures() {
    let mut ram = paged();
    let before = ram.bytes.clone();
    assert_eq!(
        poke_linear_regions(&mut ram, &cpu(0x1000, false), None, "7000:00"),
        Err(LinearPokeError::NotLongMode)
    );
    assert_eq!(
        poke_linear_regions(&mut ram, &cpu(0x1000, true), None, "zz:00"),
        Err(LinearPokeError::Poke(PokeError::BadRegion("zz:00".chars().collect())))
    );
    assert_eq!(
        poke_linear_regions(&mut ram, &cpu(0x1000, true), None, "7000:abc"),
        Err(LinearPokeError::Poke(PokeError::OddHexLength("abc".chars().collect())))
    );
    assert_eq!(
        poke_linear_regions(&mut ram, &cpu(0x1000, true), None, "7000:zz"),
        Err(LinearPokeError::Poke(PokeError::BadHexByte("zz".chars().collect())))
    );
    assert_eq!(ram.bytes, before);
}
