use aero::resume::{
    apply_force_resume, force_user_resume, parse_force_resume, ResumeError, ResumeRegs,
    ResumeRequest, Segment,
};

fn regs() -> ResumeRegs {
    let seg = Segment { selector: 0x99, base: 0x1000, limit: 0x10, access: 0x1 };
    ResumeRegs {
        gpr: [7; 16],
        rip: 1,
        rflags: 0x46,
        halted: true,
        cr2: 0x55,
        cr3: 0x66,
        cr8: 0xf,
        cs: seg,
        ss: seg,
        ds: seg,
        es: seg,
        fs: seg,
        gs: seg,
        gs_base: 0xffff_f800_0100_0000,
        kernel_gs_base: 0x1234,
    }
}

#[test]
fn a_full_user_request_parses() {
    let q = parse_force_resume("cr3=0x2b2fb000, RIP=401000 ,rsp=7fff0,rcx=5,teb=7ffdf000").unwrap();
    assert_eq!(
        q,
        ResumeRequest {
            cr3: 0x2b2f_b000,
            rip: 0x40_1000,
            rsp: 0x7fff0,
            rax: 0,
            rcx: Some(5),
            rdx: None,
            rbx: None,
            teb: Some(0x7ffd_f000),
            kernel: false,
        }
    );
}

#[test]
fn kernel_switch_values() {
    for (v, on) in [("1", true), ("true", true), ("yes", true), ("on", true), ("", true), ("0", false), ("TRUE", false)] {
        let spec = format!("cr3=1,rip=2,rsp=3,kernel={v}");
        assert_eq!(parse_force_resume(&spec).unwrap().kernel, on, "kernel={v}");
    }
    assert!(parse_force_resume("cr3=1,rip=2,rsp=3,kernel").unwrap().kernel);
}

#[test]
fn bad_requests_are_refused_in_order() {
    assert_eq!(parse_force_resume("rip=1,rsp=2"), Err(ResumeError::MissingCr3));
    assert_eq!(parse_force_resume("cr3=1,rsp=2"), Err(ResumeError::MissingRip));
    assert_eq!(parse_force_resume("cr3=1,rip=2"), Err(ResumeError::MissingRsp));
    assert_eq!(
        parse_force_resume("cr3=1,Foo=2,rip=zz"),
        Err(ResumeError::UnknownKey(vec!['f', 'o', 'o']))
    );
    match parse_force_resume("cr3=1,rip=zz,foo=2") {
        Err(ResumeError::BadHex(e)) => assert_eq!(e.text, vec!['z', 'z']),
        other => panic!("unexpected {other:?}"),
    }
    // Later keys win; empty parts are skipped.
    assert_eq!(parse_force_resume(",cr3=1,,cr3=2,rip=3,rsp=4,").unwrap().cr3, 2);
}

#[test]
fn user_resume_loads_user_selectors_and_teb() {
    let mut r = regs();
    let q = force_user_resume(&mut r, "cr3=1000,rip=401000,rsp=7fff0,rax=9,teb=7ffdf000").unwrap();
    assert!(!q.kernel);
    assert_eq!(r.cr3, 0x1000);
    assert_eq!((r.cr2, r.cr8), (0, 0));
    assert_eq!(r.rip, 0x40_1000);
    assert_eq!(r.rflags, 0x202);
    assert!(!r.halted);
    assert_eq!(r.cs, Segment { selector: 0x33, base: 0, limit: 0, access: 0x2FB });
    assert_eq!(r.ss, Segment { selector: 0x2b, base: 0, limit: 0xfffff, access: 0xF3 });
    assert_eq!(r.ds, r.ss);
    assert_eq!(r.es, r.ss);
    assert_eq!(r.fs.selector, 0x99);
    assert_eq!(r.gs, Segment { selector: 0x2b, base: 0x7ffd_f000, limit: 0xfffff, access: 0xF3 });
    assert_eq!(r.gs_base, 0x7ffd_f000);
    assert_eq!(r.kernel_gs_base, 0xffff_f800_0100_0000);
    assert_eq!(r.gpr[0], 9);
    assert_eq!(r.gpr[4], 0x7fff0);
    assert_eq!(&r.gpr[1..4], &[0, 0, 0]);
    assert_eq!(r.gpr[5], 7);
    assert_eq!(&r.gpr[6..12], &[0; 6]);
    assert_eq!(&r.gpr[12..16], &[7; 4]);
}

#[test]
fn kernel_resume_keeps_unnamed_registers() {
    let mut r = regs();
    let q = ResumeRequest {
        cr3: 0x187000,
        rip: 0xffff_f800_0000_1000,
        rsp: 0xffff_f880_0000_0000,
        rax: 0,
        rcx: None,
        rdx: Some(8),
        rbx: None,
        teb: Some(5),
        kernel: true,
    };
    apply_force_resume(&mut r, &q);
    assert_eq!(r.cs, Segment { selector: 0x10, base: 0, limit: 0, access: 0x29B });
    let data = Segment { selector: 0x18, base: 0, limit: 0xfffff, access: 0x93 };
    assert_eq!((r.ss, r.ds, r.es, r.fs), (data, data, data, data));
    assert_eq!(r.gs.selector, 0x99);
    assert_eq!(r.gs_base, 0xffff_f800_0100_0000);
    assert_eq!(r.gpr, [0, 7, 8, 7, 0xffff_f880_0000_0000, 7, 7, 7, 7, 7, 7, 7, 7, 7, 7, 7]);
}

#[test]
fn a_refused_request_leaves_the_registers_alone() {
    let mut r = regs();
    assert!(force_user_resume(&mut r, "rip=1").is_err());
    assert_eq!(r.cr3, 0x66);
    assert_eq!(r.gpr, [7; 16]);
    assert!(r.halted);
}
