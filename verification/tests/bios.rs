use aero::bios::{
    build_bios_rom, build_font8x16_cp437, build_font8x8_cp437, glyph_block_upper_half,
    glyph_box_single, glyph_shade_medium, AsmError, BiosError, BiosLayout, RomAssembler,
    VbeConfig, VbeMode,
};

fn layout() -> BiosLayout {
    BiosLayout {
        bios_size: 0x10000,
        ebda_base: 0x9F000,
        default_int_stub: 0xFF53,
        int10_stub: 0xF065,
        int13_stub: 0xE3FE,
        int15_stub: 0xF859,
        int16_stub: 0xE82E,
        int1a_stub: 0xFE6E,
        diskette_param_table: 0xEFC7,
        fixed_disk_param_table: 0xE401,
        video_param_table: 0xF0A4,
        vga_font_8x16: 0xC000,
        vga_font_8x8: 0xD000,
    }
}

fn vbe() -> VbeConfig {
    let modes = vec![
        VbeMode { mode: 0x112, width: 640, height: 480, bpp: 32, bytes_per_scan_line: 2560 },
        VbeMode { mode: 0x118, width: 1024, height: 768, bpp: 32, bytes_per_scan_line: 4096 },
    ];
    let mode_info_blocks = vec![vec![0x11u8; 256], vec![0x22u8; 256]];
    let mut edid = vec![0u8; 128];
    edid[0..8].copy_from_slice(&[0x00, 0xFF, 0xFF, 0xFF, 0xFF, 0xFF, 0xFF, 0x00]);
    VbeConfig { modes, mode_info_blocks, total_memory_64kb_blocks: 256, edid }
}

fn latest_windows_bios_date(bytes: &[u8]) -> Option<String> {
    let mut latest: Option<String> = None;

    for candidate in bytes.windows(8) {
        if candidate[2] != b'/'
            || candidate[5] != b'/'
            || !candidate[1].is_ascii_digit()
            || !candidate[3].is_ascii_digit()
            || !candidate[4].is_ascii_digit()
            || !candidate[6].is_ascii_digit()
            || !candidate[7].is_ascii_digit()
        {
            continue;
        }

        let month_tens = if candidate[0].is_ascii_digit() {
            candidate[0] - b'0'
        } else {
            0
        };
        let month = month_tens * 10 + candidate[1] - b'0';
        let day = (candidate[3] - b'0') * 10 + candidate[4] - b'0';
        if !(1..=12).contains(&month) || !(1..=31).contains(&day) {
            continue;
        }

        let short_year = (candidate[6] - b'0') * 10 + candidate[7] - b'0';
        let year = if short_year < 80 {
            2000 + u16::from(short_year)
        } else {
            1900 + u16::from(short_year)
        };
        let normalized = format!("{year:04}/{month:02}/{day:02}");
        if latest.as_ref().map_or(true, |old| normalized > *old) {
            latest = Some(normalized);
        }
    }

    latest
}

#[test]
fn bios_rom_publishes_a_stable_conventional_build_date() {
    let rom = build_bios_rom(&layout(), &vbe()).unwrap();

    assert_eq!(&rom[0xFFF5..0xFFFD], b"06/23/99");
    assert_eq!(
        latest_windows_bios_date(&rom).as_deref(),
        Some("1999/06/23"),
        "the conventional build date must remain the newest date accepted by the Windows BIOS-ROM scanner"
    );
}

#[test]
fn the_image_has_its_reset_vector_signature_and_tables() {
    let l = layout();
    let v = vbe();
    let rom = build_bios_rom(&l, &v).unwrap();
    assert_eq!(rom.len(), 0x10000);
    assert_eq!(&rom[0xFFF0..0xFFF5], &[0xEA, 0x00, 0xE0, 0x00, 0xF0]);
    assert_eq!(&rom[0xE000..0xE004], &[0xFA, 0xF4, 0xEB, 0xFE]);
    assert_eq!(&rom[0xFFFE..], &[0x55, 0xAA]);
    assert_eq!(&rom[0xFF53..0xFF55], &[0xF4, 0xCF]);
    let d = l.diskette_param_table as usize;
    assert_eq!(&rom[d..d + 11], &[0xAF, 0x02, 0x25, 0x02, 0x12, 0x1B, 0xFF, 0x6C, 0xF6, 0x0F, 0x08]);
    let f = l.fixed_disk_param_table as usize;
    assert_eq!(&rom[f..f + 3], &[0x00, 0x04, 0x10]);
    assert_eq!(rom[f + 8], 0x3F);
    // VBE controller strings, mode list and the blocks.
    assert_eq!(&rom[0xA700..0xA70E], b"Aero VBE BIOS\0");
    assert_eq!(&rom[0xA720..0xA725], b"Aero\0");
    assert_eq!(&rom[0xA740..0xA74A], b"Aero SVGA\0");
    assert_eq!(&rom[0xA760..0xA764], b"0.1\0");
    assert_eq!(&rom[0xA780..0xA786], &[0x12, 0x01, 0x18, 0x01, 0xFF, 0xFF]);
    assert!(rom[0xA800..0xA900].iter().all(|b| *b == 0x11));
    assert!(rom[0xA900..0xAA00].iter().all(|b| *b == 0x22));
    assert_eq!(&rom[0xB800..0xB808], &[0x00, 0xFF, 0xFF, 0xFF, 0xFF, 0xFF, 0xFF, 0x00]);
    // The INT 10h entry jumps to the handler for AH=4Fh.
    let e = l.int10_stub as usize;
    assert_eq!(&rom[e..e + 6], &[0x80, 0xFC, 0x4F, 0x75, 0x03, 0xE9]);
    let disp = u16::from_le_bytes([rom[e + 6], rom[e + 7]]);
    assert_eq!((l.int10_stub.wrapping_add(8)).wrapping_add(disp), 0xA000);
    assert_eq!(&rom[e + 8..e + 10], &[0xF4, 0xCF]);
    // The handler starts with the function dispatch: cmp ax, 4F00h.
    assert_eq!(&rom[0xA000..0xA003], &[0x3D, 0x00, 0x4F]);
    // Fonts.
    let font8 = build_font8x8_cp437();
    let font16 = build_font8x16_cp437();
    assert_eq!(&rom[0xD000..0xD800], font8.as_slice());
    assert_eq!(&rom[0xC000..0xD000], font16.as_slice());
}

#[test]
fn too_many_modes_do_not_fit_the_rom_offsets() {
    let mut v = vbe();
    v.modes = (0..0x59u16).map(|i| VbeMode { mode: 0x100 + i, width: 640, height: 480, bpp: 8, bytes_per_scan_line: 640 }).collect();
    v.mode_info_blocks = vec![vec![0u8; 256]; 0x59];
    assert_eq!(build_bios_rom(&layout(), &v), Err(BiosError::ModeInfoOffset));
}

#[test]
fn an_oversized_edid_is_refused() {
    let mut v = vbe();
    v.edid = vec![0u8; 0x1801];
    assert_eq!(build_bios_rom(&layout(), &v), Err(BiosError::EdidOverlapsFont));
}

#[test]
fn assembler_fills_in_jump_displacements() {
    let mut prog = RomAssembler::new(0xA000);
    prog.jump("end".chars().collect());
    prog.emit(&[0x90, 0x90]);
    prog.label("end".chars().collect());
    prog.jump_if_equal("end".chars().collect());
    let code = prog.finish().unwrap();
    // JMP rel16 over two NOPs, then JNE +3; JMP back to `end` (at 5, -5 from the next byte).
    assert_eq!(code, vec![0xE9, 0x02, 0x00, 0x90, 0x90, 0x75, 0x03, 0xE9, 0xFB, 0xFF]);
}

#[test]
fn assembler_reports_missing_and_duplicate_labels() {
    let mut prog = RomAssembler::new(0xA000);
    prog.jump("nowhere".chars().collect());
    assert_eq!(prog.finish(), Err(AsmError::MissingLabel("nowhere".chars().collect())));

    let mut prog = RomAssembler::new(0xA000);
    prog.label("a".chars().collect());
    prog.label("a".chars().collect());
    assert_eq!(prog.finish(), Err(AsmError::DuplicateLabel("a".chars().collect())));

    let mut prog = RomAssembler::new(0xA000);
    prog.emit(&vec![0x90; 0x701]);
    assert_eq!(prog.finish(), Err(AsmError::OverlapsRomData));
}

#[test]
fn line_graphics_glyphs_have_their_strokes() {
    assert_eq!(glyph_box_single(true, true, false, false), [0x10; 8]);
    assert_eq!(glyph_box_single(false, false, true, true), [0, 0, 0, 0xFF, 0, 0, 0, 0]);
    assert_eq!(glyph_box_single(false, true, false, true), [0, 0, 0, 0x1F, 0x10, 0x10, 0x10, 0x10]);
    assert_eq!(glyph_block_upper_half(), [0xFF, 0xFF, 0xFF, 0xFF, 0, 0, 0, 0]);
    assert_eq!(glyph_shade_medium(), [0x55, 0xAA, 0x55, 0xAA, 0x55, 0xAA, 0x55, 0xAA]);
}

#[test]
fn fonts_cover_the_code_page() {
    let font8 = build_font8x8_cp437();
    let font16 = build_font8x16_cp437();
    assert_eq!(font8.len(), 2048);
    assert_eq!(font16.len(), 4096);
    // 'A' comes from font8x8 and is not blank; 0xDB is the full block; 0x80 is blank.
    assert_eq!(&font8[0x41 * 8..0x42 * 8], &[0x0C, 0x1E, 0x33, 0x33, 0x3F, 0x33, 0x33, 0x00]);
    assert_eq!(&font8[0xDB * 8..0xDC * 8], &[0xFF; 8]);
    assert_eq!(&font8[0x80 * 8..0x81 * 8], &[0; 8]);
    // The 8x16 font doubles each scanline.
    for row in 0..8 {
        assert_eq!(font16[0x41 * 16 + 2 * row], font8[0x41 * 8 + row]);
        assert_eq!(font16[0x41 * 16 + 2 * row + 1], font8[0x41 * 8 + row]);
    }
}

#[test]
fn the_handler_opens_with_the_function_dispatch() {
    let rom = build_bios_rom(&layout(), &vbe()).unwrap();
    // CMP AX,4F00h; JNE +3; JMP controller_info, then CMP AX,4F01h.
    assert_eq!(&rom[0xA000..0xA006], &[0x3D, 0x00, 0x4F, 0x75, 0x03, 0xE9]);
    assert_eq!(&rom[0xA008..0xA00B], &[0x3D, 0x01, 0x4F]);
}

#[test]
fn a_handler_too_large_for_its_space_is_refused() {
    let mut v = vbe();
    v.modes = (0..0x58u16).map(|i| VbeMode { mode: 0x100 + i, width: 640, height: 480, bpp: 8, bytes_per_scan_line: 640 }).collect();
    v.mode_info_blocks = vec![vec![0u8; 16]; 0x58];
    assert_eq!(build_bios_rom(&layout(), &v), Err(BiosError::Asm(AsmError::OverlapsRomData)));
}
