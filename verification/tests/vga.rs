use aero::vga::{vga_rgba, VgaImageError};

#[test]
fn pixels_become_rgba_bytes() {
    let fb = [0x4433_2211u32, 0xff00_80ff];
    assert_eq!(
        vga_rgba(2, 1, &fb),
        Ok(vec![0x11, 0x22, 0x33, 0x44, 0xff, 0x80, 0x00, 0xff])
    );
}

#[test]
fn frames_without_pixels_are_refused() {
    assert_eq!(
        vga_rgba(0, 480, &[]),
        Err(VgaImageError::NoFramebuffer { width: 0, height: 480 })
    );
    assert_eq!(
        vga_rgba(2, 2, &[0, 0, 0]),
        Err(VgaImageError::BadLength { got: 3, expected: 4 })
    );
}
