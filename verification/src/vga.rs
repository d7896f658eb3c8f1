//! Turning the VGA framebuffer into an RGBA byte image.

use vstd::prelude::*;

verus! {

/// Why the framebuffer cannot be turned into an image.
#[derive(Debug, Clone, Copy, PartialEq, Eq, Structural)]
pub enum VgaImageError {
    /// No framebuffer: the resolution has a zero side.
    NoFramebuffer { width: u32, height: u32 },
    /// `width * height` does not fit in `usize`.
    SizeOverflow,
    /// The framebuffer does not hold `width * height` pixels.
    BadLength { got: usize, expected: usize },
}

/// Byte `j` (0 = red, 1 = green, 2 = blue, 3 = alpha) of a framebuffer pixel, whose `u32`
/// value is `R | G << 8 | B << 16 | A << 24`.
pub open spec fn channel(p: u32, j: int) -> u8 {
    ((p >> (8 * j) as u32) & 0xff) as u8
}

/// The RGBA bytes of a `width` x `height` frame from its pixels `fb`.
pub fn vga_rgba(width: u32, height: u32, fb: &[u32]) -> (r: Result<Vec<u8>, VgaImageError>)
    requires
        fb@.len() * 4 <= usize::MAX,
    ensures
        width == 0 || height == 0 ==> r == Err::<Vec<u8>, VgaImageError>(
            VgaImageError::NoFramebuffer { width, height },
        ),
        width != 0 && height != 0 && width * height > usize::MAX ==> r == Err::<Vec<u8>, VgaImageError>(
            VgaImageError::SizeOverflow,
        ),
        width != 0 && height != 0 && width * height <= usize::MAX && fb@.len() != width * height ==> r
            == Err::<Vec<u8>, VgaImageError>(
            VgaImageError::BadLength { got: fb@.len() as usize, expected: (width * height) as usize },
        ),
        width != 0 && height != 0 && fb@.len() == width * height ==> (r matches Ok(b) && b@.len() == 4
            * fb@.len() && forall|i: int, j: int|
            0 <= i < fb@.len() && 0 <= j < 4 ==> #[trigger] b@[4 * i + j] == channel(fb@[i], j)),
{
    if width == 0 || height == 0 {
        return Err(VgaImageError::NoFramebuffer { width, height });
    }
    let expected = match (width as usize).checked_mul(height as usize) {
        Some(n) => n,
        None => return Err(VgaImageError::SizeOverflow),
    };
    if fb.len() != expected {
        return Err(VgaImageError::BadLength { got: fb.len(), expected });
    }
    let mut rgba: Vec<u8> = Vec::new();
    let mut i: usize = 0;
    while i < fb.len()
        invariant
            i <= fb@.len(),
            fb@.len() * 4 <= usize::MAX,
            rgba@.len() == 4 * i,
            forall|k: int, j: int| 0 <= k < i && 0 <= j < 4 ==> #[trigger] rgba@[4 * k + j] == channel(fb@[k], j),
        decreases fb@.len() - i,
    {
        let p = fb[i];
        rgba.push((p & 0xFF) as u8);
        rgba.push(((p >> 8u32) & 0xFF) as u8);
        rgba.push(((p >> 16u32) & 0xFF) as u8);
        rgba.push(((p >> 24u32) & 0xFF) as u8);
        proof {
            assert(channel(p, 0) == (p & 0xFF) as u8) by (bit_vector);
            assert forall|k: int, j: int| 0 <= k < i + 1 && 0 <= j < 4 implies #[trigger] rgba@[4 * k + j]
                == channel(fb@[k], j) by {
                if k == i {
                    assert(rgba@[4 * k + j] == rgba@[4 * i + j]);
                }
            }
        }
        i += 1;
    }
    Ok(rgba)
}

} // verus!
