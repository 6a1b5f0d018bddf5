//! Colour depths, pixels and palette colours.
use vstd::prelude::*;

verus! {

/// How many bits one pixel of a sprite takes.
#[derive(Debug, Clone, Copy, PartialEq, Eq, Structural)]
pub enum ColorDepth {
    Rgba,
    Grayscale,
    Indexed,
}

/// The code under which a depth is stored: its bits per pixel.
pub open spec fn depth_code(d: ColorDepth) -> u16 {
    match d {
        ColorDepth::Rgba => 32,
        ColorDepth::Grayscale => 16,
        ColorDepth::Indexed => 8,
    }
}

/// The depth stored under `code`, if there is one.
pub open spec fn depth_of_code(code: u16) -> Option<ColorDepth> {
    if code == 32 {
        Some(ColorDepth::Rgba)
    } else if code == 16 {
        Some(ColorDepth::Grayscale)
    } else if code == 8 {
        Some(ColorDepth::Indexed)
    } else {
        None
    }
}

pub open spec fn spec_bytes_per_pixel(d: ColorDepth) -> nat {
    match d {
        ColorDepth::Rgba => 4,
        ColorDepth::Grayscale => 2,
        ColorDepth::Indexed => 1,
    }
}

impl ColorDepth {
    pub fn code(self) -> (r: u16)
        ensures
            r == depth_code(self),
    {
        match self {
            ColorDepth::Rgba => 32,
            ColorDepth::Grayscale => 16,
            ColorDepth::Indexed => 8,
        }
    }

    pub fn from_code(code: u16) -> (r: Option<ColorDepth>)
        ensures
            r == depth_of_code(code),
    {
        if code == 32 {
            Some(ColorDepth::Rgba)
        } else if code == 16 {
            Some(ColorDepth::Grayscale)
        } else if code == 8 {
            Some(ColorDepth::Indexed)
        } else {
            None
        }
    }

    pub fn bytes_per_pixel(self) -> (r: usize)
        ensures
            r == spec_bytes_per_pixel(self),
    {
        match self {
            ColorDepth::Rgba => 4,
            ColorDepth::Grayscale => 2,
            ColorDepth::Indexed => 1,
        }
    }
}

/// One pixel, in the form that the depth of its sprite gives it.
#[derive(Debug, Clone, Copy, PartialEq, Eq, Structural)]
pub enum Pixel {
    Rgba { r: u8, g: u8, b: u8, a: u8 },
    Grayscale { v: u8, a: u8 },
    Indexed(u8),
}

/// The pixel of depth `d` stored at `i`.
pub open spec fn pixel_at(s: Seq<u8>, i: int, d: ColorDepth) -> Pixel {
    match d {
        ColorDepth::Rgba => Pixel::Rgba { r: s[i], g: s[i + 1], b: s[i + 2], a: s[i + 3] },
        ColorDepth::Grayscale => Pixel::Grayscale { v: s[i], a: s[i + 1] },
        ColorDepth::Indexed => Pixel::Indexed(s[i]),
    }
}

pub open spec fn pixel_bytes(p: Pixel) -> Seq<u8> {
    match p {
        Pixel::Rgba { r, g, b, a } => seq![r, g, b, a],
        Pixel::Grayscale { v, a } => seq![v, a],
        Pixel::Indexed(i) => seq![i],
    }
}

pub open spec fn pixel_depth(p: Pixel) -> ColorDepth {
    match p {
        Pixel::Rgba { .. } => ColorDepth::Rgba,
        Pixel::Grayscale { .. } => ColorDepth::Grayscale,
        Pixel::Indexed(_) => ColorDepth::Indexed,
    }
}

/// Reads the pixel of depth `d` at `i`.
pub fn decode_pixel(s: &[u8], i: usize, d: ColorDepth) -> (r: Pixel)
    requires
        i + spec_bytes_per_pixel(d) <= s@.len(),
    ensures
        r == pixel_at(s@, i as int, d),
        pixel_depth(r) == d,
        pixel_bytes(r) == s@.subrange(i as int, i + spec_bytes_per_pixel(d)),
{
    let r = match d {
        ColorDepth::Rgba => Pixel::Rgba { r: s[i], g: s[i + 1], b: s[i + 2], a: s[i + 3] },
        ColorDepth::Grayscale => Pixel::Grayscale { v: s[i], a: s[i + 1] },
        ColorDepth::Indexed => Pixel::Indexed(s[i]),
    };
    assert(pixel_bytes(r) =~= s@.subrange(i as int, i + spec_bytes_per_pixel(d)));
    r
}

/// Appends the bytes of one pixel.
pub fn encode_pixel(p: Pixel, out: &mut Vec<u8>)
    ensures
        final(out)@ == old(out)@ + pixel_bytes(p),
        pixel_bytes(p).len() == spec_bytes_per_pixel(pixel_depth(p)),
{
    let ghost start = out@;
    match p {
        Pixel::Rgba { r, g, b, a } => {
            out.push(r);
            out.push(g);
            out.push(b);
            out.push(a);
        },
        Pixel::Grayscale { v, a } => {
            out.push(v);
            out.push(a);
        },
        Pixel::Indexed(i) => {
            out.push(i);
        },
    }
    assert(out@ =~= start + pixel_bytes(p));
}

} // verus!
