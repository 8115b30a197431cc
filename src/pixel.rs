use vstd::prelude::*;

verus! {

/// One pixel. Images with three channels carry no alpha: their pixels hold `a == 0`.
#[derive(Clone, Copy, Debug, PartialEq, Eq, Structural)]
pub struct Pixel {
    pub r: u8,
    pub g: u8,
    pub b: u8,
    pub a: u8,
}

/// Number of slots of the color-history cache.
pub const CACHE_SLOTS: usize = 64;

/// Slot of the color-history cache that a pixel is stored in.
pub open spec fn pixel_hash(p: Pixel) -> int {
    (p.r as int * 3 + p.g as int * 5 + p.b as int * 7 + p.a as int * 11) % 64
}

/// The pixel at position `i` of a row-major buffer of `channels`-byte pixels.
pub open spec fn pixel_at(data: Seq<u8>, channels: int, i: int) -> Pixel {
    Pixel {
        r: data[i * channels],
        g: data[i * channels + 1],
        b: data[i * channels + 2],
        a: if channels == 4 { data[i * channels + 3] } else { 0 },
    }
}

/// Number of whole pixels in a buffer of `channels`-byte pixels.
pub open spec fn pixel_count(data: Seq<u8>, channels: int) -> nat {
    let n: int = data.len() as int / channels;
    n as nat
}

/// The pixels of a row-major buffer, in scan order.
pub open spec fn pixels_of(data: Seq<u8>, channels: int) -> Seq<Pixel> {
    Seq::new(pixel_count(data, channels), |i: int| pixel_at(data, channels, i))
}

/// Reads the pixel that starts at byte `pos` of `data`.
pub fn read_pixel(data: &[u8], pos: usize, channels: u8) -> (p: Pixel)
    requires
        channels == 3 || channels == 4,
        pos + channels <= data@.len(),
    ensures
        p.r == data@[pos as int],
        p.g == data@[pos + 1],
        p.b == data@[pos + 2],
        p.a == if channels == 4 { data@[pos + 3] } else { 0 },
{
    let len = data.len();
    let a = if channels == 4 { data[pos + 3] } else { 0 };
    Pixel { r: data[pos], g: data[pos + 1], b: data[pos + 2], a }
}

/// Slot of the color-history cache for `pixel`: `(3r + 5g + 7b + 11a) mod 64`.
pub fn get_pixel_index(pixel: &Pixel) -> (index: usize)
    ensures
        index == pixel_hash(*pixel),
        index < CACHE_SLOTS,
{
    let sum: usize = pixel.r as usize * 3 + pixel.g as usize * 5 + pixel.b as usize * 7
        + pixel.a as usize * 11;
    sum % 64
}

} // verus!
