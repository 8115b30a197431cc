use crate::pixel::{pixel_hash, Pixel};
use vstd::prelude::*;

verus! {

/// Longest run that one run chunk holds.
pub const MAX_RUN: u8 = 62;

/// Tag byte of a literal chunk with three channel bytes.
pub const TAG_RGB: u8 = 0xFE;

/// Tag byte of a literal chunk with four channel bytes.
pub const TAG_RGBA: u8 = 0xFF;

/// The four bytes of `x`, most significant first.
pub open spec fn be32(x: u32) -> Seq<u8> {
    seq![
        (x as int / 0x100_0000) as u8,
        (x as int / 0x1_0000 % 0x100) as u8,
        (x as int / 0x100 % 0x100) as u8,
        (x as int % 0x100) as u8,
    ]
}

/// The fixed 14-byte header: magic `qoif`, width, height, channels, color space.
pub open spec fn header_bytes(width: u32, height: u32, channels: u8, colorspace: u8) -> Seq<u8> {
    seq![0x71u8, 0x6fu8, 0x69u8, 0x66u8] + be32(width) + be32(height) + seq![channels, colorspace]
}

/// `x` reduced to a byte (two's-complement wraparound).
pub open spec fn wrap_byte(x: int) -> u8 {
    (x % 256) as u8
}

/// A byte read as a signed value in `-128..=127`.
pub open spec fn signed(b: u8) -> int {
    if b >= 128 {
        b as int - 256
    } else {
        b as int
    }
}

/// `cur - prev` with 8-bit wraparound, as a signed value.
pub open spec fn delta(cur: u8, prev: u8) -> int {
    signed(wrap_byte(cur as int - prev as int))
}

/// `d1 - d2` with 8-bit wraparound, as a signed value.
pub open spec fn cross(d1: int, d2: int) -> int {
    signed(wrap_byte(d1 - d2))
}

/// A run chunk for `n` repeats of the previous pixel, stored with a bias of one.
pub open spec fn run_chunk(n: int) -> Seq<u8> {
    seq![(0xC0 + n - 1) as u8]
}

/// An index chunk naming a cache slot.
pub open spec fn index_chunk(slot: int) -> Seq<u8> {
    seq![slot as u8]
}

/// A literal chunk: its tag, then the pixel's channel bytes.
pub open spec fn literal_chunk(p: Pixel, channels: int) -> Seq<u8> {
    if channels == 3 {
        seq![TAG_RGB, p.r, p.g, p.b]
    } else {
        seq![TAG_RGBA, p.r, p.g, p.b, p.a]
    }
}

/// Whether `p` may be written as a difference from `prev`: same alpha, each
/// channel's delta in `-2..=1`.
pub open spec fn diff_fits(p: Pixel, prev: Pixel) -> bool {
    &&& p.a == prev.a
    &&& -2 <= delta(p.r, prev.r) <= 1
    &&& -2 <= delta(p.g, prev.g) <= 1
    &&& -2 <= delta(p.b, prev.b) <= 1
}

/// The one-byte diff chunk: tag `01`, then the three deltas biased by 2.
pub open spec fn diff_chunk(p: Pixel, prev: Pixel) -> Seq<u8> {
    seq![
        (0x40 + (delta(p.r, prev.r) + 2) * 16 + (delta(p.g, prev.g) + 2) * 4 + (delta(p.b, prev.b)
            + 2)) as u8,
    ]
}

/// Whether `p` may be written as a luma chunk against `prev`: same alpha, green
/// delta in `-32..=31`, red and blue deltas within `-8..=7` of it.
pub open spec fn luma_fits(p: Pixel, prev: Pixel) -> bool {
    let dg = delta(p.g, prev.g);
    &&& p.a == prev.a
    &&& -32 <= dg <= 31
    &&& -8 <= cross(delta(p.r, prev.r), dg) <= 7
    &&& -8 <= cross(delta(p.b, prev.b), dg) <= 7
}

/// The two-byte luma chunk: tag `10` with the green delta biased by 32, then
/// the red and blue deltas relative to green, biased by 8, one per nibble.
pub open spec fn luma_chunk(p: Pixel, prev: Pixel) -> Seq<u8> {
    let dg = delta(p.g, prev.g);
    seq![
        (0x80 + dg + 32) as u8,
        ((cross(delta(p.r, prev.r), dg) + 8) * 16 + cross(delta(p.b, prev.b), dg) + 8) as u8,
    ]
}

/// The cheapest of diff, luma and literal for `p` after `prev`, in that order.
pub open spec fn delta_or_literal_chunk(p: Pixel, prev: Pixel, channels: int) -> Seq<u8> {
    if diff_fits(p, prev) {
        diff_chunk(p, prev)
    } else if luma_fits(p, prev) {
        luma_chunk(p, prev)
    } else {
        literal_chunk(p, channels)
    }
}

/// The chunk for a pixel that differs from `prev`: an index chunk when the
/// cache holds it, else the cheapest of the others.
pub open spec fn pixel_chunk(
    p: Pixel,
    prev: Pixel,
    cache: Seq<Option<Pixel>>,
    channels: int,
) -> Seq<u8> {
    if cache[pixel_hash(p)] == Some(p) {
        index_chunk(pixel_hash(p))
    } else {
        delta_or_literal_chunk(p, prev, channels)
    }
}

/// The color-history cache at the start of an image: 64 empty slots.
pub open spec fn empty_cache() -> Seq<Option<Pixel>> {
    Seq::new(64, |i: int| None)
}

/// The encoder after it has seen `pixels`: the chunk bytes emitted so far, the
/// cache, and the length of the run not yet emitted.
pub open spec fn enc_state(pixels: Seq<Pixel>, channels: int) -> (Seq<u8>, Seq<Option<Pixel>>, int)
    decreases pixels.len(),
{
    if pixels.len() == 0 {
        (Seq::empty(), empty_cache(), 0)
    } else {
        let before = pixels.drop_last();
        let p = pixels.last();
        let (out, cache, run) = enc_state(before, channels);
        if before.len() == 0 {
            (literal_chunk(p, channels), cache.update(pixel_hash(p), Some(p)), 0)
        } else if p == before.last() {
            if run + 1 == MAX_RUN {
                (out + run_chunk(MAX_RUN as int), cache, 0)
            } else {
                (out, cache, run + 1)
            }
        } else {
            let flushed = if run > 0 {
                out + run_chunk(run)
            } else {
                out
            };
            (
                flushed + pixel_chunk(p, before.last(), cache, channels),
                cache.update(pixel_hash(p), Some(p)),
                0,
            )
        }
    }
}

/// The chunk stream for `pixels`: what the encoder emitted, with the last run flushed.
pub open spec fn encoded_stream(pixels: Seq<Pixel>, channels: int) -> Seq<u8> {
    let (out, cache, run) = enc_state(pixels, channels);
    if run > 0 {
        out + run_chunk(run)
    } else {
        out
    }
}

/// The whole encoded image: header, then chunk stream.
pub open spec fn encoded_image(
    pixels: Seq<Pixel>,
    width: u32,
    height: u32,
    channels: u8,
    colorspace: u8,
) -> Seq<u8> {
    header_bytes(width, height, channels, colorspace) + encoded_stream(pixels, channels as int)
}

} // verus!
