use crate::format::{
    cross, delta, delta_or_literal_chunk, diff_chunk, diff_fits, empty_cache, enc_state,
    encoded_image, encoded_stream, header_bytes, index_chunk, literal_chunk, luma_chunk, luma_fits,
    pixel_chunk, run_chunk, wrap_byte, MAX_RUN, TAG_RGB, TAG_RGBA,
};
use crate::pixel::{pixel_hash, pixels_of, Pixel};
use crate::{input_error, EncodeError};
use vstd::prelude::*;

verus! {

/// The pixel a decoder assumes before the first chunk.
pub open spec fn start_pixel() -> Pixel {
    Pixel { r: 0, g: 0, b: 0, a: 0 }
}

/// A decoder of chunk streams: the pixels that `bytes` stands for, read after
/// pixel `prev` with color-history cache `cache`. It stops at a truncated
/// chunk or an index chunk naming an empty slot.
#[verifier::opaque]
pub open spec fn decode_stream(bytes: Seq<u8>, prev: Pixel, cache: Seq<Option<Pixel>>) -> Seq<
    Pixel,
>
    decreases bytes.len(),
{
    if bytes.len() == 0 {
        Seq::empty()
    } else {
        let tag = bytes[0];
        if tag == TAG_RGB {
            if bytes.len() < 4 {
                Seq::empty()
            } else {
                let p = Pixel { r: bytes[1], g: bytes[2], b: bytes[3], a: prev.a };
                seq![p] + decode_stream(bytes.skip(4), p, cache.update(pixel_hash(p), Some(p)))
            }
        } else if tag == TAG_RGBA {
            if bytes.len() < 5 {
                Seq::empty()
            } else {
                let p = Pixel { r: bytes[1], g: bytes[2], b: bytes[3], a: bytes[4] };
                seq![p] + decode_stream(bytes.skip(5), p, cache.update(pixel_hash(p), Some(p)))
            }
        } else if tag >= 0xC0 {
            Seq::new((tag - 0xC0 + 1) as nat, |i: int| prev) + decode_stream(
                bytes.skip(1),
                prev,
                cache,
            )
        } else if tag < 0x40 {
            match cache[tag as int] {
                Some(p) => seq![p] + decode_stream(bytes.skip(1), p, cache),
                None => Seq::empty(),
            }
        } else if tag < 0x80 {
            let v = tag - 0x40;
            let p = Pixel {
                r: wrap_byte(prev.r + v / 16 - 2),
                g: wrap_byte(prev.g + v / 4 % 4 - 2),
                b: wrap_byte(prev.b + v % 4 - 2),
                a: prev.a,
            };
            seq![p] + decode_stream(bytes.skip(1), p, cache.update(pixel_hash(p), Some(p)))
        } else if bytes.len() < 2 {
            Seq::empty()
        } else {
            let dg = tag - 0x80 - 32;
            let p = Pixel {
                r: wrap_byte(prev.r + dg + bytes[1] / 16 - 8),
                g: wrap_byte(prev.g + dg),
                b: wrap_byte(prev.b + dg + bytes[1] % 16 - 8),
                a: prev.a,
            };
            seq![p] + decode_stream(bytes.skip(2), p, cache.update(pixel_hash(p), Some(p)))
        }
    }
}

/// Channel `j` of a pixel, in wire order r, g, b, a.
pub open spec fn channel(p: Pixel, j: int) -> u8 {
    if j == 0 {
        p.r
    } else if j == 1 {
        p.g
    } else if j == 2 {
        p.b
    } else {
        p.a
    }
}

proof fn lemma_add_delta(cur: u8, prev: u8)
    ensures
        wrap_byte(prev + delta(cur, prev)) == cur,
        -128 <= delta(cur, prev) <= 127,
{
}

proof fn lemma_add_cross(cur: u8, prev: u8, dg: int)
    requires
        -128 <= dg <= 127,
    ensures
        wrap_byte(prev + dg + cross(delta(cur, prev), dg)) == cur,
{
    lemma_add_delta(cur, prev);
    let d = delta(cur, prev);
    let x = cross(d, dg);
    assert(x == d - dg || x == d - dg + 256 || x == d - dg - 256);
    let s = prev + d;
    assert(wrap_byte(s) == cur);
    assert(wrap_byte(s + 256) == cur);
    assert(wrap_byte(s - 256) == cur);
}

proof fn lemma_decode_literal(
    p: Pixel,
    prev: Pixel,
    cache: Seq<Option<Pixel>>,
    channels: int,
    rest: Seq<u8>,
)
    requires
        channels == 3 || channels == 4,
        channels == 3 ==> p.a == prev.a,
    ensures
        decode_stream(literal_chunk(p, channels) + rest, prev, cache) == seq![p] + decode_stream(
            rest,
            p,
            cache.update(pixel_hash(p), Some(p)),
        ),
{
    reveal(decode_stream);
    let bytes = literal_chunk(p, channels) + rest;
    assert(bytes.skip(channels + 1) =~= rest);
}

proof fn lemma_decode_run(n: int, prev: Pixel, cache: Seq<Option<Pixel>>, rest: Seq<u8>)
    requires
        1 <= n <= MAX_RUN,
    ensures
        decode_stream(run_chunk(n) + rest, prev, cache) == Seq::new(n as nat, |i: int| prev)
            + decode_stream(rest, prev, cache),
{
    reveal(decode_stream);
    let bytes = run_chunk(n) + rest;
    assert(bytes.skip(1) =~= rest);
}

proof fn lemma_decode_index(p: Pixel, prev: Pixel, cache: Seq<Option<Pixel>>, rest: Seq<u8>)
    requires
        cache.len() == 64,
        cache[pixel_hash(p)] == Some(p),
    ensures
        decode_stream(index_chunk(pixel_hash(p)) + rest, prev, cache) == seq![p] + decode_stream(
            rest,
            p,
            cache,
        ),
{
    reveal(decode_stream);
    let bytes = index_chunk(pixel_hash(p)) + rest;
    assert(bytes.skip(1) =~= rest);
}

proof fn lemma_decode_diff(p: Pixel, prev: Pixel, cache: Seq<Option<Pixel>>, rest: Seq<u8>)
    requires
        diff_fits(p, prev),
    ensures
        decode_stream(diff_chunk(p, prev) + rest, prev, cache) == seq![p] + decode_stream(
            rest,
            p,
            cache.update(pixel_hash(p), Some(p)),
        ),
{
    reveal(decode_stream);
    let bytes = diff_chunk(p, prev) + rest;
    assert(bytes.skip(1) =~= rest);
    let vr = delta(p.r, prev.r) + 2;
    let vg = delta(p.g, prev.g) + 2;
    let vb = delta(p.b, prev.b) + 2;
    let v = vr * 16 + vg * 4 + vb;
    assert(v / 16 == vr && v / 4 % 4 == vg && v % 4 == vb) by (nonlinear_arith)
        requires
            0 <= vr < 4,
            0 <= vg < 4,
            0 <= vb < 4,
            v == vr * 16 + vg * 4 + vb,
    ;
    assert(bytes[0] - 0x40 == v);
    lemma_add_delta(p.r, prev.r);
    lemma_add_delta(p.g, prev.g);
    lemma_add_delta(p.b, prev.b);
}

proof fn lemma_decode_luma(p: Pixel, prev: Pixel, cache: Seq<Option<Pixel>>, rest: Seq<u8>)
    requires
        luma_fits(p, prev),
    ensures
        decode_stream(luma_chunk(p, prev) + rest, prev, cache) == seq![p] + decode_stream(
            rest,
            p,
            cache.update(pixel_hash(p), Some(p)),
        ),
{
    reveal(decode_stream);
    let bytes = luma_chunk(p, prev) + rest;
    assert(bytes.skip(2) =~= rest);
    let dg = delta(p.g, prev.g);
    let xr = cross(delta(p.r, prev.r), dg) + 8;
    let xb = cross(delta(p.b, prev.b), dg) + 8;
    let v = xr * 16 + xb;
    assert(v / 16 == xr && v % 16 == xb) by (nonlinear_arith)
        requires
            0 <= xr < 16,
            0 <= xb < 16,
            v == xr * 16 + xb,
    ;
    assert(bytes[1] == v);
    assert(bytes[0] - 0x80 - 32 == dg);
    lemma_add_delta(p.g, prev.g);
    lemma_add_cross(p.r, prev.r, dg);
    lemma_add_cross(p.b, prev.b, dg);
}

proof fn lemma_decode_pixel_chunk(
    p: Pixel,
    prev: Pixel,
    cache: Seq<Option<Pixel>>,
    channels: int,
    rest: Seq<u8>,
)
    requires
        channels == 3 || channels == 4,
        channels == 3 ==> p.a == prev.a,
        cache.len() == 64,
    ensures
        decode_stream(pixel_chunk(p, prev, cache, channels) + rest, prev, cache) == seq![p]
            + decode_stream(rest, p, cache.update(pixel_hash(p), Some(p))),
{
    if cache[pixel_hash(p)] == Some(p) {
        lemma_decode_index(p, prev, cache, rest);
        assert(cache.update(pixel_hash(p), Some(p)) =~= cache);
    } else if diff_fits(p, prev) {
        lemma_decode_diff(p, prev, cache, rest);
    } else if luma_fits(p, prev) {
        lemma_decode_luma(p, prev, cache, rest);
    } else {
        lemma_decode_literal(p, prev, cache, channels, rest);
    }
}

/// What the decoder makes of the encoder's output after any prefix of pixels:
/// every pixel but those of the pending run, and it stands where the encoder does.
proof fn lemma_decode_prefix(pixels: Seq<Pixel>, channels: int, rest: Seq<u8>)
    requires
        pixels.len() >= 1,
        channels == 3 || channels == 4,
        channels == 3 ==> forall|k: int| 0 <= k < pixels.len() ==> (#[trigger] pixels[k]).a == 0,
    ensures
        ({
            let (out, cache, run) = enc_state(pixels, channels);
            &&& 0 <= run < MAX_RUN
            &&& run < pixels.len()
            &&& cache.len() == 64
            &&& forall|k: int|
                pixels.len() - 1 - run <= k < pixels.len() ==> #[trigger] pixels[k]
                    == pixels.last()
            &&& decode_stream(out + rest, start_pixel(), empty_cache()) == pixels.take(
                pixels.len() - run,
            ) + decode_stream(rest, pixels.last(), cache)
        }),
    decreases pixels.len(),
{
    let n = pixels.len() as int;
    let before = pixels.drop_last();
    let p = pixels.last();
    if n == 1 {
        lemma_decode_literal(p, start_pixel(), empty_cache(), channels, rest);
        assert(Seq::<u8>::empty() + (literal_chunk(p, channels) + rest) =~= literal_chunk(
            p,
            channels,
        ) + rest);
        assert(pixels.take(1) =~= seq![p]);
        return;
    }
    let (out, cache, run) = enc_state(before, channels);
    let q = before.last();
    assert(forall|k: int| 0 <= k < before.len() ==> before[k] == pixels[k]);
    if p == q {
        if run + 1 == MAX_RUN {
            let chunk = run_chunk(MAX_RUN as int);
            lemma_decode_prefix(before, channels, chunk + rest);
            lemma_decode_run(MAX_RUN as int, q, cache, rest);
            assert(out + chunk + rest =~= out + (chunk + rest));
            assert(before.take(n - 1 - run) + Seq::new(MAX_RUN as nat, |i: int| q) =~= pixels);
            assert(pixels.take(n) =~= pixels);
        } else {
            lemma_decode_prefix(before, channels, rest);
            assert(pixels.take(n - (run + 1)) =~= before.take(n - 1 - run));
        }
    } else {
        let chunk = pixel_chunk(p, q, cache, channels);
        let flushed = if run > 0 {
            out + run_chunk(run)
        } else {
            out
        };
        if run > 0 {
            lemma_decode_prefix(before, channels, run_chunk(run) + (chunk + rest));
            lemma_decode_pixel_chunk(p, q, cache, channels, rest);
            lemma_decode_run(run, q, cache, chunk + rest);
            assert(flushed + chunk + rest =~= out + (run_chunk(run) + (chunk + rest)));
            assert(before.take(n - 1 - run) + Seq::new(run as nat, |i: int| q) + seq![p]
                =~= pixels.take(n));
        } else {
            lemma_decode_prefix(before, channels, chunk + rest);
            lemma_decode_pixel_chunk(p, q, cache, channels, rest);
            assert(flushed + chunk + rest =~= out + (chunk + rest));
            assert(before.take(n - 1) + seq![p] =~= pixels.take(n));
        }
    }
}

/// The number of pixels of a valid buffer is the image's width times its height.
proof fn lemma_pixel_total(len: int, width: int, height: int, channels: int)
    requires
        width > 0,
        height > 0,
        channels == 3 || channels == 4,
        len == width * height * channels,
    ensures
        len / channels == width * height,
        width * height >= 1,
{
    assert(width * height * channels == (width * height) * channels) by (nonlinear_arith);
    assert((width * height) * channels / channels == width * height) by (nonlinear_arith)
        requires
            channels > 0,
    ;
    assert(width * height >= 1) by (nonlinear_arith)
        requires
            width > 0,
            height > 0,
    ;
}

/// Round trip: an encoded image is its 14-byte header followed by its chunk
/// stream, and decoding that stream gives back the pixel buffer byte for byte.
pub proof fn lemma_round_trip(data: Seq<u8>, width: u32, height: u32, channels: u8, colorspace: u8)
    requires
        input_error(true, width, height, channels, colorspace) == EncodeError::NoError,
        data.len() == width as int * height as int * channels as int,
    ensures
        ({
            let c = channels as int;
            let out = encoded_image(pixels_of(data, c), width, height, channels, colorspace);
            let decoded = decode_stream(out.skip(14), start_pixel(), empty_cache());
            &&& out.len() == 14 + encoded_stream(pixels_of(data, c), c).len()
            &&& out.take(14) == header_bytes(width, height, channels, colorspace)
            &&& decoded.len() == width as int * height as int
            &&& forall|i: int, j: int|
                0 <= i < decoded.len() && 0 <= j < c ==> #[trigger] channel(decoded[i], j)
                    == data[i * c + j]
        }),
{
    let c = channels as int;
    let pixels = pixels_of(data, c);
    lemma_pixel_total(data.len() as int, width as int, height as int, c);
    let n = pixels.len() as int;
    let head = header_bytes(width, height, channels, colorspace);
    let stream = encoded_stream(pixels, c);
    let out = encoded_image(pixels, width, height, channels, colorspace);
    assert(out.skip(14) =~= stream);
    assert(out.take(14) =~= head);
    let (chunks, cache, run) = enc_state(pixels, c);
    lemma_decode_prefix(pixels, c, Seq::empty());
    reveal(decode_stream);
    if run > 0 {
        lemma_decode_prefix(pixels, c, run_chunk(run));
        lemma_decode_run(run, pixels.last(), cache, Seq::empty());
        assert(run_chunk(run) + Seq::<u8>::empty() =~= run_chunk(run));
        assert(pixels.take(n - run) + Seq::new(run as nat, |i: int| pixels.last()) + Seq::<
            Pixel,
        >::empty() =~= pixels);
    } else {
        assert(chunks + Seq::<u8>::empty() =~= chunks);
        assert(pixels.take(n) + Seq::<Pixel>::empty() =~= pixels);
    }
}

/// Encoder state after a prefix of a uniform image: the literal chunk of its
/// first pixel, and a run of all the others still pending.
proof fn lemma_uniform_prefix(pixels: Seq<Pixel>, p: Pixel, channels: int)
    requires
        1 <= pixels.len() <= MAX_RUN,
        forall|k: int| 0 <= k < pixels.len() ==> #[trigger] pixels[k] == p,
    ensures
        enc_state(pixels, channels) == (
            literal_chunk(p, channels),
            empty_cache().update(pixel_hash(p), Some(p)),
            pixels.len() - 1,
        ),
    decreases pixels.len(),
{
    let before = pixels.drop_last();
    assert(pixels.last() == p);
    if pixels.len() > 1 {
        lemma_uniform_prefix(before, p, channels);
        assert(before.last() == p);
    } else {
        assert(enc_state(before, channels) == (Seq::<u8>::empty(), empty_cache(), 0int));
    }
}

/// A uniform image of more than one and at most 62 pixels encodes to the
/// header, a literal chunk for the first pixel, and one run chunk for the rest.
pub proof fn lemma_uniform_image(
    pixels: Seq<Pixel>,
    p: Pixel,
    width: u32,
    height: u32,
    channels: u8,
    colorspace: u8,
)
    requires
        channels == 3 || channels == 4,
        pixels.len() == width as int * height as int,
        1 < pixels.len() <= MAX_RUN,
        forall|k: int| 0 <= k < pixels.len() ==> #[trigger] pixels[k] == p,
    ensures
        encoded_image(pixels, width, height, channels, colorspace) == header_bytes(
            width,
            height,
            channels,
            colorspace,
        ) + literal_chunk(p, channels as int) + run_chunk(pixels.len() - 1),
{
    lemma_uniform_prefix(pixels, p, channels as int);
    assert(header_bytes(width, height, channels, colorspace) + (literal_chunk(p, channels as int)
        + run_chunk(pixels.len() - 1)) =~= header_bytes(width, height, channels, colorspace)
        + literal_chunk(p, channels as int) + run_chunk(pixels.len() - 1));
}

/// Two distinct pixels encode to a literal chunk and then a diff, luma or
/// literal chunk: the second pixel never becomes an index or a run chunk.
pub proof fn lemma_two_distinct_pixels(p0: Pixel, p1: Pixel, channels: int)
    requires
        channels == 3 || channels == 4,
        p0 != p1,
    ensures
        encoded_stream(seq![p0, p1], channels) == literal_chunk(p0, channels)
            + delta_or_literal_chunk(p1, p0, channels),
        ({
            let tag = encoded_stream(seq![p0, p1], channels)[channels + 1];
            tag >= 0x40 && !(0xC0 <= tag < TAG_RGB)
        }),
{
    let pixels = seq![p0, p1];
    let cache = empty_cache().update(pixel_hash(p0), Some(p0));
    assert(pixels.drop_last() =~= seq![p0]);
    assert(seq![p0].drop_last() =~= Seq::<Pixel>::empty());
    assert(enc_state(Seq::<Pixel>::empty(), channels) == (Seq::<u8>::empty(), empty_cache(), 0int));
    assert(enc_state(seq![p0], channels) == (literal_chunk(p0, channels), cache, 0int));
    assert(pixels.last() == p1 && seq![p0].last() == p0);
    assert(cache[pixel_hash(p1)] != Some(p1));
    let second = delta_or_literal_chunk(p1, p0, channels);
    assert((literal_chunk(p0, channels) + second)[channels + 1] == second[0]);
}

} // verus!
