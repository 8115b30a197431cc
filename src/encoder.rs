use crate::format::{
    be32, diff_chunk, diff_fits, empty_cache, header_bytes, index_chunk, literal_chunk, luma_chunk,
    luma_fits, run_chunk, cross, delta, enc_state, encoded_image, pixel_chunk, signed, wrap_byte, MAX_RUN, TAG_RGB, TAG_RGBA,
};
use crate::pixel::{get_pixel_index, pixels_of, read_pixel, Pixel, CACHE_SLOTS};
use vstd::prelude::*;

verus! {

/// Builds the 14-byte header.
pub fn get_header(width: u32, height: u32, channels: u8, colorspace: u8) -> (header: Vec<u8>)
    ensures
        header@ == header_bytes(width, height, channels, colorspace),
{
    let mut header: Vec<u8> = Vec::new();
    header.push(0x71);
    header.push(0x6f);
    header.push(0x69);
    header.push(0x66);
    push_be32(&mut header, width);
    push_be32(&mut header, height);
    header.push(channels);
    header.push(colorspace);
    assert(header@ =~= header_bytes(width, height, channels, colorspace));
    header
}

/// Appends `x` as four bytes, most significant first.
fn push_be32(out: &mut Vec<u8>, x: u32)
    ensures
        final(out)@ == old(out)@ + be32(x),
{
    out.push((x / 0x100_0000) as u8);
    out.push((x / 0x1_0000 % 0x100) as u8);
    out.push((x / 0x100 % 0x100) as u8);
    out.push((x % 0x100) as u8);
    assert(final(out)@ =~= old(out)@ + be32(x));
}

/// A color-history cache with every slot empty.
pub fn new_cache() -> (cache: Vec<Option<Pixel>>)
    ensures
        cache@ == empty_cache(),
{
    let mut cache: Vec<Option<Pixel>> = Vec::new();
    let mut i: usize = 0;
    while i < CACHE_SLOTS
        invariant
            i <= CACHE_SLOTS,
            cache@ == Seq::new(i as nat, |k: int| None::<Pixel>),
        decreases CACHE_SLOTS - i,
    {
        cache.push(None);
        i += 1;
        assert(cache@ =~= Seq::new(i as nat, |k: int| None::<Pixel>));
    }
    cache
}

/// Stores `pixel` in slot `index` of the cache.
pub fn add_to_index(index_array: &mut Vec<Option<Pixel>>, index: usize, pixel: Pixel)
    requires
        index < old(index_array)@.len(),
    ensures
        final(index_array)@ == old(index_array)@.update(index as int, Some(pixel)),
{
    index_array.set(index, Some(pixel));
}

/// Appends a literal chunk for `pixel`.
pub fn add_pixel(out: &mut Vec<u8>, pixel: &Pixel, channels: u8)
    requires
        channels == 3 || channels == 4,
    ensures
        final(out)@ == old(out)@ + literal_chunk(*pixel, channels as int),
{
    if channels == 3 {
        out.push(TAG_RGB);
    } else {
        out.push(TAG_RGBA);
    }
    out.push(pixel.r);
    out.push(pixel.g);
    out.push(pixel.b);
    if channels == 4 {
        out.push(pixel.a);
    }
    assert(final(out)@ =~= old(out)@ + literal_chunk(*pixel, channels as int));
}

/// Appends a run chunk for `run_length` repeats.
pub fn add_run(out: &mut Vec<u8>, run_length: u8)
    requires
        1 <= run_length <= MAX_RUN,
    ensures
        final(out)@ == old(out)@ + run_chunk(run_length as int),
{
    out.push(0xC0 + (run_length - 1));
    assert(final(out)@ =~= old(out)@ + run_chunk(run_length as int));
}

/// Appends an index chunk for cache slot `index`.
pub fn add_index(out: &mut Vec<u8>, index: usize)
    requires
        index < CACHE_SLOTS,
    ensures
        final(out)@ == old(out)@ + index_chunk(index as int),
{
    out.push(index as u8);
    assert(final(out)@ =~= old(out)@ + index_chunk(index as int));
}

/// `wrap_byte` on the range that one wrapped subtraction of bytes can reach.
proof fn lemma_wrap_byte(x: int)
    requires
        -256 <= x < 256,
    ensures
        wrap_byte(x) == if x < 0 {
            x + 256
        } else {
            x
        },
{
}

/// A wrapped byte subtraction gives the wrapped difference, and bytes that
/// stand for signed values subtract as those values do, modulo 256.
proof fn lemma_wrapping_sub(x: u8, y: u8)
    ensures
        x.wrapping_sub(y) == wrap_byte(x - y),
        x.wrapping_sub(y) == wrap_byte(signed(x) - signed(y)),
{
    lemma_wrap_byte(x - y);
    lemma_wrap_byte(signed(x) - signed(y));
}

/// Appends a diff or a luma chunk for `pixel` after `last_pixel` where one
/// fits, and tells whether it did.
pub fn encode_diff(out: &mut Vec<u8>, pixel: &Pixel, last_pixel: &Pixel) -> (encoded: bool)
    ensures
        encoded == (diff_fits(*pixel, *last_pixel) || luma_fits(*pixel, *last_pixel)),
        final(out)@ == old(out)@ + (if !encoded {
            Seq::empty()
        } else if diff_fits(*pixel, *last_pixel) {
            diff_chunk(*pixel, *last_pixel)
        } else {
            luma_chunk(*pixel, *last_pixel)
        }),
{
    if pixel.a != last_pixel.a {
        assert(old(out)@ + Seq::empty() =~= old(out)@);
        return false;
    }
    let dr = pixel.r.wrapping_sub(last_pixel.r);
    let dg = pixel.g.wrapping_sub(last_pixel.g);
    let db = pixel.b.wrapping_sub(last_pixel.b);
    proof {
        lemma_wrapping_sub(pixel.r, last_pixel.r);
        lemma_wrapping_sub(pixel.g, last_pixel.g);
        lemma_wrapping_sub(pixel.b, last_pixel.b);
    }
    let ghost sr = delta(pixel.r, last_pixel.r);
    let ghost sg = delta(pixel.g, last_pixel.g);
    let ghost sb = delta(pixel.b, last_pixel.b);
    assert(sr == signed(dr) && sg == signed(dg) && sb == signed(db));
    if (dr >= 254 || dr <= 1) && (dg >= 254 || dg <= 1) && (db >= 254 || db <= 1) {
        let byte: u8 = 0x40 + dr.wrapping_add(2) * 16 + dg.wrapping_add(2) * 4 + db.wrapping_add(2);
        assert(byte == diff_chunk(*pixel, *last_pixel)[0]);
        out.push(byte);
        assert(final(out)@ =~= old(out)@ + diff_chunk(*pixel, *last_pixel));
        return true;
    }
    assert(!diff_fits(*pixel, *last_pixel));
    let dr_dg = dr.wrapping_sub(dg);
    let db_dg = db.wrapping_sub(dg);
    proof {
        lemma_wrapping_sub(dr, dg);
        lemma_wrapping_sub(db, dg);
    }
    assert(signed(dr_dg) == cross(sr, sg) && signed(db_dg) == cross(sb, sg));
    if (dg >= 224 || dg <= 31) && (dr_dg >= 248 || dr_dg <= 7) && (db_dg >= 248 || db_dg <= 7) {
        let first: u8 = 0x80 + dg.wrapping_add(32);
        let second: u8 = dr_dg.wrapping_add(8) * 16 + db_dg.wrapping_add(8);
        assert(first == luma_chunk(*pixel, *last_pixel)[0]);
        assert(second == luma_chunk(*pixel, *last_pixel)[1]);
        out.push(first);
        out.push(second);
        assert(final(out)@ =~= old(out)@ + luma_chunk(*pixel, *last_pixel));
        return true;
    }
    assert(old(out)@ + Seq::empty() =~= old(out)@);
    false
}

/// The pixel at index `i` of a buffer starts at byte `i * channels` and fits in it.
proof fn lemma_pixel_in_bounds(len: int, channels: int, i: int)
    requires
        channels == 3 || channels == 4,
        0 <= i < len / channels,
    ensures
        i * channels + channels <= len,
{
    assert(i * channels + channels <= (len / channels) * channels) by (nonlinear_arith)
        requires
            channels > 0,
            i + 1 <= len / channels,
    ;
    assert((len / channels) * channels <= len) by (nonlinear_arith)
        requires
            channels > 0,
    ;
}

/// Encodes the pixels of `data` as header and chunk stream.
pub fn encode_image_data(data: &[u8], width: u32, height: u32, channels: u8, colorspace: u8) -> (out:
    Vec<u8>)
    requires
        channels == 3 || channels == 4,
    ensures
        out@ == encoded_image(pixels_of(data@, channels as int), width, height, channels, colorspace),
{
    let ghost c = channels as int;
    let ghost pixels = pixels_of(data@, c);
    let mut out = get_header(width, height, channels, colorspace);
    let mut index_array = new_cache();
    let mut last_pixel: Option<Pixel> = None;
    let mut run_length: u8 = 0;
    let len: usize = data.len();
    let n: usize = len / channels as usize;
    let mut i: usize = 0;
    let mut pos: usize = 0;
    assert(enc_state(pixels.take(0), c) == (Seq::<u8>::empty(), empty_cache(), 0int));
    assert(out@ =~= header_bytes(width, height, channels, colorspace) + Seq::<u8>::empty());
    while i < n
        invariant
            channels == 3 || channels == 4,
            c == channels as int,
            pixels == pixels_of(data@, c),
            n == pixels.len(),
            len == data@.len(),
            i <= n,
            pos == i * c,
            out@ == header_bytes(width, height, channels, colorspace) + enc_state(
                pixels.take(i as int),
                c,
            ).0,
            index_array@ == enc_state(pixels.take(i as int), c).1,
            run_length == enc_state(pixels.take(i as int), c).2,
            run_length < MAX_RUN,
            index_array@.len() == CACHE_SLOTS,
            last_pixel == if i == 0 {
                None
            } else {
                Some(pixels[i - 1])
            },
        decreases n - i,
    {
        proof {
            lemma_pixel_in_bounds(data@.len() as int, c, i as int);
        }
        let pixel = read_pixel(data, pos, channels);
        assert(pixel == pixels[i as int]);
        let index = get_pixel_index(&pixel);
        let ghost head = header_bytes(width, height, channels, colorspace);
        let ghost before = pixels.take(i as int);
        let ghost (out0, cache0, run0) = enc_state(before, c);
        assert(pixels.take(i + 1).drop_last() =~= before);
        assert(pixels.take(i + 1).last() == pixel);
        match last_pixel {
            None => {
                add_pixel(&mut out, &pixel, channels);
                add_to_index(&mut index_array, index, pixel);
                assert(out@ =~= head + literal_chunk(pixel, c));
            },
            Some(prev) => {
                assert(before.last() == prev);
                if prev == pixel {
                    run_length += 1;
                    if run_length == MAX_RUN {
                        add_run(&mut out, run_length);
                        run_length = 0;
                        assert(out@ =~= head + (out0 + run_chunk(MAX_RUN as int)));
                    }
                } else {
                    let ghost flushed = if run0 > 0 {
                        out0 + run_chunk(run0)
                    } else {
                        out0
                    };
                    if run_length > 0 {
                        add_run(&mut out, run_length);
                        run_length = 0;
                    }
                    assert(out@ =~= head + flushed);
                    let hit = match &index_array[index] {
                        Some(q) => *q == pixel,
                        None => false,
                    };
                    if hit {
                        add_index(&mut out, index);
                        assert(index_array@.update(index as int, Some(pixel)) =~= index_array@);
                    } else {
                        if !encode_diff(&mut out, &pixel, &prev) {
                            add_pixel(&mut out, &pixel, channels);
                        }
                        add_to_index(&mut index_array, index, pixel);
                    }
                    assert(out@ =~= head + (flushed + pixel_chunk(pixel, prev, cache0, c)));
                }
            },
        }
        last_pixel = Some(pixel);
        i += 1;
        pos += channels as usize;
    }
    assert(pixels.take(n as int) =~= pixels);
    if run_length > 0 {
        add_run(&mut out, run_length);
    }
    assert(out@ =~= encoded_image(pixels, width, height, channels, colorspace));
    out
}

} // verus!
