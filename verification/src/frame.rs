//! Screen frames: a 4-byte header with the width and height, then one
//! 2-byte pixel per sampled point, `SSSS RRRR` and `BBBB GGGG` with the
//! marker nibble `S = 0001`.
use vstd::prelude::*;
use crate::compression::{is_frame, compressed, lemma_frame_compresses};

verus! {

/// The header: width and height, each as two big-endian bytes.
pub open spec fn frame_header(xsize: u16, ysize: u16) -> Seq<u8> {
    seq![(xsize / 256) as u8, (xsize % 256) as u8, (ysize / 256) as u8, (ysize % 256) as u8]
}

/// The 4-bit level of a colour channel from the sum of its 9 samples: the
/// average, clamped to 255, rounded to sixteenths and clamped to 15.
pub open spec fn channel_level(sum: u16) -> u8 {
    let avg: int = if sum / 9 > 255 { 255 } else { (sum / 9) as int };
    let level: int = if (avg + 8) / 16 > 15 { 15 } else { (avg + 8) / 16 };
    level as u8
}

/// The first byte of a pixel: the red level over the marker nibble.
pub open spec fn pixel_first(r: u16) -> u8 {
    (channel_level(r) * 16 + 1) as u8
}

/// The second byte of a pixel: the blue level over the green level.
pub open spec fn pixel_second(g: u16, b: u16) -> u8 {
    (channel_level(g) + channel_level(b) * 16) as u8
}

/// The pixel bytes of a sequence of sampled colour sums, in order.
pub open spec fn pixels_of(sums: Seq<(u16, u16, u16)>) -> Seq<u8> {
    Seq::new(
        2 * sums.len(),
        |j: int|
            if j % 2 == 0 {
                pixel_first(sums[j / 2].0)
            } else {
                pixel_second(sums[j / 2].1, sums[j / 2].2)
            },
    )
}

fn header_bytes(xsize: u16, ysize: u16) -> (res: Vec<u8>)
    ensures
        res@ == frame_header(xsize, ysize),
{
    let mut bytes: Vec<u8> = Vec::new();
    bytes.push((xsize / 256) as u8);
    bytes.push((xsize % 256) as u8);
    bytes.push((ysize / 256) as u8);
    bytes.push((ysize % 256) as u8);
    assert(bytes@ =~= frame_header(xsize, ysize));
    bytes
}

/// The blank frame of the given size: the header, then every pixel zero.
pub fn makebase(screen_size: (u16, u16)) -> (bytes: Vec<u8>)
    ensures
        bytes@ == base_frame(screen_size.0, screen_size.1),
{
    let (xsize, ysize) = screen_size;
    let mut bytes = header_bytes(xsize, ysize);
    let ghost h = bytes@;
    let mut x: u16 = 0;
    while x < xsize
        invariant
            x <= xsize,
            h == frame_header(xsize, ysize),
            bytes@ == h + Seq::new((2 * x * ysize) as nat, |j: int| 0u8),
        decreases xsize - x,
    {
        let mut y: u16 = 0;
        while y < ysize
            invariant
                x < xsize,
                y <= ysize,
                h == frame_header(xsize, ysize),
                bytes@ == h + Seq::new((2 * x * ysize + 2 * y) as nat, |j: int| 0u8),
            decreases ysize - y,
        {
            bytes.push(0);
            bytes.push(0);
            y = y + 1;
            assert(bytes@ =~= h + Seq::new((2 * x * ysize + 2 * y) as nat, |j: int| 0u8));
        }
        x = x + 1;
        assert((2 * (x - 1) * ysize + 2 * ysize) == 2 * x * ysize) by (nonlinear_arith);
        assert(bytes@ =~= h + Seq::new((2 * x * ysize) as nat, |j: int| 0u8));
    }
    bytes
}

fn channel_level_exec(sum: u16) -> (level: u8)
    ensures
        level == channel_level(sum),
        level <= 15,
{
    let avg: u16 = if sum / 9 > 255 {
        255
    } else {
        sum / 9
    };
    let level: u16 = if (avg + 8) / 16 > 15 {
        15
    } else {
        (avg + 8) / 16
    };
    level as u8
}

/// The two bytes of one pixel from the sums of 9 samples of each channel.
pub fn encode_pixel(r: u16, g: u16, b: u16) -> (pixel: (u8, u8))
    ensures
        pixel.0 == pixel_first(r),
        pixel.1 == pixel_second(g, b),
{
    let rl = channel_level_exec(r);
    let gl = channel_level_exec(g);
    let bl = channel_level_exec(b);
    (rl * 16 + 1, gl + bl * 16)
}

/// A frame of the given size from the colour sums of its sampled points,
/// row by row.
pub fn pack_frame(screen_size: (u16, u16), sums: &Vec<(u16, u16, u16)>) -> (bytes: Vec<u8>)
    ensures
        bytes@ == frame_header(screen_size.0, screen_size.1) + pixels_of(sums@),
{
    let mut bytes = header_bytes(screen_size.0, screen_size.1);
    let ghost h = bytes@;
    let mut i: usize = 0;
    while i < sums.len()
        invariant
            i <= sums.len(),
            h == frame_header(screen_size.0, screen_size.1),
            bytes@ == h + pixels_of(sums@.take(i as int)),
        decreases sums.len() - i,
    {
        let (r, g, b) = sums[i];
        let pixel = encode_pixel(r, g, b);
        bytes.push(pixel.0);
        bytes.push(pixel.1);
        i = i + 1;
        assert(pixels_of(sums@.take(i as int)) =~= pixels_of(sums@.take(i - 1)) + seq![
            pixel.0,
            pixel.1,
        ]);
        assert(bytes@ =~= h + pixels_of(sums@.take(i as int)));
    }
    assert(sums@.take(i as int) =~= sums@);
    bytes
}

/// Every packed frame is in the screen format, so it compresses and reads
/// back unchanged (see `lemma_compress_roundtrip`).
pub proof fn lemma_packed_frame_is_frame(xsize: u16, ysize: u16, sums: Seq<(u16, u16, u16)>)
    ensures
        is_frame(frame_header(xsize, ysize) + pixels_of(sums)),
{
    let f = frame_header(xsize, ysize) + pixels_of(sums);
    assert forall|j: int| 4 <= j < f.len() && j % 2 == 0 implies #[trigger] f[j] % 4 == 1 by {
        assert(f[j] == pixel_first(sums[(j - 4) / 2].0));
        let l = channel_level(sums[(j - 4) / 2].0);
        assert((l * 16 + 1) % 4 == 1);
    }
}

/// The header gives the screen size back.
pub proof fn lemma_frame_header_size(xsize: u16, ysize: u16)
    ensures
        frame_header(xsize, ysize)[0] * 256 + frame_header(xsize, ysize)[1] == xsize,
        frame_header(xsize, ysize)[2] * 256 + frame_header(xsize, ysize)[3] == ysize,
{
}

/// The blank frame of a size (what `makebase` gives).
pub open spec fn base_frame(xsize: u16, ysize: u16) -> Seq<u8> {
    frame_header(xsize, ysize) + Seq::new((2 * xsize * ysize) as nat, |j: int| 0u8)
}

/// A frame packed from one sample per pixel has the same length and header
/// as the blank frame of the same size, so it compresses against it.
pub proof fn lemma_packed_frame_matches_base(xsize: u16, ysize: u16, sums: Seq<(u16, u16, u16)>)
    requires
        sums.len() == xsize * ysize,
    ensures
        (frame_header(xsize, ysize) + pixels_of(sums)).len() == base_frame(xsize, ysize).len(),
        (frame_header(xsize, ysize) + pixels_of(sums)).len() == 4 + 2 * xsize * ysize,
        (frame_header(xsize, ysize) + pixels_of(sums)).take(4) == base_frame(xsize, ysize).take(4),
        compressed(frame_header(xsize, ysize) + pixels_of(sums), base_frame(xsize, ysize), false) is Some,
{
    let f = frame_header(xsize, ysize) + pixels_of(sums);
    assert(2 * (xsize * ysize) == 2 * xsize * ysize) by (nonlinear_arith);
    assert(pixels_of(sums).len() == 2 * xsize * ysize);
    assert(base_frame(xsize, ysize).len() == 4 + 2 * xsize * ysize);
    assert(f.take(4) =~= frame_header(xsize, ysize));
    assert(base_frame(xsize, ysize).take(4) =~= frame_header(xsize, ysize));
    lemma_packed_frame_is_frame(xsize, ysize, sums);
    lemma_frame_compresses(f, base_frame(xsize, ysize), false);
}

} // verus!
