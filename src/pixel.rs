//! Packing of 8-bit colour channels into pixel words and the row-flipped
//! raster layout of the frame buffer.

use vstd::prelude::*;

verus! {

/// The packed word of a pixel with channels `r`, `g`, `b`: `r << 16 | g << 8 | b`.
pub open spec fn packed(r: int, g: int, b: int) -> int {
    r * 65536 + g * 256 + b
}

/// Index in the buffer of image-space pixel `(x, y)`, `y = 0` being the bottom row.
pub open spec fn raster_index(x: int, y: int, width: int, height: int) -> int {
    (height - 1 - y) * width + x
}

/// A channel value clamped to the 8-bit range.
pub open spec fn clamped(c: int) -> int {
    if c > 255 {
        255
    } else {
        c
    }
}

/// Packs three channels, each clamped to 255, into one 24-bit RGB pixel word.
pub fn pack_rgb(r: u32, g: u32, b: u32) -> (word: u32)
    ensures
        word == packed(clamped(r as int), clamped(g as int), clamped(b as int)),
        word < 0x100_0000,
{
    let r: u32 = if r > 255 { 255 } else { r };
    let g: u32 = if g > 255 { 255 } else { g };
    let b: u32 = if b > 255 { 255 } else { b };
    let word = (r << 16u32) | (g << 8u32) | b;
    assert(word == r * 65536 + g * 256 + b && word < 0x100_0000) by (bit_vector)
        requires
            r < 256,
            g < 256,
            b < 256,
            word == (r << 16u32) | (g << 8u32) | b,
    ;
    word
}

/// Recovers channel `shift / 8` of a packed word (`shift` is 0, 8 or 16).
pub fn channel(word: u32, shift: u32) -> (c: u32)
    requires
        shift == 0 || shift == 8 || shift == 16,
    ensures
        c == (word >> shift) & 0xffu32,
        c < 256,
{
    let c = (word >> shift) & 0xffu32;
    assert(c < 256) by (bit_vector)
        requires
            c == (word >> shift) & 0xffu32,
    ;
    c
}

/// Position in the frame buffer of image-space pixel `(x, y)`; the buffer is
/// row-major and its first row is the top of the image.
pub fn buffer_index(x: usize, y: usize, width: usize, height: usize) -> (i: usize)
    requires
        x < width,
        y < height,
        width * height <= usize::MAX,
    ensures
        i == raster_index(x as int, y as int, width as int, height as int),
        i < width * height,
{
    let row = height - 1 - y;
    assert(row * width + x < width * height) by (nonlinear_arith)
        requires
            row < height,
            x < width,
    ;
    row * width + x
}

/// Image-space coordinates `(x, y)` of buffer position `i`: the inverse of
/// `buffer_index`.
pub fn pixel_of_index(i: usize, width: usize, height: usize) -> (xy: (usize, usize))
    requires
        i < width * height,
    ensures
        xy.0 < width,
        xy.1 < height,
        raster_index(xy.0 as int, xy.1 as int, width as int, height as int) == i,
{
    proof {
        lemma_row_of_index(i as int, width as int, height as int);
    }
    let x = i % width;
    let y = height - 1 - i / width;
    (x, y)
}

proof fn lemma_row_of_index(i: int, width: int, height: int)
    requires
        0 <= width,
        0 <= height,
        0 <= i < width * height,
    ensures
        width > 0,
        0 <= i / width < height,
        (i / width) * width + i % width == i,
        0 <= i % width < width,
{
    if width == 0 {
        assert(width * height <= 0) by (nonlinear_arith)
            requires
                width == 0,
        ;
    }
    vstd::arithmetic::div_mod::lemma_fundamental_div_mod(i, width);
    vstd::arithmetic::mul::lemma_mul_is_commutative(width, i / width);
    assert(0 <= i / width < height) by (nonlinear_arith)
        requires
            width > 0,
            0 <= i < width * height,
            i == width * (i / width) + i % width,
            0 <= i % width < width,
    ;
}

/// The words of buffer row `row` of a `width` by `height` frame, left to
/// right. Buffer row `row` shows image row `height - 1 - row`; `shade(x, y)`
/// gives the word of image pixel `(x, y)`.
pub fn render_row<F: Fn(usize, usize) -> u32>(
    row: usize,
    width: usize,
    height: usize,
    shade: &F,
) -> (words: Vec<u32>)
    requires
        row < height,
        forall|x: usize, y: usize| x < width && y < height ==> #[trigger] shade.requires((x, y)),
    ensures
        words@.len() == width,
        forall|x: int|
            0 <= x < width ==> shade.ensures(
                (x as usize, (height - 1 - row) as usize),
                #[trigger] words@[x],
            ),
{
    let y = height - 1 - row;
    let mut words: Vec<u32> = Vec::with_capacity(width);
    let mut x: usize = 0;
    while x < width
        invariant
            row < height,
            y == height - 1 - row,
            forall|x: usize, y: usize| x < width && y < height ==> #[trigger] shade.requires((x, y)),
            x <= width,
            words@.len() == x,
            forall|i: int| 0 <= i < x ==> shade.ensures((i as usize, y), #[trigger] words@[i]),
        decreases width - x,
    {
        let w = shade(x, y);
        words.push(w);
        x = x + 1;
    }
    words
}

/// Every pixel of a `width` by `height` image has its own place in the buffer,
/// and every place of the buffer is the place of the pixel it decodes to.
pub proof fn lemma_buffer_layout_round_trip(x: int, y: int, i: int, width: int, height: int)
    requires
        0 <= x < width,
        0 <= y < height,
        0 <= i < width * height,
    ensures
        0 <= raster_index(x, y, width, height) < width * height,
        (raster_index(x, y, width, height)) % width == x,
        height - 1 - raster_index(x, y, width, height) / width == y,
        raster_index(i % width, height - 1 - i / width, width, height) == i,
{
    lemma_row_of_index(i, width, height);
    let r = height - 1 - y;
    assert(0 <= r * width + x < width * height) by (nonlinear_arith)
        requires
            0 <= r < height,
            0 <= x < width,
    ;
    vstd::arithmetic::div_mod::lemma_fundamental_div_mod_converse(
        r * width + x,
        width,
        r,
        x,
    );
}

} // verus!
