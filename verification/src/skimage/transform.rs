//! Resizing RGB images, computed by the `image` crate.
use crate::grid::{flat, lemma_row_major, Grid};
use vstd::prelude::*;

verus! {

/// The RGB bytes that `image::imageops::resize` with the triangle filter makes of the
/// `width x height` image with RGB bytes `pixels` (row after row), resized to
/// `new_width x new_height`.
pub uninterp spec fn resized_rgb(pixels: Seq<u8>, width: u32, height: u32, new_width: u32, new_height: u32) -> Seq<u8>;

/// Resizes an RGB image: `image::imageops::resize` with `FilterType::Triangle` on the
/// `image::RgbImage` made from `pixels`, whose raw bytes are returned. The contract names the
/// result and claims what the source shows: the result has `new_width x new_height` pixels; it
/// copies the input when the size does not change; it is black when the input is empty.
#[verifier::external_body]
fn resize_rgb_bytes(pixels: &Vec<u8>, width: u32, height: u32, new_width: u32, new_height: u32) -> (out: Vec<u8>)
    requires
        pixels@.len() == 3 * width * height,
        3 * new_width * new_height <= usize::MAX,
        4 * width * new_height <= usize::MAX,
    ensures
        out@ == resized_rgb(pixels@, width, height, new_width, new_height),
        out@.len() == 3 * new_width * new_height,
        width == new_width && height == new_height && width > 0 && height > 0 ==> out@ == pixels@,
        width == 0 || height == 0 ==> forall|i: int| 0 <= i < out@.len() ==> #[trigger] out@[i] == 0,
{
    let img = image::RgbImage::from_raw(width, height, pixels.clone()).unwrap();
    image::imageops::resize(&img, new_width, new_height, image::imageops::FilterType::Triangle).into_raw()
}

/// Channel `c` (0 red, 1 green, 2 blue) of an RGB pixel.
pub open spec fn channel(p: (u8, u8, u8), c: int) -> u8 {
    if c == 0 {
        p.0
    } else if c == 1 {
        p.1
    } else {
        p.2
    }
}

/// The bytes of RGB pixels, three per pixel.
pub open spec fn rgb_bytes(px: Seq<(u8, u8, u8)>) -> Seq<u8> {
    Seq::new(3 * px.len(), |i: int| channel(px[i / 3], i % 3))
}

/// The pixel made of bytes `3 * i`, `3 * i + 1` and `3 * i + 2` of `b`.
pub open spec fn pixel_at(b: Seq<u8>, i: int) -> (u8, u8, u8) {
    (b[3 * i], b[3 * i + 1], b[3 * i + 2])
}

/// Byte `3 * i + c` belongs to pixel `i`, channel `c`.
proof fn lemma_byte_of(i: int, c: int)
    requires
        0 <= i,
        0 <= c < 3,
    ensures
        (3 * i + c) / 3 == i,
        (3 * i + c) % 3 == c,
{
    vstd::arithmetic::div_mod::lemma_fundamental_div_mod_converse(3 * i + c, 3, i, c);
}

/// Reading back the bytes of a pixel gives the pixel.
pub proof fn lemma_pixel_of_bytes(px: Seq<(u8, u8, u8)>, i: int)
    requires
        0 <= i < px.len(),
    ensures
        pixel_at(rgb_bytes(px), i) == px[i],
{
    lemma_byte_of(i, 0);
    lemma_byte_of(i, 1);
    lemma_byte_of(i, 2);
}

/// The bytes of RGB pixels, three per pixel.
fn to_rgb_bytes(px: &Vec<(u8, u8, u8)>) -> (b: Vec<u8>)
    requires
        3 * px@.len() <= usize::MAX,
    ensures
        b@ == rgb_bytes(px@),
{
    let mut b: Vec<u8> = Vec::new();
    let mut i: usize = 0;
    while i < px.len()
        invariant
            3 * px@.len() <= usize::MAX,
            i <= px@.len(),
            b@.len() == 3 * i,
            forall|k: int| 0 <= k < b@.len() ==> #[trigger] b@[k] == channel(px@[k / 3], k % 3),
        decreases px@.len() - i,
    {
        let p = px[i];
        let ghost before = b@;
        b.push(p.0);
        b.push(p.1);
        b.push(p.2);
        proof {
            lemma_byte_of(i as int, 0);
            lemma_byte_of(i as int, 1);
            lemma_byte_of(i as int, 2);
            assert forall|k: int| 0 <= k < b@.len() implies #[trigger] b@[k] == channel(px@[k / 3], k % 3) by {
                if k < before.len() {
                    assert(b@[k] == before[k]);
                }
            }
        }
        i = i + 1;
    }
    proof {
        assert(b@ =~= rgb_bytes(px@));
    }
    b
}

/// The `rows x cols` RGB image whose bytes, three per pixel and row after row, are `b`.
pub fn rgb_from_bytes(b: &[u8], rows: usize, cols: usize) -> (out: Grid<(u8, u8, u8)>)
    requires
        b@.len() == 3 * rows * cols,
    ensures
        out.wf(),
        out.nrows() == rows,
        out.ncols() == cols,
        forall|y: int, x: int| out.inside(y, x) ==> #[trigger] out.at(y, x) == pixel_at(b@, y * cols + x),
{
    let total = b.len();
    let n = total / 3;
    proof {
        assert(total == (rows * cols) * 3) by (nonlinear_arith)
            requires
                total == 3 * rows * cols,
        ;
        vstd::arithmetic::div_mod::lemma_fundamental_div_mod_converse(total as int, 3, (rows * cols) as int, 0);
        assert(n == rows * cols);
    }
    let mut px: Vec<(u8, u8, u8)> = Vec::new();
    let mut i: usize = 0;
    while i < n
        invariant
            b@.len() == 3 * n,
            total == b@.len(),
            i <= n,
            px@.len() == i,
            forall|k: int| 0 <= k < i ==> #[trigger] px@[k] == pixel_at(b@, k),
        decreases n - i,
    {
        px.push((b[3 * i], b[3 * i + 1], b[3 * i + 2]));
        i = i + 1;
    }
    let out = Grid::from_flat(&px, rows, cols);
    proof {
        assert forall|y: int, x: int| out.inside(y, x) implies #[trigger] out.at(y, x) == pixel_at(b@, y * cols + x) by {
            assert(y * cols + x < rows * cols) by (nonlinear_arith)
                requires
                    0 <= y < rows,
                    0 <= x < cols,
            ;
        }
    }
    out
}

/// Resizes an RGB image to `output_shape = (rows, cols)` by triangle-filter resampling; the
/// image is unchanged when the shape is.
pub fn resize(image: &Grid<(u8, u8, u8)>, output_shape: (usize, usize)) -> (out: Grid<(u8, u8, u8)>)
    requires
        image.wf(),
        image.nrows() <= u32::MAX,
        image.ncols() <= u32::MAX,
        output_shape.0 <= u32::MAX,
        output_shape.1 <= u32::MAX,
        3 * image.nrows() * image.ncols() <= usize::MAX,
        3 * output_shape.0 * output_shape.1 <= usize::MAX,
        4 * image.ncols() * output_shape.0 <= usize::MAX,
    ensures
        out.wf(),
        out.nrows() == output_shape.0,
        out.ncols() == output_shape.1,
        forall|y: int, x: int|
            out.inside(y, x) ==> #[trigger] out.at(y, x) == pixel_at(
                resized_rgb(
                    rgb_bytes(flat(image.cells(), image.nrows() as int, image.ncols() as int)),
                    image.ncols() as u32,
                    image.nrows() as u32,
                    output_shape.1 as u32,
                    output_shape.0 as u32,
                ),
                y * output_shape.1 + x,
            ),
        output_shape.0 == image.nrows() && output_shape.1 == image.ncols() && image.nrows() > 0 && image.ncols() > 0
            ==> out.cells() == image.cells(),
{
    let (height, width) = image.dim();
    let (new_height, new_width) = output_shape;
    proof {
        image.lemma_wf_rect();
        assert(height * width <= 3 * height * width) by (nonlinear_arith);
        assert(3 * height * width == 3 * (height * width)) by (nonlinear_arith);
        assert(3 * new_height * new_width == 3 * new_width * new_height) by (nonlinear_arith);
        assert(4 * width * new_height == 4 * width * new_height);
    }
    let px = image.to_flat();
    let bytes = to_rgb_bytes(&px);
    let (w32, h32, nw32, nh32) = (width as u32, height as u32, new_width as u32, new_height as u32);
    proof {
        assert(w32 == width && h32 == height && nw32 == new_width && nh32 == new_height);
        assert(3 * width * height == 3 * height * width) by (nonlinear_arith);
    }
    let out_bytes = resize_rgb_bytes(&bytes, w32, h32, nw32, nh32);
    let out = rgb_from_bytes(&out_bytes, new_height, new_width);
    proof {
        out.lemma_wf_rect();
        if new_height == height && new_width == width && height > 0 && width > 0 {
            let f = flat(image.cells(), height as int, width as int);
            assert forall|y: int| 0 <= y < height implies #[trigger] out.cells()[y] =~= image.cells()[y] by {
                assert forall|x: int| 0 <= x < width implies out.cells()[y][x] == image.cells()[y][x] by {
                    assert(out.at(y, x) == out.cells()[y][x]);
                    assert(0 <= y * width + x < height * width) by (nonlinear_arith)
                        requires
                            0 <= y < height,
                            0 <= x < width,
                    ;
                    lemma_pixel_of_bytes(f, y * width + x);
                    lemma_row_major(y, x, width as int);
                    assert(f[y * width + x] == image.cells()[y][x]);
                    assert(out_bytes@ == bytes@);
                }
            }
            assert(out.cells() =~= image.cells());
        }
    }
    out
}

} // verus!
