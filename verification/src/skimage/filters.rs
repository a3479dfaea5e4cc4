//! Sobel edge detection of 8-bit images, computed by `imageproc`.
use crate::grid::{flat, Grid};
use vstd::prelude::*;

verus! {

/// The Sobel gradient magnitudes that `imageproc::gradients::sobel_gradients` computes for the
/// 8-bit `width x height` image whose pixels, row after row, are `pixels`.
pub uninterp spec fn sobel_gradient_magnitudes(pixels: Seq<u8>, width: u32, height: u32) -> Seq<u16>;

/// The pixels, row after row, of the transpose of the `width x height` image whose pixels, row
/// after row, are `pixels`: the `height x width` image whose row `x`, column `y` is the
/// original's row `y`, column `x`.
pub open spec fn transposed_pixels(pixels: Seq<u8>, width: u32, height: u32) -> Seq<u8> {
    Seq::new((width * height) as nat, |i: int| pixels[(i % (height as int)) * width + i / (height as int)])
}

/// The gradient magnitude at row `y`, column `x` of the `width x height` image `pixels`.
pub open spec fn sobel_at(pixels: Seq<u8>, width: u32, height: u32, y: int, x: int) -> u16 {
    sobel_gradient_magnitudes(pixels, width, height)[y * width + x]
}

/// Sobel gradients of a grayscale image: `imageproc::gradients::sobel_gradients` on the
/// `image::GrayImage` made from `pixels`, whose raw pixels are returned. The contract names the
/// result and claims that it holds one value per pixel (the output image has the input's
/// dimensions), and that the magnitude at row `y`, column `x` is the one that the transposed
/// image has at row `x`, column `y`. The source shows both: `gradients` correlates the image,
/// clamped at its borders, with `HORIZONTAL_SOBEL` and with `VERTICAL_SOBEL`, which is its
/// transpose, so transposing the image swaps the two derivatives, and the magnitude
/// `sqrt(dx^2 + dy^2)` does not depend on their order. Nothing else is claimed of the values.
#[verifier::external_body]
fn sobel_gradients_of(pixels: &Vec<u8>, width: u32, height: u32) -> (g: Vec<u16>)
    requires
        pixels@.len() == width * height,
    ensures
        g@ == sobel_gradient_magnitudes(pixels@, width, height),
        g@.len() == width * height,
        forall|y: int, x: int|
            0 <= y < height && 0 <= x < width ==> g@[y * width + x] == #[trigger] sobel_at(
                transposed_pixels(pixels@, width, height),
                height,
                width,
                x,
                y,
            ),
{
    let img = image::GrayImage::from_raw(width, height, pixels.clone()).unwrap();
    imageproc::gradients::sobel_gradients(&img).into_raw()
}

/// A gradient magnitude as an 8-bit value: capped at 255.
pub open spec fn capped(g: u16) -> u8 {
    if g > 255 {
        255
    } else {
        g as u8
    }
}

/// The 8-bit edge image of the `rows x cols` gradient magnitudes `grad` (row after row): each
/// magnitude capped at 255.
pub fn edges_from_gradients(grad: &[u16], rows: usize, cols: usize) -> (out: Grid<u8>)
    requires
        grad@.len() == rows * cols,
    ensures
        out.wf(),
        out.nrows() == rows,
        out.ncols() == cols,
        forall|y: int, x: int| out.inside(y, x) ==> #[trigger] out.at(y, x) == capped(grad@[y * cols + x]),
{
    let mut clipped: Vec<u8> = Vec::new();
    let mut i: usize = 0;
    while i < grad.len()
        invariant
            i <= grad@.len(),
            clipped@.len() == i,
            forall|k: int| 0 <= k < i ==> #[trigger] clipped@[k] == capped(grad@[k]),
        decreases grad@.len() - i,
    {
        let g = grad[i];
        let v: u8 = if g > 255 {
            255
        } else {
            g as u8
        };
        clipped.push(v);
        i = i + 1;
    }
    let out = Grid::from_flat(&clipped, rows, cols);
    proof {
        assert forall|y: int, x: int| out.inside(y, x) implies #[trigger] out.at(y, x) == capped(grad@[y * cols + x]) by {
            assert(y * cols + x < rows * cols) by (nonlinear_arith)
                requires
                    0 <= y < rows,
                    0 <= x < cols,
            ;
        }
    }
    out
}

/// Sobel edge image: the Sobel gradient magnitude of each pixel, capped at 255.
pub fn sobel(image: &Grid<u8>) -> (out: Grid<u8>)
    requires
        image.wf(),
        image.nrows() <= u32::MAX,
        image.ncols() <= u32::MAX,
        image.nrows() * image.ncols() <= usize::MAX,
    ensures
        out.wf(),
        out.nrows() == image.nrows(),
        out.ncols() == image.ncols(),
        forall|y: int, x: int|
            out.inside(y, x) ==> #[trigger] out.at(y, x) == capped(
                sobel_gradient_magnitudes(
                    flat(image.cells(), image.nrows() as int, image.ncols() as int),
                    image.ncols() as u32,
                    image.nrows() as u32,
                )[y * image.ncols() + x],
            ),
        forall|y: int, x: int|
            out.inside(y, x) ==> #[trigger] out.at(y, x) == capped(
                sobel_at(
                    transposed_pixels(
                        flat(image.cells(), image.nrows() as int, image.ncols() as int),
                        image.ncols() as u32,
                        image.nrows() as u32,
                    ),
                    image.nrows() as u32,
                    image.ncols() as u32,
                    x,
                    y,
                ),
            ),
{
    let (height, width) = image.dim();
    let pixels = image.to_flat();
    let w32 = width as u32;
    let h32 = height as u32;
    proof {
        assert(w32 == width && h32 == height);
        assert(width * height == height * width) by (nonlinear_arith);
    }
    let grad = sobel_gradients_of(&pixels, w32, h32);
    let out = edges_from_gradients(&grad, height, width);
    proof {
        assert forall|y: int, x: int| out.inside(y, x) implies #[trigger] out.at(y, x) == capped(
            sobel_at(transposed_pixels(pixels@, w32, h32), h32, w32, x, y),
        ) by {
            assert(out.at(y, x) == capped(grad@[y * width + x]));
            assert(grad@[y * w32 + x] == sobel_at(transposed_pixels(pixels@, w32, h32), h32, w32, x, y));
        }
    }
    out
}

/// Sobel edges commute with transposition: the edge image of the transposed
/// image is the transposed edge image. (The Sobel kernels for the two
/// directions are each other's transposes.)
pub proof fn lemma_sobel_transpose(image: Grid<u8>, t: Grid<u8>, a: Grid<u8>, b: Grid<u8>)
    requires
        image.wf(),
        t.wf(),
        image.nrows() <= u32::MAX,
        image.ncols() <= u32::MAX,
        image.nrows() * image.ncols() <= usize::MAX,
        t.nrows() == image.ncols(),
        t.ncols() == image.nrows(),
        forall|y: int, x: int| image.inside(y, x) ==> #[trigger] t.at(x, y) == image.at(y, x),
        a.nrows() == image.nrows(),
        a.ncols() == image.ncols(),
        forall|y: int, x: int|
            a.inside(y, x) ==> #[trigger] a.at(y, x) == capped(
                sobel_at(
                    transposed_pixels(
                        flat(image.cells(), image.nrows() as int, image.ncols() as int),
                        image.ncols() as u32,
                        image.nrows() as u32,
                    ),
                    image.nrows() as u32,
                    image.ncols() as u32,
                    x,
                    y,
                ),
            ),
        b.nrows() == t.nrows(),
        b.ncols() == t.ncols(),
        forall|y: int, x: int|
            b.inside(y, x) ==> #[trigger] b.at(y, x) == capped(
                sobel_gradient_magnitudes(
                    flat(t.cells(), t.nrows() as int, t.ncols() as int),
                    t.ncols() as u32,
                    t.nrows() as u32,
                )[y * t.ncols() + x],
            ),
    ensures
        forall|y: int, x: int| image.inside(y, x) ==> #[trigger] b.at(x, y) == a.at(y, x),
{
    let h = image.nrows() as int;
    let w = image.ncols() as int;
    let fi = flat(image.cells(), h, w);
    let ft = flat(t.cells(), w, h);
    let tp = transposed_pixels(fi, w as u32, h as u32);
    image.lemma_wf_rect();
    t.lemma_wf_rect();
    assert(ft.len() == tp.len()) by {
        assert(w * h == h * w) by (nonlinear_arith);
    }
    assert forall|i: int| 0 <= i < ft.len() implies ft[i] == tp[i] by {
        let r = i / h;
        let c = i % h;
        vstd::arithmetic::div_mod::lemma_fundamental_div_mod(i, h);
        assert(0 <= c < h);
        assert(0 <= r < w) by (nonlinear_arith)
            requires
                i == h * r + c,
                0 <= c < h,
                0 <= i < w * h,
        ;
        assert(ft[i] == t.cells()[r][c]);
        crate::grid::lemma_row_major(c, r, w);
        assert(0 <= c * w + r < h * w) by (nonlinear_arith)
            requires
                0 <= c < h,
                0 <= r < w,
        ;
        assert(tp[i] == fi[c * w + r]);
        assert(fi[c * w + r] == image.cells()[c][r]);
        assert(t.at(r, c) == image.at(c, r));
    }
    assert(ft =~= tp);
    assert forall|y: int, x: int| image.inside(y, x) implies #[trigger] b.at(x, y) == a.at(y, x) by {
        assert(b.inside(x, y));
        assert(a.inside(y, x));
    }
}

} // verus!
