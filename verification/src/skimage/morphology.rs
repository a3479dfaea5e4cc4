//! Binary morphology: erosion, dilation, opening, closing, thinning and labelling.
use crate::skimage::components::{
    adjacent4, before, closed_below, connected, fg, fg_path, has_label, labels_components, lemma_closed_connected, lemma_connected_extend,
    lemma_connected_refl, lemma_connected_sym, lemma_connected_trans,
};
use crate::grid::Grid;
use vstd::prelude::*;

verus! {

/// First index of the 3-wide window around `y` (clamped at the border).
pub open spec fn win_lo(y: int) -> int {
    if y >= 1 { y - 1 } else { 0 }
}

/// Last index of the 3-wide window around `y` in an axis of length `n` (clamped at the border).
pub open spec fn win_hi(y: int, n: int) -> int {
    if y + 1 < n - 1 { y + 1 } else { n - 1 }
}

/// Every pixel of the clamped 3x3 window around `(y, x)` is nonzero.
pub open spec fn all_set_near(img: Grid<u8>, y: int, x: int) -> bool {
    forall|ny: int, nx: int|
        win_lo(y) <= ny <= win_hi(y, img.nrows() as int) && win_lo(x) <= nx <= win_hi(x, img.ncols() as int)
            ==> #[trigger] img.at(ny, nx) != 0
}

/// Some pixel of the clamped 3x3 window around `(y, x)` is one.
pub open spec fn any_one_near(img: Grid<u8>, y: int, x: int) -> bool {
    exists|ny: int, nx: int|
        win_lo(y) <= ny <= win_hi(y, img.nrows() as int) && win_lo(x) <= nx <= win_hi(x, img.ncols() as int)
            && #[trigger] img.at(ny, nx) == 1
}

/// Whether every pixel of the clamped 3x3 window around `(y, x)` is nonzero.
fn all_set_at(img: &Grid<u8>, y: usize, x: usize) -> (b: bool)
    requires
        img.wf(),
        img.inside(y as int, x as int),
    ensures
        b == all_set_near(*img, y as int, x as int),
{
    let (h, w) = img.dim();
    let y0 = if y >= 1 { y - 1 } else { 0 };
    let y1 = if y + 1 < h - 1 { y + 1 } else { h - 1 };
    let x0 = if x >= 1 { x - 1 } else { 0 };
    let x1 = if x + 1 < w - 1 { x + 1 } else { w - 1 };
    let mut ny = y0;
    while ny <= y1
        invariant
            img.wf(),
            h == img.nrows(),
            w == img.ncols(),
            y0 == win_lo(y as int),
            y1 == win_hi(y as int, h as int),
            x0 == win_lo(x as int),
            x1 == win_hi(x as int, w as int),
            y1 < h,
            x1 < w,
            x < w,
            y < h,
            y0 <= ny <= y1 + 1,
            forall|a: int, b: int| y0 <= a < ny && x0 <= b <= x1 ==> #[trigger] img.at(a, b) != 0,
        decreases y1 + 1 - ny,
    {
        let mut nx = x0;
        while nx <= x1
            invariant
                img.wf(),
                h == img.nrows(),
                w == img.ncols(),
                x0 == win_lo(x as int),
                x1 == win_hi(x as int, w as int),
                x1 < w,
                ny <= y1 < h,
                x0 <= nx <= x1 + 1,
                x < w,
                y0 <= ny,
                y0 == win_lo(y as int),
                y1 == win_hi(y as int, h as int),
                forall|b: int| x0 <= b < nx ==> #[trigger] img.at(ny as int, b) != 0,
            decreases x1 + 1 - nx,
        {
            if img.get(ny, nx) == 0 {
                assert(img.at(ny as int, nx as int) == 0);
                return false;
            }
            nx = nx + 1;
        }
        ny = ny + 1;
    }
    true
}

/// Whether some pixel of the clamped 3x3 window around `(y, x)` is one.
fn any_one_at(img: &Grid<u8>, y: usize, x: usize) -> (b: bool)
    requires
        img.wf(),
        img.inside(y as int, x as int),
    ensures
        b == any_one_near(*img, y as int, x as int),
{
    let (h, w) = img.dim();
    let y0 = if y >= 1 { y - 1 } else { 0 };
    let y1 = if y + 1 < h - 1 { y + 1 } else { h - 1 };
    let x0 = if x >= 1 { x - 1 } else { 0 };
    let x1 = if x + 1 < w - 1 { x + 1 } else { w - 1 };
    let mut ny = y0;
    while ny <= y1
        invariant
            img.wf(),
            h == img.nrows(),
            w == img.ncols(),
            y0 == win_lo(y as int),
            y1 == win_hi(y as int, h as int),
            x0 == win_lo(x as int),
            x1 == win_hi(x as int, w as int),
            y1 < h,
            x1 < w,
            x < w,
            y < h,
            y0 <= ny <= y1 + 1,
            forall|a: int, b: int| y0 <= a < ny && x0 <= b <= x1 ==> #[trigger] img.at(a, b) != 1,
        decreases y1 + 1 - ny,
    {
        let mut nx = x0;
        while nx <= x1
            invariant
                img.wf(),
                h == img.nrows(),
                w == img.ncols(),
                x0 == win_lo(x as int),
                x1 == win_hi(x as int, w as int),
                x1 < w,
                y0 <= ny <= y1 < h,
                y0 == win_lo(y as int),
                x0 <= nx <= x1 + 1,
                x < w,
                y0 <= ny,
                y1 == win_hi(y as int, h as int),
                forall|b: int| x0 <= b < nx ==> #[trigger] img.at(ny as int, b) != 1,
            decreases x1 + 1 - nx,
        {
            if img.get(ny, nx) == 1 {
                assert(img.at(ny as int, nx as int) == 1);
                return true;
            }
            nx = nx + 1;
        }
        ny = ny + 1;
    }
    false
}

/// Binary erosion on a 2D binary image: a pixel is kept (one) when every pixel
/// of the 3x3 window around it, clamped at the border, is nonzero.
pub fn binary_erosion(image: &Grid<u8>) -> (out: Grid<u8>)
    requires
        image.wf(),
    ensures
        out.wf(),
        out.nrows() == image.nrows(),
        out.ncols() == image.ncols(),
        forall|y: int, x: int|
            out.inside(y, x) ==> #[trigger] out.at(y, x) == if all_set_near(*image, y, x) { 1u8 } else { 0u8 },
{
    let (h, w) = image.dim();
    let mut out = Grid::filled(h, w, 0u8);
    let mut y: usize = 0;
    while y < h
        invariant
            image.wf(),
            out.wf(),
            h == image.nrows(),
            w == image.ncols(),
            out.nrows() == h,
            out.ncols() == w,
            y <= h,
            forall|a: int, b: int|
                0 <= a < y && 0 <= b < w ==> #[trigger] out.at(a, b) == if all_set_near(*image, a, b) { 1u8 } else { 0u8 },
        decreases h - y,
    {
        let mut x: usize = 0;
        while x < w
            invariant
                image.wf(),
                out.wf(),
                h == image.nrows(),
                w == image.ncols(),
                out.nrows() == h,
                out.ncols() == w,
                y < h,
                x <= w,
                forall|a: int, b: int|
                    ((0 <= a < y && 0 <= b < w) || (a == y && 0 <= b < x)) ==> #[trigger] out.at(a, b) == if all_set_near(*image, a, b) { 1u8 } else { 0u8 },
            decreases w - x,
        {
            let v: u8 = if all_set_at(image, y, x) { 1 } else { 0 };
            out.set(y, x, v);
            x = x + 1;
        }
        y = y + 1;
    }
    out
}

/// Binary dilation on a 2D binary image: a pixel is set (one) when some pixel
/// of the 3x3 window around it, clamped at the border, is one.
pub fn binary_dilation(image: &Grid<u8>) -> (out: Grid<u8>)
    requires
        image.wf(),
    ensures
        out.wf(),
        out.nrows() == image.nrows(),
        out.ncols() == image.ncols(),
        forall|y: int, x: int|
            out.inside(y, x) ==> #[trigger] out.at(y, x) == if any_one_near(*image, y, x) { 1u8 } else { 0u8 },
{
    let (h, w) = image.dim();
    let mut out = Grid::filled(h, w, 0u8);
    let mut y: usize = 0;
    while y < h
        invariant
            image.wf(),
            out.wf(),
            h == image.nrows(),
            w == image.ncols(),
            out.nrows() == h,
            out.ncols() == w,
            y <= h,
            forall|a: int, b: int|
                0 <= a < y && 0 <= b < w ==> #[trigger] out.at(a, b) == if any_one_near(*image, a, b) { 1u8 } else { 0u8 },
        decreases h - y,
    {
        let mut x: usize = 0;
        while x < w
            invariant
                image.wf(),
                out.wf(),
                h == image.nrows(),
                w == image.ncols(),
                out.nrows() == h,
                out.ncols() == w,
                y < h,
                x <= w,
                forall|a: int, b: int|
                    ((0 <= a < y && 0 <= b < w) || (a == y && 0 <= b < x)) ==> #[trigger] out.at(a, b) == if any_one_near(*image, a, b) { 1u8 } else { 0u8 },
            decreases w - x,
        {
            let v: u8 = if any_one_at(image, y, x) { 1 } else { 0 };
            out.set(y, x, v);
            x = x + 1;
        }
        y = y + 1;
    }
    out
}

/// The pixel of `img` (with `h` rows and `w` columns) that offset `(sy, sx)` of a
/// `sh x sw` structuring element reaches from `(y, x)`, the element being
/// centred at `(sh / 2, sw / 2)`; `false` outside the image.
pub open spec fn reached(img: Seq<Seq<bool>>, h: int, w: int, sh: int, sw: int, y: int, x: int, sy: int, sx: int) -> bool {
    let ny = y + sy - sh / 2;
    let nx = x + sx - sw / 2;
    0 <= ny < h && 0 <= nx < w && img[ny][nx]
}

/// Erosion at `(y, x)`: every offset of the element reaches a set pixel inside the image.
pub open spec fn erode_px(img: Seq<Seq<bool>>, h: int, w: int, se: Seq<Seq<bool>>, sh: int, sw: int, y: int, x: int) -> bool {
    forall|sy: int, sx: int|
        0 <= sy < sh && 0 <= sx < sw && #[trigger] se[sy][sx] ==> reached(img, h, w, sh, sw, y, x, sy, sx)
}

/// Dilation at `(y, x)`: some offset of the element reaches a set pixel inside the image.
pub open spec fn dilate_px(img: Seq<Seq<bool>>, h: int, w: int, se: Seq<Seq<bool>>, sh: int, sw: int, y: int, x: int) -> bool {
    exists|sy: int, sx: int|
        0 <= sy < sh && 0 <= sx < sw && #[trigger] se[sy][sx] && reached(img, h, w, sh, sw, y, x, sy, sx)
}

/// The erosion of an `h x w` image by a `sh x sw` structuring element.
pub open spec fn erode_img(img: Seq<Seq<bool>>, h: nat, w: nat, se: Seq<Seq<bool>>, sh: nat, sw: nat) -> Seq<Seq<bool>> {
    Seq::new(h, |y: int| Seq::new(w, |x: int| erode_px(img, h as int, w as int, se, sh as int, sw as int, y, x)))
}

/// The dilation of an `h x w` image by a `sh x sw` structuring element.
pub open spec fn dilate_img(img: Seq<Seq<bool>>, h: nat, w: nat, se: Seq<Seq<bool>>, sh: nat, sw: nat) -> Seq<Seq<bool>> {
    Seq::new(h, |y: int| Seq::new(w, |x: int| dilate_px(img, h as int, w as int, se, sh as int, sw as int, y, x)))
}

/// Whether the element at `(sy, sx)` reaches a set pixel from `(y, x)`.
fn reaches(img: &Grid<bool>, se_h: usize, se_w: usize, y: usize, x: usize, sy: usize, sx: usize) -> (b: bool)
    requires
        img.wf(),
        img.inside(y as int, x as int),
        sy < se_h,
        sx < se_w,
    ensures
        b == reached(img.cells(), img.nrows() as int, img.ncols() as int, se_h as int, se_w as int, y as int, x as int, sy as int, sx as int),
{
    let (h, w) = img.dim();
    let cy = se_h / 2;
    let cx = se_w / 2;
    let ny: usize;
    if sy >= cy {
        let d = sy - cy;
        if d >= h - y {
            return false;
        }
        ny = y + d;
    } else {
        let d = cy - sy;
        if d > y {
            return false;
        }
        ny = y - d;
    }
    let nx: usize;
    if sx >= cx {
        let d = sx - cx;
        if d >= w - x {
            return false;
        }
        nx = x + d;
    } else {
        let d = cx - sx;
        if d > x {
            return false;
        }
        nx = x - d;
    }
    img.get(ny, nx)
}

/// Erosion at one pixel.
fn erode_at(img: &Grid<bool>, selem: &Grid<bool>, y: usize, x: usize) -> (b: bool)
    requires
        img.wf(),
        selem.wf(),
        img.inside(y as int, x as int),
    ensures
        b == erode_px(img.cells(), img.nrows() as int, img.ncols() as int, selem.cells(), selem.nrows() as int, selem.ncols() as int, y as int, x as int),
{
    let (sh, sw) = selem.dim();
    let mut sy: usize = 0;
    while sy < sh
        invariant
            img.wf(),
            selem.wf(),
            img.inside(y as int, x as int),
            sh == selem.nrows(),
            sw == selem.ncols(),
            sy <= sh,
            forall|a: int, b: int|
                0 <= a < sy && 0 <= b < sw && #[trigger] selem.cells()[a][b] ==> reached(img.cells(), img.nrows() as int, img.ncols() as int, sh as int, sw as int, y as int, x as int, a, b),
        decreases sh - sy,
    {
        let mut sx: usize = 0;
        while sx < sw
            invariant
                img.wf(),
                selem.wf(),
                img.inside(y as int, x as int),
                sh == selem.nrows(),
                sw == selem.ncols(),
                sy < sh,
                sx <= sw,
                forall|a: int, b: int|
                    ((0 <= a < sy && 0 <= b < sw) || (a == sy && 0 <= b < sx)) && #[trigger] selem.cells()[a][b] ==> reached(img.cells(), img.nrows() as int, img.ncols() as int, sh as int, sw as int, y as int, x as int, a, b),
            decreases sw - sx,
        {
            if selem.get(sy, sx) && !reaches(img, sh, sw, y, x, sy, sx) {
                assert(selem.cells()[sy as int][sx as int]);
                return false;
            }
            sx = sx + 1;
        }
        sy = sy + 1;
    }
    true
}

/// Dilation at one pixel.
fn dilate_at(img: &Grid<bool>, selem: &Grid<bool>, y: usize, x: usize) -> (b: bool)
    requires
        img.wf(),
        selem.wf(),
        img.inside(y as int, x as int),
    ensures
        b == dilate_px(img.cells(), img.nrows() as int, img.ncols() as int, selem.cells(), selem.nrows() as int, selem.ncols() as int, y as int, x as int),
{
    let (sh, sw) = selem.dim();
    let mut sy: usize = 0;
    while sy < sh
        invariant
            img.wf(),
            selem.wf(),
            img.inside(y as int, x as int),
            sh == selem.nrows(),
            sw == selem.ncols(),
            sy <= sh,
            forall|a: int, b: int|
                0 <= a < sy && 0 <= b < sw && #[trigger] selem.cells()[a][b] ==> !reached(img.cells(), img.nrows() as int, img.ncols() as int, sh as int, sw as int, y as int, x as int, a, b),
        decreases sh - sy,
    {
        let mut sx: usize = 0;
        while sx < sw
            invariant
                img.wf(),
                selem.wf(),
                img.inside(y as int, x as int),
                sh == selem.nrows(),
                sw == selem.ncols(),
                sy < sh,
                sx <= sw,
                forall|a: int, b: int|
                    ((0 <= a < sy && 0 <= b < sw) || (a == sy && 0 <= b < sx)) && #[trigger] selem.cells()[a][b] ==> !reached(img.cells(), img.nrows() as int, img.ncols() as int, sh as int, sw as int, y as int, x as int, a, b),
            decreases sw - sx,
        {
            if selem.get(sy, sx) && reaches(img, sh, sw, y, x, sy, sx) {
                assert(selem.cells()[sy as int][sx as int]);
                return true;
            }
            sx = sx + 1;
        }
        sy = sy + 1;
    }
    false
}

/// Binary erosion with a structuring element: a pixel stays set when every
/// set pixel of the element, centred on it, lands on a set pixel of the image
/// (pixels beyond the border count as unset).
pub fn binary_erosion_selem(image: &Grid<bool>, selem: &Grid<bool>) -> (out: Grid<bool>)
    requires
        image.wf(),
        selem.wf(),
    ensures
        out.wf(),
        out.nrows() == image.nrows(),
        out.ncols() == image.ncols(),
        out.cells() == erode_img(image.cells(), image.nrows(), image.ncols(), selem.cells(), selem.nrows(), selem.ncols()),
{
    let (h, w) = image.dim();
    let mut out = Grid::filled(h, w, false);
    let ghost target = erode_img(image.cells(), image.nrows(), image.ncols(), selem.cells(), selem.nrows(), selem.ncols());
    let mut y: usize = 0;
    while y < h
        invariant
            image.wf(),
            selem.wf(),
            out.wf(),
            h == image.nrows(),
            w == image.ncols(),
            out.nrows() == h,
            out.ncols() == w,
            target == erode_img(image.cells(), image.nrows(), image.ncols(), selem.cells(), selem.nrows(), selem.ncols()),
            y <= h,
            forall|a: int, b: int| 0 <= a < y && 0 <= b < w ==> #[trigger] out.at(a, b) == target[a][b],
        decreases h - y,
    {
        let mut x: usize = 0;
        while x < w
            invariant
                image.wf(),
                selem.wf(),
                out.wf(),
                h == image.nrows(),
                w == image.ncols(),
                out.nrows() == h,
                out.ncols() == w,
                target == erode_img(image.cells(), image.nrows(), image.ncols(), selem.cells(), selem.nrows(), selem.ncols()),
                y < h,
                x <= w,
                forall|a: int, b: int|
                    ((0 <= a < y && 0 <= b < w) || (a == y && 0 <= b < x)) ==> #[trigger] out.at(a, b) == target[a][b],
            decreases w - x,
        {
            let v = erode_at(image, selem, y, x);
            out.set(y, x, v);
            x = x + 1;
        }
        y = y + 1;
    }
    proof {
        lemma_grid_equals(out, target);
    }
    out
}

/// Binary dilation with a structuring element: a pixel is set when some set
/// pixel of the element, centred on it, lands on a set pixel of the image.
pub fn binary_dilation_selem(image: &Grid<bool>, selem: &Grid<bool>) -> (out: Grid<bool>)
    requires
        image.wf(),
        selem.wf(),
    ensures
        out.wf(),
        out.nrows() == image.nrows(),
        out.ncols() == image.ncols(),
        out.cells() == dilate_img(image.cells(), image.nrows(), image.ncols(), selem.cells(), selem.nrows(), selem.ncols()),
{
    let (h, w) = image.dim();
    let mut out = Grid::filled(h, w, false);
    let ghost target = dilate_img(image.cells(), image.nrows(), image.ncols(), selem.cells(), selem.nrows(), selem.ncols());
    let mut y: usize = 0;
    while y < h
        invariant
            image.wf(),
            selem.wf(),
            out.wf(),
            h == image.nrows(),
            w == image.ncols(),
            out.nrows() == h,
            out.ncols() == w,
            target == dilate_img(image.cells(), image.nrows(), image.ncols(), selem.cells(), selem.nrows(), selem.ncols()),
            y <= h,
            forall|a: int, b: int| 0 <= a < y && 0 <= b < w ==> #[trigger] out.at(a, b) == target[a][b],
        decreases h - y,
    {
        let mut x: usize = 0;
        while x < w
            invariant
                image.wf(),
                selem.wf(),
                out.wf(),
                h == image.nrows(),
                w == image.ncols(),
                out.nrows() == h,
                out.ncols() == w,
                target == dilate_img(image.cells(), image.nrows(), image.ncols(), selem.cells(), selem.nrows(), selem.ncols()),
                y < h,
                x <= w,
                forall|a: int, b: int|
                    ((0 <= a < y && 0 <= b < w) || (a == y && 0 <= b < x)) ==> #[trigger] out.at(a, b) == target[a][b],
            decreases w - x,
        {
            let v = dilate_at(image, selem, y, x);
            out.set(y, x, v);
            x = x + 1;
        }
        y = y + 1;
    }
    proof {
        lemma_grid_equals(out, target);
    }
    out
}

/// A grid whose every pixel matches `target` holds `target`.
proof fn lemma_grid_equals(g: Grid<bool>, target: Seq<Seq<bool>>)
    requires
        g.wf(),
        crate::grid::is_rect(target, g.nrows(), g.ncols()),
        forall|a: int, b: int| 0 <= a < g.nrows() && 0 <= b < g.ncols() ==> #[trigger] g.at(a, b) == target[a][b],
    ensures
        g.cells() == target,
{
    g.lemma_wf_rect();
    assert forall|a: int| 0 <= a < g.nrows() implies #[trigger] g.cells()[a] =~= target[a] by {
        assert forall|b: int| 0 <= b < g.ncols() implies g.cells()[a][b] == target[a][b] by {
            assert(g.at(a, b) == target[a][b]);
        }
    }
    assert(g.cells() =~= target);
}

/// Binary opening: erosion, then dilation, with the same structuring element.
pub fn binary_opening(image: &Grid<bool>, selem: &Grid<bool>) -> (out: Grid<bool>)
    requires
        image.wf(),
        selem.wf(),
    ensures
        out.wf(),
        out.nrows() == image.nrows(),
        out.ncols() == image.ncols(),
        out.cells() == dilate_img(
            erode_img(image.cells(), image.nrows(), image.ncols(), selem.cells(), selem.nrows(), selem.ncols()),
            image.nrows(),
            image.ncols(),
            selem.cells(),
            selem.nrows(),
            selem.ncols(),
        ),
{
    let e = binary_erosion_selem(image, selem);
    binary_dilation_selem(&e, selem)
}

/// Binary closing: dilation, then erosion, with the same structuring element.
pub fn binary_closing(image: &Grid<bool>, selem: &Grid<bool>) -> (out: Grid<bool>)
    requires
        image.wf(),
        selem.wf(),
    ensures
        out.wf(),
        out.nrows() == image.nrows(),
        out.ncols() == image.ncols(),
        out.cells() == erode_img(
            dilate_img(image.cells(), image.nrows(), image.ncols(), selem.cells(), selem.nrows(), selem.ncols()),
            image.nrows(),
            image.ncols(),
            selem.cells(),
            selem.nrows(),
            selem.ncols(),
        ),
{
    let d = binary_dilation_selem(image, selem);
    binary_erosion_selem(&d, selem)
}

/// A structuring element with odd sides that is symmetric about its centre.
pub open spec fn symmetric_odd(se: Seq<Seq<bool>>, sh: int, sw: int) -> bool {
    &&& sh % 2 == 1
    &&& sw % 2 == 1
    &&& forall|a: int, b: int| 0 <= a < sh && 0 <= b < sw ==> #[trigger] se[a][b] == se[sh - 1 - a][sw - 1 - b]
}

/// Erosion by an element that holds its centre only removes pixels.
pub proof fn lemma_erosion_within_image(img: Seq<Seq<bool>>, h: nat, w: nat, se: Seq<Seq<bool>>, sh: nat, sw: nat)
    requires
        crate::grid::is_rect(img, h, w),
        crate::grid::is_rect(se, sh, sw),
        sh > 0,
        sw > 0,
        se[(sh / 2) as int][(sw / 2) as int],
    ensures
        forall|y: int, x: int| 0 <= y < h && 0 <= x < w && #[trigger] erode_img(img, h, w, se, sh, sw)[y][x] ==> img[y][x],
{
    assert forall|y: int, x: int| 0 <= y < h && 0 <= x < w && #[trigger] erode_img(img, h, w, se, sh, sw)[y][x] implies img[y][x] by {
        assert(se[(sh / 2) as int][(sw / 2) as int]);
        assert(reached(img, h as int, w as int, sh as int, sw as int, y, x, (sh / 2) as int, (sw / 2) as int));
    }
}

/// Dilation by an element that holds its centre only adds pixels.
pub proof fn lemma_image_within_dilation(img: Seq<Seq<bool>>, h: nat, w: nat, se: Seq<Seq<bool>>, sh: nat, sw: nat)
    requires
        crate::grid::is_rect(img, h, w),
        crate::grid::is_rect(se, sh, sw),
        sh > 0,
        sw > 0,
        se[(sh / 2) as int][(sw / 2) as int],
    ensures
        forall|y: int, x: int| 0 <= y < h && 0 <= x < w && #[trigger] img[y][x] ==> dilate_img(img, h, w, se, sh, sw)[y][x],
{
    assert forall|y: int, x: int| 0 <= y < h && 0 <= x < w && #[trigger] img[y][x] implies dilate_img(img, h, w, se, sh, sw)[y][x] by {
        let cy = (sh / 2) as int;
        let cx = (sw / 2) as int;
        assert(se[cy][cx] && reached(img, h as int, w as int, sh as int, sw as int, y, x, cy, cx));
    }
}

/// Opening by an odd, centrally symmetric element only removes pixels.
pub proof fn lemma_opening_within_image(img: Seq<Seq<bool>>, h: nat, w: nat, se: Seq<Seq<bool>>, sh: nat, sw: nat)
    requires
        crate::grid::is_rect(img, h, w),
        crate::grid::is_rect(se, sh, sw),
        symmetric_odd(se, sh as int, sw as int),
    ensures
        forall|y: int, x: int|
            0 <= y < h && 0 <= x < w && #[trigger] dilate_img(erode_img(img, h, w, se, sh, sw), h, w, se, sh, sw)[y][x] ==> img[y][x],
{
    let e = erode_img(img, h, w, se, sh, sw);
    assert forall|y: int, x: int|
        0 <= y < h && 0 <= x < w && #[trigger] dilate_img(e, h, w, se, sh, sw)[y][x] implies img[y][x] by {
        assert(dilate_px(e, h as int, w as int, se, sh as int, sw as int, y, x));
        let (sy, sx) = choose|sy: int, sx: int|
            0 <= sy < sh && 0 <= sx < sw && #[trigger] se[sy][sx] && reached(e, h as int, w as int, sh as int, sw as int, y, x, sy, sx);
        let ny = y + sy - (sh / 2) as int;
        let nx = x + sx - (sw / 2) as int;
        assert(e[ny][nx]);
        assert(erode_px(img, h as int, w as int, se, sh as int, sw as int, ny, nx));
        let ty = sh - 1 - sy;
        let tx = sw - 1 - sx;
        assert(se[ty][tx] == se[sy][sx]);
        assert(reached(img, h as int, w as int, sh as int, sw as int, ny, nx, ty, tx));
        assert(ny + ty - (sh / 2) as int == y);
        assert(nx + tx - (sw / 2) as int == x);
    }
}

/// Closing by an odd, centrally symmetric element keeps every pixel around
/// which the whole element fits inside the image.
pub proof fn lemma_closing_covers_image(img: Seq<Seq<bool>>, h: nat, w: nat, se: Seq<Seq<bool>>, sh: nat, sw: nat)
    requires
        crate::grid::is_rect(img, h, w),
        crate::grid::is_rect(se, sh, sw),
        symmetric_odd(se, sh as int, sw as int),
    ensures
        forall|y: int, x: int|
            sh / 2 <= y && y + sh / 2 < h && sw / 2 <= x && x + sw / 2 < w && #[trigger] img[y][x]
                ==> erode_img(dilate_img(img, h, w, se, sh, sw), h, w, se, sh, sw)[y][x],
{
    let d = dilate_img(img, h, w, se, sh, sw);
    assert forall|y: int, x: int|
        sh / 2 <= y && y + sh / 2 < h && sw / 2 <= x && x + sw / 2 < w && #[trigger] img[y][x] implies erode_img(d, h, w, se, sh, sw)[y][x] by {
        assert forall|sy: int, sx: int| 0 <= sy < sh && 0 <= sx < sw && #[trigger] se[sy][sx] implies reached(d, h as int, w as int, sh as int, sw as int, y, x, sy, sx) by {
            let ny = y + sy - (sh / 2) as int;
            let nx = x + sx - (sw / 2) as int;
            let ty = sh - 1 - sy;
            let tx = sw - 1 - sx;
            assert(se[ty][tx] == se[sy][sx]);
            assert(ny + ty - (sh / 2) as int == y);
            assert(nx + tx - (sw / 2) as int == x);
            assert(reached(img, h as int, w as int, sh as int, sw as int, ny, nx, ty, tx));
            assert(dilate_px(img, h as int, w as int, se, sh as int, sw as int, ny, nx));
        }
        assert(erode_px(d, h as int, w as int, se, sh as int, sw as int, y, x));
    }
}

/// A square structuring element of side `size`, all set.
pub fn square(size: usize) -> (out: Grid<bool>)
    ensures
        out.wf(),
        out.nrows() == size,
        out.ncols() == size,
        forall|y: int, x: int| out.inside(y, x) ==> #[trigger] out.at(y, x),
{
    Grid::filled(size, size, true)
}

/// Distance between two indices.
pub open spec fn abs_diff(a: int, b: int) -> int {
    if a >= b { a - b } else { b - a }
}

/// A diamond structuring element of the given radius: side `2 * radius + 1`,
/// set where the city-block distance to the centre is at most `radius`.
pub fn diamond(radius: usize) -> (out: Grid<bool>)
    requires
        2 * radius + 1 <= usize::MAX,
    ensures
        out.wf(),
        out.nrows() == 2 * radius + 1,
        out.ncols() == 2 * radius + 1,
        forall|y: int, x: int|
            out.inside(y, x) ==> #[trigger] out.at(y, x) == (abs_diff(y, radius as int) + abs_diff(x, radius as int) <= radius),
        symmetric_odd(out.cells(), out.nrows() as int, out.ncols() as int),
{
    let size = 2 * radius + 1;
    let mut out = Grid::filled(size, size, false);
    let mut y: usize = 0;
    while y < size
        invariant
            size == 2 * radius + 1,
            out.wf(),
            out.nrows() == size,
            out.ncols() == size,
            y <= size,
            forall|a: int, b: int|
                out.inside(a, b) ==> #[trigger] out.at(a, b) == (a < y && abs_diff(a, radius as int) + abs_diff(b, radius as int) <= radius),
        decreases size - y,
    {
        let mut x: usize = 0;
        while x < size
            invariant
                size == 2 * radius + 1,
                out.wf(),
                out.nrows() == size,
                out.ncols() == size,
                y < size,
                x <= size,
                forall|a: int, b: int|
                    out.inside(a, b) ==> #[trigger] out.at(a, b) == ((a < y || (a == y && b < x)) && abs_diff(a, radius as int) + abs_diff(b, radius as int) <= radius),
            decreases size - x,
        {
            let dy = if y >= radius { y - radius } else { radius - y };
            let dx = if x >= radius { x - radius } else { radius - x };
            out.set(y, x, dy + dx <= radius);
            x = x + 1;
        }
        y = y + 1;
    }
    proof {
        out.lemma_wf_rect();
        assert forall|a: int, b: int| 0 <= a < size && 0 <= b < size implies #[trigger] out.cells()[a][b] == out.cells()[size - 1 - a][size - 1 - b] by {
            assert(out.at(a, b) == out.cells()[a][b]);
            assert(out.at(size - 1 - a, size - 1 - b) == out.cells()[size - 1 - a][size - 1 - b]);
        }
    }
    out
}

/// A disk structuring element of the given radius: side `2 * radius + 1`, set
/// where the Euclidean distance to the centre is at most `radius + 0.5`, that
/// is where `dy^2 + dx^2 <= radius^2 + radius`.
pub fn disk(radius: usize) -> (out: Grid<bool>)
    requires
        2 * radius * radius + 2 * radius + 1 <= usize::MAX,
    ensures
        out.wf(),
        out.nrows() == 2 * radius + 1,
        out.ncols() == 2 * radius + 1,
        forall|y: int, x: int|
            out.inside(y, x) ==> #[trigger] out.at(y, x) == ((y - radius) * (y - radius) + (x - radius) * (x - radius) <= radius * radius + radius),
        symmetric_odd(out.cells(), out.nrows() as int, out.ncols() as int),
{
    let size = 2 * radius + 1;
    proof {
        assert(radius * radius + radius <= 2 * radius * radius + 2 * radius + 1) by (nonlinear_arith);
        assert(radius * radius <= 2 * radius * radius) by (nonlinear_arith);
    }
    let lim = radius * radius + radius;
    let mut out = Grid::filled(size, size, false);
    let mut y: usize = 0;
    while y < size
        invariant
            size == 2 * radius + 1,
            2 * radius * radius + 2 * radius + 1 <= usize::MAX,
            lim == radius * radius + radius,
            out.wf(),
            out.nrows() == size,
            out.ncols() == size,
            y <= size,
            forall|a: int, b: int|
                out.inside(a, b) ==> #[trigger] out.at(a, b) == (a < y && (a - radius) * (a - radius) + (b - radius) * (b - radius) <= radius * radius + radius),
        decreases size - y,
    {
        let mut x: usize = 0;
        while x < size
            invariant
                size == 2 * radius + 1,
                2 * radius * radius + 2 * radius + 1 <= usize::MAX,
                lim == radius * radius + radius,
                out.wf(),
                out.nrows() == size,
                out.ncols() == size,
                y < size,
                x <= size,
                forall|a: int, b: int|
                    out.inside(a, b) ==> #[trigger] out.at(a, b) == ((a < y || (a == y && b < x)) && (a - radius) * (a - radius) + (b - radius) * (b - radius) <= radius * radius + radius),
            decreases size - x,
        {
            let dy = if y >= radius { y - radius } else { radius - y };
            let dx = if x >= radius { x - radius } else { radius - x };
            proof {
                assert(dy * dy <= radius * radius) by (nonlinear_arith)
                    requires
                        dy <= radius,
                ;
                assert(dx * dx <= radius * radius) by (nonlinear_arith)
                    requires
                        dx <= radius,
                ;
                assert(dy * dy == (y - radius) * (y - radius)) by (nonlinear_arith)
                    requires
                        dy == y - radius || dy == radius - y,
                ;
                assert(dx * dx == (x - radius) * (x - radius)) by (nonlinear_arith)
                    requires
                        dx == x - radius || dx == radius - x,
                ;
                assert(radius * radius + radius * radius == 2 * radius * radius) by (nonlinear_arith);
            }
            out.set(y, x, dy * dy + dx * dx <= lim);
            x = x + 1;
        }
        y = y + 1;
    }
    proof {
        out.lemma_wf_rect();
        assert forall|a: int, b: int| 0 <= a < size && 0 <= b < size implies #[trigger] out.cells()[a][b] == out.cells()[size - 1 - a][size - 1 - b] by {
            assert(out.at(a, b) == out.cells()[a][b]);
            assert(out.at(size - 1 - a, size - 1 - b) == out.cells()[size - 1 - a][size - 1 - b]);
            assert((size - 1 - a - radius) * (size - 1 - a - radius) == (a - radius) * (a - radius)) by (nonlinear_arith)
                requires
                    size == 2 * radius + 1,
            ;
            assert((size - 1 - b - radius) * (size - 1 - b - radius) == (b - radius) * (b - radius)) by (nonlinear_arith)
                requires
                    size == 2 * radius + 1,
            ;
        }
    }
    out
}

/// Number of `i` in `0..m` for which `p[i]` is set and `p[(i + 1) % 8]` is not.
pub open spec fn transitions_upto(p: Seq<bool>, m: int) -> nat
    decreases m,
{
    if m <= 0 {
        0
    } else {
        transitions_upto(p, m - 1) + if p[m - 1] && !p[m % 8] { 1nat } else { 0nat }
    }
}

/// Number of set-to-unset transitions going once round the 8 neighbours.
pub fn transitions(p: &[bool; 8]) -> (count: usize)
    ensures
        count == transitions_upto(p@, 8),
{
    let mut count: usize = 0;
    let mut i: usize = 0;
    while i < 8
        invariant
            i <= 8,
            count == transitions_upto(p@, i as int),
            count <= i,
        decreases 8 - i,
    {
        if p[i] && !p[(i + 1) % 8] {
            count = count + 1;
        }
        i = i + 1;
    }
    count
}

/// How many entries of `s` equal `v`.
pub open spec fn occurrences(s: Seq<usize>, v: usize) -> nat
    decreases s.len(),
{
    if s.len() == 0 {
        0
    } else {
        occurrences(s.drop_last(), v) + if s.last() == v { 1nat } else { 0nat }
    }
}

proof fn lemma_occurrences_append(a: Seq<usize>, b: Seq<usize>, v: usize)
    ensures
        occurrences(a + b, v) == occurrences(a, v) + occurrences(b, v),
    decreases b.len(),
{
    if b.len() > 0 {
        lemma_occurrences_append(a, b.drop_last(), v);
        assert((a + b).drop_last() =~= a + b.drop_last());
    } else {
        assert(a + b =~= a);
    }
}

proof fn lemma_occurrences_le_len(s: Seq<usize>, v: usize)
    ensures
        occurrences(s, v) <= s.len(),
    decreases s.len(),
{
    if s.len() > 0 {
        lemma_occurrences_le_len(s.drop_last(), v);
    }
}

/// The pixels of the first `y` rows, then the first `x` of row `y`, in row-major order.
pub open spec fn raster_prefix<T>(cells: Seq<Seq<T>>, y: int, x: int) -> Seq<T> {
    cells.take(y).flatten() + cells[y].take(x)
}

proof fn lemma_raster_step<T>(cells: Seq<Seq<T>>, y: int, x: int)
    requires
        0 <= y < cells.len(),
        0 <= x < cells[y].len(),
    ensures
        raster_prefix(cells, y, x + 1) == raster_prefix(cells, y, x).push(cells[y][x]),
{
    assert(cells[y].take(x + 1) =~= cells[y].take(x).push(cells[y][x]));
    assert(raster_prefix(cells, y, x + 1) =~= raster_prefix(cells, y, x).push(cells[y][x]));
}

proof fn lemma_raster_next_row<T>(cells: Seq<Seq<T>>, y: int)
    requires
        0 <= y < cells.len(),
    ensures
        raster_prefix(cells, y, cells[y].len() as int) == cells.take(y + 1).flatten(),
        y + 1 < cells.len() ==> raster_prefix(cells, y + 1, 0) == cells.take(y + 1).flatten(),
{
    broadcast use Seq::lemma_flatten_push;
    assert(cells.take(y + 1) =~= cells.take(y).push(cells[y]));
    assert(cells[y].take(cells[y].len() as int) =~= cells[y]);
    if y + 1 < cells.len() {
        assert(cells[y + 1].take(0) =~= Seq::<T>::empty());
        assert(cells.take(y + 1).flatten() + Seq::<T>::empty() =~= cells.take(y + 1).flatten());
    }
}

proof fn lemma_raster_prefix_len<T>(cells: Seq<Seq<T>>, y: int, x: int)
    requires
        0 <= y < cells.len(),
        0 <= x < cells[y].len(),
    ensures
        raster_prefix(cells, y, x).len() < cells.flatten().len(),
{
    broadcast use Seq::lemma_flatten_push;
    let rest = cells.skip(y + 1);
    assert(cells =~= cells.take(y + 1) + rest);
    lemma_flatten_concat(cells.take(y + 1), rest);
    assert(cells.take(y + 1) =~= cells.take(y).push(cells[y]));
    assert(cells[y] =~= cells[y].take(x) + cells[y].skip(x));
}

proof fn lemma_flatten_concat<T>(a: Seq<Seq<T>>, b: Seq<Seq<T>>)
    ensures
        (a + b).flatten() == a.flatten() + b.flatten(),
    decreases b.len(),
{
    broadcast use Seq::lemma_flatten_push;
    if b.len() == 0 {
        assert(a + b =~= a);
        assert(a.flatten() + b.flatten() =~= a.flatten());
    } else {
        lemma_flatten_concat(a, b.drop_last());
        assert(a + b =~= (a + b.drop_last()).push(b.last()));
        assert(b =~= b.drop_last().push(b.last()));
        assert((a.flatten() + b.drop_last().flatten()) + b.last() =~= a.flatten() + (b.drop_last().flatten() + b.last()));
    }
}

/// Remove labelled regions smaller than `min_size`: a pixel keeps its label
/// when the label is nonzero and at least `min_size` pixels carry it, and is
/// cleared otherwise.
pub fn remove_small_objects(labels: &Grid<usize>, min_size: usize) -> (out: Grid<usize>)
    requires
        labels.wf(),
        labels.cells().flatten().len() <= usize::MAX,
        forall|y: int, x: int| labels.inside(y, x) ==> #[trigger] labels.at(y, x) < usize::MAX,
    ensures
        out.wf(),
        out.nrows() == labels.nrows(),
        out.ncols() == labels.ncols(),
        forall|y: int, x: int|
            out.inside(y, x) ==> #[trigger] out.at(y, x) == if labels.at(y, x) > 0 && occurrences(
                labels.cells().flatten(),
                labels.at(y, x),
            ) >= min_size {
                labels.at(y, x)
            } else {
                0
            },
{
    let (h, w) = labels.dim();
    let ghost cells = labels.cells();
    proof {
        labels.lemma_wf_rect();
    }
    let mut max_label: usize = 0;
    let mut y: usize = 0;
    while y < h
        invariant
            labels.wf(),
            h == labels.nrows(),
            w == labels.ncols(),
            y <= h,
            forall|yy: int, xx: int| labels.inside(yy, xx) ==> #[trigger] labels.at(yy, xx) < usize::MAX,
            max_label < usize::MAX,
            forall|a: int, b: int| 0 <= a < y && 0 <= b < w ==> #[trigger] labels.at(a, b) <= max_label,
        decreases h - y,
    {
        let mut x: usize = 0;
        while x < w
            invariant
                labels.wf(),
                h == labels.nrows(),
                w == labels.ncols(),
                y < h,
                x <= w,
                forall|yy: int, xx: int| labels.inside(yy, xx) ==> #[trigger] labels.at(yy, xx) < usize::MAX,
                max_label < usize::MAX,
                forall|a: int, b: int| ((0 <= a < y && 0 <= b < w) || (a == y && 0 <= b < x)) ==> #[trigger] labels.at(a, b) <= max_label,
            decreases w - x,
        {
            let v = labels.get(y, x);
            if v > max_label {
                max_label = v;
            }
            x = x + 1;
        }
        y = y + 1;
    }
    let mut counts: Vec<usize> = vec![0usize; max_label + 1];
    proof {
        assert(cells.take(0).flatten() =~= Seq::<usize>::empty());
        assert forall|l: int| 0 <= l <= max_label implies #[trigger] counts@[l] == occurrences(raster_prefix(cells, 0, 0), l as usize) by {
            if h > 0 {
                assert(raster_prefix(cells, 0, 0) =~= Seq::<usize>::empty());
            }
        }
    }
    let mut y: usize = 0;
    while y < h
        invariant
            labels.wf(),
            cells == labels.cells(),
            crate::grid::is_rect(cells, h as nat, w as nat),
            h == labels.nrows(),
            w == labels.ncols(),
            y <= h,
            cells.flatten().len() <= usize::MAX,
            counts@.len() == max_label + 1,
            forall|a: int, b: int| 0 <= a < h && 0 <= b < w ==> #[trigger] labels.at(a, b) <= max_label,
            y < h ==> forall|l: int| 0 <= l <= max_label ==> #[trigger] counts@[l] == occurrences(raster_prefix(cells, y as int, 0), l as usize),
            y == h ==> forall|l: int| 0 <= l <= max_label ==> #[trigger] counts@[l] == occurrences(cells.flatten(), l as usize),
        decreases h - y,
    {
        let mut x: usize = 0;
        while x < w
            invariant
                labels.wf(),
                cells == labels.cells(),
                crate::grid::is_rect(cells, h as nat, w as nat),
                h == labels.nrows(),
                w == labels.ncols(),
                y < h,
                x <= w,
                cells.flatten().len() <= usize::MAX,
                counts@.len() == max_label + 1,
                forall|a: int, b: int| 0 <= a < h && 0 <= b < w ==> #[trigger] labels.at(a, b) <= max_label,
                forall|l: int| 0 <= l <= max_label ==> #[trigger] counts@[l] == occurrences(raster_prefix(cells, y as int, x as int), l as usize),
            decreases w - x,
        {
            let v = labels.get(y, x);
            proof {
                lemma_raster_step(cells, y as int, x as int);
                lemma_raster_prefix_len(cells, y as int, x as int);
                lemma_occurrences_le_len(raster_prefix(cells, y as int, x as int), v);
            }
            let c = counts[v];
            counts.set(v, c + 1);
            proof {
                let old_p = raster_prefix(cells, y as int, x as int);
                let new_p = raster_prefix(cells, y as int, x + 1);
                assert(new_p.drop_last() =~= old_p);
                assert(new_p.last() == v);
                assert forall|l: int| 0 <= l <= max_label implies #[trigger] counts@[l] == occurrences(new_p, l as usize) by {
                    assert(occurrences(new_p, l as usize) == occurrences(old_p, l as usize) + if v == l as usize { 1nat } else { 0nat });
                }
            }
            x = x + 1;
        }
        proof {
            lemma_raster_next_row(cells, y as int);
            if y + 1 == h {
                assert(cells.take(h as int) =~= cells);
            }
        }
        y = y + 1;
    }
    if h == 0 {
        proof {
            assert(cells =~= Seq::<Seq<usize>>::empty());
        }
    }
    let mut out = Grid::filled(h, w, 0usize);
    let mut y: usize = 0;
    while y < h
        invariant
            labels.wf(),
            out.wf(),
            cells == labels.cells(),
            h == labels.nrows(),
            w == labels.ncols(),
            out.nrows() == h,
            out.ncols() == w,
            y <= h,
            counts@.len() == max_label + 1,
            forall|a: int, b: int| 0 <= a < h && 0 <= b < w ==> #[trigger] labels.at(a, b) <= max_label,
            h > 0 ==> forall|l: int| 0 <= l <= max_label ==> #[trigger] counts@[l] == occurrences(cells.flatten(), l as usize),
            forall|a: int, b: int|
                0 <= a < y && 0 <= b < w ==> #[trigger] out.at(a, b) == if labels.at(a, b) > 0 && occurrences(cells.flatten(), labels.at(a, b)) >= min_size {
                    labels.at(a, b)
                } else {
                    0
                },
        decreases h - y,
    {
        let mut x: usize = 0;
        while x < w
            invariant
                labels.wf(),
                out.wf(),
                cells == labels.cells(),
                h == labels.nrows(),
                w == labels.ncols(),
                out.nrows() == h,
                out.ncols() == w,
                y < h,
                x <= w,
                counts@.len() == max_label + 1,
                forall|a: int, b: int| 0 <= a < h && 0 <= b < w ==> #[trigger] labels.at(a, b) <= max_label,
                forall|l: int| 0 <= l <= max_label ==> #[trigger] counts@[l] == occurrences(cells.flatten(), l as usize),
                forall|a: int, b: int|
                    ((0 <= a < y && 0 <= b < w) || (a == y && 0 <= b < x)) ==> #[trigger] out.at(a, b) == if labels.at(a, b) > 0 && occurrences(cells.flatten(), labels.at(a, b)) >= min_size {
                        labels.at(a, b)
                    } else {
                        0
                    },
            decreases w - x,
        {
            let v = labels.get(y, x);
            let keep = v > 0 && counts[v] >= min_size;
            out.set(y, x, if keep { v } else { 0 });
            x = x + 1;
        }
        y = y + 1;
    }
    out
}

/// Number of set entries among the first `m` of `p`.
pub open spec fn count_true(p: Seq<bool>, m: int) -> nat
    decreases m,
{
    if m <= 0 {
        0
    } else {
        count_true(p, m - 1) + if p[m - 1] { 1nat } else { 0nat }
    }
}

/// Number of set pixels in the first `m` rows.
pub open spec fn count_rows(cells: Seq<Seq<bool>>, m: int) -> nat
    decreases m,
{
    if m <= 0 {
        0
    } else {
        count_rows(cells, m - 1) + count_true(cells[m - 1], cells[m - 1].len() as int)
    }
}

/// Number of set pixels.
pub open spec fn count_set(cells: Seq<Seq<bool>>) -> nat {
    count_rows(cells, cells.len() as int)
}

proof fn lemma_count_true_clear(p: Seq<bool>, m: int, c: int)
    requires
        0 <= c < p.len(),
        m <= p.len(),
    ensures
        count_true(p.update(c, false), m) + if c < m && p[c] { 1nat } else { 0nat } == count_true(p, m),
    decreases m,
{
    if m > 0 {
        lemma_count_true_clear(p, m - 1, c);
    }
}

proof fn lemma_count_rows_update(cells: Seq<Seq<bool>>, m: int, r: int, row: Seq<bool>)
    requires
        0 <= r < cells.len(),
        m <= cells.len(),
    ensures
        count_rows(cells.update(r, row), m) + if r < m { count_true(cells[r], cells[r].len() as int) } else { 0nat }
            == count_rows(cells, m) + if r < m { count_true(row, row.len() as int) } else { 0nat },
    decreases m,
{
    if m > 0 {
        lemma_count_rows_update(cells, m - 1, r, row);
    }
}

/// Clearing a pixel removes one set pixel if it was set, and none otherwise.
proof fn lemma_count_set_clear(cells: Seq<Seq<bool>>, r: int, c: int)
    requires
        0 <= r < cells.len(),
        0 <= c < cells[r].len(),
    ensures
        count_set(cells.update(r, cells[r].update(c, false))) + if cells[r][c] { 1nat } else { 0nat } == count_set(cells),
{
    lemma_count_rows_update(cells, cells.len() as int, r, cells[r].update(c, false));
    lemma_count_true_clear(cells[r], cells[r].len() as int, c);
}

/// The 8 neighbours of `(y, x)`, clockwise from the one above.
pub open spec fn neighbours(c: Seq<Seq<bool>>, y: int, x: int) -> Seq<bool> {
    seq![c[y - 1][x], c[y - 1][x + 1], c[y][x + 1], c[y + 1][x + 1], c[y + 1][x], c[y + 1][x - 1], c[y][x - 1], c[y - 1][x - 1]]
}

/// The conditions shared by both sub-iterations of Zhang-Suen thinning: two to
/// six set neighbours, and exactly one set-to-unset transition around them.
pub open spec fn thinnable(p: Seq<bool>) -> bool {
    &&& 2 <= count_true(p, 8) <= 6
    &&& transitions_upto(p, 8) == 1
}

/// Whether the neighbourhood `p` lets a pixel go in the first (`second ==
/// false`) or second sub-iteration of Zhang-Suen thinning.
pub open spec fn deletable(p: Seq<bool>, second: bool) -> bool {
    &&& thinnable(p)
    &&& if !second {
        (!p[0] || !p[2] || !p[4]) && (!p[2] || !p[4] || !p[6])
    } else {
        (!p[0] || !p[2] || !p[6]) && (!p[0] || !p[4] || !p[6])
    }
}

/// The Zhang-Suen deletion rule, for the 8 neighbours `p` read clockwise from
/// the one above: a pixel may go exactly when from two to six of its
/// neighbours are set, going once round them passes from a set to an unset
/// neighbour exactly once, and, in the first sub-iteration, the neighbours
/// above, right and below are not all set, nor those right, below and left;
/// in the second, those above, right and left are not all set, nor those
/// above, below and left.
pub proof fn lemma_zhang_suen_rule(p: Seq<bool>, second: bool)
    requires
        p.len() == 8,
    ensures
        deletable(p, second) <==> {
            let set = (if p[0] { 1int } else { 0int }) + (if p[1] { 1int } else { 0int }) + (if p[2] {
                1int
            } else {
                0int
            }) + (if p[3] { 1int } else { 0int }) + (if p[4] { 1int } else { 0int }) + (if p[5] {
                1int
            } else {
                0int
            }) + (if p[6] { 1int } else { 0int }) + (if p[7] { 1int } else { 0int });
            let falls = (if p[0] && !p[1] { 1int } else { 0int }) + (if p[1] && !p[2] { 1int } else { 0int }) + (
            if p[2] && !p[3] {
                1int
            } else {
                0int
            }) + (if p[3] && !p[4] { 1int } else { 0int }) + (if p[4] && !p[5] { 1int } else { 0int }) + (if p[5]
                && !p[6] {
                1int
            } else {
                0int
            }) + (if p[6] && !p[7] { 1int } else { 0int }) + (if p[7] && !p[0] { 1int } else { 0int });
            &&& 2 <= set <= 6
            &&& falls == 1
            &&& if !second {
                !(p[0] && p[2] && p[4]) && !(p[2] && p[4] && p[6])
            } else {
                !(p[0] && p[2] && p[6]) && !(p[0] && p[4] && p[6])
            }
        },
{
    reveal_with_fuel(count_true, 9);
    reveal_with_fuel(transitions_upto, 9);
}

/// `(y, x)` lies at least one pixel away from the border of an `h x w` grid.
pub open spec fn interior(h: int, w: int, y: int, x: int) -> bool {
    1 <= y < h - 1 && 1 <= x < w - 1
}

/// One sub-iteration of Zhang-Suen thinning on a whole `h x w` grid at once:
/// every interior set pixel whose neighbourhood allows it is cleared, each
/// decided on the grid as it was before the sub-iteration.
pub open spec fn thin_step(c: Seq<Seq<bool>>, h: nat, w: nat, second: bool) -> Seq<Seq<bool>> {
    Seq::new(
        h,
        |y: int|
            Seq::new(
                w,
                |x: int| c[y][x] && !(interior(h as int, w as int, y, x) && deletable(neighbours(c, y, x), second)),
            ),
    )
}

/// A full thinning pass: the first sub-iteration, then the second.
pub open spec fn thin_pass(c: Seq<Seq<bool>>, h: nat, w: nat) -> Seq<Seq<bool>> {
    thin_step(thin_step(c, h, w, false), h, w, true)
}

/// The grid after `k` full thinning passes.
pub open spec fn thin_iter(c: Seq<Seq<bool>>, h: nat, w: nat, k: nat) -> Seq<Seq<bool>>
    decreases k,
{
    if k == 0 {
        c
    } else {
        thin_pass(thin_iter(c, h, w, (k - 1) as nat), h, w)
    }
}

/// The second sub-iteration of the pass that starts from `c` clears some pixel.
pub open spec fn second_step_clears(c: Seq<Seq<bool>>, h: nat, w: nat) -> bool {
    thin_pass(c, h, w) != thin_step(c, h, w, false)
}

/// Number of set entries of the 8.
fn count_true8(p: &[bool; 8]) -> (n: usize)
    ensures
        n == count_true(p@, 8),
{
    let mut n: usize = 0;
    let mut i: usize = 0;
    while i < 8
        invariant
            i <= 8,
            n == count_true(p@, i as int),
            n <= i,
        decreases 8 - i,
    {
        if p[i] {
            n = n + 1;
        }
        i = i + 1;
    }
    n
}

/// Whether the set pixel at `(y, x)` may go in the given sub-iteration.
fn deletable_at(skel: &Grid<bool>, y: usize, x: usize, second: bool) -> (b: bool)
    requires
        skel.wf(),
        interior(skel.nrows() as int, skel.ncols() as int, y as int, x as int),
    ensures
        b == deletable(neighbours(skel.cells(), y as int, x as int), second),
{
    proof {
        skel.lemma_wf_rect();
    }
    let p: [bool; 8] = [
        skel.get(y - 1, x),
        skel.get(y - 1, x + 1),
        skel.get(y, x + 1),
        skel.get(y + 1, x + 1),
        skel.get(y + 1, x),
        skel.get(y + 1, x - 1),
        skel.get(y, x - 1),
        skel.get(y - 1, x - 1),
    ];
    proof {
        assert(p@ =~= neighbours(skel.cells(), y as int, x as int));
    }
    let bp = count_true8(&p);
    if bp < 2 || bp > 6 {
        return false;
    }
    let ap = transitions(&p);
    if ap != 1 {
        return false;
    }
    if !second {
        (!p[0] || !p[2] || !p[4]) && (!p[2] || !p[4] || !p[6])
    } else {
        (!p[0] || !p[2] || !p[6]) && (!p[0] || !p[4] || !p[6])
    }
}

/// The interior set pixels that may go in the given sub-iteration, in raster order.
fn collect_deletable(skel: &Grid<bool>, second: bool) -> (list: Vec<(usize, usize)>)
    requires
        skel.wf(),
        skel.nrows() >= 1,
        skel.nrows() >= 3 ==> skel.ncols() >= 1,
    ensures
        forall|i: int| 0 <= i < list@.len() ==> {
            let (y, x) = #[trigger] list@[i];
            &&& interior(skel.nrows() as int, skel.ncols() as int, y as int, x as int)
            &&& skel.at(y as int, x as int)
            &&& deletable(neighbours(skel.cells(), y as int, x as int), second)
        },
        forall|y: int, x: int|
            interior(skel.nrows() as int, skel.ncols() as int, y, x) && #[trigger] skel.at(y, x)
                && deletable(neighbours(skel.cells(), y, x), second) ==> list@.contains((y as usize, x as usize)),
{
    let (h, w) = skel.dim();
    let mut list: Vec<(usize, usize)> = Vec::new();
    let mut y: usize = 1;
    while y < h - 1
        invariant
            skel.wf(),
            h == skel.nrows(),
            w == skel.ncols(),
            h >= 1,
            h >= 3 ==> w >= 1,
            1 <= y <= h,
            forall|i: int| 0 <= i < list@.len() ==> {
                let (yy, xx) = #[trigger] list@[i];
                &&& interior(h as int, w as int, yy as int, xx as int)
                &&& skel.at(yy as int, xx as int)
                &&& deletable(neighbours(skel.cells(), yy as int, xx as int), second)
            },
            forall|a: int, b: int|
                interior(h as int, w as int, a, b) && a < y && #[trigger] skel.at(a, b)
                    && deletable(neighbours(skel.cells(), a, b), second) ==> list@.contains((a as usize, b as usize)),
        decreases h - y,
    {
        let mut x: usize = 1;
        while x < w - 1
            invariant
                skel.wf(),
                h == skel.nrows(),
                w == skel.ncols(),
                1 <= y,
                y + 1 < h,
                w >= 1,
                1 <= x <= w,
                forall|i: int| 0 <= i < list@.len() ==> {
                    let (yy, xx) = #[trigger] list@[i];
                    &&& interior(h as int, w as int, yy as int, xx as int)
                    &&& skel.at(yy as int, xx as int)
                    &&& deletable(neighbours(skel.cells(), yy as int, xx as int), second)
                },
                forall|a: int, b: int|
                    interior(h as int, w as int, a, b) && (a < y || (a == y && b < x)) && #[trigger] skel.at(a, b)
                        && deletable(neighbours(skel.cells(), a, b), second) ==> list@.contains((a as usize, b as usize)),
            decreases w - x,
        {
            if skel.get(y, x) && deletable_at(skel, y, x, second) {
                let ghost before = list@;
                list.push((y, x));
                proof {
                    assert(list@[before.len() as int] == (y, x));
                    assert forall|a: int, b: int|
                        interior(h as int, w as int, a, b) && (a < y || (a == y && b < x + 1)) && #[trigger] skel.at(a, b)
                            && deletable(neighbours(skel.cells(), a, b), second) implies list@.contains((a as usize, b as usize)) by {
                        if a < y || b < x {
                            assert(before.contains((a as usize, b as usize)));
                            let k = choose|k: int| 0 <= k < before.len() && before[k] == (a as usize, b as usize);
                            assert(list@[k] == (a as usize, b as usize));
                        }
                    }
                }
            }
            x = x + 1;
        }
        y = y + 1;
    }
    list
}

/// Clears every listed pixel.
fn clear_all(skel: &mut Grid<bool>, list: &Vec<(usize, usize)>)
    requires
        old(skel).wf(),
        forall|i: int| 0 <= i < list@.len() ==> {
            let (y, x) = #[trigger] list@[i];
            &&& old(skel).inside(y as int, x as int)
            &&& old(skel).at(y as int, x as int)
        },
    ensures
        final(skel).wf(),
        final(skel).nrows() == old(skel).nrows(),
        final(skel).ncols() == old(skel).ncols(),
        forall|y: int, x: int|
            final(skel).inside(y, x) ==> #[trigger] final(skel).at(y, x) == (old(skel).at(y, x) && !list@.contains((y as usize, x as usize))),
        count_set(final(skel).cells()) <= count_set(old(skel).cells()),
        list@.len() > 0 ==> count_set(final(skel).cells()) < count_set(old(skel).cells()),
{
    let ghost start = *skel;
    let mut k: usize = 0;
    while k < list.len()
        invariant
            skel.wf(),
            start.wf(),
            skel.nrows() == start.nrows(),
            skel.ncols() == start.ncols(),
            k <= list@.len(),
            forall|i: int| 0 <= i < list@.len() ==> {
                let (y, x) = #[trigger] list@[i];
                &&& start.inside(y as int, x as int)
                &&& start.at(y as int, x as int)
            },
            forall|y: int, x: int|
                skel.inside(y, x) ==> #[trigger] skel.at(y, x) == (start.at(y, x) && !list@.take(k as int).contains((y as usize, x as usize))),
            count_set(skel.cells()) <= count_set(start.cells()),
            k > 0 ==> count_set(skel.cells()) < count_set(start.cells()),
        decreases list@.len() - k,
    {
        let (y, x) = list[k];
        proof {
            skel.lemma_wf_rect();
            lemma_count_set_clear(skel.cells(), y as int, x as int);
            if k == 0 {
                assert(list@.take(0) =~= Seq::<(usize, usize)>::empty());
                assert(skel.at(y as int, x as int));
            }
        }
        let ghost before = *skel;
        skel.set(y, x, false);
        proof {
            assert(list@.take(k + 1) =~= list@.take(k as int).push((y, x)));
            assert forall|a: int, b: int| skel.inside(a, b) implies #[trigger] skel.at(a, b) == (start.at(a, b) && !list@.take(k + 1).contains((a as usize, b as usize))) by {
                if list@.take(k as int).contains((a as usize, b as usize)) {
                    let q = choose|q: int| 0 <= q < k && #[trigger] list@.take(k as int)[q] == (a as usize, b as usize);
                    assert(list@.take(k + 1)[q] == (a as usize, b as usize));
                }
                if list@.take(k + 1).contains((a as usize, b as usize)) && !(a == y && b == x) {
                    let q = choose|q: int| 0 <= q < k + 1 && #[trigger] list@.take(k + 1)[q] == (a as usize, b as usize);
                    skel.lemma_wf_rect();
                    assert(0 <= a && 0 <= b);
                    assert(a as usize as int == a && b as usize as int == b);
                    if q == k {
                        assert(list@.take(k + 1)[q] == (y, x));
                        assert(false);
                    }
                    assert(list@.take(k as int)[q] == (a as usize, b as usize));
                }
                if a == y && b == x {
                    assert(list@.take(k + 1)[k as int] == (a as usize, b as usize));
                }
            }
        }
        k = k + 1;
    }
    proof {
        assert(list@.take(list@.len() as int) =~= list@);
    }
}

/// Zhang-Suen thinning: repeatedly removes, in two sub-iterations, the interior
/// pixels whose neighbourhood allows it, until the second sub-iteration finds
/// nothing to remove. The skeleton is the grid after the first sub-iteration of
/// the first pass whose second sub-iteration clears nothing; it is part of the
/// image, and no interior pixel of it may go in a second sub-iteration.
pub fn skeletonize(image: &Grid<bool>) -> (skel: Grid<bool>)
    requires
        image.wf(),
        image.nrows() >= 1,
        image.nrows() >= 3 ==> image.ncols() >= 1,
    ensures
        skel.wf(),
        skel.nrows() == image.nrows(),
        skel.ncols() == image.ncols(),
        exists|k: nat|
            {
                &&& skel.cells() == thin_step(
                    #[trigger] thin_iter(image.cells(), image.nrows(), image.ncols(), k),
                    image.nrows(),
                    image.ncols(),
                    false,
                )
                &&& forall|j: nat|
                    j < k ==> second_step_clears(
                        #[trigger] thin_iter(image.cells(), image.nrows(), image.ncols(), j),
                        image.nrows(),
                        image.ncols(),
                    )
            },
        thin_step(skel.cells(), skel.nrows(), skel.ncols(), true) == skel.cells(),
        forall|y: int, x: int| skel.inside(y, x) && #[trigger] skel.at(y, x) ==> image.at(y, x),
        forall|y: int, x: int|
            interior(skel.nrows() as int, skel.ncols() as int, y, x) && #[trigger] skel.at(y, x)
                ==> !deletable(neighbours(skel.cells(), y, x), true),
{
    let (h, w) = image.dim();
    let mut skel = Grid::filled(h, w, false);
    let mut y: usize = 0;
    while y < h
        invariant
            image.wf(),
            skel.wf(),
            h == image.nrows(),
            w == image.ncols(),
            skel.nrows() == h,
            skel.ncols() == w,
            y <= h,
            forall|a: int, b: int| skel.inside(a, b) ==> #[trigger] skel.at(a, b) == (a < y && image.at(a, b)),
        decreases h - y,
    {
        let mut x: usize = 0;
        while x < w
            invariant
                image.wf(),
                skel.wf(),
                h == image.nrows(),
                w == image.ncols(),
                skel.nrows() == h,
                skel.ncols() == w,
                y < h,
                x <= w,
                forall|a: int, b: int| skel.inside(a, b) ==> #[trigger] skel.at(a, b) == ((a < y || (a == y && b < x)) && image.at(a, b)),
            decreases w - x,
        {
            let v = image.get(y, x);
            skel.set(y, x, v);
            x = x + 1;
        }
        y = y + 1;
    }
    proof {
        image.lemma_wf_rect();
        lemma_grid_equals(skel, image.cells());
    }
    let ghost hn: nat = h as nat;
    let ghost wn: nat = w as nat;
    let ghost mut k: nat = 0;
    loop
        invariant_except_break
            skel.cells() == thin_iter(image.cells(), hn, wn, k),
        invariant
            image.wf(),
            skel.wf(),
            h == image.nrows(),
            w == image.ncols(),
            hn == h,
            wn == w,
            skel.nrows() == h,
            skel.ncols() == w,
            h >= 1,
            h >= 3 ==> w >= 1,
            forall|a: int, b: int| skel.inside(a, b) && #[trigger] skel.at(a, b) ==> image.at(a, b),
            forall|j: nat| j < k ==> second_step_clears(#[trigger] thin_iter(image.cells(), hn, wn, j), hn, wn),
        ensures
            skel.wf(),
            skel.nrows() == h,
            skel.ncols() == w,
            skel.cells() == thin_step(thin_iter(image.cells(), hn, wn, k), hn, wn, false),
            forall|j: nat| j < k ==> second_step_clears(#[trigger] thin_iter(image.cells(), hn, wn, j), hn, wn),
            thin_step(skel.cells(), hn, wn, true) == skel.cells(),
            forall|a: int, b: int| skel.inside(a, b) && #[trigger] skel.at(a, b) ==> image.at(a, b),
            forall|a: int, b: int|
                interior(h as int, w as int, a, b) && #[trigger] skel.at(a, b) ==> !deletable(neighbours(skel.cells(), a, b), true),
        decreases count_set(skel.cells()),
    {
        let ghost start = count_set(skel.cells());
        let ghost g0 = skel;
        let first = collect_deletable(&skel, false);
        clear_all(&mut skel, &first);
        proof {
            lemma_sub_iteration(g0, skel, first@, false);
        }
        let ghost g1 = skel;
        let second = collect_deletable(&skel, true);
        if second.len() == 0 {
            proof {
                assert forall|a: int, b: int|
                    interior(h as int, w as int, a, b) && #[trigger] skel.at(a, b) implies !deletable(neighbours(skel.cells(), a, b), true) by {
                    if deletable(neighbours(skel.cells(), a, b), true) {
                        assert(second@.contains((a as usize, b as usize)));
                    }
                }
                lemma_step_unchanged(skel, true);
            }
            break;
        }
        clear_all(&mut skel, &second);
        proof {
            lemma_sub_iteration(g1, skel, second@, true);
            let (y0, x0) = second@[0];
            assert(g1.at(y0 as int, x0 as int));
            assert(second@.contains((y0, x0)));
            assert(!skel.at(y0 as int, x0 as int));
            assert(skel.cells() != g1.cells());
            assert(thin_iter(image.cells(), hn, wn, k + 1) == thin_pass(thin_iter(image.cells(), hn, wn, k), hn, wn));
            assert(count_set(skel.cells()) < start);
            k = k + 1;
        }
    }
    skel
}

/// Clearing exactly the pixels that a sub-iteration selects performs it.
proof fn lemma_sub_iteration(before: Grid<bool>, after: Grid<bool>, list: Seq<(usize, usize)>, second: bool)
    requires
        before.wf(),
        after.wf(),
        after.nrows() == before.nrows(),
        after.ncols() == before.ncols(),
        forall|i: int| 0 <= i < list.len() ==> {
            let (y, x) = #[trigger] list[i];
            &&& interior(before.nrows() as int, before.ncols() as int, y as int, x as int)
            &&& before.at(y as int, x as int)
            &&& deletable(neighbours(before.cells(), y as int, x as int), second)
        },
        forall|y: int, x: int|
            interior(before.nrows() as int, before.ncols() as int, y, x) && #[trigger] before.at(y, x)
                && deletable(neighbours(before.cells(), y, x), second) ==> list.contains((y as usize, x as usize)),
        forall|y: int, x: int|
            after.inside(y, x) ==> #[trigger] after.at(y, x) == (before.at(y, x) && !list.contains((y as usize, x as usize))),
    ensures
        after.cells() == thin_step(before.cells(), before.nrows(), before.ncols(), second),
{
    let h = before.nrows();
    let w = before.ncols();
    let target = thin_step(before.cells(), h, w, second);
    before.lemma_wf_rect();
    assert forall|a: int, b: int| 0 <= a < h && 0 <= b < w implies #[trigger] after.at(a, b) == target[a][b] by {
        assert(after.inside(a, b));
        if list.contains((a as usize, b as usize)) {
            let i = choose|i: int| 0 <= i < list.len() && list[i] == (a as usize, b as usize);
            assert(list[i] == (a as usize, b as usize));
        }
    }
    lemma_grid_equals(after, target);
}

/// A sub-iteration that finds no pixel to clear leaves the grid as it is.
proof fn lemma_step_unchanged(g: Grid<bool>, second: bool)
    requires
        g.wf(),
        forall|a: int, b: int|
            interior(g.nrows() as int, g.ncols() as int, a, b) && #[trigger] g.at(a, b) ==> !deletable(neighbours(g.cells(), a, b), second),
    ensures
        thin_step(g.cells(), g.nrows(), g.ncols(), second) == g.cells(),
{
    let t = thin_step(g.cells(), g.nrows(), g.ncols(), second);
    g.lemma_wf_rect();
    assert forall|a: int| 0 <= a < g.nrows() implies #[trigger] t[a] =~= g.cells()[a] by {
        assert forall|b: int| 0 <= b < g.ncols() implies t[a][b] == g.cells()[a][b] by {
            assert(g.at(a, b) == g.cells()[a][b]);
        }
    }
    assert(t =~= g.cells());
}

/// Foreground pixels that have no label yet.
pub open spec fn pending(img: Seq<Seq<bool>>, lab: Seq<Seq<usize>>, h: nat, w: nat) -> Seq<Seq<bool>> {
    Seq::new(h, |r: int| Seq::new(w, |c: int| img[r][c] && lab[r][c] == 0))
}

/// The in-bounds 4-neighbours of `(r, c)` in an `h x w` grid, in the order up, down, left, right.
pub open spec fn neighbours4(r: usize, c: usize, h: usize, w: usize) -> Seq<(usize, usize)> {
    let up: Seq<(usize, usize)> = if r > 0 { seq![((r - 1) as usize, c)] } else { Seq::empty() };
    let down = if r + 1 < h { up.push(((r + 1) as usize, c)) } else { up };
    let left = if c > 0 { down.push((r, (c - 1) as usize)) } else { down };
    if c + 1 < w { left.push((r, (c + 1) as usize)) } else { left }
}

/// The listed neighbours are exactly the in-bounds 4-neighbours.
proof fn lemma_neighbours4(r: usize, c: usize, h: usize, w: usize)
    requires
        r < h,
        c < w,
    ensures
        neighbours4(r, c, h, w).len() <= 4,
        forall|k: int|
            0 <= k < neighbours4(r, c, h, w).len() ==> adjacent4(
                r as int,
                c as int,
                #[trigger] neighbours4(r, c, h, w)[k].0 as int,
                neighbours4(r, c, h, w)[k].1 as int,
            ) && neighbours4(r, c, h, w)[k].0 < h && neighbours4(r, c, h, w)[k].1 < w,
        forall|r2: int, c2: int|
            0 <= r2 < h && 0 <= c2 < w && adjacent4(r as int, c as int, r2, c2) ==> #[trigger] neighbours4(r, c, h, w).contains(
                (r2 as usize, c2 as usize),
            ),
{
    let nb = neighbours4(r, c, h, w);
    let up: int = if r > 0 { 1 } else { 0 };
    let down: int = if r + 1 < h { 1 } else { 0 };
    let left: int = if c > 0 { 1 } else { 0 };
    assert forall|r2: int, c2: int| 0 <= r2 < h && 0 <= c2 < w && adjacent4(r as int, c as int, r2, c2) implies #[trigger] nb.contains(
        (r2 as usize, c2 as usize),
    ) by {
        let k: int = if r2 == r - 1 {
            0
        } else if r2 == r + 1 {
            up
        } else if c2 == c - 1 {
            up + down
        } else {
            up + down + left
        };
        assert(nb[k] == (r2 as usize, c2 as usize));
    }
}

/// Pushes the in-bounds 4-neighbours of `(r, c)` onto `stack`.
fn push_neighbours(stack: &mut Vec<(usize, usize)>, r: usize, c: usize, h: usize, w: usize)
    requires
        r < h,
        c < w,
    ensures
        final(stack)@ == old(stack)@ + neighbours4(r, c, h, w),
{
    let ghost s0 = stack@;
    if r > 0 {
        stack.push((r - 1, c));
    }
    if r + 1 < h {
        stack.push((r + 1, c));
    }
    if c > 0 {
        stack.push((r, c - 1));
    }
    if c + 1 < w {
        stack.push((r, c + 1));
    }
    assert(stack@ =~= s0 + neighbours4(r, c, h, w));
}

/// Labels the 4-connected foreground region of `(sy, sx)` with `lab`.
fn flood(image: &Grid<bool>, labels: &mut Grid<usize>, sy: usize, sx: usize, lab: usize)
    requires
        image.wf(),
        old(labels).wf(),
        old(labels).nrows() == image.nrows(),
        old(labels).ncols() == image.ncols(),
        image.inside(sy as int, sx as int),
        image.at(sy as int, sx as int),
        old(labels).at(sy as int, sx as int) == 0,
        lab > 0,
        forall|r: int, c: int| image.inside(r, c) && #[trigger] old(labels).at(r, c) != 0 ==> image.at(r, c),
        forall|r: int, c: int| image.inside(r, c) ==> #[trigger] old(labels).at(r, c) < lab,
        closed_below(image.cells(), old(labels).cells(), image.nrows() as int, image.ncols() as int, lab as int),
    ensures
        final(labels).wf(),
        final(labels).nrows() == image.nrows(),
        final(labels).ncols() == image.ncols(),
        final(labels).at(sy as int, sx as int) == lab,
        forall|r: int, c: int| image.inside(r, c) && #[trigger] final(labels).at(r, c) != 0 ==> image.at(r, c),
        forall|r: int, c: int| image.inside(r, c) ==> #[trigger] final(labels).at(r, c) <= lab,
        forall|r: int, c: int|
            image.inside(r, c) ==> (#[trigger] final(labels).at(r, c) == old(labels).at(r, c) || (old(labels).at(r, c) == 0
                && final(labels).at(r, c) == lab)),
        closed_below(image.cells(), final(labels).cells(), image.nrows() as int, image.ncols() as int, lab + 1),
        forall|r: int, c: int|
            image.inside(r, c) && #[trigger] final(labels).at(r, c) == lab ==> connected(
                image.cells(),
                image.nrows() as int,
                image.ncols() as int,
                sy as int,
                sx as int,
                r,
                c,
            ),
{
    let (h, w) = image.dim();
    proof {
        image.lemma_wf_rect();
        labels.lemma_wf_rect();
    }
    let ghost start = *labels;
    let mut stack: Vec<(usize, usize)> = Vec::new();
    stack.push((sy, sx));
    let ghost img = image.cells();
    let ghost mut parents: Seq<(int, int)> = seq![(sy as int, sx as int)];
    while stack.len() > 0
        invariant
            image.wf(),
            labels.wf(),
            start.wf(),
            h == image.nrows(),
            w == image.ncols(),
            h <= usize::MAX,
            w <= usize::MAX,
            labels.nrows() == h,
            labels.ncols() == w,
            start.nrows() == h,
            start.ncols() == w,
            image.inside(sy as int, sx as int),
            image.at(sy as int, sx as int),
            lab > 0,
            forall|i: int| 0 <= i < stack@.len() ==> image.inside(#[trigger] stack@[i].0 as int, stack@[i].1 as int),
            labels.at(sy as int, sx as int) == lab || (stack@ == seq![(sy, sx)] && labels.at(sy as int, sx as int) == 0),
            forall|r: int, c: int| image.inside(r, c) && #[trigger] labels.at(r, c) != 0 ==> image.at(r, c),
            forall|r: int, c: int| image.inside(r, c) ==> #[trigger] labels.at(r, c) <= lab,
            forall|r: int, c: int|
                image.inside(r, c) ==> (#[trigger] labels.at(r, c) == start.at(r, c) || (start.at(r, c) == 0 && labels.at(r, c) == lab)),
            closed_below(image.cells(), labels.cells(), h as int, w as int, lab as int),
            forall|r1: int, c1: int, r2: int, c2: int|
                #![trigger labels.at(r1, c1), labels.at(r2, c2)]
                image.inside(r1, c1) && image.inside(r2, c2) && adjacent4(r1, c1, r2, c2) && labels.at(r1, c1) == lab
                    && image.at(r2, c2) ==> labels.at(r2, c2) == lab || stack@.contains((r2 as usize, c2 as usize)),
            img == image.cells(),
            forall|r: int, c: int|
                image.inside(r, c) && #[trigger] labels.at(r, c) == lab ==> connected(img, h as int, w as int, sy as int, sx as int, r, c),
            parents.len() == stack@.len(),
            forall|i: int|
                0 <= i < parents.len() ==> stack@[i] == (sy, sx) || (image.inside(#[trigger] parents[i].0, parents[i].1)
                    && labels.at(parents[i].0, parents[i].1) == lab && adjacent4(
                    parents[i].0,
                    parents[i].1,
                    stack@[i].0 as int,
                    stack@[i].1 as int,
                )),
        decreases 5 * count_set(pending(image.cells(), labels.cells(), h as nat, w as nat)) + stack@.len(),
    {
        let ghost prev = *labels;
        let ghost old_stack = stack@;
        let ghost old_parents = parents;
        let (r, c) = stack.pop().unwrap();
        let ghost par = parents.last();
        proof {
            assert(stack@.len() + 1 == parents.len());
            assert(old_stack[old_stack.len() - 1] == (r, c));
            parents = parents.drop_last();
            assert forall|i: int| 0 <= i < parents.len() implies stack@[i] == old_stack[i] by {
            }
            assert(old_stack == stack@.push((r, c)));
            assert(image.inside(r as int, c as int)) by {
                assert(old_stack[old_stack.len() - 1] == (r, c));
            }
        }
        if r >= h || c >= w || !image.get(r, c) || labels.get(r, c) != 0 {
            proof {
                assert forall|r1: int, c1: int, r2: int, c2: int|
                    #![trigger labels.at(r1, c1), labels.at(r2, c2)]
                    image.inside(r1, c1) && image.inside(r2, c2) && adjacent4(r1, c1, r2, c2) && labels.at(r1, c1) == lab
                        && image.at(r2, c2) implies labels.at(r2, c2) == lab || stack@.contains((r2 as usize, c2 as usize)) by {
                    assert(old_stack.contains((r2 as usize, c2 as usize)) || labels.at(r2, c2) == lab);
                    if labels.at(r2, c2) != lab && old_stack.contains((r2 as usize, c2 as usize)) {
                        let k = choose|k: int| 0 <= k < old_stack.len() && old_stack[k] == (r2 as usize, c2 as usize);
                        if k < stack@.len() {
                            assert(stack@[k] == (r2 as usize, c2 as usize));
                        } else {
                            assert(r2 as usize == r && c2 as usize == c);
                            assert(r2 == r as int && c2 == c as int);
                            assert(labels.at(r2, c2) != 0);
                            assert(labels.cells()[r2][c2] == labels.at(r2, c2));
                            assert(labels.cells()[r1][c1] == labels.at(r1, c1));
                            assert(adjacent4(r2, c2, r1, c1));
                            assert(image.cells()[r1][c1]);
                            assert(false);
                        }
                    }
                }
                if labels.at(sy as int, sx as int) != lab {
                    assert(false);
                }
                assert forall|i: int| 0 <= i < parents.len() implies stack@[i] == (sy, sx) || (image.inside(
                    #[trigger] parents[i].0,
                    parents[i].1,
                ) && labels.at(parents[i].0, parents[i].1) == lab && adjacent4(
                    parents[i].0,
                    parents[i].1,
                    stack@[i].0 as int,
                    stack@[i].1 as int,
                )) by {
                    assert(parents[i] == old_parents[i]);
                }
            }
            continue;
        }
        proof {
            assert(labels.at(r as int, c as int) == 0);
            assert(fg(img, h as int, w as int, r as int, c as int));
            if (r, c) == (sy, sx) {
                lemma_connected_refl(img, h as int, w as int, r as int, c as int);
            } else {
                let k = old_stack.len() - 1;
                assert(parents.push(par)[k] == par);
                assert(image.inside(par.0, par.1));
                assert(labels.at(par.0, par.1) == lab);
                lemma_connected_extend(img, h as int, w as int, sy as int, sx as int, par.0, par.1, r as int, c as int);
            }
        }
        labels.set(r, c, lab);
        proof {
            let pb = pending(image.cells(), prev.cells(), h as nat, w as nat);
            let pa = pending(image.cells(), labels.cells(), h as nat, w as nat);
            assert(pb[r as int][c as int]);
            assert(pa =~= pb.update(r as int, pb[r as int].update(c as int, false))) by {
                assert forall|i: int| 0 <= i < h implies #[trigger] pa[i] =~= pb.update(r as int, pb[r as int].update(c as int, false))[i] by {
                    assert forall|j: int| 0 <= j < w implies pa[i][j] == pb.update(r as int, pb[r as int].update(c as int, false))[i][j] by {
                        assert(labels.at(i, j) == labels.cells()[i][j]);
                        assert(prev.at(i, j) == prev.cells()[i][j]);
                    }
                }
            }
            lemma_count_set_clear(pb, r as int, c as int);
        }
        let ghost mid = stack@;
        let ghost mid_par = parents;
        push_neighbours(&mut stack, r, c, h, w);
        let ghost nb = neighbours4(r, c, h, w);
        proof {
            lemma_neighbours4(r, c, h, w);
            parents = mid_par + Seq::new(nb.len(), |k: int| (r as int, c as int));
        }
        proof {
            assert(stack@.len() <= mid.len() + 4);
            assert forall|i: int| 0 <= i < parents.len() implies stack@[i] == (sy, sx) || (image.inside(
                #[trigger] parents[i].0,
                parents[i].1,
            ) && labels.at(parents[i].0, parents[i].1) == lab && adjacent4(
                parents[i].0,
                parents[i].1,
                stack@[i].0 as int,
                stack@[i].1 as int,
            )) by {
                if i < mid.len() {
                    assert(stack@[i] == mid[i]);
                    assert(parents[i] == old_parents[i]);
                    assert(mid[i] == old_stack[i]);
                    if mid[i] != (sy, sx) {
                        assert(prev.at(parents[i].0, parents[i].1) == lab);
                    }
                } else {
                    assert(stack@[i] == nb[i - mid.len()]);
                    assert(parents[i] == (r as int, c as int));
                }
            }
            assert forall|k: int| 0 <= k < mid.len() implies stack@.contains(#[trigger] mid[k]) by {
                assert(stack@[k] == mid[k]);
            }
            assert forall|k: int| 0 <= k < nb.len() implies stack@.contains(#[trigger] nb[k]) by {
                assert(stack@[mid.len() + k] == nb[k]);
            }
            assert forall|i: int| 0 <= i < stack@.len() implies image.inside(#[trigger] stack@[i].0 as int, stack@[i].1 as int) by {
                if i < mid.len() {
                    assert(stack@[i] == mid[i]);
                } else {
                    assert(stack@[i] == nb[i - mid.len()]);
                }
            }
            assert forall|r2: int, c2: int| image.inside(r2, c2) && adjacent4(r as int, c as int, r2, c2) implies #[trigger] stack@.contains((r2 as usize, c2 as usize)) by {
                let t = (r2 as usize, c2 as usize);
                assert(nb.contains(t));
                let k = choose|k: int| 0 <= k < nb.len() && nb[k] == t;
                assert(nb[k] == t);
                assert(stack@.contains(nb[k]));
            }
            assert forall|r1: int, c1: int, r2: int, c2: int|
                #![trigger labels.at(r1, c1), labels.at(r2, c2)]
                image.inside(r1, c1) && image.inside(r2, c2) && adjacent4(r1, c1, r2, c2) && labels.at(r1, c1) == lab
                    && image.at(r2, c2) implies labels.at(r2, c2) == lab || stack@.contains((r2 as usize, c2 as usize)) by {
                if r1 == r as int && c1 == c as int {
                    assert(stack@.contains((r2 as usize, c2 as usize)));
                } else if !(r2 == r as int && c2 == c as int) {
                    assert(prev.at(r1, c1) == lab);
                    assert(prev.at(r2, c2) == labels.at(r2, c2));
                    if labels.at(r2, c2) != lab {
                        assert(old_stack.contains((r2 as usize, c2 as usize)));
                        let k = choose|k: int| 0 <= k < old_stack.len() && old_stack[k] == (r2 as usize, c2 as usize);
                        if k < mid.len() {
                            assert(mid[k] == (r2 as usize, c2 as usize));
                            assert(stack@.contains(mid[k]));
                        } else {
                            assert(r2 == r as int && c2 == c as int);
                        }
                    }
                }
            }
            assert forall|r1: int, c1: int, r2: int, c2: int|
                #![trigger labels.cells()[r1][c1], labels.cells()[r2][c2]]
                0 <= r1 < h && 0 <= c1 < w && 0 <= r2 < h && 0 <= c2 < w && adjacent4(r1, c1, r2, c2) && 0 < labels.cells()[r1][c1] < lab
                    && image.cells()[r2][c2] implies labels.cells()[r2][c2] == labels.cells()[r1][c1] by {
                assert(labels.cells()[r1][c1] == labels.at(r1, c1));
                assert(labels.cells()[r2][c2] == labels.at(r2, c2));
                assert(prev.cells()[r1][c1] == prev.at(r1, c1));
                assert(prev.cells()[r2][c2] == prev.at(r2, c2));
                if r2 == r as int && c2 == c as int {
                    assert(prev.at(r2, c2) == 0);
                    assert(false);
                }
            }
        }
    }
    proof {
        assert forall|r1: int, c1: int, r2: int, c2: int|
            #![trigger labels.cells()[r1][c1], labels.cells()[r2][c2]]
            0 <= r1 < h && 0 <= c1 < w && 0 <= r2 < h && 0 <= c2 < w && adjacent4(r1, c1, r2, c2) && 0 < labels.cells()[r1][c1] < lab + 1
                && image.cells()[r2][c2] implies labels.cells()[r2][c2] == labels.cells()[r1][c1] by {
            assert(labels.cells()[r1][c1] == labels.at(r1, c1));
            assert(labels.cells()[r2][c2] == labels.at(r2, c2));
            if labels.at(r1, c1) == lab {
                assert(image.at(r2, c2));
                assert(!stack@.contains((r2 as usize, c2 as usize)));
            }
        }
    }
}


/// The state of the raster scan of `label` just prev pixel `(y, x)`: `n` regions have been
/// flooded from the seeds `seeds`, in raster order, and every foreground pixel prev `(y, x)`
/// already carries a label.
spec fn label_scan(image: Grid<bool>, labels: Grid<usize>, y: int, x: int, n: int, seeds: Seq<(int, int)>) -> bool {
    let h = image.nrows() as int;
    let w = image.ncols() as int;
    let img = image.cells();
    &&& labels.wf()
    &&& labels.nrows() == image.nrows()
    &&& labels.ncols() == image.ncols()
    &&& forall|r: int, c: int| image.inside(r, c) && #[trigger] labels.at(r, c) != 0 ==> image.at(r, c)
    &&& forall|r: int, c: int| image.inside(r, c) ==> #[trigger] labels.at(r, c) <= n
    &&& closed_below(img, labels.cells(), h, w, n + 1)
    &&& seeds.len() == n
    &&& forall|k: int|
        0 <= k < n ==> image.inside(#[trigger] seeds[k].0, seeds[k].1) && labels.at(seeds[k].0, seeds[k].1) == k + 1
            && before(seeds[k].0, seeds[k].1, y, x)
    &&& forall|r: int, c: int|
        image.inside(r, c) && #[trigger] labels.at(r, c) != 0 ==> connected(
            img,
            h,
            w,
            seeds[labels.at(r, c) - 1].0,
            seeds[labels.at(r, c) - 1].1,
            r,
            c,
        ) && !before(r, c, seeds[labels.at(r, c) - 1].0, seeds[labels.at(r, c) - 1].1)
    &&& forall|k1: int, k2: int|
        0 <= k1 < k2 < n ==> before(#[trigger] seeds[k1].0, seeds[k1].1, #[trigger] seeds[k2].0, seeds[k2].1)
    &&& forall|r: int, c: int| image.inside(r, c) && before(r, c, y, x) && image.at(r, c) ==> #[trigger] labels.at(r, c) != 0
}

/// Flooding a fresh region from the unlabelled foreground pixel `(y, x)` moves the scan one pixel on.
proof fn lemma_scan_flood(
    image: Grid<bool>,
    l0: Grid<usize>,
    l1: Grid<usize>,
    y: int,
    x: int,
    n: int,
    seeds: Seq<(int, int)>,
)
    requires
        image.wf(),
        label_scan(image, l0, y, x, n, seeds),
        image.inside(y, x),
        image.at(y, x),
        l0.at(y, x) == 0,
        l1.wf(),
        l1.nrows() == image.nrows(),
        l1.ncols() == image.ncols(),
        l1.at(y, x) == n + 1,
        forall|r: int, c: int| image.inside(r, c) && #[trigger] l1.at(r, c) != 0 ==> image.at(r, c),
        forall|r: int, c: int| image.inside(r, c) ==> #[trigger] l1.at(r, c) <= n + 1,
        forall|r: int, c: int|
            image.inside(r, c) ==> (#[trigger] l1.at(r, c) == l0.at(r, c) || (l0.at(r, c) == 0 && l1.at(r, c) == n + 1)),
        closed_below(image.cells(), l1.cells(), image.nrows() as int, image.ncols() as int, n + 2),
        forall|r: int, c: int|
            image.inside(r, c) && #[trigger] l1.at(r, c) == n + 1 ==> connected(
                image.cells(),
                image.nrows() as int,
                image.ncols() as int,
                y,
                x,
                r,
                c,
            ),
    ensures
        label_scan(image, l1, y, x + 1, n + 1, seeds.push((y, x))),
{
    let s2 = seeds.push((y, x));
    assert forall|k: int| 0 <= k < n + 1 implies image.inside(#[trigger] s2[k].0, s2[k].1) && l1.at(s2[k].0, s2[k].1) == k + 1
        && before(s2[k].0, s2[k].1, y, x + 1) by {
        if k < n {
            assert(s2[k] == seeds[k]);
            assert(image.inside(seeds[k].0, seeds[k].1));
            assert(l0.at(seeds[k].0, seeds[k].1) == k + 1);
        }
    }
    assert forall|r: int, c: int| image.inside(r, c) && #[trigger] l1.at(r, c) != 0 implies connected(
        image.cells(),
        image.nrows() as int,
        image.ncols() as int,
        s2[l1.at(r, c) - 1].0,
        s2[l1.at(r, c) - 1].1,
        r,
        c,
    ) && !before(r, c, s2[l1.at(r, c) - 1].0, s2[l1.at(r, c) - 1].1) by {
        if l1.at(r, c) == n + 1 {
            assert(s2[n] == (y, x));
            if l0.at(r, c) != 0 {
                assert(l0.at(r, c) <= n);
            }
            if before(r, c, y, x) {
                assert(l0.at(r, c) != 0);
            }
        } else {
            assert(l1.at(r, c) == l0.at(r, c));
            assert(s2[l1.at(r, c) - 1] == seeds[l0.at(r, c) - 1]);
        }
    }
    assert forall|k1: int, k2: int| 0 <= k1 < k2 < n + 1 implies before(
        #[trigger] s2[k1].0,
        s2[k1].1,
        #[trigger] s2[k2].0,
        s2[k2].1,
    ) by {
        assert(s2[k1] == seeds[k1]);
        assert(image.inside(seeds[k1].0, seeds[k1].1));
        if k2 < n {
            assert(s2[k2] == seeds[k2]);
            assert(before(seeds[k1].0, seeds[k1].1, seeds[k2].0, seeds[k2].1));
        }
    }
    assert forall|r: int, c: int| image.inside(r, c) && before(r, c, y, x + 1) && image.at(r, c) implies #[trigger] l1.at(
        r,
        c,
    ) != 0 by {
        if before(r, c, y, x) {
            assert(l0.at(r, c) != 0);
        }
    }
}

/// Passing over a background or already labelled pixel moves the scan one pixel on.
proof fn lemma_scan_skip(image: Grid<bool>, l: Grid<usize>, y: int, x: int, n: int, seeds: Seq<(int, int)>)
    requires
        label_scan(image, l, y, x, n, seeds),
        image.inside(y, x),
        !(image.at(y, x) && l.at(y, x) == 0),
    ensures
        label_scan(image, l, y, x + 1, n, seeds),
{
    assert forall|k: int| 0 <= k < n implies image.inside(#[trigger] seeds[k].0, seeds[k].1) && l.at(seeds[k].0, seeds[k].1) == k
        + 1 && before(seeds[k].0, seeds[k].1, y, x + 1) by {
        assert(image.inside(seeds[k].0, seeds[k].1));
    }
    assert forall|r: int, c: int| image.inside(r, c) && before(r, c, y, x + 1) && image.at(r, c) implies #[trigger] l.at(r, c)
        != 0 by {
        if before(r, c, y, x) {
            assert(l.at(r, c) != 0);
        }
    }
}

/// The end of one row is the start of the next.
proof fn lemma_scan_row(image: Grid<bool>, l: Grid<usize>, y: int, n: int, seeds: Seq<(int, int)>)
    requires
        label_scan(image, l, y, image.ncols() as int, n, seeds),
    ensures
        label_scan(image, l, y + 1, 0, n, seeds),
{
    assert forall|k: int| 0 <= k < n implies image.inside(#[trigger] seeds[k].0, seeds[k].1) && l.at(seeds[k].0, seeds[k].1) == k
        + 1 && before(seeds[k].0, seeds[k].1, y + 1, 0) by {
        assert(image.inside(seeds[k].0, seeds[k].1));
    }
    assert forall|r: int, c: int| image.inside(r, c) && before(r, c, y + 1, 0) && image.at(r, c) implies #[trigger] l.at(r, c)
        != 0 by {
        assert(before(r, c, y, image.ncols() as int));
    }
}

/// A finished scan labels the connected components.
proof fn lemma_scan_done(image: Grid<bool>, l: Grid<usize>, n: int, seeds: Seq<(int, int)>)
    requires
        image.wf(),
        label_scan(image, l, image.nrows() as int, 0, n, seeds),
    ensures
        labels_components(image.cells(), l.cells(), image.nrows() as int, image.ncols() as int, n),
{
    let h = image.nrows() as int;
    let w = image.ncols() as int;
    let img = image.cells();
    let lab = l.cells();
    assert forall|r: int, c: int| 0 <= r < h && 0 <= c < w implies (#[trigger] lab[r][c] != 0) == img[r][c] by {
        assert(lab[r][c] == l.at(r, c));
        assert(img[r][c] == image.at(r, c));
        assert(before(r, c, h, 0));
    }
    assert forall|r: int, c: int| 0 <= r < h && 0 <= c < w implies #[trigger] lab[r][c] <= n by {
        assert(lab[r][c] == l.at(r, c));
    }
    assert forall|r1: int, c1: int, r2: int, c2: int| #[trigger] connected(img, h, w, r1, c1, r2, c2) implies lab[r1][c1]
        == lab[r2][c2] by {
        let p = choose|p: Seq<(int, int)>| #[trigger]
            fg_path(img, h, w, p) && p[0] == (r1, c1) && p[p.len() - 1] == (r2, c2);
        assert(fg(img, h, w, p[0].0, p[0].1));
        assert(lab[r1][c1] == l.at(r1, c1));
        assert(before(r1, c1, h, 0));
        assert(image.at(r1, c1));
        lemma_closed_connected(img, lab, h, w, n + 1, r1, c1, r2, c2);
    }
    assert forall|r1: int, c1: int, r2: int, c2: int|
        #![trigger lab[r1][c1], lab[r2][c2]]
        0 <= r1 < h && 0 <= c1 < w && 0 <= r2 < h && 0 <= c2 < w && lab[r1][c1] != 0 && lab[r1][c1] == lab[r2][c2] implies connected(
        img,
        h,
        w,
        r1,
        c1,
        r2,
        c2,
    ) by {
        assert(lab[r1][c1] == l.at(r1, c1));
        assert(lab[r2][c2] == l.at(r2, c2));
        let s = seeds[l.at(r1, c1) - 1];
        assert(connected(img, h, w, s.0, s.1, r1, c1));
        assert(connected(img, h, w, s.0, s.1, r2, c2));
        lemma_connected_sym(img, h, w, s.0, s.1, r1, c1);
        lemma_connected_trans(img, h, w, r1, c1, s.0, s.1, r2, c2);
    }
    assert forall|k: int| 1 <= k <= n implies #[trigger] has_label(lab, h, w, k) by {
        let s = seeds[k - 1];
        assert(image.inside(s.0, s.1));
        assert(lab[s.0][s.1] == l.at(s.0, s.1));
    }
    assert forall|r2: int, c2: int| 0 <= r2 < h && 0 <= c2 < w && 1 < #[trigger] lab[r2][c2] implies exists|r1: int, c1: int|
        0 <= r1 < h && 0 <= c1 < w && before(r1, c1, r2, c2) && #[trigger] lab[r1][c1] == lab[r2][c2] - 1 by {
        assert(lab[r2][c2] == l.at(r2, c2));
        let k = l.at(r2, c2) - 1;
        let s = seeds[k];
        let t = seeds[k - 1];
        assert(image.inside(t.0, t.1));
        assert(before(t.0, t.1, s.0, s.1));
        assert(!before(r2, c2, s.0, s.1));
        assert(lab[t.0][t.1] == l.at(t.0, t.1));
        assert(before(t.0, t.1, r2, c2));
    }
}

/// Labels the 4-connected components of the foreground, numbering them `1..=n` in the raster
/// order of their first pixels; background pixels get `0`. Returns the labels and `n`.
pub fn label(image: &Grid<bool>) -> (res: (Grid<usize>, usize))
    requires
        image.wf(),
        image.nrows() * image.ncols() <= usize::MAX,
    ensures
        res.0.wf(),
        res.0.nrows() == image.nrows(),
        res.0.ncols() == image.ncols(),
        labels_components(image.cells(), res.0.cells(), image.nrows() as int, image.ncols() as int, res.1 as int),
{
    let (h, w) = image.dim();
    proof {
        image.lemma_wf_rect();
    }
    let mut labels: Grid<usize> = Grid::filled(h, w, 0);
    let mut current: usize = 0;
    let ghost mut seeds: Seq<(int, int)> = Seq::empty();
    proof {
        labels.lemma_wf_rect();
        assert(closed_below(image.cells(), labels.cells(), h as int, w as int, 1)) by {
            assert forall|r1: int, c1: int| 0 <= r1 < h && 0 <= c1 < w implies labels.cells()[r1][c1] == 0 by {
                assert(labels.at(r1, c1) == 0);
            }
        }
    }
    let mut y: usize = 0;
    while y < h
        invariant
            image.wf(),
            h == image.nrows(),
            w == image.ncols(),
            h * w <= usize::MAX,
            y <= h,
            label_scan(*image, labels, y as int, 0, current as int, seeds),
            current <= y * w,
        decreases h - y,
    {
        let mut x: usize = 0;
        while x < w
            invariant
                image.wf(),
                h == image.nrows(),
                w == image.ncols(),
                h * w <= usize::MAX,
                y < h,
                x <= w,
                label_scan(*image, labels, y as int, x as int, current as int, seeds),
                current <= y * w + x,
            decreases w - x,
        {
            proof {
                assert(y * w + x < h * w) by (nonlinear_arith)
                    requires
                        y < h,
                        x < w,
                ;
            }
            if image.get(y, x) && labels.get(y, x) == 0 {
                current += 1;
                let ghost l0 = labels;
                flood(image, &mut labels, y, x, current);
                proof {
                    lemma_scan_flood(*image, l0, labels, y as int, x as int, (current - 1) as int, seeds);
                    seeds = seeds.push((y as int, x as int));
                }
            } else {
                proof {
                    lemma_scan_skip(*image, labels, y as int, x as int, current as int, seeds);
                }
            }
            x += 1;
        }
        proof {
            lemma_scan_row(*image, labels, y as int, current as int, seeds);
            assert(y * w + w == (y + 1) * w) by (nonlinear_arith);
        }
        y += 1;
    }
    proof {
        lemma_scan_done(*image, labels, current as int, seeds);
    }
    (labels, current)
}

} // verus!
