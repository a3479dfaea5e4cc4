//! Histogram equalization of 8-bit images.
use crate::grid::Grid;
use vstd::prelude::*;

verus! {

/// Number of pixels before `(r, c)` in raster order, in a grid of width `w`, whose value is
/// `v` (or at most `v` when `at_most` is set).
pub open spec fn count_px(cells: Seq<Seq<u8>>, w: int, v: int, at_most: bool, r: int, c: int) -> nat
    decreases r, c,
{
    if c <= 0 {
        if r <= 0 {
            0
        } else {
            count_px(cells, w, v, at_most, r - 1, w)
        }
    } else {
        count_px(cells, w, v, at_most, r, c - 1) + if (if at_most {
            cells[r][c - 1] <= v
        } else {
            cells[r][c - 1] == v
        }) {
            1nat
        } else {
            0nat
        }
    }
}

/// Number of pixels of the `h x w` image whose value is at most `v`.
pub open spec fn cdf_count(cells: Seq<Seq<u8>>, h: int, w: int, v: int) -> nat {
    count_px(cells, w, v, true, h, 0)
}

/// `n * 255 / total`, rounded to the nearest integer (halves up).
pub open spec fn scaled_round(n: int, total: int) -> int {
    (2 * 255 * n + total) / (2 * total)
}

/// Counting pixels at most `v` splits into those at most `v - 1` and those equal to `v`.
proof fn lemma_count_split(cells: Seq<Seq<u8>>, w: int, v: int, r: int, c: int)
    requires
        0 <= r,
        0 <= c <= w,
    ensures
        count_px(cells, w, v, true, r, c) == count_px(cells, w, v - 1, true, r, c) + count_px(cells, w, v, false, r, c),
    decreases r, c,
{
    if c > 0 {
        lemma_count_split(cells, w, v, r, c - 1);
    } else if r > 0 {
        lemma_count_split(cells, w, v, r - 1, w);
    }
}

/// No pixel value lies below zero.
proof fn lemma_count_negative(cells: Seq<Seq<u8>>, w: int, r: int, c: int)
    requires
        0 <= r,
        0 <= c <= w,
    ensures
        count_px(cells, w, -1, true, r, c) == 0,
    decreases r, c,
{
    if c > 0 {
        lemma_count_negative(cells, w, r, c - 1);
    } else if r > 0 {
        lemma_count_negative(cells, w, r - 1, w);
    }
}

/// Every pixel value is at most 255.
proof fn lemma_count_all(cells: Seq<Seq<u8>>, w: int, r: int, c: int, v: int)
    requires
        0 <= r,
        0 <= c <= w,
        255 <= v,
    ensures
        count_px(cells, w, v, true, r, c) <= r * w + c,
    decreases r, c,
{
    if c > 0 {
        lemma_count_all(cells, w, r, c - 1, v);
    } else if r > 0 {
        lemma_count_all(cells, w, r - 1, w, v);
        assert((r - 1) * w + w == r * w) by (nonlinear_arith);
    }
}

/// Fewer than `r * w + c` pixels come before `(r, c)`.
proof fn lemma_count_le_position(cells: Seq<Seq<u8>>, w: int, v: int, at_most: bool, r: int, c: int)
    requires
        0 <= r,
        0 <= c <= w,
    ensures
        count_px(cells, w, v, at_most, r, c) <= r * w + c,
    decreases r, c,
{
    if c > 0 {
        lemma_count_le_position(cells, w, v, at_most, r, c - 1);
    } else if r > 0 {
        lemma_count_le_position(cells, w, v, at_most, r - 1, w);
        assert((r - 1) * w + w == r * w) by (nonlinear_arith);
    }
}

/// Histogram equalization: each pixel of value `v` becomes `255 * (number of pixels <= v) / (number
/// of pixels)`, rounded to the nearest integer.
pub fn equalize_hist(image: &Grid<u8>) -> (out: Grid<u8>)
    requires
        image.wf(),
        image.nrows() * image.ncols() <= usize::MAX,
    ensures
        out.wf(),
        out.nrows() == image.nrows(),
        out.ncols() == image.ncols(),
        forall|r: int, c: int|
            image.inside(r, c) ==> #[trigger] out.at(r, c) == scaled_round(
                cdf_count(image.cells(), image.nrows() as int, image.ncols() as int, image.at(r, c) as int) as int,
                (image.nrows() * image.ncols()) as int,
            ),
{
    let (height, width) = image.dim();
    proof {
        image.lemma_wf_rect();
    }
    let ghost cells = image.cells();
    let mut hist: Vec<usize> = Vec::new();
    let mut v: usize = 0;
    while v < 256
        invariant
            v <= 256,
            hist@.len() == v,
            forall|k: int| 0 <= k < v ==> #[trigger] hist@[k] == 0,
        decreases 256 - v,
    {
        hist.push(0);
        v = v + 1;
    }
    let mut y: usize = 0;
    while y < height
        invariant
            image.wf(),
            cells == image.cells(),
            height == image.nrows(),
            width == image.ncols(),
            height * width <= usize::MAX,
            y <= height,
            hist@.len() == 256,
            forall|k: int| 0 <= k < 256 ==> #[trigger] hist@[k] == count_px(cells, width as int, k, false, y as int, 0),
        decreases height - y,
    {
        let mut x: usize = 0;
        while x < width
            invariant
                image.wf(),
                cells == image.cells(),
                height == image.nrows(),
                width == image.ncols(),
                height * width <= usize::MAX,
                y < height,
                x <= width,
                hist@.len() == 256,
                forall|k: int|
                    0 <= k < 256 ==> #[trigger] hist@[k] == count_px(cells, width as int, k, false, y as int, x as int),
            decreases width - x,
        {
            let p = image.get(y, x);
            proof {
                lemma_count_le_position(cells, width as int, p as int, false, y as int, x as int);
                assert(y * width + x < height * width) by (nonlinear_arith)
                    requires
                        y < height,
                        x < width,
                ;
                assert(hist@[p as int] == count_px(cells, width as int, p as int, false, y as int, x as int));
            }
            let count = hist[p as usize];
            hist.set(p as usize, count + 1);
            proof {
                assert forall|k: int| 0 <= k < 256 implies #[trigger] hist@[k] == count_px(
                    cells,
                    width as int,
                    k,
                    false,
                    y as int,
                    x + 1,
                ) by {
                    assert(cells[y as int][x as int] == p);
                }
            }
            x = x + 1;
        }
        y = y + 1;
    }
    let total = height * width;
    proof {
        lemma_count_negative(cells, width as int, height as int, 0);
    }
    let mut mapping: Vec<u8> = Vec::new();
    let mut cdf: usize = 0;
    let mut i: usize = 0;
    while i < 256
        invariant
            height * width <= usize::MAX,
            total == height * width,
            i <= 256,
            hist@.len() == 256,
            forall|k: int| 0 <= k < 256 ==> #[trigger] hist@[k] == count_px(cells, width as int, k, false, height as int, 0),
            cdf == count_px(cells, width as int, i - 1, true, height as int, 0),
            mapping@.len() == i,
            total > 0 ==> forall|k: int|
                0 <= k < i ==> #[trigger] mapping@[k] == scaled_round(
                    count_px(cells, width as int, k, true, height as int, 0) as int,
                    total as int,
                ),
        decreases 256 - i,
    {
        proof {
            lemma_count_split(cells, width as int, i as int, height as int, 0);
            lemma_count_all(cells, width as int, height as int, 0, 255);
            lemma_count_split_mono(cells, width as int, i as int, height as int);
        }
        cdf = cdf + hist[i];
        let value: u8 = if total > 0 {
            let num: u128 = (cdf as u128) * 510 + (total as u128);
            let den: u128 = 2 * (total as u128);
            proof {
                assert(cdf <= total);
                assert(num / den < 256) by (nonlinear_arith)
                    requires
                        num == cdf * 510 + total,
                        den == 2 * total,
                        cdf <= total,
                        total > 0,
                ;
            }
            proof {
                assert(cdf == count_px(cells, width as int, i as int, true, height as int, 0));
                assert(num / den == scaled_round(cdf as int, total as int)) by (nonlinear_arith)
                    requires
                        num == cdf * 510 + total,
                        den == 2 * total,
                        total > 0,
                ;
            }
            (num / den) as u8
        } else {
            0
        };
        let ghost before = mapping@;
        mapping.push(value);
        proof {
            assert(mapping@[i as int] == value);
            assert forall|k: int| 0 <= k < i implies #[trigger] mapping@[k] == before[k] by {
            }
        }
        i = i + 1;
    }
    let mut out: Grid<u8> = Grid::filled(height, width, 0);
    let mut y: usize = 0;
    while y < height
        invariant
            image.wf(),
            cells == image.cells(),
            height == image.nrows(),
            width == image.ncols(),
            total == height * width,
            y <= height,
            mapping@.len() == 256,
            total > 0 ==> forall|k: int|
                0 <= k < 256 ==> #[trigger] mapping@[k] == scaled_round(
                    count_px(cells, width as int, k, true, height as int, 0) as int,
                    total as int,
                ),
            out.wf(),
            out.nrows() == height,
            out.ncols() == width,
            forall|a: int, b: int| image.inside(a, b) && a < y ==> #[trigger] out.at(a, b) == mapping@[image.at(a, b) as int],
        decreases height - y,
    {
        let mut x: usize = 0;
        while x < width
            invariant
                image.wf(),
                cells == image.cells(),
                height == image.nrows(),
                width == image.ncols(),
                y < height,
                x <= width,
                mapping@.len() == 256,
                out.wf(),
                out.nrows() == height,
                out.ncols() == width,
                forall|a: int, b: int|
                    image.inside(a, b) && (a < y || (a == y && b < x)) ==> #[trigger] out.at(a, b) == mapping@[image.at(
                        a,
                        b,
                    ) as int],
            decreases width - x,
        {
            let p = image.get(y, x);
            out.set(y, x, mapping[p as usize]);
            x = x + 1;
        }
        y = y + 1;
    }
    proof {
        assert forall|r: int, c: int| image.inside(r, c) implies #[trigger] out.at(r, c) == scaled_round(
            cdf_count(cells, height as int, width as int, image.at(r, c) as int) as int,
            (height * width) as int,
        ) by {
            assert(total > 0) by (nonlinear_arith)
                requires
                    0 <= r < height,
                    0 <= c < width,
                    total == height * width,
            ;
        }
    }
    out
}

/// The count of pixels at most `i` is at most the count of all pixels.
proof fn lemma_count_split_mono(cells: Seq<Seq<u8>>, w: int, i: int, h: int)
    requires
        0 <= h,
        0 <= w,
        0 <= i <= 255,
    ensures
        count_px(cells, w, i, true, h, 0) <= count_px(cells, w, 255, true, h, 0),
    decreases 255 - i,
{
    if i < 255 {
        lemma_count_split_mono(cells, w, i + 1, h);
        lemma_count_split(cells, w, i + 1, h, 0);
    }
}

} // verus!
