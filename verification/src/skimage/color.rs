//! Color conversions of 8-bit images.
use crate::grid::Grid;
use vstd::prelude::*;

verus! {

/// The RGB image with each gray value in all three channels.
pub fn gray2rgb(gray: &Grid<u8>) -> (rgb: Grid<(u8, u8, u8)>)
    requires
        gray.wf(),
    ensures
        rgb.wf(),
        rgb.nrows() == gray.nrows(),
        rgb.ncols() == gray.ncols(),
        forall|r: int, c: int| rgb.inside(r, c) ==> #[trigger] rgb.at(r, c) == (gray.at(r, c), gray.at(r, c), gray.at(r, c)),
{
    let (height, width) = gray.dim();
    let mut rgb: Grid<(u8, u8, u8)> = Grid::filled(height, width, (0, 0, 0));
    let mut r: usize = 0;
    while r < height
        invariant
            gray.wf(),
            height == gray.nrows(),
            width == gray.ncols(),
            r <= height,
            rgb.wf(),
            rgb.nrows() == height,
            rgb.ncols() == width,
            forall|a: int, b: int| rgb.inside(a, b) && a < r ==> #[trigger] rgb.at(a, b) == (gray.at(a, b), gray.at(a, b), gray.at(a, b)),
        decreases height - r,
    {
        let mut c: usize = 0;
        while c < width
            invariant
                gray.wf(),
                height == gray.nrows(),
                width == gray.ncols(),
                r < height,
                c <= width,
                rgb.wf(),
                rgb.nrows() == height,
                rgb.ncols() == width,
                forall|a: int, b: int|
                    rgb.inside(a, b) && (a < r || (a == r && b < c)) ==> #[trigger] rgb.at(a, b) == (
                        gray.at(a, b),
                        gray.at(a, b),
                        gray.at(a, b),
                    ),
            decreases width - c,
        {
            let v = gray.get(r, c);
            rgb.set(r, c, (v, v, v));
            c = c + 1;
        }
        r = r + 1;
    }
    rgb
}

} // verus!
