//! Shape arithmetic used by weight initialisers and convolution layers.
use vstd::prelude::*;

verus! {

/// Calculate fan-in and fan-out for a weight tensor of shape `(fan_in, fan_out)`.
pub fn calc_fan(weight_shape: (usize, usize)) -> (fans: (usize, usize))
    ensures
        fans == weight_shape,
{
    let (fan_in, fan_out) = weight_shape;
    (fan_in, fan_out)
}

/// Extent of a kernel of `f` taps once dilated by `d`: `f * (d + 1) - d`.
pub open spec fn dilated_extent(f: int, d: int) -> int {
    f * (d + 1) - d
}

/// Padding on the leading side of one axis: half of what the requested
/// output length needs beyond the input, rounded down.
pub open spec fn lead_pad(in_len: int, out_len: int, f: int, stride: int, d: int) -> int {
    (stride * (out_len - 1) + dilated_extent(f, d) - in_len) / 2
}

/// Padding on the trailing side: one more than the leading side when the
/// symmetric padding falls one short of the requested output length.
pub open spec fn trail_pad(in_len: int, out_len: int, f: int, stride: int, d: int) -> int {
    let p = lead_pad(in_len, out_len, f, stride, d);
    if 1 + (in_len + 2 * p - dilated_extent(f, d)) / stride == out_len - 1 {
        p + 1
    } else {
        p
    }
}

/// `true` when the padding arithmetic of one axis stays within `usize`
/// and its subtractions do not go below zero.
pub open spec fn pad_axis_ok(in_len: int, out_len: int, f: int, stride: int, d: int) -> bool {
    &&& f * (d + 1) <= usize::MAX
    &&& f * (d + 1) >= d
    &&& out_len >= 1
    &&& stride * (out_len - 1) <= usize::MAX
    &&& stride * (out_len - 1) + dilated_extent(f, d) <= usize::MAX
    &&& stride * (out_len - 1) + dilated_extent(f, d) >= in_len
    &&& in_len + 2 * lead_pad(in_len, out_len, f, stride, d) <= usize::MAX
    &&& in_len + 2 * lead_pad(in_len, out_len, f, stride, d) >= dilated_extent(f, d)
    &&& (in_len + 2 * lead_pad(in_len, out_len, f, stride, d) - dilated_extent(f, d)) / stride
        < usize::MAX
}

/// Calculate padding dimensions `(pr1, pr2, pc1, pc2)` for a 2D convolution
/// that maps an `in_rows x in_cols` input to an `out_rows x out_cols` output.
pub fn calc_pad_dims_2d(
    in_rows: usize,
    in_cols: usize,
    out_rows: usize,
    out_cols: usize,
    kernel_shape: (usize, usize),
    stride: usize,
    dilation: usize,
) -> (pads: (usize, usize, usize, usize))
    requires
        stride > 0,
        dilation < usize::MAX,
        pad_axis_ok(in_rows as int, out_rows as int, kernel_shape.0 as int, stride as int, dilation as int),
        pad_axis_ok(in_cols as int, out_cols as int, kernel_shape.1 as int, stride as int, dilation as int),
    ensures
        pads.0 == lead_pad(in_rows as int, out_rows as int, kernel_shape.0 as int, stride as int, dilation as int),
        pads.1 == trail_pad(in_rows as int, out_rows as int, kernel_shape.0 as int, stride as int, dilation as int),
        pads.2 == lead_pad(in_cols as int, out_cols as int, kernel_shape.1 as int, stride as int, dilation as int),
        pads.3 == trail_pad(in_cols as int, out_cols as int, kernel_shape.1 as int, stride as int, dilation as int),
{
    let d = dilation;
    let (fr, fc) = kernel_shape;
    let efr = fr * (d + 1) - d;
    let efc = fc * (d + 1) - d;

    let pr = (stride * (out_rows - 1) + efr - in_rows) / 2;
    let pc = (stride * (out_cols - 1) + efc - in_cols) / 2;

    let pr1 = pr;
    let mut pr2 = pr;
    let pc1 = pc;
    let mut pc2 = pc;

    let out_rows1 = 1 + (in_rows + 2 * pr - efr) / stride;
    let out_cols1 = 1 + (in_cols + 2 * pc - efc) / stride;

    if out_rows1 == out_rows.wrapping_sub(1) {
        pr2 = pr + 1;
    }
    if out_cols1 == out_cols.wrapping_sub(1) {
        pc2 = pc + 1;
    }
    (pr1, pr2, pc1, pc2)
}

} // verus!
