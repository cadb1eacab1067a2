//! The clip rectangle of the plot area, in physical pixels.

use vstd::prelude::*;

verus! {

/// Extent, at least one pixel, from `from` to one past `to_inclusive`.
pub open spec fn extent(from: u32, to_inclusive: u32) -> u32 {
    if to_inclusive + 1 > from {
        (to_inclusive + 1 - from) as u32
    } else {
        1
    }
}

/// The scissor rectangle `(x, y, width, height)` of a plot area whose edges,
/// in physical pixels, are `left` and `top` (rounded down) and `right` and
/// `bottom` (rounded up). The area reaches one pixel past the right and bottom
/// edges, and is never empty: width and height are at least one.
pub fn scissor_rect(left: u32, top: u32, right: u32, bottom: u32) -> (r: (u32, u32, u32, u32))
    requires
        right < u32::MAX,
        bottom < u32::MAX,
    ensures
        r == (left, top, extent(left, right), extent(top, bottom)),
        r.2 >= 1 && r.3 >= 1,
        left <= right ==> r.2 == right + 1 - left,
        top <= bottom ==> r.3 == bottom + 1 - top,
        left > right + 1 ==> r.2 == 1,
        top > bottom + 1 ==> r.3 == 1,
{
    let right = right + 1;
    let bottom = bottom + 1;
    let w = right.saturating_sub(left);
    let h = bottom.saturating_sub(top);
    let w = if w > 1 { w } else { 1 };
    let h = if h > 1 { h } else { 1 };
    (left, top, w, h)
}

/// The extent from `from` to `to_inclusive` counts every pixel between them,
/// both ends included, with no upper bound; an empty or reversed span counts
/// one pixel.
pub proof fn lemma_extent_counts_pixels(from: u32, to_inclusive: u32)
    requires
        to_inclusive < u32::MAX,
    ensures
        from <= to_inclusive ==> extent(from, to_inclusive) == to_inclusive + 1 - from,
        from > to_inclusive ==> extent(from, to_inclusive) == 1,
        extent(from, to_inclusive) >= 1,
{
}

/// Widening the area to the right or down widens the rectangle by as much:
/// one more pixel of edge gives one more pixel of width or height.
pub proof fn lemma_extent_grows_with_edge(from: u32, to_inclusive: u32)
    requires
        from <= to_inclusive,
        to_inclusive + 1 < u32::MAX,
    ensures
        extent(from, (to_inclusive + 1) as u32) == extent(from, to_inclusive) + 1,
{
}

} // verus!
