use vstd::prelude::*;

use crate::ppm::{Image, Pixel};

verus! {

/// The smaller of two sizes.
pub open spec fn clipped(size: u32, limit: u32) -> u32 {
    if limit > size {
        size
    } else {
        limit
    }
}

/// The size of the window that shows `image` on a display of
/// `display_width` by `display_height` pixels: the image's own size, cut down
/// to the display's where the display is smaller.
pub fn window_size(image: &Image, display_width: u32, display_height: u32) -> (r: (u32, u32))
    ensures
        r.0 == clipped(image.width, display_width),
        r.1 == clipped(image.height, display_height),
{
    let w = if display_width > image.width {
        image.width
    } else {
        display_width
    };
    let h = if display_height > image.height {
        image.height
    } else {
        display_height
    };
    (w, h)
}

/// The pixel drawn at screen row `row`, column `column`: rows are shown in
/// reverse order, so that the last row stored comes out on top.
pub fn screen_pixel(image: &Image, row: u32, column: u32) -> (r: Pixel)
    requires
        image.wf(),
        row < image.height,
        column < image.width,
    ensures
        r == image.pixels@[image.height - 1 - row]@[column as int],
{
    let source = (image.height - 1 - row) as usize;
    image.pixels[source][column as usize]
}

} // verus!
