//! Images of random pixels.

use crate::grid::PixelGrid;
use crate::image_utils::image::Image;
use vstd::prelude::*;

verus! {

/// Width and height of a random image.
pub const RANDOM_IMAGE_SIDE: usize = 1000;

/// `rand::random::<u8>()`: a value drawn from the generator of the running
/// thread. Nothing is known of the value but its type.
#[verifier::external_body]
fn random_channel() -> (v: u8) {
    rand::random::<u8>()
}

/// A square image of `RANDOM_IMAGE_SIDE` rows and columns, with the tag `P3`
/// and the channel maximum 255, whose channels are drawn at random, one
/// after the other. The pixels are those that `PixelGrid::from_channels`
/// makes of the values drawn.
pub fn generate_random_image() -> (image: Image)
    ensures
        image.magic_number@ == "P3"@,
        image.scale == 255,
        image.pixels.height() == RANDOM_IMAGE_SIDE,
        image.pixels.width() == RANDOM_IMAGE_SIDE,
{
    let cells: usize = RANDOM_IMAGE_SIDE * RANDOM_IMAGE_SIDE;
    let total: usize = 3 * cells;
    let mut channels: Vec<u8> = Vec::with_capacity(total);
    let mut i: usize = 0;
    while i < total
        invariant
            0 <= i <= total,
            channels@.len() == i,
        decreases total - i,
    {
        channels.push(random_channel());
        i = i + 1;
    }
    let pixels: PixelGrid = PixelGrid::from_channels(
        RANDOM_IMAGE_SIDE,
        RANDOM_IMAGE_SIDE,
        &channels,
    ).unwrap();
    Image { magic_number: "P3".to_owned(), scale: 255, pixels }
}

} // verus!
