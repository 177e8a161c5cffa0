use seam_carver::image_utils::random::{generate_random_image, RANDOM_IMAGE_SIDE};

#[test]
fn random_image_has_the_fixed_shape_and_header() {
    let image = generate_random_image();
    assert_eq!(RANDOM_IMAGE_SIDE, 1000);
    assert_eq!(image.pixels.nrows(), 1000);
    assert_eq!(image.pixels.ncols(), 1000);
    assert_eq!(image.magic_number, "P3");
    assert_eq!(image.scale, 255);
}

#[test]
fn random_image_is_not_of_one_colour() {
    let image = generate_random_image();
    let first = image.pixels.get(0, 0).unwrap();
    let mut other = false;
    for r in 0..image.pixels.nrows() {
        for c in 0..image.pixels.ncols() {
            if image.pixels.get(r, c).unwrap() != first {
                other = true;
            }
        }
    }
    assert!(other);
}
