use seam_carver::grid::PixelGrid;
use seam_carver::image_utils::image::Image;
use seam_carver::image_utils::parse::ReadError;
use seam_carver::pixel_utils::pixel::Pixel;

fn rgb(red: u8, green: u8, blue: u8) -> Pixel {
    Pixel { red, green, blue }
}

fn cells(image: &Image) -> Vec<Vec<Pixel>> {
    (0..image.pixels.nrows())
        .map(|r| (0..image.pixels.ncols()).map(|c| image.pixels.get(r, c).unwrap()).collect())
        .collect()
}

fn error_of(text: &str) -> ReadError {
    match Image::read(text) {
        Ok(_) => panic!("the text was read"),
        Err(e) => e,
    }
}

#[test]
fn write_gives_header_and_padded_channels() {
    let mut pixels = PixelGrid::from_element(2, 2, rgb(0, 0, 0)).unwrap();
    assert!(pixels.set(0, 0, rgb(1, 22, 133)));
    assert!(pixels.set(0, 1, rgb(255, 0, 9)));
    assert!(pixels.set(1, 0, rgb(10, 99, 100)));
    let image = Image { magic_number: "P3".to_string(), scale: 255, pixels };
    assert_eq!(
        image.write(),
        "P3\n2 2\n255\n  1  22 133 255   0   9 \n 10  99 100   0   0   0 \n"
    );
}

#[test]
fn write_of_an_image_without_pixels_is_its_header() {
    let pixels = PixelGrid::from_element(0, 0, rgb(0, 0, 0)).unwrap();
    let image = Image { magic_number: "P3".to_string(), scale: 7, pixels };
    assert_eq!(image.write(), "P3\n0 0\n7\n");
    let pixels = PixelGrid::from_element(2, 0, rgb(0, 0, 0)).unwrap();
    let image = Image { magic_number: "tag".to_string(), scale: 100, pixels };
    assert_eq!(image.write(), "tag\n0 2\n100\n\n\n");
}

#[test]
fn write_states_large_dimensions_in_full() {
    let pixels = PixelGrid::from_element(1, 1204, rgb(0, 0, 0)).unwrap();
    let image = Image { magic_number: "P3".to_string(), scale: 255, pixels };
    assert!(image.write().starts_with("P3\n1204 1\n255\n  0   0   0 "));
}

#[test]
fn read_takes_header_and_pixels() {
    let image = Image::read("P3\n3 2\n255\n1 2 3 4 5 6 7 8 9\n10 11 12 13 14 15 16 17 18\n").unwrap();
    assert_eq!(image.magic_number, "P3");
    assert_eq!(image.scale, 255);
    assert_eq!(
        cells(&image),
        vec![
            vec![rgb(1, 2, 3), rgb(4, 5, 6), rgb(7, 8, 9)],
            vec![rgb(10, 11, 12), rgb(13, 14, 15), rgb(16, 17, 18)],
        ]
    );
}

#[test]
fn read_gives_back_what_write_wrote() {
    let mut pixels = PixelGrid::from_element(3, 2, rgb(0, 0, 0)).unwrap();
    assert!(pixels.set(0, 0, rgb(1, 22, 133)));
    assert!(pixels.set(1, 1, rgb(255, 0, 9)));
    assert!(pixels.set(2, 0, rgb(10, 99, 100)));
    let image = Image { magic_number: "P3".to_string(), scale: 200, pixels };
    let back = Image::read(&image.write()).unwrap();
    assert_eq!(back.magic_number, "P3");
    assert_eq!(back.scale, 200);
    assert_eq!(cells(&back), cells(&image));
}

#[test]
fn read_separates_values_by_any_white_space() {
    let image =
        Image::read("P3\r\n2 1\r\n255\r\n\t1\u{a0}2\r\n\n 3   +4\u{2003}005 6").unwrap();
    assert_eq!(image.magic_number, "P3");
    assert_eq!(cells(&image), vec![vec![rgb(1, 2, 3), rgb(4, 5, 6)]]);
}

#[test]
fn read_leaves_missing_pixels_black() {
    let image = Image::read("P3\n2 2\n255\n9 8 7").unwrap();
    assert_eq!(
        cells(&image),
        vec![vec![rgb(9, 8, 7), rgb(0, 0, 0)], vec![rgb(0, 0, 0), rgb(0, 0, 0)]]
    );
    let image = Image::read("P3\n2 1\n255").unwrap();
    assert_eq!(cells(&image), vec![vec![rgb(0, 0, 0), rgb(0, 0, 0)]]);
    let image = Image::read("any tag \n0 0 and more\n0\n").unwrap();
    assert_eq!(image.magic_number, "any tag ");
    assert_eq!(image.scale, 0);
    assert_eq!(image.pixels.nrows(), 0);
    assert_eq!(image.pixels.ncols(), 0);
}

#[test]
fn read_keeps_a_carriage_return_that_no_newline_follows() {
    let image = Image::read("P\r3\r\n1 1\n255\n1 2 3\r").unwrap();
    assert_eq!(image.magic_number, "P\r3");
    assert_eq!(cells(&image), vec![vec![rgb(1, 2, 3)]]);
    assert_eq!(error_of("P3\n1 1\n255\r"), ReadError::BadScale);
}

#[test]
fn read_needs_three_header_lines() {
    assert_eq!(error_of(""), ReadError::MissingHeader);
    assert_eq!(error_of("P3"), ReadError::MissingHeader);
    assert_eq!(error_of("P3\n"), ReadError::MissingHeader);
    assert_eq!(error_of("P3\n2 2"), ReadError::MissingHeader);
    assert_eq!(error_of("P3\n2 2\n"), ReadError::MissingHeader);
    assert_eq!(error_of("\n\n"), ReadError::BadDimensions);
}

#[test]
fn read_needs_two_dimensions_with_one_blank_between() {
    assert_eq!(error_of("P3\n2\n255\n"), ReadError::BadDimensions);
    assert_eq!(error_of("P3\n2  2\n255\n"), ReadError::BadDimensions);
    assert_eq!(error_of("P3\n 2 2\n255\n"), ReadError::BadDimensions);
    assert_eq!(error_of("P3\n2\t2\n255\n"), ReadError::BadDimensions);
    assert_eq!(error_of("P3\n2 x\n255\n"), ReadError::BadDimensions);
    assert_eq!(error_of("P3\n-2 2\n255\n"), ReadError::BadDimensions);
    assert_eq!(error_of("P3\n+ 2\n255\n"), ReadError::BadDimensions);
    assert_eq!(error_of("P3\n2 \n255\n"), ReadError::BadDimensions);
    assert_eq!(error_of("P3\n99999999999999999999999999 2\n255\n"), ReadError::BadDimensions);
    assert_eq!(error_of("P3\n2 2"), ReadError::MissingHeader);
    assert_eq!(error_of("P3\nx 2"), ReadError::BadDimensions);
}

#[test]
fn read_needs_a_scale_up_to_255() {
    assert_eq!(error_of("P3\n1 1\n256\n"), ReadError::BadScale);
    assert_eq!(error_of("P3\n1 1\n\n"), ReadError::BadScale);
    assert_eq!(error_of("P3\n1 1\n255 \n"), ReadError::BadScale);
    assert_eq!(error_of("P3\n1 1\n2x\n"), ReadError::BadScale);
    assert_eq!(Image::read("P3\n1 1\n+0255\n").unwrap().scale, 255);
}

#[test]
fn read_names_the_channel_that_is_no_number() {
    assert_eq!(error_of("P3\n1 1\n255\nx 2 3"), ReadError::BadRed);
    assert_eq!(error_of("P3\n1 1\n255\n1 256 3"), ReadError::BadGreen);
    assert_eq!(error_of("P3\n1 1\n255\n1 2 -3"), ReadError::BadBlue);
    assert_eq!(error_of("P3\n2 1\n255\n1 2 3 4 5 6.0"), ReadError::BadBlue);
    assert_eq!(error_of("P3\n2 1\n255\n1 2 3 4 ++5 x"), ReadError::BadGreen);
}

#[test]
fn read_rejects_a_last_pixel_that_is_not_complete() {
    assert_eq!(error_of("P3\n1 1\n255\n1 2"), ReadError::IncompletePixel);
    assert_eq!(error_of("P3\n2 1\n255\n1 2 3 4"), ReadError::IncompletePixel);
    // values of a pixel that is not complete are not looked at
    assert_eq!(error_of("P3\n2 1\n255\n1 2 3 x y"), ReadError::IncompletePixel);
    // an earlier bad value comes first
    assert_eq!(error_of("P3\n2 1\n255\n1 x 3 4"), ReadError::BadGreen);
}

#[test]
fn read_rejects_more_pixels_than_the_header_states() {
    assert_eq!(error_of("P3\n1 1\n255\n1 2 3 4 5 6"), ReadError::TooManyPixels);
    assert_eq!(error_of("P3\n0 5\n255\n1 2 3"), ReadError::TooManyPixels);
    assert_eq!(error_of("P3\n5 0\n255\n1 2 3"), ReadError::TooManyPixels);
}

#[test]
fn read_rejects_dimensions_whose_product_is_too_large() {
    let text = format!("P3\n{} 2\n255\n", usize::MAX);
    assert_eq!(error_of(&text), ReadError::TooLarge);
    let text = format!("P3\n{} 2\n255\n1 2", usize::MAX);
    assert_eq!(error_of(&text), ReadError::IncompletePixel);
}

#[test]
fn a_larger_image_survives_writing_carving_and_reading() {
    let mut pixels = PixelGrid::from_element(80, 120, rgb(0, 0, 0)).unwrap();
    for r in 0..80 {
        for c in 0..120 {
            let p = rgb(
                ((r * 3 + c * 5) % 256) as u8,
                ((r * r + c) % 256) as u8,
                ((r + c * c) % 256) as u8,
            );
            assert!(pixels.set(r, c, p));
        }
    }
    let mut image = Image { magic_number: "P3".to_string(), scale: 255, pixels };
    let back = Image::read(&image.write()).unwrap();
    assert_eq!(cells(&back), cells(&image));
    assert_eq!(image.seam_carve(20, true), Ok(100));
    assert_eq!(image.seam_carve(10, false), Ok(70));
    let carved = image.crop(0, 100, 0, 70);
    assert_eq!(carved.pixels.nrows(), 70);
    assert_eq!(carved.pixels.ncols(), 100);
    let again = Image::read(&carved.write()).unwrap();
    assert_eq!(cells(&again), cells(&carved));
}
