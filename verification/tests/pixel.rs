use seam_carver::pixel_utils::pixel::Pixel;

#[test]
fn color_diff_of_black_and_white_is_the_largest_distance() {
    let black = Pixel { red: 0, green: 0, blue: 0 };
    let white = Pixel { red: 255, green: 255, blue: 255 };
    assert_eq!(Pixel::color_diff(black, white), 195075);
    assert_eq!(Pixel::color_diff(white, black), 195075);
}

#[test]
fn color_diff_sums_the_squared_channel_differences() {
    let a = Pixel { red: 10, green: 200, blue: 7 };
    let b = Pixel { red: 13, green: 190, blue: 7 };
    assert_eq!(Pixel::color_diff(a, b), 9 + 100);
    assert_eq!(Pixel::color_diff(b, a), 109);
    assert_eq!(Pixel::color_diff(a, a), 0);
}

#[test]
fn invert_complements_each_channel() {
    let mut p = Pixel { red: 0, green: 255, blue: 100 };
    p.invert();
    assert_eq!(p, Pixel { red: 255, green: 0, blue: 155 });
    p.invert();
    assert_eq!(p, Pixel { red: 0, green: 255, blue: 100 });
}

#[test]
fn zero_is_black() {
    assert_eq!(Pixel::zero(), Pixel { red: 0, green: 0, blue: 0 });
    assert!(Pixel::zero().is_zero());
    assert!(!Pixel { red: 0, green: 0, blue: 1 }.is_zero());
    assert!(!Pixel { red: 0, green: 1, blue: 0 }.is_zero());
    assert!(!Pixel { red: 1, green: 0, blue: 0 }.is_zero());
}

#[test]
fn add_saturates_each_channel() {
    let a = Pixel { red: 200, green: 100, blue: 0 };
    let b = Pixel { red: 100, green: 100, blue: 255 };
    assert_eq!(a.add(b), Pixel { red: 255, green: 200, blue: 255 });
    assert_eq!(a.add(Pixel::zero()), a);
}
