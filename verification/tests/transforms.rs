use seam_carver::grid::PixelGrid;
use seam_carver::image_utils::image::Image;
use seam_carver::pixel_utils::pixel::Pixel;

fn gray(v: u8) -> Pixel {
    Pixel { red: v, green: v, blue: v }
}

fn image_from(rows: &[Vec<u8>]) -> Image {
    let width = if rows.is_empty() { 0 } else { rows[0].len() };
    let mut pixels = PixelGrid::from_element(rows.len(), width, Pixel::zero()).unwrap();
    for (r, row) in rows.iter().enumerate() {
        for (c, v) in row.iter().enumerate() {
            assert!(pixels.set(r, c, gray(*v)));
        }
    }
    Image { magic_number: "P3".to_string(), scale: 255, pixels }
}

fn levels(image: &Image) -> Vec<Vec<u8>> {
    (0..image.pixels.nrows())
        .map(|r| (0..image.pixels.ncols()).map(|c| image.pixels.get(r, c).unwrap().red).collect())
        .collect()
}

#[test]
fn grid_cells_are_read_and_written_by_row_and_column() {
    let mut grid = PixelGrid::from_element(2, 3, gray(1)).unwrap();
    assert_eq!(grid.nrows(), 2);
    assert_eq!(grid.ncols(), 3);
    assert!(grid.set(1, 2, gray(9)));
    assert!(!grid.set(2, 0, gray(9)));
    assert!(!grid.set(0, 3, gray(9)));
    assert_eq!(grid.get(1, 2), Some(gray(9)));
    assert_eq!(grid.get(0, 2), Some(gray(1)));
    assert_eq!(grid.get(2, 1), None);
    assert_eq!(grid.get(1, 3), None);
    assert_eq!(grid.line_count(true), 2);
    assert_eq!(grid.line_count(false), 3);
    assert_eq!(grid.line_len(true), 3);
    assert_eq!(grid.line_cell(2, 1, false), gray(9));
    grid.put_line_cell(0, 1, false, gray(4));
    assert_eq!(grid.get(1, 0), Some(gray(4)));
    assert!(PixelGrid::from_element(usize::MAX, 2, gray(0)).is_none());
    assert!(PixelGrid::from_element(0, usize::MAX, gray(0)).is_some());
}

#[test]
fn crop_keeps_the_chosen_part() {
    let image = image_from(&[vec![1, 2, 3, 4], vec![5, 6, 7, 8], vec![9, 10, 11, 12]]);
    let part = image.crop(1, 3, 1, 3);
    assert_eq!(levels(&part), vec![vec![6, 7], vec![10, 11]]);
    assert_eq!(part.magic_number, "P3");
    assert_eq!(part.scale, 255);
    assert_eq!(levels(&image.crop(0, 4, 0, 3)), levels(&image));
    let none = image.crop(2, 2, 0, 3);
    assert_eq!(none.pixels.nrows(), 3);
    assert_eq!(none.pixels.ncols(), 0);
}

#[test]
fn transpose_exchanges_rows_and_columns() {
    let image = image_from(&[vec![1, 2, 3], vec![4, 5, 6]]);
    let turned = image.transpose();
    assert_eq!(levels(&turned), vec![vec![1, 4], vec![2, 5], vec![3, 6]]);
    assert_eq!(levels(&turned.transpose()), levels(&image));
}

#[test]
fn rotate_turns_by_half_a_turn() {
    let image = image_from(&[vec![1, 2, 3], vec![4, 5, 6]]);
    let turned = image.rotate();
    assert_eq!(levels(&turned), vec![vec![6, 5, 4], vec![3, 2, 1]]);
    assert_eq!(levels(&turned.rotate()), levels(&image));
}

#[test]
fn mirror_exchanges_left_and_right() {
    let image = image_from(&[vec![1, 2, 3], vec![4, 5, 6]]);
    let turned = image.mirror();
    assert_eq!(levels(&turned), vec![vec![3, 2, 1], vec![6, 5, 4]]);
    assert_eq!(levels(&turned.mirror()), levels(&image));
}

#[test]
fn invert_complements_every_channel() {
    let mut image = image_from(&[vec![0, 255], vec![100, 1]]);
    assert!(image.pixels.set(0, 0, Pixel { red: 10, green: 20, blue: 30 }));
    image.invert();
    assert_eq!(image.pixels.get(0, 0), Some(Pixel { red: 245, green: 235, blue: 225 }));
    assert_eq!(image.pixels.get(0, 1), Some(gray(0)));
    assert_eq!(image.pixels.get(1, 0), Some(gray(155)));
    assert_eq!(image.pixels.get(1, 1), Some(gray(254)));
    image.invert();
    assert_eq!(image.pixels.get(0, 0), Some(Pixel { red: 10, green: 20, blue: 30 }));
    assert_eq!(image.pixels.get(1, 1), Some(gray(1)));
}

#[test]
fn brightness_is_the_mean_luminance() {
    let mut image = image_from(&[vec![0, 255], vec![100, 2]]);
    assert_eq!(image.brightness(), Some(89));
    assert!(image.pixels.set(0, 0, Pixel { red: 1, green: 1, blue: 2 }));
    // luminances 1, 255, 100, 2
    assert_eq!(image.brightness(), Some(89));
    assert!(image.pixels.set(0, 0, Pixel { red: 9, green: 9, blue: 10 }));
    // luminances 9, 255, 100, 2
    assert_eq!(image.brightness(), Some(91));
    assert_eq!(image_from(&[]).brightness(), None);
    assert_eq!(image_from(&[vec![], vec![]]).brightness(), None);
    assert_eq!(image_from(&vec![vec![255; 3]; 2]).brightness(), Some(255));
}

#[test]
fn landfill_recolours_the_connected_region() {
    let mut image = image_from(&[
        vec![1, 1, 0, 1],
        vec![0, 1, 0, 1],
        vec![1, 1, 0, 0],
        vec![0, 0, 1, 1],
    ]);
    image.landfill((0, 0), (7, 7, 7));
    assert_eq!(
        levels(&image),
        vec![vec![7, 7, 0, 1], vec![0, 7, 0, 1], vec![7, 7, 0, 0], vec![0, 0, 1, 1]]
    );
    image.landfill((3, 0), (9, 9, 9));
    assert_eq!(
        levels(&image),
        vec![vec![7, 7, 0, 1], vec![0, 7, 0, 1], vec![7, 7, 0, 0], vec![9, 9, 1, 1]]
    );
}

#[test]
fn landfill_with_the_same_colour_or_outside_changes_nothing() {
    let rows = vec![vec![1, 1, 0], vec![0, 1, 0]];
    let mut image = image_from(&rows);
    image.landfill((0, 0), (1, 1, 1));
    assert_eq!(levels(&image), rows);
    image.landfill((2, 0), (5, 5, 5));
    image.landfill((0, 3), (5, 5, 5));
    image.landfill((7, 7), (5, 5, 5));
    assert_eq!(levels(&image), rows);
    let mut empty = image_from(&[]);
    empty.landfill((0, 0), (5, 5, 5));
    assert_eq!(empty.pixels.nrows(), 0);
}

#[test]
fn landfill_fills_a_whole_uniform_image() {
    let mut image = image_from(&vec![vec![3; 40]; 30]);
    image.landfill((29, 39), (200, 200, 200));
    assert_eq!(levels(&image), vec![vec![200; 40]; 30]);
}

#[test]
fn landfill_takes_each_channel_from_its_place() {
    let mut image = image_from(&[vec![1]]);
    image.landfill((0, 0), (10, 20, 30));
    assert_eq!(image.pixels.get(0, 0), Some(Pixel { red: 10, green: 20, blue: 30 }));
}

#[test]
fn from_channels_fills_row_by_row_and_pads_with_black() {
    let grid = PixelGrid::from_channels(2, 2, &vec![1, 2, 3, 4, 5, 6, 7, 8, 9, 10, 11]).unwrap();
    assert_eq!(grid.get(0, 0), Some(Pixel { red: 1, green: 2, blue: 3 }));
    assert_eq!(grid.get(0, 1), Some(Pixel { red: 4, green: 5, blue: 6 }));
    assert_eq!(grid.get(1, 0), Some(Pixel { red: 7, green: 8, blue: 9 }));
    assert_eq!(grid.get(1, 1), Some(Pixel { red: 0, green: 0, blue: 0 }));
    let grid = PixelGrid::from_channels(1, 1, &vec![1, 2, 3, 4, 5, 6]).unwrap();
    assert_eq!(grid.get(0, 0), Some(Pixel { red: 1, green: 2, blue: 3 }));
    assert!(PixelGrid::from_channels(usize::MAX, 2, &vec![]).is_none());
}

#[test]
fn statistics_reports_tag_shape_and_brightness() {
    let image = image_from(&[vec![0, 255, 10], vec![100, 2, 3]]);
    assert_eq!(
        image.statistics(),
        Some("Type:       P3\nHeight:     2\nWidth:      3\nBrightness: 61\n".to_string())
    );
    assert_eq!(image_from(&[]).statistics(), None);
}
