use seam_carver::energy_utils::energy::{
    calculate_horizontal_energy_matrix, calculate_min_energy_column, calculate_min_energy_row,
    calculate_optimal_horizontal_path, calculate_optimal_vertical_path,
    calculate_vertical_energy_matrix,
};
use seam_carver::error::CarveError;
use seam_carver::grid::{EnergyGrid, PixelGrid};
use seam_carver::image_utils::image::Image;
use seam_carver::pixel_utils::pixel::Pixel;

const RED: Pixel = Pixel { red: 255, green: 0, blue: 0 };
const GREEN: Pixel = Pixel { red: 0, green: 255, blue: 0 };
const BLUE: Pixel = Pixel { red: 0, green: 0, blue: 255 };

fn image_of(rows: &[Vec<Pixel>]) -> Image {
    let width = if rows.is_empty() { 0 } else { rows[0].len() };
    let mut pixels = PixelGrid::from_element(rows.len(), width, Pixel::zero()).unwrap();
    for (r, row) in rows.iter().enumerate() {
        for (c, p) in row.iter().enumerate() {
            assert!(pixels.set(r, c, *p));
        }
    }
    Image { magic_number: "P3".to_string(), scale: 255, pixels }
}

fn gray(v: u8) -> Pixel {
    Pixel { red: v, green: v, blue: v }
}

fn energy_of(grid: &EnergyGrid) -> Vec<Vec<u128>> {
    (0..grid.nrows())
        .map(|r| (0..grid.ncols()).map(|c| grid.get(r, c).unwrap()).collect())
        .collect()
}

fn pixels_of(grid: &PixelGrid) -> Vec<Vec<Pixel>> {
    (0..grid.nrows())
        .map(|r| (0..grid.ncols()).map(|c| grid.get(r, c).unwrap()).collect())
        .collect()
}

#[test]
fn single_cell_has_no_energy() {
    let image = image_of(&[vec![gray(7)]]);
    let mut energy = EnergyGrid::from_element(1, 1, 99).unwrap();
    assert_eq!(calculate_vertical_energy_matrix(&image, &mut energy, 1), Ok(()));
    assert_eq!(energy_of(&energy), vec![vec![0]]);
    let mut energy = EnergyGrid::from_element(1, 1, 99).unwrap();
    assert_eq!(calculate_horizontal_energy_matrix(&image, &mut energy, 1), Ok(()));
    assert_eq!(energy_of(&energy), vec![vec![0]]);
    assert_eq!(calculate_min_energy_column(&energy, 1), Ok(0));
    assert_eq!(calculate_min_energy_row(&energy, 1), Ok(0));
}

#[test]
fn single_line_has_nothing_to_trace() {
    let energy = EnergyGrid::from_element(1, 1, 0).unwrap();
    assert_eq!(calculate_optimal_vertical_path(&energy, 1, 0), Err(CarveError::EmptySeam));
    assert_eq!(calculate_optimal_horizontal_path(&energy, 1, 0), Err(CarveError::EmptySeam));
    let wide = EnergyGrid::from_element(1, 4, 0).unwrap();
    assert_eq!(calculate_optimal_vertical_path(&wide, 4, 2), Err(CarveError::EmptySeam));
    assert_eq!(calculate_optimal_horizontal_path(&wide, 1, 0), Ok(vec![0, 0, 0, 0]));
}

#[test]
fn bands_of_colour_give_a_straight_seam() {
    let image = image_of(&[vec![RED; 3], vec![GREEN; 3], vec![BLUE; 3]]);
    let mut energy = EnergyGrid::from_element(3, 3, 0).unwrap();
    assert_eq!(calculate_vertical_energy_matrix(&image, &mut energy, 3), Ok(()));
    assert_eq!(
        energy_of(&energy),
        vec![vec![0, 0, 0], vec![130050, 130050, 130050], vec![260100, 260100, 260100]]
    );
    let end = calculate_min_energy_column(&energy, 3).unwrap();
    assert_eq!(end, 0);
    assert_eq!(calculate_optimal_vertical_path(&energy, 3, end), Ok(vec![0, 0, 0]));
}

#[test]
fn uniform_grid_has_zero_energy_and_seam_zero() {
    let image = image_of(&[vec![gray(40); 4], vec![gray(40); 4], vec![gray(40); 4]]);
    let mut energy = EnergyGrid::from_element(3, 4, 5).unwrap();
    assert_eq!(calculate_vertical_energy_matrix(&image, &mut energy, 4), Ok(()));
    assert_eq!(energy_of(&energy), vec![vec![0; 4]; 3]);
    assert_eq!(calculate_min_energy_column(&energy, 4), Ok(0));
    assert_eq!(calculate_optimal_vertical_path(&energy, 4, 0), Ok(vec![0, 0, 0]));
    let mut energy = EnergyGrid::from_element(3, 4, 5).unwrap();
    assert_eq!(calculate_horizontal_energy_matrix(&image, &mut energy, 3), Ok(()));
    assert_eq!(energy_of(&energy), vec![vec![0; 4]; 3]);
    assert_eq!(calculate_min_energy_row(&energy, 3), Ok(0));
    assert_eq!(calculate_optimal_horizontal_path(&energy, 3, 0), Ok(vec![0, 0, 0, 0]));
}

#[test]
fn vertical_energy_of_a_small_gray_image() {
    // distances between gray levels a and b are 3 * (a - b)^2
    let image = image_of(&[
        vec![gray(0), gray(1), gray(3)],
        vec![gray(2), gray(2), gray(0)],
        vec![gray(5), gray(1), gray(1)],
    ]);
    let mut energy = EnergyGrid::from_element(3, 3, 0).unwrap();
    assert_eq!(calculate_vertical_energy_matrix(&image, &mut energy, 3), Ok(()));
    // local:  0  3 12 / 12  3 39 / 27 51  3
    // total:  0  3 12 / 12  3 42 / 30 54  6
    assert_eq!(energy_of(&energy), vec![vec![0, 3, 12], vec![12, 3, 42], vec![30, 54, 6]]);
    assert_eq!(calculate_min_energy_column(&energy, 3), Ok(2));
    assert_eq!(calculate_optimal_vertical_path(&energy, 3, 2), Ok(vec![0, 1, 2]));
}

#[test]
fn energy_outside_the_band_is_left_alone() {
    let image = image_of(&[
        vec![gray(0), gray(1), gray(3)],
        vec![gray(2), gray(2), gray(0)],
        vec![gray(5), gray(1), gray(1)],
    ]);
    let mut energy = EnergyGrid::from_element(3, 3, 77).unwrap();
    assert_eq!(calculate_vertical_energy_matrix(&image, &mut energy, 2), Ok(()));
    // with two live columns the last column is no predecessor
    assert_eq!(energy_of(&energy), vec![vec![0, 3, 77], vec![12, 3, 77], vec![30, 54, 77]]);
    let mut energy = EnergyGrid::from_element(3, 3, 77).unwrap();
    assert_eq!(calculate_vertical_energy_matrix(&image, &mut energy, 1), Ok(()));
    assert_eq!(energy_of(&energy), vec![vec![0, 77, 77], vec![12, 77, 77], vec![39, 77, 77]]);
    assert_eq!(calculate_min_energy_column(&energy, 1), Ok(0));
    assert_eq!(calculate_optimal_vertical_path(&energy, 1, 0), Ok(vec![0, 0, 0]));
}

#[test]
fn horizontal_energy_is_the_vertical_energy_of_the_transpose() {
    let rows = vec![
        vec![gray(0), gray(2), gray(5)],
        vec![gray(1), gray(2), gray(1)],
        vec![gray(3), gray(0), gray(1)],
    ];
    let image = image_of(&rows);
    let mut energy = EnergyGrid::from_element(3, 3, 0).unwrap();
    assert_eq!(calculate_horizontal_energy_matrix(&image, &mut energy, 3), Ok(()));
    assert_eq!(energy_of(&energy), vec![vec![0, 12, 30], vec![3, 3, 54], vec![12, 42, 6]]);
    assert_eq!(calculate_min_energy_row(&energy, 3), Ok(2));
    assert_eq!(calculate_optimal_horizontal_path(&energy, 3, 2), Ok(vec![0, 1, 2]));
}

#[test]
fn energy_rejects_a_band_that_does_not_fit() {
    let image = image_of(&[vec![gray(1), gray(2)], vec![gray(3), gray(4)]]);
    let mut energy = EnergyGrid::from_element(2, 2, 9).unwrap();
    assert_eq!(
        calculate_vertical_energy_matrix(&image, &mut energy, 0),
        Err(CarveError::InvalidBorder)
    );
    assert_eq!(
        calculate_vertical_energy_matrix(&image, &mut energy, 3),
        Err(CarveError::InvalidBorder)
    );
    assert_eq!(
        calculate_horizontal_energy_matrix(&image, &mut energy, 0),
        Err(CarveError::InvalidBorder)
    );
    assert_eq!(
        calculate_horizontal_energy_matrix(&image, &mut energy, 3),
        Err(CarveError::InvalidBorder)
    );
    assert_eq!(energy_of(&energy), vec![vec![9, 9], vec![9, 9]]);
    let mut short = EnergyGrid::from_element(1, 2, 9).unwrap();
    assert_eq!(
        calculate_vertical_energy_matrix(&image, &mut short, 2),
        Err(CarveError::InvalidBorder)
    );
    let empty = image_of(&[]);
    let mut none = EnergyGrid::from_element(0, 0, 0).unwrap();
    assert_eq!(
        calculate_vertical_energy_matrix(&empty, &mut none, 1),
        Err(CarveError::InvalidBorder)
    );
}

#[test]
fn endpoint_is_the_leftmost_minimum() {
    let mut energy = EnergyGrid::from_element(2, 5, 0).unwrap();
    for (c, v) in [7u128, 3, 9, 3, 1].iter().enumerate() {
        assert!(energy.set(1, c, *v));
    }
    assert_eq!(calculate_min_energy_column(&energy, 5), Ok(4));
    assert_eq!(calculate_min_energy_column(&energy, 4), Ok(1));
    assert_eq!(calculate_min_energy_column(&energy, 4), Ok(1));
    assert_eq!(calculate_min_energy_column(&energy, 1), Ok(0));
    assert_eq!(calculate_min_energy_column(&energy, 0), Err(CarveError::InvalidBorder));
    assert_eq!(calculate_min_energy_column(&energy, 6), Err(CarveError::InvalidBorder));
    assert_eq!(calculate_min_energy_row(&energy, 2), Ok(0));
    assert_eq!(calculate_min_energy_row(&energy, 3), Err(CarveError::InvalidBorder));
}

fn energy_with_first_row(values: [u128; 3]) -> EnergyGrid {
    let mut energy = EnergyGrid::from_element(2, 3, 0).unwrap();
    for (c, v) in values.iter().enumerate() {
        assert!(energy.set(0, c, *v));
    }
    energy
}

#[test]
fn trace_steps_follow_the_precedence_table() {
    // interior start, energies (left, above, right) on the line before
    let cases: [([u128; 3], usize); 9] = [
        ([5, 5, 5], 1),
        ([5, 5, 4], 2),
        ([4, 5, 5], 0),
        ([6, 5, 5], 1),
        ([4, 5, 6], 0),
        ([4, 5, 4], 0),
        ([3, 5, 4], 0),
        ([4, 5, 3], 2),
        ([6, 5, 4], 2),
    ];
    for (values, expected) in cases {
        let energy = energy_with_first_row(values);
        assert_eq!(calculate_optimal_vertical_path(&energy, 3, 1), Ok(vec![expected, 1]));
    }
    // at the left end only the straight and the right cell compete
    assert_eq!(
        calculate_optimal_vertical_path(&energy_with_first_row([5, 5, 0]), 3, 0),
        Ok(vec![0, 0])
    );
    assert_eq!(
        calculate_optimal_vertical_path(&energy_with_first_row([5, 4, 0]), 3, 0),
        Ok(vec![1, 0])
    );
    // at the right end only the straight and the left cell compete
    assert_eq!(
        calculate_optimal_vertical_path(&energy_with_first_row([0, 5, 5]), 3, 2),
        Ok(vec![2, 2])
    );
    assert_eq!(
        calculate_optimal_vertical_path(&energy_with_first_row([0, 4, 5]), 3, 2),
        Ok(vec![1, 2])
    );
    // the last live column is the right end, whatever lies beyond it
    assert_eq!(
        calculate_optimal_vertical_path(&energy_with_first_row([9, 5, 0]), 2, 1),
        Ok(vec![1, 1])
    );
}

#[test]
fn trace_rejects_a_start_outside_the_band() {
    let energy = EnergyGrid::from_element(3, 3, 0).unwrap();
    assert_eq!(calculate_optimal_vertical_path(&energy, 3, 3), Err(CarveError::InvalidBorder));
    assert_eq!(calculate_optimal_vertical_path(&energy, 0, 0), Err(CarveError::InvalidBorder));
    assert_eq!(calculate_optimal_vertical_path(&energy, 4, 0), Err(CarveError::InvalidBorder));
    assert_eq!(calculate_optimal_horizontal_path(&energy, 2, 2), Err(CarveError::InvalidBorder));
}

#[test]
fn removing_a_seam_keeps_the_other_pixels_in_order() {
    let mut image = image_of(&[
        vec![gray(0), gray(1), gray(2), gray(3)],
        vec![gray(10), gray(11), gray(12), gray(13)],
        vec![gray(20), gray(21), gray(22), gray(23)],
    ]);
    image.carve_vertical_path(4, &[0, 1, 3]);
    assert_eq!(
        pixels_of(&image.pixels),
        vec![
            vec![gray(1), gray(2), gray(3), gray(3)],
            vec![gray(10), gray(12), gray(13), gray(13)],
            vec![gray(20), gray(21), gray(22), gray(23)],
        ]
    );
    image.carve_horizontal_path(3, &[0, 1, 2, 2]);
    assert_eq!(
        pixels_of(&image.pixels),
        vec![
            vec![gray(10), gray(2), gray(3), gray(3)],
            vec![gray(20), gray(21), gray(13), gray(13)],
            vec![gray(20), gray(21), gray(22), gray(23)],
        ]
    );
}

#[test]
fn carving_removes_the_cheapest_column() {
    // the middle column differs least from its neighbours along the way down
    let mut image = image_of(&[
        vec![gray(0), gray(1), gray(3)],
        vec![gray(2), gray(2), gray(0)],
        vec![gray(5), gray(1), gray(1)],
    ]);
    assert_eq!(image.seam_carve(1, true), Ok(2));
    assert_eq!(
        pixels_of(&image.pixels),
        vec![
            vec![gray(1), gray(3), gray(3)],
            vec![gray(2), gray(0), gray(0)],
            vec![gray(5), gray(1), gray(1)],
        ]
    );
    assert_eq!(image.magic_number, "P3");
    assert_eq!(image.scale, 255);
}

#[test]
fn carving_twice_narrows_the_band_twice() {
    let mut image = image_of(&[
        vec![gray(0), gray(1), gray(3)],
        vec![gray(2), gray(2), gray(0)],
        vec![gray(5), gray(1), gray(1)],
    ]);
    assert_eq!(image.seam_carve(2, true), Ok(1));
    // second step, on the two live columns 1 3 / 2 0 / 5 1:
    // total energy 0 12 / 3 39 / 30 54, seam 0 0 0
    assert_eq!(
        pixels_of(&image.pixels),
        vec![
            vec![gray(3), gray(3), gray(3)],
            vec![gray(0), gray(0), gray(0)],
            vec![gray(1), gray(1), gray(1)],
        ]
    );
}

#[test]
fn carving_horizontally_removes_the_cheapest_row() {
    let mut image = image_of(&[
        vec![gray(0), gray(2), gray(5)],
        vec![gray(1), gray(2), gray(1)],
        vec![gray(3), gray(0), gray(1)],
    ]);
    assert_eq!(image.seam_carve(1, false), Ok(2));
    assert_eq!(
        pixels_of(&image.pixels),
        vec![
            vec![gray(1), gray(2), gray(5)],
            vec![gray(3), gray(0), gray(1)],
            vec![gray(3), gray(0), gray(1)],
        ]
    );
}

#[test]
fn carving_too_many_seams_fails_and_changes_nothing() {
    let rows = vec![vec![gray(0), gray(1), gray(3)], vec![gray(2), gray(2), gray(0)]];
    let mut image = image_of(&rows);
    assert_eq!(image.seam_carve(3, true), Err(CarveError::InsufficientDimension));
    assert_eq!(image.seam_carve(4, true), Err(CarveError::InsufficientDimension));
    assert_eq!(image.seam_carve(2, false), Err(CarveError::InsufficientDimension));
    assert_eq!(pixels_of(&image.pixels), rows);
    assert_eq!(image.seam_carve(0, true), Ok(3));
    assert_eq!(pixels_of(&image.pixels), rows);
}

#[test]
fn carving_a_single_line_fails_with_empty_seam() {
    let rows = vec![vec![gray(0), gray(1), gray(3)]];
    let mut image = image_of(&rows);
    assert_eq!(image.seam_carve(1, true), Err(CarveError::EmptySeam));
    assert_eq!(pixels_of(&image.pixels), rows);
    assert_eq!(image.seam_carve(0, true), Ok(3));
    let mut empty = image_of(&[]);
    assert_eq!(empty.seam_carve(0, true), Err(CarveError::InsufficientDimension));
}
