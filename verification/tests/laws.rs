use seam_carver::energy_utils::energy::{
    calculate_horizontal_energy_matrix, calculate_min_energy_column, calculate_min_energy_row,
    calculate_optimal_horizontal_path, calculate_optimal_vertical_path,
    calculate_vertical_energy_matrix,
};
use seam_carver::grid::{EnergyGrid, PixelGrid};
use seam_carver::image_utils::image::Image;
use seam_carver::pixel_utils::pixel::Pixel;

const BLACK: Pixel = Pixel { red: 0, green: 0, blue: 0 };
const WHITE: Pixel = Pixel { red: 255, green: 255, blue: 255 };

fn image_of(rows: &[Vec<Pixel>]) -> Image {
    let width = if rows.is_empty() { 0 } else { rows[0].len() };
    let mut pixels = PixelGrid::from_element(rows.len(), width, BLACK).unwrap();
    for (r, row) in rows.iter().enumerate() {
        for (c, p) in row.iter().enumerate() {
            assert!(pixels.set(r, c, *p));
        }
    }
    Image { magic_number: "P3".to_string(), scale: 255, pixels }
}

/// Pixels that follow from the place by a fixed rule, different enough to
/// give many different energies.
fn mixed(rows: usize, cols: usize) -> Vec<Vec<Pixel>> {
    (0..rows)
        .map(|r| {
            (0..cols)
                .map(|c| Pixel {
                    red: ((r * 37 + c * 101 + r * c * 13) % 256) as u8,
                    green: ((r * 59 + c * 7 + 11) % 256) as u8,
                    blue: ((r * r * 3 + c * c * 5) % 256) as u8,
                })
                .collect()
        })
        .collect()
}

fn vertical_energy(rows: &[Vec<Pixel>], border: usize) -> Vec<Vec<u128>> {
    let image = image_of(rows);
    let mut energy =
        EnergyGrid::from_element(image.pixels.nrows(), image.pixels.ncols(), 0).unwrap();
    assert_eq!(calculate_vertical_energy_matrix(&image, &mut energy, border), Ok(()));
    (0..energy.nrows())
        .map(|r| (0..energy.ncols()).map(|c| energy.get(r, c).unwrap()).collect())
        .collect()
}

fn local(rows: &[Vec<Pixel>], r: usize, c: usize) -> u128 {
    let mut sum = 0;
    if c > 0 {
        sum += Pixel::color_diff(rows[r][c], rows[r][c - 1]) as u128;
    }
    if r > 0 {
        sum += Pixel::color_diff(rows[r][c], rows[r - 1][c]) as u128;
    }
    sum
}

#[test]
fn energies_of_a_checkerboard_reach_the_largest_values() {
    let rows = vec![
        vec![BLACK, WHITE, BLACK],
        vec![WHITE, BLACK, WHITE],
        vec![BLACK, WHITE, BLACK],
    ];
    assert_eq!(
        vertical_energy(&rows, 3),
        vec![
            vec![0, 195075, 195075],
            vec![195075, 390150, 585225],
            vec![390150, 585225, 780300],
        ]
    );
}

#[test]
fn energies_stay_within_their_bound() {
    let rows = mixed(9, 7);
    let energy = vertical_energy(&rows, 7);
    for (r, line) in energy.iter().enumerate() {
        for value in line {
            assert!(*value <= (r as u128 + 1) * 390150);
        }
    }
}

#[test]
fn energy_ignores_pixels_below_and_outside_the_band() {
    let rows = mixed(6, 8);
    let energy = vertical_energy(&rows, 5);
    let mut changed = rows.clone();
    for r in 0..6 {
        for c in 0..8 {
            if r > 3 || c >= 5 {
                changed[r][c] = Pixel { red: 200, green: 100, blue: (r + c) as u8 };
            }
        }
    }
    let other = vertical_energy(&changed, 5);
    for r in 0..=3 {
        for c in 0..5 {
            assert_eq!(energy[r][c], other[r][c]);
        }
    }
    assert_ne!(energy[5][2], other[5][2]);
}

#[test]
fn traced_seams_stay_in_the_band_and_move_by_one_at_most() {
    let rows = mixed(12, 9);
    let image = image_of(&rows);
    for border in 1..=9 {
        let mut energy = EnergyGrid::from_element(12, 9, 0).unwrap();
        assert_eq!(calculate_vertical_energy_matrix(&image, &mut energy, border), Ok(()));
        for start in 0..border {
            let seam = calculate_optimal_vertical_path(&energy, border, start).unwrap();
            assert_eq!(seam.len(), 12);
            assert_eq!(seam[11], start);
            for s in 0..12 {
                assert!(seam[s] < border);
                if s > 0 {
                    assert!(seam[s].abs_diff(seam[s - 1]) <= 1);
                }
            }
        }
    }
    for border in 1..=12 {
        let mut energy = EnergyGrid::from_element(12, 9, 0).unwrap();
        assert_eq!(calculate_horizontal_energy_matrix(&image, &mut energy, border), Ok(()));
        let start = calculate_min_energy_row(&energy, border).unwrap();
        let seam = calculate_optimal_horizontal_path(&energy, border, start).unwrap();
        assert_eq!(seam.len(), 9);
        for s in 0..9 {
            assert!(seam[s] < border);
            if s > 0 {
                assert!(seam[s].abs_diff(seam[s - 1]) <= 1);
            }
        }
    }
}

#[test]
fn endpoint_search_gives_the_same_place_each_time() {
    let rows = mixed(5, 11);
    let image = image_of(&rows);
    let mut energy = EnergyGrid::from_element(5, 11, 0).unwrap();
    assert_eq!(calculate_vertical_energy_matrix(&image, &mut energy, 11), Ok(()));
    let first = calculate_min_energy_column(&energy, 11).unwrap();
    for _ in 0..3 {
        assert_eq!(calculate_min_energy_column(&energy, 11), Ok(first));
    }
    let least = energy.get(4, first).unwrap();
    for c in 0..11 {
        let value = energy.get(4, c).unwrap();
        assert!(value >= least);
        if c < first {
            assert!(value > least);
        }
    }
}

/// The energy of every seam through the band, by trying them all.
fn least_seam_energy(rows: &[Vec<Pixel>], border: usize) -> u128 {
    fn walk(rows: &[Vec<Pixel>], border: usize, r: usize, c: usize, so_far: u128, best: &mut u128) {
        let here = so_far + local(rows, r, c);
        if r + 1 == rows.len() {
            if here < *best {
                *best = here;
            }
            return;
        }
        for next in c.saturating_sub(1)..=(c + 1).min(border - 1) {
            walk(rows, border, r + 1, next, here, best);
        }
    }
    let mut best = u128::MAX;
    for c in 0..border {
        walk(rows, border, 0, c, 0, &mut best);
    }
    best
}

#[test]
fn the_traced_seam_has_the_least_energy_of_all_seams() {
    let rows = mixed(6, 5);
    let image = image_of(&rows);
    for border in 1..=5 {
        let mut energy = EnergyGrid::from_element(6, 5, 0).unwrap();
        assert_eq!(calculate_vertical_energy_matrix(&image, &mut energy, border), Ok(()));
        let end = calculate_min_energy_column(&energy, border).unwrap();
        let seam = calculate_optimal_vertical_path(&energy, border, end).unwrap();
        let total: u128 = (0..6).map(|r| local(&rows, r, seam[r])).sum();
        assert_eq!(total, energy.get(5, end).unwrap());
        assert_eq!(total, least_seam_energy(&rows, border));
    }
}

#[test]
fn each_carving_step_removes_one_pixel_from_every_row() {
    let rows = mixed(7, 6);
    let mut image = image_of(&rows);
    assert_eq!(image.seam_carve(3, true), Ok(3));
    for r in 0..7 {
        // what is left of a row is what the row held, three pixels fewer, in the same order
        let left: Vec<Pixel> = (0..3).map(|c| image.pixels.get(r, c).unwrap()).collect();
        let mut at = 0;
        for p in &rows[r] {
            if at < left.len() && left[at] == *p {
                at += 1;
            }
        }
        assert_eq!(at, left.len());
    }
    assert_eq!(image.pixels.nrows(), 7);
    assert_eq!(image.pixels.ncols(), 6);
}

#[test]
fn carving_step_by_step_is_carving_at_once() {
    let rows = mixed(6, 6);
    let mut at_once = image_of(&rows);
    assert_eq!(at_once.seam_carve(2, false), Ok(4));
    let mut stepwise = image_of(&rows);
    assert_eq!(stepwise.seam_carve(1, false), Ok(5));
    // the second step works on the five live rows alone
    let live = stepwise.crop(0, 6, 0, 5);
    let mut second = live;
    assert_eq!(second.seam_carve(1, false), Ok(4));
    for r in 0..4 {
        for c in 0..6 {
            assert_eq!(at_once.pixels.get(r, c), second.pixels.get(r, c));
        }
    }
}
