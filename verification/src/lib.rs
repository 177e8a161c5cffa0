//! Editing of raster images, with content-aware resizing by seam carving.
//!
//! An image is a grid of RGB pixels. Seam carving narrows or lowers it by
//! removing, again and again, the path of pixels that differ least from
//! their neighbours: `energy_utils` computes the energies and traces the
//! seam, `image_utils` removes it and holds the other operations on images,
//! `seam` and `optimal` state what is computed and prove that the seam
//! removed is a cheapest one.

pub mod energy_utils;
pub mod error;
pub mod grid;
pub mod image_utils;
pub mod matrix;
pub mod optimal;
pub mod pixel_utils;
pub mod seam;
