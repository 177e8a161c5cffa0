pub mod fill;
pub mod image;
pub mod parse;
pub mod ppm;
pub mod random;
pub mod round_trip;
pub mod transform;
