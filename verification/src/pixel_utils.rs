pub mod pixel;
