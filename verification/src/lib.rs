//! A library for generating color schemes from images.
//!
//! The verified part of the library holds the merge order of the color clustering,
//! the order in which accent hues are picked, the named hue slots of a scheme, the
//! reading of raw RGBA pixel data and the errors of each stage.
pub mod accent_hues;
pub mod cluster;
pub mod color_traits;
pub mod neutral_color_builder;
pub mod parse_image;
pub mod rgba;
pub mod scheme_builder;
pub mod thaimeleon_scheme;
pub mod utils;
