//! Searches for the character grid whose rendering best matches a grayscale
//! target bitmap, by evolutionary search or by exhaustive per-cell search.
pub mod raster;
pub mod ratio;
pub mod chance;
pub mod scoring;
pub mod ascii_generator;
pub mod genetic_algorithm;
pub mod brute_force;
pub mod image_processor;
