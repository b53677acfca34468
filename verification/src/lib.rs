//! A verified core for rendering the Mandelbrot set as a grayscale raster.
//!
//! The complex plane is modelled with fixed-point integers (`fixed`), pixel
//! coordinates are mapped onto it by linear interpolation (`plane`), each
//! point is classified by an escape-time iteration (`escape`), bands of rows
//! are filled one byte per pixel (`render`), and the image is partitioned
//! into disjoint row bands whose corners are derived from the full viewport
//! (`schedule`). `parse` reads the `WxH`-style pairs that callers hand in.
pub mod fixed;
pub mod plane;
pub mod escape;
pub mod render;
pub mod schedule;
pub mod parse;
