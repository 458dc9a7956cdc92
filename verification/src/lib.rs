//! An in-memory graph of named 3D points, connected by weighted symmetric
//! edge pairs, with a renderer that draws the topology onto a grayscale
//! raster.
//!
//! `structs` holds the data model and its mutation and query operations;
//! `render` holds the raster and the drawing routines. Coordinates and
//! weights travel as IEEE-754 single-precision bit patterns: the values the
//! driver measures (distances, decimal texts, raster projections) come in as
//! arguments, and every decision over them is verified.
pub mod render;
pub mod structs;
