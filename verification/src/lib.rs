//! A small software renderer: an owned pixel canvas and the routines that
//! paint into it, with every routine's behavior stated and proved.
//!
//! - [`canvas`]: the pixel, the canvas, and the dimming of a color.
//! - [`line`]: points and straight lines.
//! - [`graph`]: the history of frame times, and its graph.
//! - [`trace`]: the ray tracer.
//! - [`text`]: the coverage samples of glyphs, as shades of gray.
//! - [`vector`]: vectors of three numbers.
//! - [`math`], [`single`]: the numbers, binary64 and binary32, in integer
//!   arithmetic.
//! - [`ieee`]: the encoding of the numbers, and rounding.
//! - [`value`], [`whole`]: what the arithmetic of the numbers has of the
//!   arithmetic of the reals and of the integers.
//! - [`win_except`]: what counts as failure in the window system's results.

pub mod canvas;
pub mod graph;
pub mod ieee;
pub mod line;
pub mod math;
pub mod single;
pub mod text;
pub mod trace;
pub mod value;
pub mod vector;
pub mod whole;
pub mod win_except;
