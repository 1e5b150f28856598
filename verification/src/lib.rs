//! Repairs images that contain fully transparent pixels: every pixel whose
//! alpha channel is zero gets the average color of all the other pixels,
//! so that no stray color bleeds in from it when the image is scaled or
//! blended.
//!
//! The work is split by rows among a fixed number of workers. Each worker
//! first adds up the opaque pixels of its own rows; the sums are merged
//! and give the average; then each worker recolors the transparent pixels
//! of its own rows in a copy of the image. This crate holds every worker's
//! share of that work, and the whole of it run by one worker after another.
//! It proves that the result is the same for any number of workers and any
//! order of merging, and that no two workers write in the same row.
//! Running the workers in threads, and reading and writing image files, is
//! left to the program that uses the crate.

pub mod average;
pub mod fixer;
pub mod grid;
pub mod partition;
pub mod pipeline;
pub mod report;
pub mod stats;
pub mod workers;
