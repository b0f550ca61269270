//! Turns the bits of a file into a square pattern of pixels: every bit is
//! drawn as a `ss`×`ss` square, squares are laid out row by row on frames of
//! a fixed width.

pub mod bits;
pub mod iter;
pub mod metadata;
pub mod encode;
pub mod encoder;
pub mod counting;


