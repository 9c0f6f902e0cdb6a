//! A verified interpreter core for a two-dimensional, color-encoded esoteric
//! programming language: a program is a rectangular grid of colored cells
//! ("codels"), and control flow is derived from adjacency and color
//! transitions between same-colored regions ("blocks").

pub mod codel;
pub mod grid;
pub mod machine;
pub mod numparse;
pub mod ops;
pub mod palette;
pub mod pietcolor;
