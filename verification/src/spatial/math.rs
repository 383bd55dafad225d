//! Vector arithmetic.

pub mod vector;
