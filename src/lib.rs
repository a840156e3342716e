//! Simple 2D and 3D shape values with a total order, a hash, and two
//! lossless encodings: a compact binary one and a structured text one.
pub mod binary;
pub mod bytes;
pub mod error;
pub mod laws;
pub mod shape;
pub mod text;
