//! Converts a raster image into a symbolic two-layer blueprint grid by
//! classifying pixels against a fixed color palette, assembles the grid into
//! placed objects and tiles, and serializes the result into a versioned,
//! compressed, base64-encoded transport string (and back).

pub mod blueprint;
pub mod blueprint_decode;
pub mod bytes;
pub mod codec;
pub mod color;
pub mod grid;
