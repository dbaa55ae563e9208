//! A minimal raster image library: an in-memory RGB pixel buffer with
//! unchecked pixel writes, integer-only line rasterization, and
//! serialization to the binary portable pixmap format.

pub mod canvas;
pub mod codec;
pub mod raster;

pub use canvas::Colour;
pub use canvas::PPM;
pub use canvas::Point;
