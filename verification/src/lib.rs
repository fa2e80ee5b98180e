//! Image processing: an RGBA image model, transforms, palette generation,
//! dithering onto a palette, and the filter catalogue.
pub mod backend;
pub mod dispatch;
pub mod dithering;
pub mod filter;
pub mod filters;
pub mod image;
pub mod naming;
pub mod palette;
pub mod paths;
pub mod transform;
