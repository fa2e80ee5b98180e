//! Palette generation: reduce the colors of an image to a small palette.
use vstd::prelude::*;
use crate::image::{Color, Image};

pub mod kmeans;
pub mod median_cut;
pub mod octree;

verus! {

/// An ordered list of colors.
#[derive(Debug, Clone)]
pub struct Palette {
    pub colors: Vec<Color>,
}

/// A palette generation algorithm.
pub trait PaletteGenerator {
    type Params;

    /// The algorithm's name.
    fn name(&self) -> &'static str;

    /// The palette that the algorithm computes for `image`.
    fn calculate(&self, image: &Image, params: &Self::Params) -> Palette
        requires
            image.has_whole_pixels(),
    ;
}

} // verus!
