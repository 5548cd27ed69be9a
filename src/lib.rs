//! Chart building blocks: exact "nice" axis labels (an extended Wilkinson search),
//! series options and colours, and a recording canvas for tests.
use vstd::prelude::*;

pub mod canvas;
pub mod labeller;
pub mod laws;
pub mod options;
pub mod pixel;
pub mod ratio;

pub use crate::labeller::{Label, Labeller};
pub use crate::pixel::Color;
pub use crate::ratio::Ratio;

verus! {

/// Anything that can draw itself as a graph.
pub trait Graph {
    fn plot(&mut self);
}

} // verus!
