use vstd::prelude::*;

use crate::algorithm::Algorithm;

verus! {

/// The settings of one run of the solver.
#[derive(Clone, Debug)]
pub struct Args {
    /// The maze image to read.
    pub filename: String,
    /// The search strategy.
    pub algorithm: Algorithm,
    /// Where to write the image with the route drawn on it.
    pub output_file: String,
    /// Report timings and sizes.
    pub logging: bool,
    /// Draw the route three pixels wide.
    pub wider: bool,
    /// Show the nodes that have been seen.
    pub seen: bool,
}

} // verus!
