//! The command-line options, as plain values.

use vstd::prelude::*;

use crate::ImageFormat;

verus! {

/// The options of one invocation.
pub struct Cli {
    /// Activate debug mode.
    pub debug: bool,
    /// Set the output format.
    pub output_type: Option<ImageFormat>,
    /// Delete the source file.
    pub delete: bool,
    /// Geometry options, eg. 800x, x800, 800x600.
    pub geometry: Option<String>,
    /// Input filename.
    pub filename: String,
    /// Overwrite existing files without prompting.
    pub force: bool,
    /// Show image info and return.
    pub info: bool,
}

} // verus!
