//! What the pipeline is given for each executable.
use vstd::prelude::*;
use std::path::PathBuf;

verus! {

/// Input and output of the conversion of one executable.
#[derive(Debug)]
pub struct Files {
    /// The projector executable.
    pub input: PathBuf,
    /// The PDF to write.
    pub output: PathBuf,
    /// The stem of the input's file name, used as the document title.
    pub filename: String,
}

} // verus!
