use vstd::prelude::*;

verus! {

/// Options of one run of the command-line program.
#[derive(Debug)]
pub struct Args {
    /// Path of the configuration document to read.
    pub source_path: String,
    /// Name of the entry to act on, if one was given.
    pub target: Option<String>,
    /// Print nothing.
    pub is_silent: bool,
    /// Only validate the document, then stop.
    pub is_validation: bool,
}

} // verus!
