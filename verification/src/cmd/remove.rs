use vstd::prelude::*;

verus! {

/// Options of the command that removes files from tree and index.
pub struct Args {
    pub help: bool,
    pub paths: Vec<String>,
}

} // verus!
