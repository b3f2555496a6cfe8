use vstd::prelude::*;

verus! {

/// Options of the command that stages untracked files.
pub struct Args {
    pub all: bool,
    pub help: bool,
    pub paths: Vec<String>,
}

} // verus!
