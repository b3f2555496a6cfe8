use vstd::prelude::*;

verus! {

/// Options of the command that marks conflicts resolved or rolls back
/// the conflicting step.
pub struct Args {
    pub all: bool,
    pub list: bool,
    pub undo: bool,
    pub help: bool,
    pub paths: Vec<String>,
}

} // verus!
