use vstd::prelude::*;

verus! {

/// Options of the command that creates and checks out a branch.
pub struct Args {
    pub help: bool,
    pub name: String,
}

} // verus!
