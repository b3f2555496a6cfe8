use vstd::prelude::*;

verus! {

/// Options of the command that checks out an existing branch.
pub struct Args {
    pub help: bool,
    pub name: String,
}

} // verus!
