use vstd::prelude::*;

verus! {

/// Options of the command that prints the version.
pub struct Args {
    pub help: bool,
}

} // verus!
