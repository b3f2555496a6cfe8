use vstd::prelude::*;

verus! {

/// Options of the command that initializes a repository.
pub struct Args {
    pub help: bool,
}

} // verus!
