use vstd::prelude::*;

verus! {

/// Options of the command that lists a branch's tracked patches.
pub struct Args {
    pub all: bool,
    pub hidden: bool,
    pub help: bool,
    pub names: Vec<String>,
}

} // verus!
