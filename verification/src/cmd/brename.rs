use vstd::prelude::*;

verus! {

/// Options of the command that renames a branch; one name renames the
/// current branch, two rename the first to the second.
pub struct Args {
    pub help: bool,
    pub names: Vec<String>,
}

} // verus!
