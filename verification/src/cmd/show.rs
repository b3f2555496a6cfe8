use vstd::prelude::*;

verus! {

/// Options of the command that shows one commit.
pub struct Args {
    pub files: bool,
    pub help: bool,
    pub revspec: Option<String>,
}

/// The branches whose tips sit on one commit: the checked-out one, if
/// any, and the others.
pub struct BranchInfo {
    pub head: Option<String>,
    pub non_heads: Vec<String>,
}

} // verus!
