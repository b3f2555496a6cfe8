use vstd::prelude::*;

verus! {

use crate::error::Error;
use crate::error::is_precondition;
use crate::meta::Branch;

/// Options of the command that hard-resets the branch tip.
pub struct Args {
    pub help: bool,
    pub revspec: String,
}

/// A hard reset of the tip is only allowed while no patch is pushed,
/// since it would silently break the pushed chain.
pub fn reset_check(branch: &Branch) -> (r: Result<(), Error>)
    ensures
        match r {
            Ok(()) => branch@.pushed.len() == 0,
            Err(e) => branch@.pushed.len() > 0 && is_precondition(
                e,
                "cannot reset with pushed commits"@,
            ),
        },
{
    if !branch.pushed.is_empty() {
        return Err(
            Error::Precondition { message: "cannot reset with pushed commits".to_owned() },
        );
    }
    Ok(())
}

} // verus!
