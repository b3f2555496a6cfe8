use vstd::prelude::*;

verus! {

use crate::error::Error;
use crate::error::is_precondition;
use crate::meta::branch::branch_is_empty;
use crate::meta::Metadata;
use crate::meta::record_of;

/// Options of the command that deletes a branch.
pub struct Args {
    pub force: bool,
    pub help: bool,
    pub name: String,
}

/// Drops a branch's record from the table, so that the metadata stops
/// tracking it; a record still holding patches or properties needs
/// `force`.
pub fn bdelete_step(meta: &mut Metadata, name: &str, force: bool) -> (r: Result<(), Error>)
    requires
        old(meta).wf(),
    ensures
        final(meta).wf(),
        final(meta)@.props == old(meta)@.props,
        final(meta)@.source == old(meta)@.source,
        ({
            let b0 = record_of(old(meta).branches@, name@);
            match r {
                Ok(()) => {
                    &&& (branch_is_empty(b0) || force)
                    &&& final(meta).branches@ == old(meta).branches@.remove(name@)
                },
                Err(e) => {
                    &&& !branch_is_empty(b0)
                    &&& !force
                    &&& is_precondition(
                        e,
                        "branch has patches and/or properties (use --force to delete)"@,
                    )
                    &&& final(meta).branches@ == old(meta).branches@.insert(name@, b0)
                },
            }
        }),
{
    let branch = meta.branches.acquire(name);
    if !branch.is_empty() && !force {
        meta.branches.release(branch);
        return Err(
            Error::Precondition {
                message: "branch has patches and/or properties (use --force to delete)".to_owned(),
            },
        );
    }
    proof {
        if !old(meta).branches@.contains_key(name@) {
            assert(old(meta).branches@.remove(name@) =~= old(meta).branches@);
        }
    }
    Ok(())
}

} // verus!
