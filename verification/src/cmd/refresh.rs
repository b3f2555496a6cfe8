use vstd::prelude::*;

verus! {

use crate::error::Error;
use crate::error::is_precondition;
use crate::meta::Branch;
use crate::meta::BranchView;
use crate::meta::Metadata;

/// Options of the command that refreshes the tip from the index.
pub struct Args {
    pub resolve: bool,
    pub author: bool,
    pub committer: bool,
    pub help: bool,
}

/// A refresh needs something on the pushed queue to amend.
pub fn refresh_check(branch: &Branch) -> (r: Result<(), Error>)
    ensures
        match r {
            Ok(()) => branch@.pushed.len() > 0,
            Err(e) => branch@.pushed.len() == 0 && is_precondition(e, "nothing to refresh"@),
        },
{
    if branch.pushed.is_empty() {
        return Err(Error::Precondition { message: "nothing to refresh".to_owned() });
    }
    Ok(())
}

/// Records an amended tip: its identifier replaces the top of the
/// pushed queue.
pub fn record_refresh(meta: &mut Metadata, name: &str, amended: &str)
    requires
        old(meta).wf(),
        old(meta).branches@.contains_key(name@),
        old(meta).branches@[name@].pushed.len() > 0,
    ensures
        final(meta).wf(),
        final(meta)@.props == old(meta)@.props,
        final(meta)@.source == old(meta)@.source,
        ({
            let b0 = old(meta).branches@[name@];
            final(meta).branches@ == old(meta).branches@.insert(
                name@,
                BranchView { pushed: b0.pushed.update(0, amended@), ..b0 },
            )
        }),
{
    let mut branch = meta.branches.acquire(name);
    branch.pushed.replace_top(amended.to_owned());
    meta.branches.release(branch);
}

} // verus!
