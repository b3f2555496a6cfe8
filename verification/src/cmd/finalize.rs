use vstd::prelude::*;

verus! {

use crate::error::Error;
use crate::error::is_precondition;
use crate::meta::BranchView;
use crate::meta::Metadata;
use crate::meta::record_of;
use crate::text::views_of;

/// Options of the command that promotes pushed patches out of the
/// queue.
pub struct Args {
    pub help: bool,
}

/// Promotes every pushed patch out of queue tracking: the pushed queue
/// is emptied and its identifiers, top first, are returned for
/// reporting. The commits themselves stay in history.
pub fn finalize_step(meta: &mut Metadata, name: &str) -> (r: Result<Vec<String>, Error>)
    requires
        old(meta).wf(),
    ensures
        final(meta).wf(),
        final(meta)@.props == old(meta)@.props,
        final(meta)@.source == old(meta)@.source,
        ({
            let b0 = record_of(old(meta).branches@, name@);
            match r {
                Ok(ids) => {
                    &&& b0.pushed.len() > 0
                    &&& views_of(ids@) == b0.pushed
                    &&& final(meta).branches@ == old(meta).branches@.insert(
                        name@,
                        BranchView { pushed: Seq::empty(), ..b0 },
                    )
                },
                Err(e) => {
                    &&& b0.pushed.len() == 0
                    &&& is_precondition(e, "nothing to finalize"@)
                    &&& final(meta).branches@ == old(meta).branches@.insert(name@, b0)
                },
            }
        }),
{
    let mut branch = meta.branches.acquire(name);
    if branch.pushed.is_empty() {
        meta.branches.release(branch);
        return Err(Error::Precondition { message: "nothing to finalize".to_owned() });
    }
    let ids = branch.pushed.all();
    branch.pushed.remove_all();
    meta.branches.release(branch);
    Ok(ids)
}

} // verus!
