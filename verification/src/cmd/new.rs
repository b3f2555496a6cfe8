use vstd::prelude::*;

verus! {

use crate::meta::BranchView;
use crate::meta::Metadata;
use crate::meta::record_of;

/// Options of the command that commits the index as a new patch.
pub struct Args {
    pub help: bool,
    pub message: Vec<String>,
}

/// Records a freshly created commit as the new top of the branch's
/// pushed queue.
pub fn record_new(meta: &mut Metadata, name: &str, id: &str)
    requires
        old(meta).wf(),
    ensures
        final(meta).wf(),
        final(meta)@.props == old(meta)@.props,
        final(meta)@.source == old(meta)@.source,
        ({
            let b0 = record_of(old(meta).branches@, name@);
            final(meta).branches@ == old(meta).branches@.insert(
                name@,
                BranchView { pushed: seq![id@] + b0.pushed, ..b0 },
            )
        }),
{
    let mut branch = meta.branches.acquire(name);
    branch.pushed.add_top(id.to_owned());
    meta.branches.release(branch);
}

} // verus!
