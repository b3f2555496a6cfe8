use vstd::prelude::*;

verus! {

use crate::error::Error;
use crate::error::is_precondition;
use crate::meta::BranchView;
use crate::meta::Metadata;
use crate::meta::patches::first_index_of;
use crate::meta::record_of;

/// Options of the command that folds patches into the tip.
pub struct Args {
    pub next: bool,
    pub help: bool,
    pub revspecs: Vec<String>,
}

/// Starts folding one popped patch into the branch tip: the patch
/// leaves the popped queue before the caller cherry-picks it onto the
/// index. It stays removed even when the pick then pauses on
/// conflicts, which the caller persists with an undo point.
pub fn fold_begin(meta: &mut Metadata, name: &str, id: &str) -> (r: Result<(), Error>)
    requires
        old(meta).wf(),
    ensures
        final(meta).wf(),
        final(meta)@.props == old(meta)@.props,
        final(meta)@.source == old(meta)@.source,
        ({
            let b0 = record_of(old(meta).branches@, name@);
            match r {
                Ok(()) => b0.popped.contains(id@) && final(meta).branches@ == old(
                    meta,
                ).branches@.insert(
                    name@,
                    BranchView {
                        popped: b0.popped.remove(first_index_of(b0.popped, id@)),
                        ..b0
                    },
                ),
                Err(e) => !b0.popped.contains(id@) && is_precondition(
                    e,
                    "cannot fold non-popped commit"@,
                ) && final(meta).branches@ == old(meta).branches@.insert(name@, b0),
            }
        }),
{
    let mut branch = meta.branches.acquire(name);
    if !branch.popped.remove(id) {
        meta.branches.release(branch);
        return Err(
            Error::Precondition { message: "cannot fold non-popped commit".to_owned() },
        );
    }
    meta.branches.release(branch);
    Ok(())
}

/// Records a clean fold: the amended tip replaces the top of the
/// pushed queue.
pub fn fold_record(meta: &mut Metadata, name: &str, amended: &str)
    requires
        old(meta).wf(),
        old(meta).branches@.contains_key(name@),
        old(meta).branches@[name@].pushed.len() > 0,
    ensures
        final(meta).wf(),
        final(meta)@.props == old(meta)@.props,
        final(meta)@.source == old(meta)@.source,
        ({
            let b0 = old(meta).branches@[name@];
            final(meta).branches@ == old(meta).branches@.insert(
                name@,
                BranchView { pushed: b0.pushed.update(0, amended@), ..b0 },
            )
        }),
{
    let mut branch = meta.branches.acquire(name);
    branch.pushed.replace_top(amended.to_owned());
    meta.branches.release(branch);
}

} // verus!
