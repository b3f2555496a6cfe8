use vstd::prelude::*;

verus! {

use crate::error::Error;
use crate::error::is_precondition;
use crate::meta::BranchView;
use crate::meta::Metadata;
use crate::meta::patches::first_index_of;
use crate::meta::record_of;

/// Options of the command that drops patches from tracking.
pub struct Args {
    pub interactive: bool,
    pub next: bool,
    pub help: bool,
    pub revspecs: Vec<String>,
}

/// Drops one patch from tracking entirely: out of the hidden queue if
/// it is there, else out of the popped queue. A patch in neither (a
/// pushed or untracked one) cannot be deleted.
pub fn delete_step(meta: &mut Metadata, name: &str, id: &str) -> (r: Result<(), Error>)
    requires
        old(meta).wf(),
    ensures
        final(meta).wf(),
        final(meta)@.props == old(meta)@.props,
        final(meta)@.source == old(meta)@.source,
        ({
            let b0 = record_of(old(meta).branches@, name@);
            match r {
                Ok(()) => {
                    &&& (b0.hidden.contains(id@) || b0.popped.contains(id@))
                    &&& b0.hidden.contains(id@) ==> final(meta).branches@ == old(
                        meta,
                    ).branches@.insert(
                        name@,
                        BranchView {
                            hidden: b0.hidden.remove(first_index_of(b0.hidden, id@)),
                            ..b0
                        },
                    )
                    &&& !b0.hidden.contains(id@) ==> final(meta).branches@ == old(
                        meta,
                    ).branches@.insert(
                        name@,
                        BranchView {
                            popped: b0.popped.remove(first_index_of(b0.popped, id@)),
                            ..b0
                        },
                    )
                },
                Err(e) => {
                    &&& !b0.hidden.contains(id@)
                    &&& !b0.popped.contains(id@)
                    &&& is_precondition(e, "cannot delete non-popped commit"@)
                    &&& final(meta).branches@ == old(meta).branches@.insert(name@, b0)
                },
            }
        }),
{
    let mut branch = meta.branches.acquire(name);
    if !branch.hidden.remove(id) && !branch.popped.remove(id) {
        meta.branches.release(branch);
        return Err(
            Error::Precondition { message: "cannot delete non-popped commit".to_owned() },
        );
    }
    meta.branches.release(branch);
    Ok(())
}

} // verus!
