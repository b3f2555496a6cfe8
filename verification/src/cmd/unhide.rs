use vstd::prelude::*;

verus! {

use crate::error::Error;
use crate::error::is_precondition;
use crate::meta::BranchView;
use crate::meta::Metadata;
use crate::meta::patches::first_index_of;
use crate::meta::record_of;

/// Options of the command that unhides patches.
pub struct Args {
    pub all: bool,
    pub help: bool,
    pub revspecs: Vec<String>,
}

/// Brings one hidden patch back into the normal flow: drops it from
/// the branch's hidden queue and puts it on top of the popped queue.
pub fn unhide_step(meta: &mut Metadata, name: &str, id: &str) -> (r: Result<(), Error>)
    requires
        old(meta).wf(),
    ensures
        final(meta).wf(),
        final(meta)@.props == old(meta)@.props,
        final(meta)@.source == old(meta)@.source,
        ({
            let b0 = record_of(old(meta).branches@, name@);
            match r {
                Ok(()) => b0.hidden.contains(id@) && final(meta).branches@ == old(
                    meta,
                ).branches@.insert(
                    name@,
                    BranchView {
                        hidden: b0.hidden.remove(first_index_of(b0.hidden, id@)),
                        popped: seq![id@] + b0.popped,
                        ..b0
                    },
                ),
                Err(e) => !b0.hidden.contains(id@) && is_precondition(
                    e,
                    "cannot unhide non-hidden commit"@,
                ) && final(meta).branches@ == old(meta).branches@.insert(name@, b0),
            }
        }),
{
    let mut branch = meta.branches.acquire(name);
    if !branch.hidden.remove(id) {
        meta.branches.release(branch);
        return Err(
            Error::Precondition { message: "cannot unhide non-hidden commit".to_owned() },
        );
    }
    branch.popped.add_top(id.to_owned());
    meta.branches.release(branch);
    Ok(())
}

} // verus!
