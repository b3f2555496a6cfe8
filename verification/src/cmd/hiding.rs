use vstd::prelude::*;

verus! {

use crate::error::Error;
use crate::error::is_precondition;
use crate::meta::BranchView;
use crate::meta::Metadata;
use crate::meta::patches::first_index_of;
use crate::meta::record_of;

/// Options of the command that hides patches.
pub struct Args {
    pub all: bool,
    pub next: bool,
    pub help: bool,
    pub revspecs: Vec<String>,
}

/// Moves one popped patch out of the normal flow: drops it from the
/// branch's popped queue and puts it on top of the hidden queue.
pub fn hide_step(meta: &mut Metadata, name: &str, id: &str) -> (r: Result<(), Error>)
    requires
        old(meta).wf(),
    ensures
        final(meta).wf(),
        final(meta)@.props == old(meta)@.props,
        final(meta)@.source == old(meta)@.source,
        ({
            let b0 = record_of(old(meta).branches@, name@);
            match r {
                Ok(()) => b0.popped.contains(id@) && final(meta).branches@ == old(
                    meta,
                ).branches@.insert(
                    name@,
                    BranchView {
                        popped: b0.popped.remove(first_index_of(b0.popped, id@)),
                        hidden: seq![id@] + b0.hidden,
                        ..b0
                    },
                ),
                Err(e) => !b0.popped.contains(id@) && is_precondition(
                    e,
                    "cannot hide non-popped commit"@,
                ) && final(meta).branches@ == old(meta).branches@.insert(name@, b0),
            }
        }),
{
    let mut branch = meta.branches.acquire(name);
    if !branch.popped.remove(id) {
        meta.branches.release(branch);
        return Err(
            Error::Precondition { message: "cannot hide non-popped commit".to_owned() },
        );
    }
    branch.hidden.add_top(id.to_owned());
    meta.branches.release(branch);
    Ok(())
}

} // verus!
