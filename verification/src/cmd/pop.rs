use vstd::prelude::*;

verus! {

use crate::cmd::CommitInfo;
use crate::error::Error;
use crate::error::is_precondition;
use crate::meta::Branch;
use crate::meta::BranchView;
use crate::meta::Metadata;
use crate::meta::patches::first_index_of;
use crate::meta::patches::queue_remove;
use crate::meta::record_of;
use crate::text::str_eq;
use crate::text::views_of;

/// Options of the command that pops patches off the branch tip.
pub struct Args {
    pub all: bool,
    pub finalized: bool,
    pub help: bool,
    pub revspec: Option<String>,
}

/// Pops one patch: the commit must be the current tip and have exactly
/// one parent. Its identifier moves from the pushed queue to the
/// bottom of the popped queue, and the returned parent identifier is
/// where the caller must hard-reset the branch tip.
pub fn pop_step(meta: &mut Metadata, name: &str, head: &str, commit: &CommitInfo) -> (r: Result<
    String,
    Error,
>)
    requires
        old(meta).wf(),
    ensures
        final(meta).wf(),
        final(meta)@.props == old(meta)@.props,
        final(meta)@.source == old(meta)@.source,
        ({
            let b0 = record_of(old(meta).branches@, name@);
            match r {
                Ok(parent) => {
                    &&& commit.id@ == head@
                    &&& commit.parents@.len() == 1
                    &&& parent@ == commit.parents@[0]@
                    &&& final(meta).branches@ == old(meta).branches@.insert(
                        name@,
                        BranchView {
                            pushed: queue_remove(b0.pushed, commit.id@),
                            popped: b0.popped + seq![commit.id@],
                            ..b0
                        },
                    )
                },
                Err(e) => {
                    &&& final(meta)@ == old(meta)@
                    &&& final(meta).branches@ == old(meta).branches@
                    &&& if commit.id@ != head@ {
                        is_precondition(e, "cannot pop non-head commit"@)
                    } else if commit.parents@.len() == 0 {
                        is_precondition(e, "cannot pop initial commit"@)
                    } else {
                        commit.parents@.len() > 1 && is_precondition(
                            e,
                            "cannot pop merge commit"@,
                        )
                    }
                },
            }
        }),
{
    if !str_eq(commit.id.as_str(), head) {
        return Err(Error::Precondition { message: "cannot pop non-head commit".to_owned() });
    }
    if commit.parents.len() == 0 {
        return Err(Error::Precondition { message: "cannot pop initial commit".to_owned() });
    }
    if commit.parents.len() > 1 {
        return Err(Error::Precondition { message: "cannot pop merge commit".to_owned() });
    }
    let mut branch = meta.branches.acquire(name);
    let _ = branch.pushed.remove(commit.id.as_str());
    branch.popped.add_bottom(commit.id.clone());
    meta.branches.release(branch);
    Ok(commit.parents[0].clone())
}

/// The patches a pop aimed at `id` walks through: everything strictly
/// above `id`, top first, so that `id` ends up as the branch tip; the
/// target must be pushed.
pub fn pop_targets(branch: &Branch, id: &str) -> (r: Result<Vec<String>, Error>)
    ensures
        match r {
            Ok(ids) => branch@.pushed.contains(id@) && views_of(ids@) == branch@.pushed.take(
                first_index_of(branch@.pushed, id@),
            ),
            Err(e) => !branch@.pushed.contains(id@) && is_precondition(
                e,
                "cannot pop non-pushed commit"@,
            ),
        },
{
    if !branch.pushed.contains(id) {
        return Err(
            Error::Precondition { message: "cannot pop non-pushed commit".to_owned() },
        );
    }
    Ok(branch.pushed.range(id))
}

/// Puts the branch tip back under queue tracking so that it can be
/// popped: only allowed while nothing is pushed.
pub fn pop_finalized_begin(meta: &mut Metadata, name: &str, head: &str) -> (r: Result<(), Error>)
    requires
        old(meta).wf(),
    ensures
        final(meta).wf(),
        final(meta)@.props == old(meta)@.props,
        final(meta)@.source == old(meta)@.source,
        ({
            let b0 = record_of(old(meta).branches@, name@);
            match r {
                Ok(()) => b0.pushed.len() == 0 && final(meta).branches@ == old(
                    meta,
                ).branches@.insert(name@, BranchView { pushed: seq![head@], ..b0 }),
                Err(e) => b0.pushed.len() > 0 && is_precondition(
                    e,
                    "cannot have pushed commits"@,
                ) && final(meta).branches@ == old(meta).branches@.insert(name@, b0),
            }
        }),
{
    let mut branch = meta.branches.acquire(name);
    if !branch.pushed.is_empty() {
        meta.branches.release(branch);
        return Err(Error::Precondition { message: "cannot have pushed commits".to_owned() });
    }
    branch.pushed.add_top(head.to_owned());
    proof {
        assert(seq![head@] + record_of(old(meta).branches@, name@).pushed =~= seq![head@]);
    }
    meta.branches.release(branch);
    Ok(())
}

} // verus!
