use vstd::prelude::*;

verus! {

use crate::cmd::CommitInfo;
use crate::error::Error;
use crate::error::is_precondition;
use crate::meta::Branch;
use crate::meta::BranchView;
use crate::meta::Metadata;
use crate::meta::patches::first_index_of;
use crate::meta::patches::queue_remove;
use crate::meta::record_of;
use crate::text::str_eq;
use crate::text::views_of;

/// Options of the command that pushes patches onto the branch tip.
pub struct Args {
    pub all: bool,
    pub move_: Option<String>,
    pub graft: Option<String>,
    pub backout: Option<String>,
    pub help: bool,
    pub revspec: Option<String>,
}

/// How a patch is applied: picked from the branch's own queues,
/// grafted from anywhere, or backed out (reverted).
#[derive(Clone, Copy)]
pub enum PushOp {
    Normal,
    Graft,
    Backout,
}

/// How one push must proceed.
#[derive(Debug)]
pub enum PushKind {
    /// The target's parent is the current tip: move the tip forward.
    FastForward,
    /// Apply the target onto the index behind a placeholder commit.
    Apply,
}

/// Decides how one commit is pushed. Only a commit with exactly one
/// parent can be pushed, and only a normal push whose target sits
/// directly on the current tip may fast-forward.
pub fn push_classify(op: PushOp, head: &str, commit: &CommitInfo) -> (r: Result<PushKind, Error>)
    ensures
        match r {
            Ok(k) => {
                &&& commit.parents@.len() == 1
                &&& (k is FastForward <==> (op is Normal && commit.parents@[0]@ == head@))
            },
            Err(e) => {
                &&& if commit.parents@.len() == 0 {
                    is_precondition(e, "cannot pushed initial commit"@)
                } else {
                    commit.parents@.len() > 1 && is_precondition(e, "cannot push merge commit"@)
                }
            },
        },
{
    if commit.parents.len() == 0 {
        return Err(
            Error::Precondition { message: "cannot pushed initial commit".to_owned() },
        );
    }
    if commit.parents.len() > 1 {
        return Err(Error::Precondition { message: "cannot push merge commit".to_owned() });
    }
    let ff = match op {
        PushOp::Normal => str_eq(commit.parents[0].as_str(), head),
        _ => false,
    };
    if ff {
        Ok(PushKind::FastForward)
    } else {
        Ok(PushKind::Apply)
    }
}

/// Records a fast-forward push: the identifier leaves the hidden and
/// popped queues and becomes the new top of the pushed queue. The
/// caller must have hard-reset the tip to the commit itself.
pub fn record_fast_forward(meta: &mut Metadata, name: &str, id: &str)
    requires
        old(meta).wf(),
    ensures
        final(meta).wf(),
        final(meta)@.props == old(meta)@.props,
        final(meta)@.source == old(meta)@.source,
        ({
            let b0 = record_of(old(meta).branches@, name@);
            final(meta).branches@ == old(meta).branches@.insert(
                name@,
                BranchView {
                    hidden: queue_remove(b0.hidden, id@),
                    popped: queue_remove(b0.popped, id@),
                    pushed: seq![id@] + b0.pushed,
                    ..b0
                },
            )
        }),
{
    let mut branch = meta.branches.acquire(name);
    let _ = branch.hidden.remove(id);
    let _ = branch.popped.remove(id);
    branch.pushed.add_top(id.to_owned());
    meta.branches.release(branch);
}

/// Records the placeholder commit of a non-fast-forward push: for a
/// normal push the target leaves the hidden and popped queues; the
/// placeholder's identifier becomes the new top of the pushed queue,
/// to be amended once the target is applied cleanly.
pub fn record_apply(meta: &mut Metadata, name: &str, target: &str, placeholder: &str, op: PushOp)
    requires
        old(meta).wf(),
    ensures
        final(meta).wf(),
        final(meta)@.props == old(meta)@.props,
        final(meta)@.source == old(meta)@.source,
        ({
            let b0 = record_of(old(meta).branches@, name@);
            match op {
                PushOp::Normal => final(meta).branches@ == old(meta).branches@.insert(
                    name@,
                    BranchView {
                        hidden: queue_remove(b0.hidden, target@),
                        popped: queue_remove(b0.popped, target@),
                        pushed: seq![placeholder@] + b0.pushed,
                        ..b0
                    },
                ),
                _ => final(meta).branches@ == old(meta).branches@.insert(
                    name@,
                    BranchView { pushed: seq![placeholder@] + b0.pushed, ..b0 },
                ),
            }
        }),
{
    let mut branch = meta.branches.acquire(name);
    match op {
        PushOp::Normal => {
            let _ = branch.hidden.remove(target);
            let _ = branch.popped.remove(target);
        },
        _ => {},
    }
    branch.pushed.add_top(placeholder.to_owned());
    meta.branches.release(branch);
}

/// The patches a push aimed at `id` walks through: from `id` down to
/// the bottom of the popped queue, bottom first, so that `id` is
/// pushed last; the target must be popped.
pub fn push_targets(branch: &Branch, id: &str) -> (r: Result<Vec<String>, Error>)
    ensures
        match r {
            Ok(ids) => branch@.popped.contains(id@) && views_of(ids@) == branch@.popped.skip(
                first_index_of(branch@.popped, id@),
            ).reverse(),
            Err(e) => !branch@.popped.contains(id@) && is_precondition(
                e,
                "cannot push non-popped commit"@,
            ),
        },
{
    if !branch.popped.contains(id) {
        return Err(
            Error::Precondition { message: "cannot push non-popped commit".to_owned() },
        );
    }
    Ok(branch.popped.range_reversed(id))
}

/// A move may only target a patch the branch already tracks off-tip:
/// one in its hidden or popped queue.
pub fn push_move_check(branch: &Branch, id: &str) -> (r: Result<(), Error>)
    ensures
        match r {
            Ok(()) => branch@.hidden.contains(id@) || branch@.popped.contains(id@),
            Err(e) => !branch@.hidden.contains(id@) && !branch@.popped.contains(id@)
                && is_precondition(e, "cannot move non-popped commit (use --graft)"@),
        },
{
    if !branch.hidden.contains(id) && !branch.popped.contains(id) {
        return Err(
            Error::Precondition {
                message: "cannot move non-popped commit (use --graft)".to_owned(),
            },
        );
    }
    Ok(())
}

} // verus!
