use patchkeeper::cmd::bdelete::bdelete_step;
use patchkeeper::cmd::bhide::bhide_step;
use patchkeeper::cmd::blist::is_branch_hidden;
use patchkeeper::cmd::bunhide::bunhide_step;
use patchkeeper::cmd::delete::delete_step;
use patchkeeper::cmd::finalize::finalize_step;
use patchkeeper::cmd::fold::{fold_begin, fold_record};
use patchkeeper::cmd::hiding::hide_step;
use patchkeeper::cmd::new::record_new;
use patchkeeper::cmd::pop::{pop_finalized_begin, pop_step, pop_targets};
use patchkeeper::cmd::push::{
    push_classify, push_move_check, push_targets, record_apply, record_fast_forward, PushKind,
    PushOp,
};
use patchkeeper::cmd::refresh::{record_refresh, refresh_check};
use patchkeeper::cmd::reset::reset_check;
use patchkeeper::cmd::unhide::unhide_step;
use patchkeeper::cmd::CommitInfo;
use patchkeeper::error::Error;
use patchkeeper::meta::Metadata;

const R: &str = "0000000000000000000000000000000000000000";
const A: &str = "aaaaaaaaaaaaaaaaaaaaaaaaaaaaaaaaaaaaaaaa";
const B: &str = "bbbbbbbbbbbbbbbbbbbbbbbbbbbbbbbbbbbbbbbb";
const G: &str = "1111111111111111111111111111111111111111";
const P: &str = "2222222222222222222222222222222222222222";
const AMENDED: &str = "3333333333333333333333333333333333333333";

fn commit(id: &str, parents: &[&str]) -> CommitInfo {
    CommitInfo { id: id.to_string(), parents: parents.iter().map(|s| s.to_string()).collect() }
}

fn pushed_of(meta: &mut Metadata, name: &str) -> Vec<String> {
    let b = meta.branches.acquire(name);
    let r = b.pushed.all();
    meta.branches.release(b);
    r
}

fn popped_of(meta: &mut Metadata, name: &str) -> Vec<String> {
    let b = meta.branches.acquire(name);
    let r = b.popped.all();
    meta.branches.release(b);
    r
}

fn hidden_of(meta: &mut Metadata, name: &str) -> Vec<String> {
    let b = meta.branches.acquire(name);
    let r = b.hidden.all();
    meta.branches.release(b);
    r
}

#[test]
fn new_pop_push_round_trip() {
    // one base commit R; `new` commits A on top of it
    let mut meta = Metadata::new();
    record_new(&mut meta, "main", A);
    assert_eq!(pushed_of(&mut meta, "main"), vec![A.to_string()]);

    // pop: the tip A goes to the popped queue's bottom, tip reverts to R
    let parent = pop_step(&mut meta, "main", A, &commit(A, &[R])).unwrap();
    assert_eq!(parent, R.to_string());
    assert_eq!(pushed_of(&mut meta, "main"), Vec::<String>::new());
    assert_eq!(popped_of(&mut meta, "main"), vec![A.to_string()]);

    // push (no target): the next patch is the popped queue's bottom;
    // its parent is the tip again, so it fast-forwards back
    let kind = push_classify(PushOp::Normal, R, &commit(A, &[R])).unwrap();
    assert!(matches!(kind, PushKind::FastForward));
    record_fast_forward(&mut meta, "main", A);
    assert_eq!(pushed_of(&mut meta, "main"), vec![A.to_string()]);
    assert_eq!(popped_of(&mut meta, "main"), Vec::<String>::new());
}

#[test]
fn pop_moves_popped_to_bottom() {
    let mut meta = Metadata::new();
    record_new(&mut meta, "main", A);
    record_new(&mut meta, "main", B);
    assert_eq!(pushed_of(&mut meta, "main"), vec![B.to_string(), A.to_string()]);

    let parent = pop_step(&mut meta, "main", B, &commit(B, &[A])).unwrap();
    assert_eq!(parent, A.to_string());
    let parent = pop_step(&mut meta, "main", A, &commit(A, &[R])).unwrap();
    assert_eq!(parent, R.to_string());
    // most recently popped sits at the bottom
    assert_eq!(popped_of(&mut meta, "main"), vec![B.to_string(), A.to_string()]);
}

#[test]
fn pop_refuses_wrong_targets() {
    let mut meta = Metadata::new();
    record_new(&mut meta, "main", A);
    let e = pop_step(&mut meta, "main", A, &commit(B, &[A])).unwrap_err();
    assert_eq!(e.message(), "cannot pop non-head commit");
    let e = pop_step(&mut meta, "main", A, &commit(A, &[])).unwrap_err();
    assert_eq!(e.message(), "cannot pop initial commit");
    let e = pop_step(&mut meta, "main", A, &commit(A, &[R, B])).unwrap_err();
    assert_eq!(e.message(), "cannot pop merge commit");
    let mut b = meta.branches.acquire("main");
    let e = pop_targets(&b, B).unwrap_err();
    assert_eq!(e.message(), "cannot pop non-pushed commit");
    b.pushed.add_top(B.to_string());
    assert_eq!(pop_targets(&b, A).unwrap(), vec![B.to_string()]);
    meta.branches.release(b);
}

#[test]
fn hide_unhide_round_trip() {
    // scenario: A then B pushed, B is the tip
    let mut meta = Metadata::new();
    record_new(&mut meta, "main", A);
    record_new(&mut meta, "main", B);
    // pop once: B leaves the tip
    pop_step(&mut meta, "main", B, &commit(B, &[A])).unwrap();
    assert_eq!(popped_of(&mut meta, "main"), vec![B.to_string()]);
    // hide succeeds because B is popped
    hide_step(&mut meta, "main", B).unwrap();
    assert_eq!(popped_of(&mut meta, "main"), Vec::<String>::new());
    assert_eq!(hidden_of(&mut meta, "main"), vec![B.to_string()]);
    // hiding it again fails: it is no longer popped
    let e = hide_step(&mut meta, "main", B).unwrap_err();
    assert_eq!(e.message(), "cannot hide non-popped commit");
    // unhide restores it to the popped queue's top
    unhide_step(&mut meta, "main", B).unwrap();
    assert_eq!(popped_of(&mut meta, "main"), vec![B.to_string()]);
    let e = unhide_step(&mut meta, "main", B).unwrap_err();
    assert_eq!(e.message(), "cannot unhide non-hidden commit");
}

#[test]
fn graft_applies_untracked_commit() {
    // a commit never tracked by the branch
    let mut meta = Metadata::new();
    record_new(&mut meta, "main", A);
    // a graft needs no popped/hidden membership and never fast-forwards
    let kind = push_classify(PushOp::Graft, A, &commit(G, &[R])).unwrap();
    assert!(matches!(kind, PushKind::Apply));
    // the placeholder commit is recorded as the pushed top; on a
    // conflict the batch halts here, leaving it unamended
    record_apply(&mut meta, "main", G, P, PushOp::Graft);
    assert_eq!(pushed_of(&mut meta, "main"), vec![P.to_string(), A.to_string()]);
    // resolve + refresh completes the push by amending the placeholder
    record_refresh(&mut meta, "main", AMENDED);
    assert_eq!(pushed_of(&mut meta, "main"), vec![AMENDED.to_string(), A.to_string()]);
}

#[test]
fn push_checks_membership_and_shape() {
    let mut meta = Metadata::new();
    record_new(&mut meta, "main", A);
    let e = push_classify(PushOp::Normal, A, &commit(G, &[])).unwrap_err();
    assert_eq!(e.message(), "cannot pushed initial commit");
    let e = push_classify(PushOp::Normal, A, &commit(G, &[R, B])).unwrap_err();
    assert_eq!(e.message(), "cannot push merge commit");
    let b = meta.branches.acquire("main");
    let e = push_targets(&b, G).unwrap_err();
    assert_eq!(e.message(), "cannot push non-popped commit");
    let e = push_move_check(&b, G).unwrap_err();
    assert_eq!(e.message(), "cannot move non-popped commit (use --graft)");
    meta.branches.release(b);
}

#[test]
fn push_targets_run_bottom_up_from_target() {
    let mut meta = Metadata::new();
    let mut b = meta.branches.acquire("main");
    for id in [A, B, G] {
        b.popped.add_top(id.to_string());
    }
    // top to bottom: G B A
    let ids = push_targets(&b, B).unwrap();
    assert_eq!(ids, vec![A.to_string(), B.to_string()]);
    push_move_check(&b, B).unwrap();
    meta.branches.release(b);
}

#[test]
fn fold_removes_from_popped_before_applying() {
    let mut meta = Metadata::new();
    record_new(&mut meta, "main", A);
    pop_step(&mut meta, "main", A, &commit(A, &[R])).unwrap();
    record_new(&mut meta, "main", B);
    let e = fold_begin(&mut meta, "main", G).unwrap_err();
    assert_eq!(e.message(), "cannot fold non-popped commit");
    fold_begin(&mut meta, "main", A).unwrap();
    // the entry stays removed whether or not the pick conflicts
    assert_eq!(popped_of(&mut meta, "main"), Vec::<String>::new());
    // a clean fold amends the tip in place
    fold_record(&mut meta, "main", AMENDED);
    assert_eq!(pushed_of(&mut meta, "main"), vec![AMENDED.to_string()]);
}

#[test]
fn refresh_needs_a_pushed_patch() {
    let mut meta = Metadata::new();
    let b = meta.branches.acquire("main");
    let e = refresh_check(&b).unwrap_err();
    assert_eq!(e.message(), "nothing to refresh");
    meta.branches.release(b);
    record_new(&mut meta, "main", A);
    let b = meta.branches.acquire("main");
    refresh_check(&b).unwrap();
    meta.branches.release(b);
    record_refresh(&mut meta, "main", AMENDED);
    assert_eq!(pushed_of(&mut meta, "main"), vec![AMENDED.to_string()]);
}

#[test]
fn finalize_clears_the_pushed_queue() {
    let mut meta = Metadata::new();
    let e = finalize_step(&mut meta, "main").unwrap_err();
    assert_eq!(e.message(), "nothing to finalize");
    record_new(&mut meta, "main", A);
    record_new(&mut meta, "main", B);
    let ids = finalize_step(&mut meta, "main").unwrap();
    assert_eq!(ids, vec![B.to_string(), A.to_string()]);
    assert_eq!(pushed_of(&mut meta, "main"), Vec::<String>::new());
}

#[test]
fn reset_requires_an_empty_pushed_queue() {
    let mut meta = Metadata::new();
    record_new(&mut meta, "main", A);
    let b = meta.branches.acquire("main");
    let e = reset_check(&b).unwrap_err();
    assert_eq!(e.message(), "cannot reset with pushed commits");
    meta.branches.release(b);
    finalize_step(&mut meta, "main").unwrap();
    let b = meta.branches.acquire("main");
    reset_check(&b).unwrap();
    meta.branches.release(b);
}

#[test]
fn pop_finalized_retracks_the_tip() {
    let mut meta = Metadata::new();
    pop_finalized_begin(&mut meta, "main", A).unwrap();
    assert_eq!(pushed_of(&mut meta, "main"), vec![A.to_string()]);
    let e = pop_finalized_begin(&mut meta, "main", A).unwrap_err();
    assert_eq!(e.message(), "cannot have pushed commits");
}

#[test]
fn delete_then_delete_fails() {
    let mut meta = Metadata::new();
    record_new(&mut meta, "main", A);
    pop_step(&mut meta, "main", A, &commit(A, &[R])).unwrap();
    delete_step(&mut meta, "main", A).unwrap();
    assert_eq!(popped_of(&mut meta, "main"), Vec::<String>::new());
    let e = delete_step(&mut meta, "main", A).unwrap_err();
    assert_eq!(e.message(), "cannot delete non-popped commit");
    assert!(matches!(e, Error::Precondition { .. }));
}

#[test]
fn delete_takes_hidden_before_popped() {
    let mut meta = Metadata::new();
    let mut b = meta.branches.acquire("main");
    b.hidden.add_top(A.to_string());
    b.popped.add_top(B.to_string());
    meta.branches.release(b);
    delete_step(&mut meta, "main", A).unwrap();
    delete_step(&mut meta, "main", B).unwrap();
    assert_eq!(hidden_of(&mut meta, "main"), Vec::<String>::new());
    assert_eq!(popped_of(&mut meta, "main"), Vec::<String>::new());
}

#[test]
fn branch_hiding_flags() {
    let mut meta = Metadata::new();
    assert_eq!(is_branch_hidden(&mut meta, "main").unwrap(), false);
    bhide_step(&mut meta, "main").unwrap();
    assert_eq!(is_branch_hidden(&mut meta, "main").unwrap(), true);
    let e = bhide_step(&mut meta, "main").unwrap_err();
    assert_eq!(e.message(), "branch 'main' already hidden");
    bunhide_step(&mut meta, "main").unwrap();
    assert_eq!(is_branch_hidden(&mut meta, "main").unwrap(), false);
    let e = bunhide_step(&mut meta, "main").unwrap_err();
    assert_eq!(e.message(), "branch 'main' is not hidden");
}

#[test]
fn bdelete_guards_non_empty_records() {
    let mut meta = Metadata::new();
    let mut b = meta.branches.acquire("main");
    b.popped.add_top(A.to_string());
    meta.branches.release(b);
    let e = bdelete_step(&mut meta, "main", false).unwrap_err();
    assert_eq!(e.message(), "branch has patches and/or properties (use --force to delete)");
    assert!(meta.branches.contains("main"));
    bdelete_step(&mut meta, "main", true).unwrap();
    assert!(!meta.branches.contains("main"));
    // deleting an untracked record needs no force
    bdelete_step(&mut meta, "other", false).unwrap();
}

#[test]
fn pushed_queue_tracks_the_ancestry_chain() {
    // tip chain after two commits: B <- A <- R
    let mut meta = Metadata::new();
    record_new(&mut meta, "main", A);
    record_new(&mut meta, "main", B);
    let b = meta.branches.acquire("main");
    assert!(Metadata::verify_branch(
        &b,
        &vec![B.to_string(), A.to_string(), R.to_string()]
    ));
    meta.branches.release(b);

    // popping the tip leaves the queue aligned with the chain from A
    pop_step(&mut meta, "main", B, &commit(B, &[A])).unwrap();
    let b = meta.branches.acquire("main");
    assert!(Metadata::verify_branch(&b, &vec![A.to_string(), R.to_string()]));
    meta.branches.release(b);

    // fast-forwarding B back restores the alignment from B
    record_fast_forward(&mut meta, "main", B);
    let b = meta.branches.acquire("main");
    assert!(Metadata::verify_branch(
        &b,
        &vec![B.to_string(), A.to_string(), R.to_string()]
    ));
    meta.branches.release(b);

    // amending the tip keeps the alignment from the amended commit
    record_refresh(&mut meta, "main", AMENDED);
    let b = meta.branches.acquire("main");
    assert!(Metadata::verify_branch(
        &b,
        &vec![AMENDED.to_string(), A.to_string(), R.to_string()]
    ));
    assert!(!Metadata::verify_branch(
        &b,
        &vec![B.to_string(), A.to_string(), R.to_string()]
    ));
    meta.branches.release(b);
}
