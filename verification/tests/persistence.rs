use patchkeeper::cmd::fold::fold_begin;
use patchkeeper::cmd::new::record_new;
use patchkeeper::error::Error;
use patchkeeper::meta::Metadata;

const S1: &str = "5555555555555555555555555555555555555555";
const S2: &str = "6666666666666666666666666666666666666666";
const A: &str = "aaaaaaaaaaaaaaaaaaaaaaaaaaaaaaaaaaaaaaaa";
const B: &str = "bbbbbbbbbbbbbbbbbbbbbbbbbbbbbbbbbbbbbbbb";
const H: &str = "dddddddddddddddddddddddddddddddddddddddd";

#[test]
fn first_commit_plan_is_created_unconditionally() {
    let mut meta = Metadata::new();
    let plan = meta.commit().unwrap();
    assert_eq!(plan.message, "PatchKeeper\n\n%revision 1\n");
    assert!(plan.parents.is_empty());
    assert!(plan.expected.is_none());
}

#[test]
fn revision_counts_up_and_swaps_against_the_source() {
    let mut meta = Metadata::new();
    let _ = meta.commit().unwrap();
    meta.source.set_id(S1.to_string());
    let plan = meta.commit().unwrap();
    assert_eq!(plan.message, "PatchKeeper\n\n%revision 2\n");
    assert_eq!(plan.expected, Some(S1.to_string()));
}

#[test]
fn parents_pin_every_tracked_patch() {
    let mut meta = Metadata::new();
    let mut b = meta.branches.acquire("zeta");
    b.pushed.add_top(A.to_string());
    meta.branches.release(b);
    let mut b = meta.branches.acquire("alpha");
    b.hidden.add_top(H.to_string());
    b.popped.add_top(B.to_string());
    meta.branches.release(b);
    let plan = meta.commit().unwrap();
    // branches in name order; hidden, then popped, then pushed
    assert_eq!(
        plan.parents,
        vec![H.to_string(), B.to_string(), A.to_string()]
    );
}

#[test]
fn commit_with_undo_pins_and_records_the_source() {
    let mut meta = Metadata::new();
    meta.source.set_id(S1.to_string());
    let plan = meta.commit_with_undo().unwrap();
    // the undo target is serialized and pinned as a parent
    assert_eq!(plan.message, format!("PatchKeeper\n\n%revision 1\n%undo {S1}\n"));
    assert_eq!(plan.parents, vec![S1.to_string()]);
    assert_eq!(plan.expected, Some(S1.to_string()));
}

#[test]
fn nothing_to_undo_without_a_recorded_undo_point() {
    let meta = Metadata::new();
    assert_eq!(meta.undo_target().unwrap(), None);
    // an ordinary commit clears any undo point
    let mut meta = Metadata::new();
    meta.source.set_id(S1.to_string());
    let _ = meta.commit_with_undo().unwrap();
    assert_eq!(meta.undo_target().unwrap(), Some(S1.to_string()));
    let _ = meta.commit().unwrap();
    assert_eq!(meta.undo_target().unwrap(), None);
}

#[test]
fn undo_after_conflicting_fold_points_at_the_old_snapshot() {
    // a branch with one pushed and one popped patch, loaded from S1
    let body = format!("%revision 4\n\n@main\n-{B}\n+{A}\n");
    let mut meta = Metadata::from_commit_text(S1, "PatchKeeper", &body).unwrap();
    // the fold removes the popped entry, then the pick conflicts; the
    // engine persists with an undo point
    fold_begin(&mut meta, "main", B).unwrap();
    let plan = meta.commit_with_undo().unwrap();
    assert!(plan.parents.contains(&S1.to_string()));
    meta.source.set_id(S2.to_string());
    // resolve --undo: load the snapshot the undo points at, bump its
    // revision, and the next commit clears the pointer again
    assert_eq!(meta.undo_target().unwrap(), Some(S1.to_string()));
    let mut restored = Metadata::from_commit_text(S1, "PatchKeeper", &body).unwrap();
    restored.bump_revision().unwrap();
    let plan = restored.commit().unwrap();
    assert_eq!(plan.message, format!("PatchKeeper\n\n%revision 6\n\n@main\n-{B}\n+{A}\n"));
    assert_eq!(plan.expected, Some(S1.to_string()));
    // the pre-fold tip is back on the pushed queue for the hard reset
    let b = restored.branches.acquire("main");
    assert_eq!(b.pushed.top(), A.to_string());
}

#[test]
fn plans_refuse_unreadable_counters() {
    let mut meta = Metadata::new();
    meta.properties.set_flag("revision");
    let e = meta.commit().unwrap_err();
    assert_eq!(e.message(), "property 'revision' is a flag, not a value");
    let mut meta = Metadata::new();
    meta.properties.set("revision", "ten".to_string());
    let e = meta.commit().unwrap_err();
    assert_eq!(e.message(), "property 'revision' is not parseable");
    let mut meta = Metadata::new();
    meta.properties.set("revision", "18446744073709551615".to_string());
    let e = meta.commit().unwrap_err();
    assert!(matches!(e, Error::RevisionOverflow));
    let mut meta = Metadata::new();
    meta.properties.set("undo", "not hex".to_string());
    let e = meta.commit_with_undo().unwrap_err();
    assert_eq!(e.message(), "property 'undo' is not parseable");
}

#[test]
fn verification_walks_the_pushed_chain() {
    let body = format!("@main\n+{A}\n+{B}\n");
    let meta = Metadata::parse(&body).unwrap();
    let good = vec![Some(vec![A.to_string(), B.to_string(), S1.to_string()])];
    meta.verify(&good).unwrap();
    let short = vec![Some(vec![A.to_string()])];
    let e = meta.verify(&short).unwrap_err();
    assert!(matches!(e, Error::OutOfSync));
    assert_eq!(e.message(), "metadata out of sync (use 'pk fsck' to repair)");
    let wrong = vec![Some(vec![B.to_string(), A.to_string()])];
    assert!(meta.verify(&wrong).is_err());
    // a branch name that no longer resolves is skipped, not failed
    let skipped = vec![None];
    meta.verify(&skipped).unwrap();
    assert_eq!(meta.branch_names(), vec!["main".to_string()]);
}

#[test]
fn verify_branch_checks_prefix_alignment() {
    let body = format!("@main\n+{A}\n");
    let mut meta = Metadata::parse(&body).unwrap();
    let b = meta.branches.acquire("main");
    assert!(Metadata::verify_branch(&b, &vec![A.to_string(), B.to_string()]));
    assert!(!Metadata::verify_branch(&b, &vec![B.to_string()]));
    assert!(!Metadata::verify_branch(&b, &vec![]));
    meta.branches.release(b);
}
