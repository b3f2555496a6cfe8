use vstd::prelude::*;

verus! {

use crate::meta::branch::branch_is_empty;
use crate::meta::branches::bviews_has;
use crate::meta::branches::bviews_insert;
use crate::meta::branches::bviews_remove;
use crate::meta::branches::bviews_sorted;
use crate::meta::BranchView;
use crate::meta::chain_matches;
use crate::meta::empty_branch_view;
use crate::meta::patches::first_index_of;
use crate::meta::patches::lemma_first_index_of;
use crate::meta::patches::queue_remove;
use crate::meta::serialize::branch_text;
use crate::meta::serialize::branches_text;
use crate::text::lemma_lex_lt_asymmetric;
use crate::text::lex_lt;

/// A queue without duplicate identifiers.
pub open spec fn nodup(s: Seq<Seq<char>>) -> bool {
    forall|i: int, j: int| 0 <= i < j < s.len() ==> s[i] != s[j]
}

/// Law: popping the tip keeps the pushed queue aligned with the real
/// ancestry. If the pushed queue matches the chain from the tip, and
/// the tip (the chain's first entry) is popped, then what remains of
/// the queue matches the chain from the tip's parent, so verification
/// cannot fail on the next open. `pop_step` removes exactly
/// `queue_remove(pushed, id)` and the hard reset moves the tip one
/// chain entry down.
pub proof fn lemma_pop_keeps_chain(pushed: Seq<Seq<char>>, chain: Seq<Seq<char>>, id: Seq<char>)
    requires
        chain_matches(pushed, chain),
        chain.len() > 0,
        id == chain[0],
    ensures
        chain_matches(queue_remove(pushed, id), chain.drop_first()),
{
    lemma_first_index_of(pushed, id);
    if pushed.len() > 0 {
        assert(pushed[0] == chain[0]);
        assert(first_index_of(pushed, id) == 0);
        assert(pushed.contains(id));
        assert(queue_remove(pushed, id) =~= pushed.drop_first());
    }
}

/// Law: a fast-forward push keeps the pushed queue aligned with the
/// real ancestry. The pushed commit's parent is the old tip, so the
/// new chain is the old one with the commit in front, exactly as
/// `record_fast_forward` extends the queue.
pub proof fn lemma_push_keeps_chain(pushed: Seq<Seq<char>>, chain: Seq<Seq<char>>, id: Seq<char>)
    requires
        chain_matches(pushed, chain),
    ensures
        chain_matches(seq![id] + pushed, seq![id] + chain),
{
}

/// Law: amending the tip keeps the pushed queue aligned with the real
/// ancestry. The amended commit keeps the old tip's parent, so the new
/// chain is the old one with its first entry replaced, exactly as
/// `record_refresh` replaces the queue's top. This also covers the
/// amend that completes a non-fast-forward push or a clean fold.
pub proof fn lemma_refresh_keeps_chain(
    pushed: Seq<Seq<char>>,
    chain: Seq<Seq<char>>,
    amended: Seq<char>,
)
    requires
        chain_matches(pushed, chain),
        pushed.len() > 0,
    ensures
        chain_matches(pushed.update(0, amended), seq![amended] + chain.drop_first()),
{
}

proof fn lemma_branches_text_concat(a: Seq<BranchView>, b: Seq<BranchView>)
    ensures
        branches_text(a + b) == branches_text(a) + branches_text(b),
    decreases a.len(),
{
    if a.len() == 0 {
        assert(a + b =~= b);
        assert(branches_text(a + b) =~= branches_text(a) + branches_text(b));
    } else {
        assert((a + b).drop_first() =~= a.drop_first() + b);
        assert(branches_text((a + b).drop_first()) == branches_text(a.drop_first() + b));
        lemma_branches_text_concat(a.drop_first(), b);
        assert((a + b)[0] == a[0]);
        assert(branches_text(a + b) =~= branches_text(a) + branches_text(b));
    }
}

/// Putting a record back where it was taken from restores the table.
proof fn lemma_reinsert_removed(s: Seq<BranchView>, i: int)
    requires
        bviews_sorted(s),
        0 <= i < s.len(),
    ensures
        bviews_insert(bviews_remove(s, s[i].name), s[i]) == s,
    decreases s.len(),
{
    let k = s[i].name;
    if i == 0 {
        assert(bviews_remove(s, k) == s.drop_first());
        let t = s.drop_first();
        if t.len() == 0 {
            assert(bviews_insert(t, s[0]) =~= s);
        } else {
            assert(t[0] == s[1]);
            lemma_lex_lt_asymmetric(s[0].name, s[1].name);
            assert(!lex_lt(t[0].name, k));
            assert(t[0].name != k);
            assert(bviews_insert(t, s[0]) == seq![s[0]] + t);
            assert(seq![s[0]] + t =~= s);
        }
    } else {
        lemma_lex_lt_asymmetric(s[0].name, k);
        assert(s[0].name != k);
        assert(bviews_remove(s, k) == seq![s[0]] + bviews_remove(s.drop_first(), k));
        assert forall|a: int, b: int| 0 <= a < b < s.drop_first().len() implies lex_lt(
            s.drop_first()[a].name,
            s.drop_first()[b].name,
        ) by {
            assert(s.drop_first()[a] == s[a + 1]);
            assert(s.drop_first()[b] == s[b + 1]);
        }
        assert(s.drop_first()[i - 1] == s[i]);
        lemma_reinsert_removed(s.drop_first(), i - 1);
        let u = seq![s[0]] + bviews_remove(s.drop_first(), k);
        assert(u[0] == s[0]);
        assert(lex_lt(s[0].name, k));
        assert(u.drop_first() =~= bviews_remove(s.drop_first(), k));
        assert(bviews_insert(u, s[i]) == seq![s[0]] + bviews_insert(
            bviews_remove(s.drop_first(), k),
            s[i],
        ));
        assert(seq![s[0]] + s.drop_first() =~= s);
    }
}

/// Inserting an empty record under a fresh name adds nothing to the
/// serialized text.
proof fn lemma_empty_insert_text(s: Seq<BranchView>, b: BranchView)
    requires
        bviews_sorted(s),
        branch_is_empty(b),
        !bviews_has(s, b.name),
    ensures
        branches_text(bviews_insert(s, b)) == branches_text(s),
    decreases s.len(),
{
    if s.len() == 0 {
        let t = bviews_insert(s, b);
        assert(t == seq![b]);
        assert(t[0] == b);
        assert(t.drop_first() =~= Seq::<BranchView>::empty());
        assert(branches_text(t.drop_first()) == Seq::<char>::empty());
        assert(branch_text(b) == Seq::<char>::empty());
        assert(branches_text(t) =~= branches_text(s));
    } else if lex_lt(s[0].name, b.name) {
        assert(s[0].name != b.name);
        assert forall|a: int, c: int| 0 <= a < c < s.drop_first().len() implies lex_lt(
            s.drop_first()[a].name,
            s.drop_first()[c].name,
        ) by {
            assert(s.drop_first()[a] == s[a + 1]);
            assert(s.drop_first()[c] == s[c + 1]);
        }
        if bviews_has(s.drop_first(), b.name) {
            let w = choose|j: int|
                0 <= j < s.drop_first().len() && s.drop_first()[j].name == b.name;
            assert(s[w + 1].name == b.name);
        }
        lemma_empty_insert_text(s.drop_first(), b);
        let t = bviews_insert(s, b);
        assert(t == seq![s[0]] + bviews_insert(s.drop_first(), b));
        assert(t[0] == s[0]);
        assert(t.drop_first() =~= bviews_insert(s.drop_first(), b));
        assert(branches_text(t) =~= branches_text(s));
    } else {
        assert(s[0].name != b.name);
        let t = bviews_insert(s, b);
        assert(t == seq![b] + s);
        assert(t[0] == b);
        assert(branch_text(b) == Seq::<char>::empty());
        assert(t.drop_first() =~= s);
        assert(branches_text(t) =~= branches_text(s));
    }
}

/// Law: releasing a branch record straight after acquiring it, with no
/// mutation in between, leaves the serialized form of the snapshot
/// unchanged. A record that existed goes back exactly where it was,
/// and the fresh empty record of a never-tracked name serializes to
/// nothing. Only a following `commit` changes the body, and then only
/// its revision counter. `acquire` ends with the table's records at
/// `bviews_remove` and `release` at `bviews_insert`, so their
/// composition is covered by the two cases here.
pub proof fn lemma_release_after_acquire(s: Seq<BranchView>, k: Seq<char>, i: int)
    requires
        bviews_sorted(s),
    ensures
        0 <= i < s.len() && s[i].name == k ==> bviews_insert(bviews_remove(s, k), s[i]) == s,
        !bviews_has(s, k) ==> branches_text(bviews_insert(s, empty_branch_view(k)))
            == branches_text(s),
{
    if 0 <= i < s.len() && s[i].name == k {
        lemma_reinsert_removed(s, i);
    }
    if !bviews_has(s, k) {
        lemma_empty_insert_text(s, empty_branch_view(k));
    }
}

/// The only occurrence of an identifier, once removed, is gone.
pub proof fn lemma_remove_only_occurrence(s: Seq<Seq<char>>, x: Seq<char>)
    requires
        nodup(s),
        s.contains(x),
    ensures
        !s.remove(first_index_of(s, x)).contains(x),
{
    lemma_first_index_of(s, x);
    let fi = first_index_of(s, x);
    let t = s.remove(fi);
    if t.contains(x) {
        let j = choose|j: int| 0 <= j < t.len() && t[j] == x;
        if j < fi {
            assert(s[j] == x);
        } else {
            assert(s[j + 1] == x);
        }
    }
}

/// Law: a patch deleted from tracking cannot be deleted again. After a
/// successful `delete_step` on a well-formed record (duplicate-free
/// queues, the identifier not tracked twice), the updated record holds
/// the identifier in neither queue, so a second `delete_step` on the
/// same identifier returns the precondition error its contract names.
pub proof fn lemma_delete_then_delete(b0: BranchView, id: Seq<char>)
    requires
        nodup(b0.hidden),
        nodup(b0.popped),
        !(b0.hidden.contains(id) && b0.popped.contains(id)),
        b0.hidden.contains(id) || b0.popped.contains(id),
    ensures
        b0.hidden.contains(id) ==> {
            let b1 = BranchView {
                hidden: b0.hidden.remove(first_index_of(b0.hidden, id)),
                ..b0
            };
            !b1.hidden.contains(id) && !b1.popped.contains(id)
        },
        !b0.hidden.contains(id) ==> {
            let b1 = BranchView {
                popped: b0.popped.remove(first_index_of(b0.popped, id)),
                ..b0
            };
            !b1.hidden.contains(id) && !b1.popped.contains(id)
        },
{
    if b0.hidden.contains(id) {
        lemma_remove_only_occurrence(b0.hidden, id);
    } else {
        lemma_remove_only_occurrence(b0.popped, id);
    }
}

/// Law: an ordinary `commit` leaves nothing to undo. Its contract
/// shapes the resulting properties as below, with the undo binding
/// dropped before the revision is bumped, so `undo_target` then
/// reports the absence of an undo point.
pub proof fn lemma_commit_leaves_nothing_to_undo(
    p: Map<Seq<char>, Option<Seq<char>>>,
    v: Option<Seq<char>>,
)
    ensures
        !p.remove("undo"@).insert("revision"@, v).contains_key("undo"@),
{
    reveal_strlit("undo");
    reveal_strlit("revision");
    assert("undo"@.len() == 4);
    assert("revision"@.len() == 8);
}


/// The data-model invariant of one branch record: each queue is
/// duplicate-free and the three queues are pairwise disjoint.
pub open spec fn queues_wf(b: BranchView) -> bool {
    &&& nodup(b.hidden)
    &&& nodup(b.popped)
    &&& nodup(b.pushed)
    &&& forall|x: Seq<char>| !(b.hidden.contains(x) && b.popped.contains(x))
    &&& forall|x: Seq<char>| !(b.hidden.contains(x) && b.pushed.contains(x))
    &&& forall|x: Seq<char>| !(b.popped.contains(x) && b.pushed.contains(x))
}

/// An identifier no queue of the record tracks.
pub open spec fn untracked(b: BranchView, id: Seq<char>) -> bool {
    !b.hidden.contains(id) && !b.popped.contains(id) && !b.pushed.contains(id)
}

proof fn lemma_nodup_remove(s: Seq<Seq<char>>, i: int)
    requires
        nodup(s),
        0 <= i < s.len(),
    ensures
        nodup(s.remove(i)),
        forall|x: Seq<char>| #[trigger] s.remove(i).contains(x) ==> s.contains(x),
{
    let t = s.remove(i);
    assert forall|a: int, b: int| 0 <= a < b < t.len() implies t[a] != t[b] by {
        let a2 = if a < i { a } else { a + 1 };
        let b2 = if b < i { b } else { b + 1 };
        assert(t[a] == s[a2]);
        assert(t[b] == s[b2]);
    }
    assert forall|x: Seq<char>| #[trigger] t.contains(x) implies s.contains(x) by {
        let j = choose|j: int| 0 <= j < t.len() && t[j] == x;
        if j < i {
            assert(s[j] == x);
        } else {
            assert(s[j + 1] == x);
        }
    }
}

proof fn lemma_nodup_queue_remove(s: Seq<Seq<char>>, id: Seq<char>)
    requires
        nodup(s),
    ensures
        nodup(queue_remove(s, id)),
        forall|x: Seq<char>| #[trigger] queue_remove(s, id).contains(x) ==> s.contains(x),
        s.contains(id) ==> !queue_remove(s, id).contains(id),
{
    lemma_first_index_of(s, id);
    if s.contains(id) {
        lemma_nodup_remove(s, first_index_of(s, id));
        lemma_remove_only_occurrence(s, id);
    }
}

proof fn lemma_nodup_prepend(s: Seq<Seq<char>>, id: Seq<char>)
    requires
        nodup(s),
        !s.contains(id),
    ensures
        nodup(seq![id] + s),
        forall|x: Seq<char>|
            #[trigger] (seq![id] + s).contains(x) <==> (x == id || s.contains(x)),
{
    let t = seq![id] + s;
    assert forall|a: int, b: int| 0 <= a < b < t.len() implies t[a] != t[b] by {
        if a == 0 {
            assert(t[b] == s[b - 1]);
            assert(s.contains(s[b - 1]));
        } else {
            assert(t[a] == s[a - 1]);
            assert(t[b] == s[b - 1]);
        }
    }
    assert forall|x: Seq<char>| #[trigger] t.contains(x) implies (x == id || s.contains(x)) by {
        let j = choose|j: int| 0 <= j < t.len() && t[j] == x;
        if j > 0 {
            assert(s[j - 1] == x);
        }
    }
    assert forall|x: Seq<char>| x == id || s.contains(x) implies #[trigger] t.contains(x) by {
        if x == id {
            assert(t[0] == x);
        } else {
            let j = choose|j: int| 0 <= j < s.len() && s[j] == x;
            assert(t[j + 1] == x);
        }
    }
}

/// Law: the queue moves of the state machine keep every branch record
/// well formed. Hiding or unhiding moves one identifier between the
/// popped and hidden queues, deleting and folding drop one, popping
/// moves the tip to the popped queue's bottom, and a push (fast-forward
/// or placeholder) drops the target from the off-tip queues and puts a
/// commit that was not yet tracked on top of the pushed queue. Each
/// resulting record below is the one the corresponding step's contract
/// names.
pub proof fn lemma_steps_keep_queues_wf(b: BranchView, id: Seq<char>, fresh: Seq<char>)
    requires
        queues_wf(b),
        untracked(b, fresh),
    ensures
        b.popped.contains(id) ==> queues_wf(
            BranchView {
                popped: b.popped.remove(first_index_of(b.popped, id)),
                hidden: seq![id] + b.hidden,
                ..b
            },
        ),
        b.hidden.contains(id) ==> queues_wf(
            BranchView {
                hidden: b.hidden.remove(first_index_of(b.hidden, id)),
                popped: seq![id] + b.popped,
                ..b
            },
        ),
        b.hidden.contains(id) ==> queues_wf(
            BranchView { hidden: b.hidden.remove(first_index_of(b.hidden, id)), ..b },
        ),
        b.popped.contains(id) ==> queues_wf(
            BranchView { popped: b.popped.remove(first_index_of(b.popped, id)), ..b },
        ),
        b.pushed.contains(id) && !b.popped.contains(id) && !b.hidden.contains(id)
            ==> queues_wf(
            BranchView {
                pushed: queue_remove(b.pushed, id),
                popped: b.popped + seq![id],
                ..b
            },
        ),
        queues_wf(
            BranchView {
                hidden: queue_remove(b.hidden, id),
                popped: queue_remove(b.popped, id),
                pushed: seq![fresh] + b.pushed,
                ..b
            },
        ),
{
    lemma_nodup_queue_remove(b.hidden, id);
    lemma_nodup_queue_remove(b.popped, id);
    lemma_nodup_queue_remove(b.pushed, id);
    if b.popped.contains(id) {
        lemma_first_index_of(b.popped, id);
        assert(queue_remove(b.popped, id) == b.popped.remove(first_index_of(b.popped, id)));
        lemma_nodup_prepend(b.hidden, id);
    }
    if b.hidden.contains(id) {
        lemma_first_index_of(b.hidden, id);
        assert(queue_remove(b.hidden, id) == b.hidden.remove(first_index_of(b.hidden, id)));
        lemma_nodup_prepend(b.popped, id);
    }
    if b.pushed.contains(id) && !b.popped.contains(id) && !b.hidden.contains(id) {
        let p2 = b.popped + seq![id];
        assert(p2.drop_last() =~= b.popped);
        assert(p2.last() == id);
        assert forall|a: int, c: int| 0 <= a < c < p2.len() implies p2[a] != p2[c] by {
            if c < p2.len() - 1 {
                assert(p2[a] == b.popped[a]);
                assert(p2[c] == b.popped[c]);
            } else {
                assert(p2[c] == id);
                assert(p2[a] == b.popped[a]);
                assert(b.popped.contains(b.popped[a]));
            }
        }
        assert forall|x: Seq<char>| #[trigger] p2.contains(x) implies (x == id
            || b.popped.contains(x)) by {
            let j = choose|j: int| 0 <= j < p2.len() && p2[j] == x;
            if j < p2.len() - 1 {
                assert(b.popped[j] == x);
            }
        }
    }
    lemma_nodup_prepend(b.pushed, fresh);
}

} // verus!
