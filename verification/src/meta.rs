use vstd::prelude::*;

pub mod branch;
pub mod branches;
pub mod patches;
pub mod properties;
pub mod serialize;
pub mod source;

verus! {

/// Summary line that marks a commit as one of this engine's metadata
/// snapshots.
pub const MAGIC: &'static str = "PatchKeeper";

/// The dedicated reference that tracks the latest metadata commit.
pub const REFERENCE: &'static str = "refs/patchkeeper_0";

/// Global property holding the monotonically increasing snapshot counter.
pub const REVISION: &'static str = "revision";

/// Branch property marking a branch as hidden from the default listings.
pub const HIDDEN: &'static str = "hidden";

/// Global property holding the commit identifier of the undo target.
pub const UNDO: &'static str = "undo";

/// One named property: either a bare flag (`value` absent) or a
/// name/value pair.
#[derive(Debug)]
pub(crate) struct Prop {
    pub name: String,
    pub value: Option<String>,
}

/// A flag/value key-store with unique names, kept sorted by name so
/// that serialization is deterministic.
#[derive(Debug)]
pub struct Properties {
    pub(crate) items: Vec<Prop>,
}

/// An ordered, duplicate-free queue of patch identifiers; index 0 is
/// the top (most recently added end).
#[derive(Debug)]
pub struct Patches {
    pub(crate) ids: Vec<String>,
}

/// The identifier of the commit a metadata snapshot was loaded from,
/// if it has ever been persisted.
#[derive(Debug)]
pub struct Source {
    pub(crate) id: Option<String>,
}

/// Everything tracked for one branch: its properties and its three
/// patch queues.
#[derive(Debug)]
pub struct Branch {
    pub name: String,
    pub properties: Properties,
    pub hidden: Patches,
    pub popped: Patches,
    pub pushed: Patches,
}

/// The branch table: branch records keyed by name, kept sorted by name,
/// handed out one at a time through `acquire`/`release`.
#[derive(Debug)]
pub struct Branches {
    pub(crate) records: Vec<Branch>,
}

/// A whole metadata snapshot: global properties, the branch table, and
/// the commit the snapshot was loaded from.
#[derive(Debug)]
pub struct Metadata {
    pub properties: Properties,
    pub branches: Branches,
    pub source: Source,
}

/// The mathematical value of one branch record.
#[verifier::ext_equal]
pub ghost struct BranchView {
    pub name: Seq<char>,
    pub props: Seq<(Seq<char>, Option<Seq<char>>)>,
    pub hidden: Seq<Seq<char>>,
    pub popped: Seq<Seq<char>>,
    pub pushed: Seq<Seq<char>>,
}

/// The record a never-tracked branch name starts from.
pub open spec fn empty_branch_view(name: Seq<char>) -> BranchView {
    BranchView {
        name,
        props: Seq::empty(),
        hidden: Seq::empty(),
        popped: Seq::empty(),
        pushed: Seq::empty(),
    }
}

/// The record the table holds for a name, or the empty record an
/// `acquire` of an untracked name starts from.
pub open spec fn record_of(m: Map<Seq<char>, BranchView>, name: Seq<char>) -> BranchView {
    if m.contains_key(name) {
        m[name]
    } else {
        empty_branch_view(name)
    }
}

/// The mathematical value of a whole metadata snapshot.
#[verifier::ext_equal]
pub ghost struct MetaView {
    pub props: Seq<(Seq<char>, Option<Seq<char>>)>,
    pub branches: Seq<BranchView>,
    pub source: Option<Seq<char>>,
}

impl View for Metadata {
    type V = MetaView;

    open spec fn view(&self) -> MetaView {
        MetaView {
            props: self.properties.entries(),
            branches: self.branches.views(),
            source: self.source@,
        }
    }
}

impl Metadata {
    /// The property store and the branch table are well formed.
    pub open spec fn wf(&self) -> bool {
        self.properties.wf() && self.branches.wf()
    }

    /// A fresh, never-persisted snapshot with nothing in it.
    pub fn new() -> (r: Metadata)
        ensures
            r.wf(),
            r@.props == Seq::<(Seq<char>, Option<Seq<char>>)>::empty(),
            r@.branches == Seq::<BranchView>::empty(),
            r@.source is None,
            r.properties@ == Map::<Seq<char>, Option<Seq<char>>>::empty(),
            r.branches@ == Map::<Seq<char>, BranchView>::empty(),
    {
        Metadata {
            properties: Properties::new(),
            branches: Branches::new(),
            source: Source::new(),
        }
    }
}

/// The identifiers one branch pins alive: hidden, then popped, then
/// pushed, each top first.
pub open spec fn branch_pins(b: BranchView) -> Seq<Seq<char>> {
    b.hidden + b.popped + b.pushed
}

/// The identifiers all branches pin alive, in sorted-name order.
pub open spec fn branches_pins(bs: Seq<BranchView>) -> Seq<Seq<char>>
    decreases bs.len(),
{
    if bs.len() == 0 {
        Seq::empty()
    } else {
        branch_pins(bs[0]) + branches_pins(bs.drop_first())
    }
}

pub proof fn lemma_branches_pins_push(s: Seq<BranchView>, x: BranchView)
    ensures
        branches_pins(s.push(x)) == branches_pins(s) + branch_pins(x),
    decreases s.len(),
{
    let e = Seq::<BranchView>::empty();
    if s.len() == 0 {
        assert(s.push(x)[0] == x);
        assert(s.push(x).drop_first() =~= e);
        assert(branches_pins(e) == Seq::<Seq<char>>::empty());
        assert(branches_pins(s.push(x)) == branch_pins(x) + branches_pins(e));
        assert(branches_pins(s.push(x)) =~= branches_pins(s) + branch_pins(x));
    } else {
        assert(s.push(x).drop_first() =~= s.drop_first().push(x));
        assert(branches_pins(s.push(x).drop_first()) == branches_pins(s.drop_first().push(x)));
        lemma_branches_pins_push(s.drop_first(), x);
        assert(s.push(x)[0] == s[0]);
        assert(branches_pins(s.push(x)) == branch_pins(s[0]) + (branches_pins(s.drop_first())
            + branch_pins(x)));
        assert(branches_pins(s) == branch_pins(s[0]) + branches_pins(s.drop_first()));
        assert(branches_pins(s.push(x)) =~= branches_pins(s) + branch_pins(x));
    }
}

/// The revision counter a property map stores; an absent binding
/// counts as zero.
pub open spec fn rev_value(p: Map<Seq<char>, Option<Seq<char>>>) -> int {
    if p.contains_key("revision"@) {
        crate::text::dec_value(crate::text::digits_part(p["revision"@].unwrap()))
    } else {
        0
    }
}

/// The revision binding, if present, is a value and a readable number.
pub open spec fn rev_ok(p: Map<Seq<char>, Option<Seq<char>>>) -> bool {
    p.contains_key("revision"@) ==> (p["revision"@] is Some && crate::text::valid_u64_text(
        p["revision"@].unwrap(),
    ))
}

/// The undo binding, if present, is a value and a readable identifier.
pub open spec fn undo_ok(p: Map<Seq<char>, Option<Seq<char>>>) -> bool {
    p.contains_key("undo"@) ==> (p["undo"@] is Some && crate::text::valid_id_text(
        p["undo"@].unwrap(),
    ))
}

/// The keep-alive pin the undo binding adds, if one is set.
pub open spec fn undo_pins(p: Map<Seq<char>, Option<Seq<char>>>) -> Seq<Seq<char>> {
    if p.contains_key("undo"@) && p["undo"@] is Some && crate::text::valid_id_text(
        p["undo"@].unwrap(),
    ) {
        seq![crate::text::canonical_id(p["undo"@].unwrap())]
    } else {
        Seq::empty()
    }
}

/// The error a persistence plan stops with, checked in this order:
/// the revision binding's kind, its readability, its headroom, then
/// the undo binding's kind and readability.
pub open spec fn plan_error(p: Map<Seq<char>, Option<Seq<char>>>, e: crate::error::Error) -> bool {
    if p.contains_key("revision"@) && p["revision"@] is None {
        crate::error::is_property_is_flag(e, "revision"@)
    } else if p.contains_key("revision"@) && !crate::text::valid_u64_text(
        p["revision"@].unwrap(),
    ) {
        crate::error::is_not_parseable(e, "revision"@)
    } else if rev_value(p) == u64::MAX {
        e is RevisionOverflow
    } else if p.contains_key("undo"@) && p["undo"@] is None {
        crate::error::is_property_is_flag(e, "undo"@)
    } else if p.contains_key("undo"@) && !crate::text::valid_id_text(p["undo"@].unwrap()) {
        crate::error::is_not_parseable(e, "undo"@)
    } else {
        false
    }
}

/// Everything app code needs to persist one snapshot as a commit and
/// advance the dedicated reference.
#[derive(Debug)]
pub struct CommitPlan {
    /// The full commit message: the magic summary line, a blank line,
    /// then the serialized body.
    pub message: String,
    /// The keep-alive parents: every tracked patch identifier of every
    /// branch in sorted-name order (hidden, popped, pushed, each top
    /// first), then the undo target if one is set. They pin those
    /// commits against garbage collection and carry no merge meaning.
    pub parents: Vec<String>,
    /// The value the dedicated reference must still have for the
    /// compare-and-swap update; absent for a never-persisted snapshot,
    /// whose reference is created outright.
    pub expected: Option<String>,
}

impl Metadata {
    /// Builds the persistence plan shared by `commit` and
    /// `commit_with_undo`: bumps the revision and lays out message,
    /// keep-alive parents and the compare-and-swap expectation.
    fn commit_inner(&mut self) -> (r: Result<CommitPlan, crate::error::Error>)
        requires
            old(self).wf(),
        ensures
            final(self).wf(),
            final(self)@.branches == old(self)@.branches,
            final(self)@.source == old(self)@.source,
            match r {
                Ok(plan) => {
                    &&& rev_ok(old(self).properties@)
                    &&& undo_ok(old(self).properties@)
                    &&& rev_value(old(self).properties@) < u64::MAX
                    &&& final(self).properties@ == old(self).properties@.insert(
                        "revision"@,
                        Some(crate::text::dec_text(rev_value(old(self).properties@) + 1)),
                    )
                    &&& final(self)@.props == crate::meta::properties::pairs_insert(
                        old(self)@.props,
                        "revision"@,
                        Some(crate::text::dec_text(rev_value(old(self).properties@) + 1)),
                    )
                    &&& plan.message@ == "PatchKeeper"@ + seq!['\n', '\n']
                        + crate::meta::serialize::meta_text(final(self)@)
                    &&& crate::text::views_of(plan.parents@) == branches_pins(
                        old(self)@.branches,
                    ) + undo_pins(old(self).properties@)
                    &&& crate::meta::properties::opt_view(plan.expected) == old(self)@.source
                },
                Err(e) => final(self)@ == old(self)@ && final(self).properties@ == old(
                    self,
                ).properties@ && plan_error(old(self).properties@, e),
            },
    {
        let rev_val: u64 = match self.properties.get(REVISION) {
            Ok(Some(v)) => match crate::text::parse_u64(v.as_str()) {
                Some(x) => x,
                None => {
                    return Err(crate::error::Error::NotParseable { name: REVISION.to_owned() });
                },
            },
            Ok(None) => 0,
            Err(e) => {
                return Err(e);
            },
        };
        if rev_val == u64::MAX {
            return Err(crate::error::Error::RevisionOverflow);
        }
        let undo_id: Option<String> = match self.properties.get(UNDO) {
            Ok(Some(v)) => match crate::text::parse_id(v.as_str()) {
                Some(c) => Some(c),
                None => {
                    return Err(crate::error::Error::NotParseable { name: UNDO.to_owned() });
                },
            },
            Ok(None) => None,
            Err(e) => {
                return Err(e);
            },
        };
        let expected = self.source.id();
        self.properties.set(REVISION, crate::text::u64_to_string(rev_val + 1));
        let ghost bs = self.branches.views();
        let mut parents: Vec<String> = Vec::new();
        let n: usize = self.branches.records.len();
        let mut i: usize = 0;
        proof {
            assert(bs.take(0) =~= Seq::<BranchView>::empty());
            assert(crate::text::views_of(parents@) =~= branches_pins(bs.take(0)));
        }
        while i < n
            invariant
                0 <= i <= n,
                n == self.branches.records@.len(),
                bs == self.branches.views(),
                crate::text::views_of(parents@) == branches_pins(bs.take(i as int)),
            decreases n - i,
        {
            let ghost p0 = parents@;
            let b = &self.branches.records[i];
            let mut hs = b.hidden.all();
            parents.append(&mut hs);
            let mut ps = b.popped.all();
            parents.append(&mut ps);
            let mut us = b.pushed.all();
            parents.append(&mut us);
            proof {
                assert(bs.take(i + 1) =~= bs.take(i as int).push(bs[i as int]));
                lemma_branches_pins_push(bs.take(i as int), bs[i as int]);
                assert(bs[i as int] == self.branches.records@[i as int]@);
                assert(crate::text::views_of(parents@) =~= branches_pins(bs.take(i as int))
                    + branch_pins(bs[i as int]));
            }
            i = i + 1;
        }
        proof {
            assert(bs.take(n as int) =~= bs);
        }
        match undo_id {
            Some(u) => {
                parents.push(u);
                proof {
                    assert(crate::text::views_of(parents@) =~= branches_pins(bs) + undo_pins(
                        old(self).properties@,
                    ));
                }
            },
            None => {
                proof {
                    assert(crate::text::views_of(parents@) =~= branches_pins(bs) + undo_pins(
                        old(self).properties@,
                    ));
                }
            },
        }
        let mut message = MAGIC.to_owned();
        message.append("\n\n");
        let body = self.to_text();
        message.append(body.as_str());
        proof {
            reveal_strlit("\n\n");
            assert("\n\n"@ =~= seq!['\n', '\n']);
        }
        Ok(CommitPlan { message, parents, expected })
    }

    /// Plans an ordinary persistence: clears the undo pointer, bumps
    /// the revision, and lays out the commit for app code to create.
    /// On success the caller must create the commit with exactly the
    /// plan's message and parents, advance the dedicated reference by
    /// compare-and-swap against `expected` (creating it when absent),
    /// and then record the new commit id with `Source::set_id`.
    pub fn commit(&mut self) -> (r: Result<CommitPlan, crate::error::Error>)
        requires
            old(self).wf(),
        ensures
            final(self).wf(),
            final(self)@.branches == old(self)@.branches,
            final(self)@.source == old(self)@.source,
            ({
                let p1 = old(self).properties@.remove("undo"@);
                match r {
                    Ok(plan) => {
                        &&& rev_ok(p1)
                        &&& rev_value(p1) < u64::MAX
                        &&& final(self).properties@ == p1.insert(
                            "revision"@,
                            Some(crate::text::dec_text(rev_value(p1) + 1)),
                        )
                        &&& plan.message@ == "PatchKeeper"@ + seq!['\n', '\n']
                            + crate::meta::serialize::meta_text(final(self)@)
                        &&& crate::text::views_of(plan.parents@) == branches_pins(
                            old(self)@.branches,
                        )
                        &&& crate::meta::properties::opt_view(plan.expected) == old(
                            self,
                        )@.source
                    },
                    Err(e) => final(self).properties@ == p1 && plan_error(p1, e),
                }
            }),
    {
        self.properties.remove(UNDO);
        proof {
            reveal_strlit("undo");
            reveal_strlit("revision");
            assert("undo"@.len() == 4);
            assert("revision"@.len() == 8);
            assert(!self.properties@.contains_key("undo"@));
        }
        let r = self.commit_inner();
        proof {
            if r is Ok {
                assert(undo_pins(old(self).properties@.remove("undo"@)) =~= Seq::<
                    Seq<char>,
                >::empty());
                assert(crate::text::views_of((r->Ok_0).parents@) =~= branches_pins(
                    old(self)@.branches,
                ));
            }
        }
        r
    }

    /// Plans a persistence that first records the current source as
    /// the undo target, so that a later `undo` can return to it; with
    /// no source recorded it plans like `commit`, leaving any undo
    /// pointer as it stands. The caller's duties are those of `commit`.
    pub fn commit_with_undo(&mut self) -> (r: Result<CommitPlan, crate::error::Error>)
        requires
            old(self).wf(),
        ensures
            final(self).wf(),
            final(self)@.branches == old(self)@.branches,
            final(self)@.source == old(self)@.source,
            ({
                let p1 = match old(self)@.source {
                    Some(id) => old(self).properties@.insert("undo"@, Some(id)),
                    None => old(self).properties@,
                };
                match r {
                    Ok(plan) => {
                        &&& rev_ok(p1)
                        &&& undo_ok(p1)
                        &&& rev_value(p1) < u64::MAX
                        &&& final(self).properties@ == p1.insert(
                            "revision"@,
                            Some(crate::text::dec_text(rev_value(p1) + 1)),
                        )
                        &&& plan.message@ == "PatchKeeper"@ + seq!['\n', '\n']
                            + crate::meta::serialize::meta_text(final(self)@)
                        &&& crate::text::views_of(plan.parents@) == branches_pins(
                            old(self)@.branches,
                        ) + undo_pins(p1)
                        &&& crate::meta::properties::opt_view(plan.expected) == old(
                            self,
                        )@.source
                    },
                    Err(e) => final(self).properties@ == p1 && plan_error(p1, e),
                }
            }),
    {
        match self.source.id() {
            Some(id) => {
                self.properties.set(UNDO, id);
            },
            None => {},
        }
        self.commit_inner()
    }
}

/// The pushed queue read top to bottom matches the start of the real
/// ancestry chain from the branch tip.
pub open spec fn chain_matches(pushed: Seq<Seq<char>>, chain: Seq<Seq<char>>) -> bool {
    pushed.len() <= chain.len() && forall|i: int| 0 <= i < pushed.len() ==> pushed[i] == chain[i]
}

impl Metadata {
    /// The commit a rollback would load, read from the undo property:
    /// absent means there is nothing to undo.
    pub fn undo_target(&self) -> (r: Result<Option<String>, crate::error::Error>)
        requires
            self.wf(),
        ensures
            match r {
                Ok(Some(id)) => self.properties@.contains_key("undo"@)
                    && self.properties@["undo"@] is Some && crate::text::valid_id_text(
                    self.properties@["undo"@].unwrap(),
                ) && id@ == crate::text::canonical_id(self.properties@["undo"@].unwrap()),
                Ok(None) => !self.properties@.contains_key("undo"@),
                Err(e) => self.properties@.contains_key("undo"@) && (
                (self.properties@["undo"@] is None && crate::error::is_property_is_flag(
                    e,
                    "undo"@,
                )) || (self.properties@["undo"@] is Some && !crate::text::valid_id_text(
                    self.properties@["undo"@].unwrap(),
                ) && crate::error::is_not_parseable(e, "undo"@))),
            },
    {
        match self.properties.get(UNDO) {
            Ok(Some(v)) => match crate::text::parse_id(v.as_str()) {
                Some(c) => Ok(Some(c)),
                None => Err(crate::error::Error::NotParseable { name: UNDO.to_owned() }),
            },
            Ok(None) => Ok(None),
            Err(e) => Err(e),
        }
    }

    /// Reads a metadata commit back into a snapshot: the summary must
    /// be the magic string, the body must parse, and the snapshot then
    /// records `id` as its source.
    pub fn from_commit_text(id: &str, summary: &str, body: &str) -> (r: Result<
        Metadata,
        crate::error::Error,
    >)
        ensures
            match r {
                Ok(m) => {
                    &&& summary@ == "PatchKeeper"@
                    &&& m.wf()
                    &&& m@.source == Some(id@)
                    &&& crate::meta::serialize::parse_lines(
                        crate::text::lines_of(body@),
                        0,
                        crate::meta::serialize::parse_init(),
                    ) matches crate::meta::serialize::ParseOutcome::Parsed { meta } && meta
                        == (MetaView { source: None, ..m@ })
                },
                Err(e) => summary@ != "PatchKeeper"@ && (e is UnrecognizedFormat) || summary@
                    == "PatchKeeper"@ && !(crate::meta::serialize::parse_lines(
                    crate::text::lines_of(body@),
                    0,
                    crate::meta::serialize::parse_init(),
                ) is Parsed) && crate::meta::serialize::error_of_outcome(
                    crate::meta::serialize::parse_lines(
                        crate::text::lines_of(body@),
                        0,
                        crate::meta::serialize::parse_init(),
                    ),
                    e,
                ),
            },
    {
        if !crate::text::str_eq(summary, MAGIC) {
            return Err(crate::error::Error::UnrecognizedFormat);
        }
        let mut m = Metadata::parse(body)?;
        m.source.set_id(id.to_owned());
        Ok(m)
    }

    /// Bumps the revision counter, as loading an undo target does
    /// before the caller persists it again.
    pub fn bump_revision(&mut self) -> (r: Result<(), crate::error::Error>)
        requires
            old(self).wf(),
        ensures
            final(self).wf(),
            final(self)@.branches == old(self)@.branches,
            final(self)@.source == old(self)@.source,
            match r {
                Ok(()) => {
                    &&& rev_ok(old(self).properties@)
                    &&& rev_value(old(self).properties@) < u64::MAX
                    &&& final(self).properties@ == old(self).properties@.insert(
                        "revision"@,
                        Some(crate::text::dec_text(rev_value(old(self).properties@) + 1)),
                    )
                    &&& final(self)@.props == crate::meta::properties::pairs_insert(
                        old(self)@.props,
                        "revision"@,
                        Some(crate::text::dec_text(rev_value(old(self).properties@) + 1)),
                    )
                },
                Err(e) => {
                    &&& final(self)@ == old(self)@
                    &&& final(self).properties@ == old(self).properties@
                    &&& ({
                        let p = old(self).properties@;
                        if p.contains_key("revision"@) && p["revision"@] is None {
                            crate::error::is_property_is_flag(e, "revision"@)
                        } else if p.contains_key("revision"@) && !crate::text::valid_u64_text(
                            p["revision"@].unwrap(),
                        ) {
                            crate::error::is_not_parseable(e, "revision"@)
                        } else if rev_value(p) == u64::MAX {
                            e is RevisionOverflow
                        } else {
                            false
                        }
                    })
                },
            },
    {
        let rev_val: u64 = match self.properties.get(REVISION) {
            Ok(Some(v)) => match crate::text::parse_u64(v.as_str()) {
                Some(x) => x,
                None => {
                    return Err(crate::error::Error::NotParseable { name: REVISION.to_owned() });
                },
            },
            Ok(None) => 0,
            Err(e) => {
                return Err(e);
            },
        };
        if rev_val == u64::MAX {
            return Err(crate::error::Error::RevisionOverflow);
        }
        self.properties.set(REVISION, crate::text::u64_to_string(rev_val + 1));
        Ok(())
    }

    /// Checks one branch record against the real ancestry chain of its
    /// branch: `chain` starts at the current tip and follows single
    /// parents, as far as they exist, at least as far as the pushed
    /// queue is long (or to the chain's natural end).
    pub fn verify_branch(branch: &Branch, chain: &Vec<String>) -> (r: bool)
        ensures
            r == chain_matches(branch@.pushed, crate::text::views_of(chain@)),
    {
        let n: usize = branch.pushed.ids.len();
        if n > chain.len() {
            return false;
        }
        let mut i: usize = 0;
        while i < n
            invariant
                0 <= i <= n,
                n == branch.pushed.ids@.len(),
                n <= chain@.len(),
                forall|j: int|
                    0 <= j < i ==> branch@.pushed[j] == crate::text::views_of(chain@)[j],
            decreases n - i,
        {
            if !crate::text::str_eq(branch.pushed.ids[i].as_str(), chain[i].as_str()) {
                proof {
                    assert(branch@.pushed[i as int] == branch.pushed.ids@[i as int]@);
                    assert(crate::text::views_of(chain@)[i as int] == chain@[i as int]@);
                }
                return false;
            }
            proof {
                assert(branch@.pushed[i as int] == branch.pushed.ids@[i as int]@);
                assert(crate::text::views_of(chain@)[i as int] == chain@[i as int]@);
            }
            i = i + 1;
        }
        true
    }

    /// The load-time consistency check: every tracked branch's pushed
    /// queue must match its chain; `chains` is aligned with the sorted
    /// branch records, with `None` for a name that no longer resolves
    /// to a branch, which is skipped rather than failed.
    pub fn verify(&self, chains: &Vec<Option<Vec<String>>>) -> (r: Result<
        (),
        crate::error::Error,
    >)
        requires
            self.wf(),
            chains@.len() == self@.branches.len(),
        ensures
            match r {
                Ok(()) => forall|i: int|
                    0 <= i < self@.branches.len() ==> match #[trigger] chains@[i] {
                        Some(c) => chain_matches(
                            self@.branches[i].pushed,
                            crate::text::views_of(c@),
                        ),
                        None => true,
                    },
                Err(e) => (e is OutOfSync) && exists|i: int|
                    0 <= i < self@.branches.len() && match #[trigger] chains@[i] {
                        Some(c) => !chain_matches(
                            self@.branches[i].pushed,
                            crate::text::views_of(c@),
                        ),
                        None => false,
                    },
            },
    {
        let n: usize = self.branches.records.len();
        let mut i: usize = 0;
        while i < n
            invariant
                0 <= i <= n,
                n == self.branches.records@.len(),
                n == self@.branches.len(),
                chains@.len() == n,
                self.wf(),
                forall|j: int|
                    0 <= j < i ==> match #[trigger] chains@[j] {
                        Some(c) => chain_matches(
                            self@.branches[j].pushed,
                            crate::text::views_of(c@),
                        ),
                        None => true,
                    },
            decreases n - i,
        {
            match &chains[i] {
                Some(c) => {
                    if !Metadata::verify_branch(&self.branches.records[i], c) {
                        return Err(crate::error::Error::OutOfSync);
                    }
                },
                None => {},
            }
            i = i + 1;
        }
        Ok(())
    }

    /// The tracked branch names, in sorted order.
    pub fn branch_names(&self) -> (r: Vec<String>)
        requires
            self.wf(),
        ensures
            r@.len() == self@.branches.len(),
            forall|i: int| 0 <= i < r@.len() ==> r@[i]@ == self@.branches[i].name,
    {
        let n: usize = self.branches.records.len();
        let mut r: Vec<String> = Vec::new();
        let mut i: usize = 0;
        while i < n
            invariant
                0 <= i <= n,
                n == self.branches.records@.len(),
                r@.len() == i,
                forall|j: int| 0 <= j < i ==> r@[j]@ == self@.branches[j].name,
            decreases n - i,
        {
            r.push(self.branches.records[i].name.clone());
            i = i + 1;
        }
        r
    }
}

} // verus!
