use vstd::prelude::*;

verus! {

use crate::meta::Branch;
use crate::meta::Branches;
use crate::meta::BranchView;
use crate::meta::empty_branch_view;
use crate::text::lemma_lex_lt_asymmetric;
use crate::text::lemma_lex_lt_connected;
use crate::text::lemma_lex_lt_transitive;
use crate::text::lex_lt;
use crate::text::str_eq;
use crate::text::str_lt;


/// Branch records at the serialization level, in sorted order.
pub open spec fn bviews_sorted(s: Seq<BranchView>) -> bool {
    forall|i: int, j: int| 0 <= i < j < s.len() ==> lex_lt(s[i].name, s[j].name)
}

/// Whether a record sequence holds a branch named `k`.
pub open spec fn bviews_has(s: Seq<BranchView>, k: Seq<char>) -> bool {
    exists|i: int| 0 <= i < s.len() && s[i].name == k
}

/// Sorted insert of a record, replacing an equal name.
pub open spec fn bviews_insert(s: Seq<BranchView>, b: BranchView) -> Seq<BranchView>
    decreases s.len(),
{
    if s.len() == 0 {
        seq![b]
    } else if lex_lt(s[0].name, b.name) {
        seq![s[0]] + bviews_insert(s.drop_first(), b)
    } else if s[0].name == b.name {
        seq![b] + s.drop_first()
    } else {
        seq![b] + s
    }
}

/// Removal of a record by name.
pub open spec fn bviews_remove(s: Seq<BranchView>, k: Seq<char>) -> Seq<BranchView>
    decreases s.len(),
{
    if s.len() == 0 {
        s
    } else if s[0].name == k {
        s.drop_first()
    } else {
        seq![s[0]] + bviews_remove(s.drop_first(), k)
    }
}

/// Where a sorted scan stops, the sorted insert splits the sequence.
pub proof fn lemma_bviews_insert_at(s: Seq<BranchView>, p: int, b: BranchView)
    requires
        0 <= p <= s.len(),
        forall|j: int| 0 <= j < p ==> lex_lt(#[trigger] s[j].name, b.name),
        p < s.len() ==> !lex_lt(s[p].name, b.name),
    ensures
        p < s.len() && s[p].name == b.name ==> bviews_insert(s, b) =~= s.take(p) + seq![b]
            + s.skip(p + 1),
        !(p < s.len() && s[p].name == b.name) ==> bviews_insert(s, b) =~= s.take(p) + seq![b]
            + s.skip(p),
    decreases p,
{
    if p == 0 {
        if s.len() > 0 {
            crate::text::lemma_lex_lt_irreflexive(b.name);
        }
    } else {
        lemma_bviews_insert_at(s.drop_first(), p - 1, b);
        assert(s.drop_first().take(p - 1) =~= s.skip(1).take(p - 1));
        if p < s.len() && s[p].name == b.name {
            assert(s.drop_first()[p - 1] == s[p]);
            assert(bviews_insert(s, b) =~= seq![s[0]] + bviews_insert(s.drop_first(), b));
        }
    }
}

/// Removing a name below every record leaves the sequence unchanged.
pub proof fn lemma_bviews_remove_absent(s: Seq<BranchView>, k: Seq<char>)
    requires
        forall|j: int| 0 <= j < s.len() ==> lex_lt(k, #[trigger] s[j].name),
    ensures
        bviews_remove(s, k) =~= s,
    decreases s.len(),
{
    if s.len() > 0 {
        lemma_lex_lt_asymmetric(k, s[0].name);
        assert forall|j: int| 0 <= j < s.drop_first().len() implies lex_lt(
            k,
            #[trigger] s.drop_first()[j].name,
        ) by {
            assert(s.drop_first()[j] == s[j + 1]);
        }
        lemma_bviews_remove_absent(s.drop_first(), k);
    }
}

/// Where a sorted scan stops, the removal splits the sequence.
pub proof fn lemma_bviews_remove_at(s: Seq<BranchView>, p: int, k: Seq<char>)
    requires
        bviews_sorted(s),
        0 <= p <= s.len(),
        forall|j: int| 0 <= j < p ==> lex_lt(#[trigger] s[j].name, k),
        p < s.len() ==> !lex_lt(s[p].name, k),
    ensures
        p < s.len() && s[p].name == k ==> bviews_remove(s, k) =~= s.take(p) + s.skip(p + 1),
        !(p < s.len() && s[p].name == k) ==> bviews_remove(s, k) =~= s,
    decreases s.len(),
{
    if p == 0 {
        if s.len() > 0 && s[0].name != k {
            lemma_lex_lt_connected(s[0].name, k);
            assert forall|j: int| 0 <= j < s.len() implies lex_lt(k, #[trigger] s[j].name) by {
                if j > 0 {
                    lemma_lex_lt_transitive(k, s[0].name, s[j].name);
                }
            }
            lemma_bviews_remove_absent(s, k);
        }
    } else {
        lemma_lex_lt_asymmetric(s[0].name, k);
        assert forall|i: int, j: int| 0 <= i < j < s.drop_first().len() implies lex_lt(
            s.drop_first()[i].name,
            s.drop_first()[j].name,
        ) by {
            assert(s.drop_first()[i] == s[i + 1]);
            assert(s.drop_first()[j] == s[j + 1]);
        }
        assert forall|j: int| 0 <= j < p - 1 implies lex_lt(
            #[trigger] s.drop_first()[j].name,
            k,
        ) by {
            assert(s.drop_first()[j] == s[j + 1]);
        }
        lemma_bviews_remove_at(s.drop_first(), p - 1, k);
        if p < s.len() && s[p].name == k {
            assert(s.drop_first()[p - 1] == s[p]);
            assert(bviews_remove(s, k) =~= seq![s[0]] + bviews_remove(s.drop_first(), k));
            assert(s.drop_first().take(p - 1) =~= s.skip(1).take(p - 1));
        } else {
            if p < s.len() {
                assert(s.drop_first()[p - 1] == s[p]);
            }
            assert(bviews_remove(s, k) =~= seq![s[0]] + bviews_remove(s.drop_first(), k));
        }
    }
}


/// Inserting a name above every record appends it.
pub proof fn lemma_bviews_insert_end(s: Seq<BranchView>, b: BranchView)
    requires
        forall|j: int| 0 <= j < s.len() ==> lex_lt(#[trigger] s[j].name, b.name),
    ensures
        bviews_insert(s, b) == s.push(b),
    decreases s.len(),
{
    if s.len() == 0 {
        assert(bviews_insert(s, b) =~= s.push(b));
    } else {
        assert forall|j: int| 0 <= j < s.drop_first().len() implies lex_lt(
            #[trigger] s.drop_first()[j].name,
            b.name,
        ) by {
            assert(s.drop_first()[j] == s[j + 1]);
        }
        lemma_bviews_insert_end(s.drop_first(), b);
        assert(bviews_insert(s, b) == seq![s[0]] + bviews_insert(s.drop_first(), b));
        assert(bviews_insert(s, b) =~= s.push(b));
    }
}


/// The sorted insert keeps the table sorted, and adds only the new
/// record.
pub proof fn lemma_bviews_insert_sorted(s: Seq<BranchView>, b: BranchView)
    requires
        bviews_sorted(s),
    ensures
        bviews_sorted(bviews_insert(s, b)),
        forall|i: int|
            0 <= i < bviews_insert(s, b).len() ==> #[trigger] bviews_insert(s, b)[i] == b
                || s.contains(bviews_insert(s, b)[i]),
    decreases s.len(),
{
    let r = bviews_insert(s, b);
    if s.len() == 0 {
        assert(r[0] == b);
    } else if lex_lt(s[0].name, b.name) {
        assert forall|x: int, y: int|
            0 <= x < y < s.drop_first().len() implies lex_lt(
            s.drop_first()[x].name,
            s.drop_first()[y].name,
        ) by {
            assert(s.drop_first()[x] == s[x + 1]);
            assert(s.drop_first()[y] == s[y + 1]);
        }
        lemma_bviews_insert_sorted(s.drop_first(), b);
        let r2 = bviews_insert(s.drop_first(), b);
        assert(r == seq![s[0]] + r2);
        assert forall|x: int, y: int| 0 <= x < y < r.len() implies lex_lt(
            r[x].name,
            r[y].name,
        ) by {
            if x == 0 {
                assert(r[y] == r2[y - 1]);
                if r2[y - 1] == b {
                } else {
                    assert(s.drop_first().contains(r2[y - 1]));
                    let w = choose|w: int|
                        0 <= w < s.drop_first().len() && s.drop_first()[w] == r2[y - 1];
                    assert(s.drop_first()[w] == s[w + 1]);
                }
            } else {
                assert(r[x] == r2[x - 1]);
                assert(r[y] == r2[y - 1]);
            }
        }
        assert forall|i: int| 0 <= i < r.len() implies #[trigger] r[i] == b || s.contains(
            r[i],
        ) by {
            if i == 0 {
                assert(s[0] == r[i]);
            } else {
                assert(r[i] == r2[i - 1]);
                if r2[i - 1] != b {
                    let w = choose|w: int|
                        0 <= w < s.drop_first().len() && s.drop_first()[w] == r2[i - 1];
                    assert(s[w + 1] == r[i]);
                }
            }
        }
    } else if s[0].name == b.name {
        assert(r == seq![b] + s.drop_first());
        assert forall|x: int, y: int| 0 <= x < y < r.len() implies lex_lt(
            r[x].name,
            r[y].name,
        ) by {
            if x == 0 {
                assert(r[y] == s[y]);
            } else {
                assert(r[x] == s[x]);
                assert(r[y] == s[y]);
            }
        }
        assert forall|i: int| 0 <= i < r.len() implies #[trigger] r[i] == b || s.contains(
            r[i],
        ) by {
            if i > 0 {
                assert(s[i] == r[i]);
            }
        }
    } else {
        lemma_lex_lt_connected(s[0].name, b.name);
        assert(r == seq![b] + s);
        assert forall|x: int, y: int| 0 <= x < y < r.len() implies lex_lt(
            r[x].name,
            r[y].name,
        ) by {
            if x == 0 {
                assert(r[y] == s[y - 1]);
                if y > 1 {
                    lemma_lex_lt_transitive(b.name, s[0].name, s[y - 1].name);
                }
            } else {
                assert(r[x] == s[x - 1]);
                assert(r[y] == s[y - 1]);
            }
        }
        assert forall|i: int| 0 <= i < r.len() implies #[trigger] r[i] == b || s.contains(
            r[i],
        ) by {
            if i > 0 {
                assert(s[i - 1] == r[i]);
            }
        }
    }
}

pub(crate) open spec fn recs_has_name(s: Seq<Branch>, k: Seq<char>) -> bool {
    exists|i: int| 0 <= i < s.len() && s[i]@.name == k
}

pub(crate) open spec fn recs_name_index(s: Seq<Branch>, k: Seq<char>) -> int {
    choose|i: int| 0 <= i < s.len() && s[i]@.name == k
}

/// Records strictly ascending by name: sorted and duplicate-free.
pub(crate) open spec fn recs_sorted(s: Seq<Branch>) -> bool {
    forall|i: int, j: int| 0 <= i < j < s.len() ==> lex_lt(s[i]@.name, s[j]@.name)
}

pub(crate) open spec fn recs_map_view(s: Seq<Branch>) -> Map<Seq<char>, BranchView> {
    Map::new(
        |k: Seq<char>| recs_has_name(s, k),
        |k: Seq<char>| s[recs_name_index(s, k)]@,
    )
}

pub(crate) proof fn lemma_recs_unique(s: Seq<Branch>)
    requires
        recs_sorted(s),
    ensures
        forall|i: int, j: int|
            0 <= i < s.len() && 0 <= j < s.len() && i != j ==> s[i]@.name != s[j]@.name,
{
    assert forall|i: int, j: int|
        0 <= i < s.len() && 0 <= j < s.len() && i != j implies s[i]@.name != s[j]@.name by {
        if i < j {
            lemma_lex_lt_asymmetric(s[i]@.name, s[j]@.name);
        } else {
            lemma_lex_lt_asymmetric(s[j]@.name, s[i]@.name);
        }
    }
}

pub(crate) proof fn lemma_recs_index_is(s: Seq<Branch>, k: Seq<char>, p: int)
    requires
        recs_sorted(s),
        0 <= p < s.len(),
        s[p]@.name == k,
    ensures
        recs_has_name(s, k),
        recs_name_index(s, k) == p,
        recs_map_view(s).contains_key(k),
        recs_map_view(s)[k] == s[p]@,
{
    assert(recs_has_name(s, k));
    lemma_recs_unique(s);
    assert(s[recs_name_index(s, k)]@.name == k);
}

/// What a sorted scan that stopped at `p` says about the lookup of `k`.
pub(crate) proof fn lemma_recs_lookup(s: Seq<Branch>, k: Seq<char>, p: int)
    requires
        recs_sorted(s),
        0 <= p <= s.len(),
        forall|j: int| 0 <= j < p ==> lex_lt(#[trigger] s[j]@.name, k),
        p < s.len() ==> !lex_lt(s[p]@.name, k),
    ensures
        p < s.len() && s[p]@.name == k ==> recs_has_name(s, k) && recs_name_index(s, k) == p
            && recs_map_view(s).contains_key(k) && recs_map_view(s)[k] == s[p]@,
        !(p < s.len() && s[p]@.name == k) ==> !recs_has_name(s, k) && !recs_map_view(
            s,
        ).contains_key(k) && (forall|j: int| p <= j < s.len() ==> lex_lt(k, #[trigger] s[j]@.name)),
{
    if p < s.len() && s[p]@.name == k {
        lemma_recs_index_is(s, k, p);
    } else {
        assert forall|j: int| p <= j < s.len() implies lex_lt(k, #[trigger] s[j]@.name) by {
            if s[p]@.name == k {
                assert(false);
            } else {
                lemma_lex_lt_connected(s[p]@.name, k);
                assert(lex_lt(k, s[p]@.name));
                if j > p {
                    lemma_lex_lt_transitive(k, s[p]@.name, s[j]@.name);
                }
            }
        }
        if recs_has_name(s, k) {
            let i = recs_name_index(s, k);
            assert(s[i]@.name == k);
            if i < p {
                lemma_lex_lt_asymmetric(s[i]@.name, k);
            } else {
                lemma_lex_lt_asymmetric(k, s[i]@.name);
            }
        }
    }
}

pub(crate) proof fn lemma_recs_insert(s: Seq<Branch>, p: int, q: Branch)
    requires
        recs_sorted(s),
        0 <= p <= s.len(),
        forall|j: int| 0 <= j < p ==> lex_lt(#[trigger] s[j]@.name, q@.name),
        forall|j: int| p <= j < s.len() ==> lex_lt(q@.name, #[trigger] s[j]@.name),
    ensures
        recs_sorted(s.insert(p, q)),
        recs_map_view(s.insert(p, q)) == recs_map_view(s).insert(q@.name, q@),
{
    let t = s.insert(p, q);
    let k = q@.name;
    assert forall|i: int, j: int| 0 <= i < j < t.len() implies lex_lt(t[i]@.name, t[j]@.name) by {
        if i < p && j == p {
        } else if i == p && j > p {
        } else if i < p && j > p {
            lemma_lex_lt_transitive(s[i]@.name, k, s[j - 1]@.name);
        }
    }
    lemma_recs_unique(s);
    lemma_recs_unique(t);
    let m1 = recs_map_view(t);
    let m2 = recs_map_view(s).insert(k, q@);
    assert forall|x: Seq<char>| #[trigger] m2.contains_key(x) implies m1.contains_key(x)
        && m1[x] == m2[x] by {
        if x == k {
            lemma_recs_index_is(t, x, p);
        } else {
            assert(recs_has_name(s, x));
            let i = recs_name_index(s, x);
            assert(s[i]@.name == x);
            let i2 = if i < p {
                i
            } else {
                i + 1
            };
            assert(t[i2]@.name == x);
            lemma_recs_index_is(t, x, i2);
            lemma_recs_index_is(s, x, i);
        }
    }
    assert forall|x: Seq<char>| #[trigger] m1.contains_key(x) implies m2.contains_key(x) by {
        assert(recs_has_name(t, x));
        let i = recs_name_index(t, x);
        assert(t[i]@.name == x);
        if i != p {
            let i2 = if i < p {
                i
            } else {
                i - 1
            };
            assert(s[i2]@.name == x);
        }
    }
    assert(m1 =~= m2);
}

pub(crate) proof fn lemma_recs_remove(s: Seq<Branch>, p: int)
    requires
        recs_sorted(s),
        0 <= p < s.len(),
    ensures
        recs_sorted(s.remove(p)),
        recs_map_view(s.remove(p)) == recs_map_view(s).remove(s[p]@.name),
{
    let t = s.remove(p);
    let k = s[p]@.name;
    assert forall|i: int, j: int| 0 <= i < j < t.len() implies lex_lt(t[i]@.name, t[j]@.name) by {
        let i2 = if i < p {
            i
        } else {
            i + 1
        };
        let j2 = if j < p {
            j
        } else {
            j + 1
        };
        assert(t[i]@.name == s[i2]@.name);
        assert(t[j]@.name == s[j2]@.name);
    }
    lemma_recs_unique(s);
    lemma_recs_unique(t);
    let m1 = recs_map_view(t);
    let m2 = recs_map_view(s).remove(k);
    assert forall|x: Seq<char>| #[trigger] m2.contains_key(x) implies m1.contains_key(x)
        && m1[x] == m2[x] by {
        assert(recs_has_name(s, x) && x != k);
        let i = recs_name_index(s, x);
        assert(s[i]@.name == x);
        assert(i != p);
        let i2 = if i < p {
            i
        } else {
            i - 1
        };
        assert(t[i2]@.name == x);
        lemma_recs_index_is(t, x, i2);
        lemma_recs_index_is(s, x, i);
    }
    assert forall|x: Seq<char>| #[trigger] m1.contains_key(x) implies m2.contains_key(x) by {
        assert(recs_has_name(t, x));
        let i = recs_name_index(t, x);
        assert(t[i]@.name == x);
        let i2 = if i < p {
            i
        } else {
            i + 1
        };
        assert(s[i2]@.name == x);
        assert(i2 != p);
        assert(x != k);
    }
    assert(m1 =~= m2);
}

impl View for Branches {
    type V = Map<Seq<char>, BranchView>;

    /// The table as a map from branch name to branch record.
    open(crate) spec fn view(&self) -> Map<Seq<char>, BranchView> {
        recs_map_view(self.records@)
    }
}

impl Branches {
    /// Records sorted strictly by name, each well formed and keyed by
    /// its own name.
    pub open(crate) spec fn wf(&self) -> bool {
        recs_sorted(self.records@) && forall|i: int|
            0 <= i < self.records@.len() ==> (#[trigger] self.records@[i]).wf()
    }

    /// The records in serialization order: sorted by name.
    pub open(crate) spec fn views(&self) -> Seq<BranchView> {
        Seq::new(self.records@.len(), |i: int| self.records@[i]@)
    }

    /// An empty table.
    pub fn new() -> (r: Branches)
        ensures
            r.wf(),
            r@ == Map::<Seq<char>, BranchView>::empty(),
            r.views() == Seq::<BranchView>::empty(),
    {
        let r = Branches { records: Vec::new() };
        proof {
            assert(r@ =~= Map::<Seq<char>, BranchView>::empty());
            assert(r.views() =~= Seq::<BranchView>::empty());
        }
        r
    }

    /// First position whose name is not below `name` in sort order.
    fn position_ge(&self, name: &str) -> (r: usize)
        requires
            self.wf(),
        ensures
            r <= self.records@.len(),
            forall|j: int| 0 <= j < r ==> lex_lt(#[trigger] self.records@[j]@.name, name@),
            r < self.records@.len() ==> !lex_lt(self.records@[r as int]@.name, name@),
    {
        let n: usize = self.records.len();
        let mut i: usize = 0;
        while i < n && str_lt(self.records[i].name().as_str(), name)
            invariant
                0 <= i <= n,
                n == self.records@.len(),
                forall|j: int| 0 <= j < i ==> lex_lt(#[trigger] self.records@[j]@.name, name@),
            decreases n - i,
        {
            i = i + 1;
        }
        i
    }

    pub fn contains(&self, name: &str) -> (r: bool)
        requires
            self.wf(),
        ensures
            r == self@.contains_key(name@),
    {
        let p = self.position_ge(name);
        proof {
            lemma_recs_lookup(self.records@, name@, p as int);
        }
        p < self.records.len() && str_eq(self.records[p].name().as_str(), name)
    }

    /// Takes the record for `name` out of the table, creating a fresh
    /// empty record when the name is not yet tracked. The caller owns
    /// the record until it releases it.
    pub fn acquire(&mut self, name: &str) -> (r: Branch)
        requires
            old(self).wf(),
        ensures
            final(self).wf(),
            r.wf(),
            r@.name == name@,
            old(self)@.contains_key(name@) ==> r@ == old(self)@[name@] && final(self)@ == old(
                self,
            )@.remove(name@),
            !old(self)@.contains_key(name@) ==> r@ == empty_branch_view(name@) && final(self)@
                == old(self)@,
            final(self).views() == bviews_remove(old(self).views(), name@),
    {
        let ghost v0 = self.views();
        let p = self.position_ge(name);
        proof {
            lemma_recs_lookup(self.records@, name@, p as int);
            assert forall|j: int| 0 <= j < p implies lex_lt(#[trigger] v0[j].name, name@) by {
                assert(v0[j] == self.records@[j]@);
            }
            if p < self.records@.len() {
                assert(v0[p as int] == self.records@[p as int]@);
            }
            assert forall|i: int, j: int| 0 <= i < j < v0.len() implies lex_lt(
                v0[i].name,
                v0[j].name,
            ) by {
                assert(v0[i] == self.records@[i]@);
                assert(v0[j] == self.records@[j]@);
            }
            lemma_bviews_remove_at(v0, p as int, name@);
        }
        if p < self.records.len() && str_eq(self.records[p].name().as_str(), name) {
            let ghost s0 = self.records@;
            let r = self.records.remove(p);
            proof {
                lemma_recs_remove(s0, p as int);
                assert(self.views() =~= v0.take(p as int) + v0.skip(p + 1));
            }
            r
        } else {
            proof {
                assert(self.views() =~= v0);
            }
            Branch::new(name)
        }
    }

    /// Puts a record back into the table, keyed by its name; any record
    /// already stored under that name is replaced.
    pub fn release(&mut self, branch: Branch)
        requires
            old(self).wf(),
            branch.wf(),
        ensures
            final(self).wf(),
            final(self)@ == old(self)@.insert(branch@.name, branch@),
            final(self).views() == bviews_insert(old(self).views(), branch@),
    {
        let ghost k = branch@.name;
        let ghost v0 = self.views();
        let p = self.position_ge(branch.name().as_str());
        proof {
            lemma_recs_lookup(self.records@, k, p as int);
            assert forall|j: int| 0 <= j < p implies lex_lt(#[trigger] v0[j].name, k) by {
                assert(v0[j] == self.records@[j]@);
            }
            if p < self.records@.len() {
                assert(v0[p as int] == self.records@[p as int]@);
            }
            lemma_bviews_insert_at(v0, p as int, branch@);
        }
        let hit = p < self.records.len()
            && str_eq(self.records[p].name().as_str(), branch.name().as_str());
        if hit {
            let ghost s0 = self.records@;
            let _ = self.records.remove(p);
            proof {
                lemma_recs_remove(s0, p as int);
                let s1 = self.records@;
                assert forall|j: int| p <= j < s1.len() implies lex_lt(
                    k,
                    #[trigger] s1[j]@.name,
                ) by {
                    assert(s1[j]@.name == s0[j + 1]@.name);
                }
            }
            let ghost s1 = self.records@;
            self.records.insert(p, branch);
            proof {
                let q = self.records@[p as int];
                assert(self.records@ =~= s1.insert(p as int, q));
                lemma_recs_insert(s1, p as int, q);
                assert(final(self)@ =~= old(self)@.insert(k, q@));
                assert(final(self).views() =~= v0.take(p as int) + seq![q@] + v0.skip(p + 1));
            }
        } else {
            let ghost s0 = self.records@;
            self.records.insert(p, branch);
            proof {
                let q = self.records@[p as int];
                assert(self.records@ =~= s0.insert(p as int, q));
                lemma_recs_insert(s0, p as int, q);
                assert(final(self).views() =~= v0.take(p as int) + seq![q@] + v0.skip(p as int));
            }
        }
    }

    /// Moves the record stored under `old_name` (or a fresh empty one)
    /// to `new_name`, replacing anything stored there.
    pub fn rename(&mut self, old_name: &str, new_name: &str)
        requires
            old(self).wf(),
        ensures
            final(self).wf(),
            ({
                let moved = if old(self)@.contains_key(old_name@) {
                    old(self)@[old_name@]
                } else {
                    empty_branch_view(old_name@)
                };
                final(self)@ == old(self)@.remove(old_name@).insert(
                    new_name@,
                    BranchView { name: new_name@, ..moved },
                )
            }),
    {
        let mut branch = self.acquire(old_name);
        branch.set_name(new_name);
        proof {
            if !old(self)@.contains_key(old_name@) {
                assert(old(self)@.remove(old_name@) =~= old(self)@);
            }
        }
        self.release(branch);
    }

    /// The serialization order is sorted, and lookups agree with it.
    pub proof fn lemma_views(&self)
        requires
            self.wf(),
        ensures
            bviews_sorted(self.views()),
            forall|i: int|
                0 <= i < self.views().len() ==> self@.contains_key(
                    #[trigger] self.views()[i].name,
                ) && self@[self.views()[i].name] == self.views()[i],
            forall|k: Seq<char>|
                self@.contains_key(k) ==> exists|i: int|
                    0 <= i < self.views().len() && (#[trigger] self.views()[i]).name == k,
    {
        let v = self.views();
        assert forall|i: int, j: int| 0 <= i < j < v.len() implies lex_lt(
            v[i].name,
            v[j].name,
        ) by {
            assert(v[i] == self.records@[i]@);
            assert(v[j] == self.records@[j]@);
        }
        assert forall|i: int| 0 <= i < v.len() implies self@.contains_key(#[trigger] v[i].name)
            && self@[v[i].name] == v[i] by {
            lemma_recs_index_is(self.records@, v[i].name, i);
        }
        assert forall|k: Seq<char>| self@.contains_key(k) implies exists|i: int|
            0 <= i < v.len() && (#[trigger] v[i]).name == k by {
            assert(recs_has_name(self.records@, k));
            let i = recs_name_index(self.records@, k);
            assert(v[i].name == k);
        }
    }
}

} // verus!
