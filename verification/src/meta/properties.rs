use vstd::prelude::*;

verus! {

use crate::error::Error;
use crate::meta::Prop;
use crate::meta::Properties;
use crate::text::lemma_lex_lt_asymmetric;
use crate::text::lemma_lex_lt_connected;
use crate::text::lemma_lex_lt_transitive;
use crate::text::lex_lt;
use crate::text::str_eq;
use crate::text::str_lt;

/// View of an optional value string.
pub open spec fn opt_view(v: Option<String>) -> Option<Seq<char>> {
    match v {
        Some(x) => Some(x@),
        None => None,
    }
}


/// A property scope at the serialization level: name/value pairs in
/// sorted order.
pub open spec fn pairs_sorted(s: Seq<(Seq<char>, Option<Seq<char>>)>) -> bool {
    forall|i: int, j: int| 0 <= i < j < s.len() ==> lex_lt(s[i].0, s[j].0)
}

/// Whether a scope holds a binding for `k`.
pub open spec fn pairs_has(s: Seq<(Seq<char>, Option<Seq<char>>)>, k: Seq<char>) -> bool {
    exists|i: int| 0 <= i < s.len() && s[i].0 == k
}

pub open spec fn pairs_index(s: Seq<(Seq<char>, Option<Seq<char>>)>, k: Seq<char>) -> int {
    choose|i: int| 0 <= i < s.len() && s[i].0 == k
}

/// The binding a scope holds for `k`: `None` when the name is absent,
/// `Some(None)` for a bare flag, `Some(Some(v))` for a value.
pub open spec fn pairs_lookup(s: Seq<(Seq<char>, Option<Seq<char>>)>, k: Seq<char>) -> Option<
    Option<Seq<char>>,
> {
    if pairs_has(s, k) {
        Some(s[pairs_index(s, k)].1)
    } else {
        None
    }
}

/// Sorted insert of a binding, replacing an equal name.
pub open spec fn pairs_insert(
    s: Seq<(Seq<char>, Option<Seq<char>>)>,
    k: Seq<char>,
    v: Option<Seq<char>>,
) -> Seq<(Seq<char>, Option<Seq<char>>)>
    decreases s.len(),
{
    if s.len() == 0 {
        seq![(k, v)]
    } else if lex_lt(s[0].0, k) {
        seq![s[0]] + pairs_insert(s.drop_first(), k, v)
    } else if s[0].0 == k {
        seq![(k, v)] + s.drop_first()
    } else {
        seq![(k, v)] + s
    }
}

/// Removal of a binding by name.
pub open spec fn pairs_remove(s: Seq<(Seq<char>, Option<Seq<char>>)>, k: Seq<char>) -> Seq<
    (Seq<char>, Option<Seq<char>>),
>
    decreases s.len(),
{
    if s.len() == 0 {
        s
    } else if s[0].0 == k {
        s.drop_first()
    } else {
        seq![s[0]] + pairs_remove(s.drop_first(), k)
    }
}

/// Where a sorted scan stops, the sorted insert splits the sequence.
pub proof fn lemma_pairs_insert_at(
    s: Seq<(Seq<char>, Option<Seq<char>>)>,
    p: int,
    k: Seq<char>,
    v: Option<Seq<char>>,
)
    requires
        0 <= p <= s.len(),
        forall|j: int| 0 <= j < p ==> lex_lt(#[trigger] s[j].0, k),
        p < s.len() ==> !lex_lt(s[p].0, k),
    ensures
        p < s.len() && s[p].0 == k ==> pairs_insert(s, k, v) =~= s.take(p) + seq![(k, v)]
            + s.skip(p + 1),
        !(p < s.len() && s[p].0 == k) ==> pairs_insert(s, k, v) =~= s.take(p) + seq![(k, v)]
            + s.skip(p),
    decreases p,
{
    if p == 0 {
        if s.len() > 0 {
            crate::text::lemma_lex_lt_irreflexive(k);
        }
    } else {
        lemma_pairs_insert_at(s.drop_first(), p - 1, k, v);
        assert(s.drop_first().take(p - 1) =~= s.skip(1).take(p - 1));
        if p < s.len() && s[p].0 == k {
            assert(s.drop_first()[p - 1] == s[p]);
            assert(pairs_insert(s, k, v) =~= seq![s[0]] + pairs_insert(s.drop_first(), k, v));
        }
    }
}

/// Removing a name below every entry leaves the sequence unchanged.
pub proof fn lemma_pairs_remove_absent(s: Seq<(Seq<char>, Option<Seq<char>>)>, k: Seq<char>)
    requires
        forall|j: int| 0 <= j < s.len() ==> lex_lt(k, #[trigger] s[j].0),
    ensures
        pairs_remove(s, k) =~= s,
    decreases s.len(),
{
    if s.len() > 0 {
        crate::text::lemma_lex_lt_asymmetric(k, s[0].0);
        assert forall|j: int| 0 <= j < s.drop_first().len() implies lex_lt(
            k,
            #[trigger] s.drop_first()[j].0,
        ) by {
            assert(s.drop_first()[j] == s[j + 1]);
        }
        lemma_pairs_remove_absent(s.drop_first(), k);
    }
}

/// Where a sorted scan stops, the removal splits the sequence.
pub proof fn lemma_pairs_remove_at(s: Seq<(Seq<char>, Option<Seq<char>>)>, p: int, k: Seq<char>)
    requires
        pairs_sorted(s),
        0 <= p <= s.len(),
        forall|j: int| 0 <= j < p ==> lex_lt(#[trigger] s[j].0, k),
        p < s.len() ==> !lex_lt(s[p].0, k),
    ensures
        p < s.len() && s[p].0 == k ==> pairs_remove(s, k) =~= s.take(p) + s.skip(p + 1),
        !(p < s.len() && s[p].0 == k) ==> pairs_remove(s, k) =~= s,
    decreases s.len(),
{
    if p == 0 {
        if s.len() > 0 && s[0].0 != k {
            crate::text::lemma_lex_lt_connected(s[0].0, k);
            assert forall|j: int| 0 <= j < s.len() implies lex_lt(k, #[trigger] s[j].0) by {
                if j > 0 {
                    crate::text::lemma_lex_lt_transitive(k, s[0].0, s[j].0);
                }
            }
            lemma_pairs_remove_absent(s, k);
        }
    } else {
        crate::text::lemma_lex_lt_asymmetric(s[0].0, k);
        assert forall|i: int, j: int| 0 <= i < j < s.drop_first().len() implies lex_lt(
            s.drop_first()[i].0,
            s.drop_first()[j].0,
        ) by {
            assert(s.drop_first()[i] == s[i + 1]);
            assert(s.drop_first()[j] == s[j + 1]);
        }
        assert forall|j: int| 0 <= j < p - 1 implies lex_lt(
            #[trigger] s.drop_first()[j].0,
            k,
        ) by {
            assert(s.drop_first()[j] == s[j + 1]);
        }
        lemma_pairs_remove_at(s.drop_first(), p - 1, k);
        if p < s.len() && s[p].0 == k {
            assert(s.drop_first()[p - 1] == s[p]);
            assert(pairs_remove(s, k) =~= seq![s[0]] + pairs_remove(s.drop_first(), k));
            assert(s.drop_first().take(p - 1) =~= s.skip(1).take(p - 1));
        } else {
            if p < s.len() {
                assert(s.drop_first()[p - 1] == s[p]);
            }
            assert(pairs_remove(s, k) =~= seq![s[0]] + pairs_remove(s.drop_first(), k));
        }
    }
}


/// Inserting a name above every entry appends it.
pub proof fn lemma_pairs_insert_end(
    s: Seq<(Seq<char>, Option<Seq<char>>)>,
    k: Seq<char>,
    v: Option<Seq<char>>,
)
    requires
        forall|j: int| 0 <= j < s.len() ==> lex_lt(#[trigger] s[j].0, k),
    ensures
        pairs_insert(s, k, v) == s.push((k, v)),
    decreases s.len(),
{
    if s.len() == 0 {
        assert(pairs_insert(s, k, v) =~= s.push((k, v)));
    } else {
        assert forall|j: int| 0 <= j < s.drop_first().len() implies lex_lt(
            #[trigger] s.drop_first()[j].0,
            k,
        ) by {
            assert(s.drop_first()[j] == s[j + 1]);
        }
        lemma_pairs_insert_end(s.drop_first(), k, v);
        assert(pairs_insert(s, k, v) == seq![s[0]] + pairs_insert(s.drop_first(), k, v));
        assert(pairs_insert(s, k, v) =~= s.push((k, v)));
    }
}


/// The sorted insert keeps the scope sorted, and adds only the new
/// binding.
pub proof fn lemma_pairs_insert_sorted(
    s: Seq<(Seq<char>, Option<Seq<char>>)>,
    k: Seq<char>,
    v: Option<Seq<char>>,
)
    requires
        pairs_sorted(s),
    ensures
        pairs_sorted(pairs_insert(s, k, v)),
        forall|i: int|
            0 <= i < pairs_insert(s, k, v).len() ==> #[trigger] pairs_insert(s, k, v)[i] == (k, v)
                || s.contains(pairs_insert(s, k, v)[i]),
    decreases s.len(),
{
    let r = pairs_insert(s, k, v);
    if s.len() == 0 {
        assert(r[0] == (k, v));
    } else if lex_lt(s[0].0, k) {
        assert forall|a: int, b: int|
            0 <= a < b < s.drop_first().len() implies lex_lt(
            s.drop_first()[a].0,
            s.drop_first()[b].0,
        ) by {
            assert(s.drop_first()[a] == s[a + 1]);
            assert(s.drop_first()[b] == s[b + 1]);
        }
        lemma_pairs_insert_sorted(s.drop_first(), k, v);
        let r2 = pairs_insert(s.drop_first(), k, v);
        assert(r == seq![s[0]] + r2);
        assert forall|a: int, b: int| 0 <= a < b < r.len() implies lex_lt(r[a].0, r[b].0) by {
            if a == 0 {
                assert(r[b] == r2[b - 1]);
                if r2[b - 1] == (k, v) {
                } else {
                    assert(s.drop_first().contains(r2[b - 1]));
                    let w = choose|w: int|
                        0 <= w < s.drop_first().len() && s.drop_first()[w] == r2[b - 1];
                    assert(s.drop_first()[w] == s[w + 1]);
                }
            } else {
                assert(r[a] == r2[a - 1]);
                assert(r[b] == r2[b - 1]);
            }
        }
        assert forall|i: int| 0 <= i < r.len() implies #[trigger] r[i] == (k, v) || s.contains(
            r[i],
        ) by {
            if i == 0 {
                assert(s[0] == r[i]);
            } else {
                assert(r[i] == r2[i - 1]);
                if r2[i - 1] != (k, v) {
                    let w = choose|w: int|
                        0 <= w < s.drop_first().len() && s.drop_first()[w] == r2[i - 1];
                    assert(s[w + 1] == r[i]);
                }
            }
        }
    } else if s[0].0 == k {
        assert(r == seq![(k, v)] + s.drop_first());
        assert forall|a: int, b: int| 0 <= a < b < r.len() implies lex_lt(r[a].0, r[b].0) by {
            if a == 0 {
                assert(r[b] == s[b]);
            } else {
                assert(r[a] == s[a]);
                assert(r[b] == s[b]);
            }
        }
        assert forall|i: int| 0 <= i < r.len() implies #[trigger] r[i] == (k, v) || s.contains(
            r[i],
        ) by {
            if i > 0 {
                assert(s[i] == r[i]);
            }
        }
    } else {
        crate::text::lemma_lex_lt_connected(s[0].0, k);
        assert(r == seq![(k, v)] + s);
        assert forall|a: int, b: int| 0 <= a < b < r.len() implies lex_lt(r[a].0, r[b].0) by {
            if a == 0 {
                assert(r[b] == s[b - 1]);
                if b > 1 {
                    crate::text::lemma_lex_lt_transitive(k, s[0].0, s[b - 1].0);
                }
            } else {
                assert(r[a] == s[a - 1]);
                assert(r[b] == s[b - 1]);
            }
        }
        assert forall|i: int| 0 <= i < r.len() implies #[trigger] r[i] == (k, v) || s.contains(
            r[i],
        ) by {
            if i > 0 {
                assert(s[i - 1] == r[i]);
            }
        }
    }
}

pub(crate) open spec fn has_name(s: Seq<Prop>, k: Seq<char>) -> bool {
    exists|i: int| 0 <= i < s.len() && s[i].name@ == k
}

pub(crate) open spec fn name_index(s: Seq<Prop>, k: Seq<char>) -> int {
    choose|i: int| 0 <= i < s.len() && s[i].name@ == k
}

pub(crate) open spec fn value_of(s: Seq<Prop>, k: Seq<char>) -> Option<Seq<char>> {
    opt_view(s[name_index(s, k)].value)
}

/// Entries strictly ascending by name: sorted and duplicate-free.
pub(crate) open spec fn props_sorted(s: Seq<Prop>) -> bool {
    forall|i: int, j: int| 0 <= i < j < s.len() ==> lex_lt(s[i].name@, s[j].name@)
}

pub(crate) open spec fn map_view(s: Seq<Prop>) -> Map<Seq<char>, Option<Seq<char>>> {
    Map::new(|k: Seq<char>| has_name(s, k), |k: Seq<char>| value_of(s, k))
}

pub(crate) proof fn lemma_sorted_unique(s: Seq<Prop>)
    requires
        props_sorted(s),
    ensures
        forall|i: int, j: int|
            0 <= i < s.len() && 0 <= j < s.len() && i != j ==> s[i].name@ != s[j].name@,
{
    assert forall|i: int, j: int|
        0 <= i < s.len() && 0 <= j < s.len() && i != j implies s[i].name@ != s[j].name@ by {
        if i < j {
            lemma_lex_lt_asymmetric(s[i].name@, s[j].name@);
        } else {
            lemma_lex_lt_asymmetric(s[j].name@, s[i].name@);
        }
    }
}

/// With unique names, the entry found at `p` pins down the map lookup.
pub(crate) proof fn lemma_name_index_is(s: Seq<Prop>, k: Seq<char>, p: int)
    requires
        props_sorted(s),
        0 <= p < s.len(),
        s[p].name@ == k,
    ensures
        has_name(s, k),
        name_index(s, k) == p,
        map_view(s).contains_key(k),
        map_view(s)[k] == opt_view(s[p].value),
{
    assert(has_name(s, k));
    lemma_sorted_unique(s);
    assert(s[name_index(s, k)].name@ == k);
}

/// What a sorted scan that stopped at `p` says about the lookup of `k`.
pub(crate) proof fn lemma_lookup(s: Seq<Prop>, k: Seq<char>, p: int)
    requires
        props_sorted(s),
        0 <= p <= s.len(),
        forall|j: int| 0 <= j < p ==> lex_lt(#[trigger] s[j].name@, k),
        p < s.len() ==> !lex_lt(s[p].name@, k),
    ensures
        p < s.len() && s[p].name@ == k ==> has_name(s, k) && name_index(s, k) == p
            && map_view(s).contains_key(k) && map_view(s)[k] == opt_view(s[p].value),
        !(p < s.len() && s[p].name@ == k) ==> !has_name(s, k) && !map_view(s).contains_key(k)
            && (forall|j: int| p <= j < s.len() ==> lex_lt(k, #[trigger] s[j].name@)),
{
    if p < s.len() && s[p].name@ == k {
        lemma_name_index_is(s, k, p);
    } else {
        assert forall|j: int| p <= j < s.len() implies lex_lt(k, #[trigger] s[j].name@) by {
            if s[p].name@ == k {
                assert(false);
            } else {
                lemma_lex_lt_connected(s[p].name@, k);
                assert(lex_lt(k, s[p].name@));
                if j > p {
                    lemma_lex_lt_transitive(k, s[p].name@, s[j].name@);
                }
            }
        }
        if has_name(s, k) {
            let i = name_index(s, k);
            assert(s[i].name@ == k);
            if i < p {
                lemma_lex_lt_asymmetric(s[i].name@, k);
            } else {
                lemma_lex_lt_asymmetric(k, s[i].name@);
            }
        }
    }
}

/// Inserting a fresh entry at its sorted position inserts its binding
/// into the map view.
pub(crate) proof fn lemma_view_insert(s: Seq<Prop>, p: int, q: Prop)
    requires
        props_sorted(s),
        0 <= p <= s.len(),
        forall|j: int| 0 <= j < p ==> lex_lt(#[trigger] s[j].name@, q.name@),
        forall|j: int| p <= j < s.len() ==> lex_lt(q.name@, #[trigger] s[j].name@),
    ensures
        props_sorted(s.insert(p, q)),
        map_view(s.insert(p, q)) == map_view(s).insert(q.name@, opt_view(q.value)),
{
    let t = s.insert(p, q);
    let k = q.name@;
    assert forall|i: int, j: int| 0 <= i < j < t.len() implies lex_lt(
        t[i].name@,
        t[j].name@,
    ) by {
        if i < p && j == p {
        } else if i == p && j > p {
        } else if i < p && j > p {
            lemma_lex_lt_transitive(s[i].name@, k, s[j - 1].name@);
        }
    }
    lemma_sorted_unique(s);
    lemma_sorted_unique(t);
    let m1 = map_view(t);
    let m2 = map_view(s).insert(k, opt_view(q.value));
    assert forall|x: Seq<char>| #[trigger] m2.contains_key(x) implies m1.contains_key(x)
        && m1[x] == m2[x] by {
        if x == k {
            lemma_name_index_is(t, x, p);
        } else {
            assert(has_name(s, x));
            let i = name_index(s, x);
            assert(s[i].name@ == x);
            let i2 = if i < p {
                i
            } else {
                i + 1
            };
            assert(t[i2].name@ == x);
            lemma_name_index_is(t, x, i2);
            lemma_name_index_is(s, x, i);
        }
    }
    assert forall|x: Seq<char>| #[trigger] m1.contains_key(x) implies m2.contains_key(x) by {
        assert(has_name(t, x));
        let i = name_index(t, x);
        assert(t[i].name@ == x);
        if i != p {
            let i2 = if i < p {
                i
            } else {
                i - 1
            };
            assert(s[i2].name@ == x);
        }
    }
    assert(m1 =~= m2);
}

/// Removing the entry at `p` removes its binding from the map view.
pub(crate) proof fn lemma_view_remove(s: Seq<Prop>, p: int)
    requires
        props_sorted(s),
        0 <= p < s.len(),
    ensures
        props_sorted(s.remove(p)),
        map_view(s.remove(p)) == map_view(s).remove(s[p].name@),
{
    let t = s.remove(p);
    let k = s[p].name@;
    assert forall|i: int, j: int| 0 <= i < j < t.len() implies lex_lt(
        t[i].name@,
        t[j].name@,
    ) by {
        let i2 = if i < p {
            i
        } else {
            i + 1
        };
        let j2 = if j < p {
            j
        } else {
            j + 1
        };
        assert(t[i].name@ == s[i2].name@);
        assert(t[j].name@ == s[j2].name@);
    }
    lemma_sorted_unique(s);
    lemma_sorted_unique(t);
    let m1 = map_view(t);
    let m2 = map_view(s).remove(k);
    assert forall|x: Seq<char>| #[trigger] m2.contains_key(x) implies m1.contains_key(x)
        && m1[x] == m2[x] by {
        assert(has_name(s, x) && x != k);
        let i = name_index(s, x);
        assert(s[i].name@ == x);
        assert(i != p);
        let i2 = if i < p {
            i
        } else {
            i - 1
        };
        assert(t[i2].name@ == x);
        lemma_name_index_is(t, x, i2);
        lemma_name_index_is(s, x, i);
    }
    assert forall|x: Seq<char>| #[trigger] m1.contains_key(x) implies m2.contains_key(x) by {
        assert(has_name(t, x));
        let i = name_index(t, x);
        assert(t[i].name@ == x);
        let i2 = if i < p {
            i
        } else {
            i + 1
        };
        assert(s[i2].name@ == x);
        assert(i2 != p);
        lemma_sorted_unique(s);
        assert(x != k);
    }
    assert(m1 =~= m2);
}

impl View for Properties {
    type V = Map<Seq<char>, Option<Seq<char>>>;

    /// The store as a map from name to optional value; a name bound to
    /// `None` is a bare flag.
    open(crate) spec fn view(&self) -> Map<Seq<char>, Option<Seq<char>>> {
        map_view(self.items@)
    }
}

impl Properties {
    /// Entries strictly ascending by name.
    pub open(crate) spec fn wf(&self) -> bool {
        props_sorted(self.items@)
    }

    /// The entries in serialization order: sorted by name.
    pub open(crate) spec fn entries(&self) -> Seq<(Seq<char>, Option<Seq<char>>)> {
        Seq::new(self.items@.len(), |i: int| (self.items@[i].name@, opt_view(self.items@[i].value)))
    }

    /// An empty store.
    pub fn new() -> (r: Properties)
        ensures
            r.wf(),
            r@ == Map::<Seq<char>, Option<Seq<char>>>::empty(),
            r.entries() == Seq::<(Seq<char>, Option<Seq<char>>)>::empty(),
    {
        let r = Properties { items: Vec::new() };
        proof {
            assert(r@ =~= Map::<Seq<char>, Option<Seq<char>>>::empty());
            assert(r.entries() =~= Seq::<(Seq<char>, Option<Seq<char>>)>::empty());
        }
        r
    }

    pub fn is_empty(&self) -> (r: bool)
        ensures
            r == (self@.dom() == Set::<Seq<char>>::empty()),
            r == (self.entries().len() == 0),
    {
        let r = self.items.len() == 0;
        proof {
            if self.items@.len() == 0 {
                assert(self@.dom() =~= Set::<Seq<char>>::empty());
            } else {
                assert(has_name(self.items@, self.items@[0].name@));
                assert(self@.dom().contains(self.items@[0].name@));
                if self@.dom() == Set::<Seq<char>>::empty() {
                    assert(Set::<Seq<char>>::empty().contains(self.items@[0].name@));
                }
            }
        }
        r
    }

    /// First position whose name is not below `name` in sort order.
    fn position_ge(&self, name: &str) -> (r: usize)
        requires
            self.wf(),
        ensures
            r <= self.items@.len(),
            forall|j: int| 0 <= j < r ==> lex_lt(#[trigger] self.items@[j].name@, name@),
            r < self.items@.len() ==> !lex_lt(self.items@[r as int].name@, name@),
    {
        let n: usize = self.items.len();
        let mut i: usize = 0;
        while i < n && str_lt(self.items[i].name.as_str(), name)
            invariant
                0 <= i <= n,
                n == self.items@.len(),
                forall|j: int| 0 <= j < i ==> lex_lt(#[trigger] self.items@[j].name@, name@),
            decreases n - i,
        {
            i = i + 1;
        }
        i
    }

    pub fn contains(&self, name: &str) -> (r: bool)
        requires
            self.wf(),
        ensures
            r == self@.contains_key(name@),
    {
        let p = self.position_ge(name);
        proof {
            lemma_lookup(self.items@, name@, p as int);
        }
        p < self.items.len() && str_eq(self.items[p].name.as_str(), name)
    }

    /// Reads `name` as a flag: true when the flag is set, false when the
    /// name is absent, and an error when the name holds a value.
    pub fn get_flag(&self, name: &str) -> (r: Result<bool, Error>)
        requires
            self.wf(),
        ensures
            match r {
                Ok(true) => self@.contains_key(name@) && self@[name@] is None,
                Ok(false) => !self@.contains_key(name@),
                Err(e) => self@.contains_key(name@) && self@[name@] is Some
                    && crate::error::is_property_is_value(e, name@),
            },
    {
        let p = self.position_ge(name);
        proof {
            lemma_lookup(self.items@, name@, p as int);
        }
        if p < self.items.len() && str_eq(self.items[p].name.as_str(), name) {
            match &self.items[p].value {
                Some(_) => Err(Error::PropertyIsValue { name: name.to_owned() }),
                None => Ok(true),
            }
        } else {
            Ok(false)
        }
    }

    /// Sets `name` as a bare flag, replacing any prior binding.
    pub fn set_flag(&mut self, name: &str)
        requires
            old(self).wf(),
        ensures
            final(self).wf(),
            final(self)@ == old(self)@.insert(name@, None),
            final(self).entries() == pairs_insert(old(self).entries(), name@, None),
    {
        self.bind(name, None);
    }

    /// Reads the value of `name`: absent names give `None`, and a name
    /// bound as a bare flag is an error.
    pub fn get(&self, name: &str) -> (r: Result<Option<String>, Error>)
        requires
            self.wf(),
        ensures
            match r {
                Ok(Some(v)) => self@.contains_key(name@) && self@[name@] == Some(v@),
                Ok(None) => !self@.contains_key(name@),
                Err(e) => self@.contains_key(name@) && self@[name@] is None
                    && crate::error::is_property_is_flag(e, name@),
            },
    {
        let p = self.position_ge(name);
        proof {
            lemma_lookup(self.items@, name@, p as int);
        }
        if p < self.items.len() && str_eq(self.items[p].name.as_str(), name) {
            match &self.items[p].value {
                Some(v) => Ok(Some(v.clone())),
                None => Err(Error::PropertyIsFlag { name: name.to_owned() }),
            }
        } else {
            Ok(None)
        }
    }

    /// Binds `name` to `value`, replacing any prior binding.
    pub fn set(&mut self, name: &str, value: String)
        requires
            old(self).wf(),
        ensures
            final(self).wf(),
            final(self)@ == old(self)@.insert(name@, Some(value@)),
            final(self).entries() == pairs_insert(old(self).entries(), name@, Some(value@)),
    {
        self.bind(name, Some(value));
    }

    /// Shared sorted-insert for `set` and `set_flag`.
    fn bind(&mut self, name: &str, value: Option<String>)
        requires
            old(self).wf(),
        ensures
            final(self).wf(),
            final(self)@ == old(self)@.insert(name@, opt_view(value)),
            final(self).entries() == pairs_insert(old(self).entries(), name@, opt_view(value)),
    {
        let ghost v = opt_view(value);
        let ghost e0 = self.entries();
        let p = self.position_ge(name);
        proof {
            lemma_lookup(self.items@, name@, p as int);
            assert forall|j: int| 0 <= j < p implies lex_lt(#[trigger] e0[j].0, name@) by {
                assert(e0[j].0 == self.items@[j].name@);
            }
            if p < self.items@.len() {
                assert(e0[p as int].0 == self.items@[p as int].name@);
            }
            lemma_pairs_insert_at(e0, p as int, name@, v);
        }
        if p < self.items.len() && str_eq(self.items[p].name.as_str(), name) {
            let ghost s0 = self.items@;
            let _ = self.items.remove(p);
            proof {
                lemma_view_remove(s0, p as int);
                let s1 = self.items@;
                assert forall|j: int| p <= j < s1.len() implies lex_lt(
                    name@,
                    #[trigger] s1[j].name@,
                ) by {
                    assert(s1[j].name@ == s0[j + 1].name@);
                }
            }
            let ghost s1 = self.items@;
            self.items.insert(p, Prop { name: name.to_owned(), value });
            proof {
                let q = self.items@[p as int];
                assert(self.items@ =~= s1.insert(p as int, q));
                lemma_view_insert(s1, p as int, q);
                assert(final(self)@ =~= old(self)@.insert(name@, v));
                assert(final(self).entries() =~= e0.take(p as int) + seq![(name@, v)] + e0.skip(
                    p + 1,
                ));
            }
        } else {
            let ghost s0 = self.items@;
            self.items.insert(p, Prop { name: name.to_owned(), value });
            proof {
                let q = self.items@[p as int];
                assert(self.items@ =~= s0.insert(p as int, q));
                lemma_view_insert(s0, p as int, q);
                assert(final(self).entries() =~= e0.take(p as int) + seq![(name@, v)] + e0.skip(
                    p as int,
                ));
            }
        }
    }

    /// Drops any binding of `name`.
    pub fn remove(&mut self, name: &str)
        requires
            old(self).wf(),
        ensures
            final(self).wf(),
            final(self)@ == old(self)@.remove(name@),
            final(self).entries() == pairs_remove(old(self).entries(), name@),
    {
        let ghost e0 = self.entries();
        let p = self.position_ge(name);
        proof {
            lemma_lookup(self.items@, name@, p as int);
            assert forall|j: int| 0 <= j < p implies lex_lt(#[trigger] e0[j].0, name@) by {
                assert(e0[j].0 == self.items@[j].name@);
            }
            if p < self.items@.len() {
                assert(e0[p as int].0 == self.items@[p as int].name@);
            }
            lemma_pairs_remove_at(e0, p as int, name@);
        }
        if p < self.items.len() && str_eq(self.items[p].name.as_str(), name) {
            let ghost s0 = self.items@;
            let _ = self.items.remove(p);
            proof {
                lemma_view_remove(s0, p as int);
                assert(final(self).entries() =~= e0.take(p as int) + e0.skip(p + 1));
            }
        } else {
            proof {
                assert(final(self)@ =~= old(self)@.remove(name@));
                assert(final(self).entries() =~= e0);
            }
        }
    }

    /// The serialization order is sorted, and lookups agree with it.
    pub proof fn lemma_entries(&self)
        requires
            self.wf(),
        ensures
            pairs_sorted(self.entries()),
            forall|i: int|
                0 <= i < self.entries().len() ==> self@.contains_key(#[trigger] self.entries()[i].0)
                    && self@[self.entries()[i].0] == self.entries()[i].1,
            forall|k: Seq<char>|
                self@.contains_key(k) ==> exists|i: int|
                    0 <= i < self.entries().len() && (#[trigger] self.entries()[i]).0 == k,
    {
        let e = self.entries();
        assert forall|i: int, j: int| 0 <= i < j < e.len() implies lex_lt(e[i].0, e[j].0) by {
            assert(e[i].0 == self.items@[i].name@);
            assert(e[j].0 == self.items@[j].name@);
        }
        assert forall|i: int| 0 <= i < e.len() implies self@.contains_key(#[trigger] e[i].0)
            && self@[e[i].0] == e[i].1 by {
            lemma_name_index_is(self.items@, e[i].0, i);
        }
        assert forall|k: Seq<char>| self@.contains_key(k) implies exists|i: int|
            0 <= i < e.len() && (#[trigger] e[i]).0 == k by {
            assert(has_name(self.items@, k));
            let i = name_index(self.items@, k);
            assert(e[i].0 == k);
        }
    }

    /// Lookups through the map agree with lookups through the entries.
    pub proof fn lemma_lookup_entries(&self, k: Seq<char>)
        requires
            self.wf(),
        ensures
            pairs_lookup(self.entries(), k) == if self@.contains_key(k) {
                Some(self@[k])
            } else {
                None::<Option<Seq<char>>>
            },
    {
        let e = self.entries();
        self.lemma_entries();
        if self@.contains_key(k) {
            let w = choose|i: int| 0 <= i < e.len() && (#[trigger] e[i]).0 == k;
            assert(pairs_has(e, k));
            let i = pairs_index(e, k);
            assert(e[i].0 == k);
            assert forall|a: int, b: int|
                0 <= a < e.len() && 0 <= b < e.len() && a != b implies e[a].0 != e[b].0 by {
                if a < b {
                    lemma_lex_lt_asymmetric(e[a].0, e[b].0);
                } else {
                    lemma_lex_lt_asymmetric(e[b].0, e[a].0);
                }
            }
            assert(self@[e[i].0] == e[i].1);
        } else {
            if pairs_has(e, k) {
                let i = pairs_index(e, k);
                assert(e[i].0 == k);
                assert(self@.contains_key(e[i].0));
            }
        }
    }
}

} // verus!
