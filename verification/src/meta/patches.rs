use vstd::prelude::*;

verus! {

use crate::meta::Patches;
use crate::text::str_eq;
use crate::text::views_of;

/// Index of the first occurrence of `x` in `s`, or `s.len()` when `x`
/// does not occur.
pub open spec fn first_index_of(s: Seq<Seq<char>>, x: Seq<char>) -> int
    decreases s.len(),
{
    if s.len() == 0 {
        0
    } else if s[0] == x {
        0
    } else {
        1 + first_index_of(s.drop_first(), x)
    }
}

pub proof fn lemma_first_index_of(s: Seq<Seq<char>>, x: Seq<char>)
    ensures
        0 <= first_index_of(s, x) <= s.len(),
        forall|j: int| 0 <= j < first_index_of(s, x) ==> s[j] != x,
        first_index_of(s, x) < s.len() ==> s[first_index_of(s, x)] == x,
        s.contains(x) <==> first_index_of(s, x) < s.len(),
    decreases s.len(),
{
    if s.len() > 0 && s[0] != x {
        lemma_first_index_of(s.drop_first(), x);
        assert forall|j: int| 0 <= j < first_index_of(s, x) implies s[j] != x by {
            if j > 0 {
                assert(s.drop_first()[j - 1] != x);
            }
        }
        if first_index_of(s, x) < s.len() {
            assert(s[first_index_of(s, x)] == s.drop_first()[first_index_of(s.drop_first(), x)]);
        }
        if s.contains(x) {
            let w = choose|i: int| 0 <= i < s.len() && s[i] == x;
            assert(s.drop_first()[w - 1] == x);
            assert(s.drop_first().contains(x));
        }
        if s.drop_first().contains(x) {
            let w = choose|i: int| 0 <= i < s.drop_first().len() && s.drop_first()[i] == x;
            assert(s[w + 1] == x);
        }
    }
}

/// The queue after removing the first occurrence of `x`, if any.
pub open spec fn queue_remove(q: Seq<Seq<char>>, x: Seq<char>) -> Seq<Seq<char>> {
    if q.contains(x) {
        q.remove(first_index_of(q, x))
    } else {
        q
    }
}

impl View for Patches {
    type V = Seq<Seq<char>>;

    /// The queue as a sequence of identifiers, top first.
    open(crate) spec fn view(&self) -> Seq<Seq<char>> {
        views_of(self.ids@)
    }
}

impl Patches {
    /// An empty queue.
    pub fn new() -> (r: Patches)
        ensures
            r@ == Seq::<Seq<char>>::empty(),
    {
        let r = Patches { ids: Vec::new() };
        proof {
            assert(r@ =~= Seq::<Seq<char>>::empty());
        }
        r
    }

    pub fn is_empty(&self) -> (r: bool)
        ensures
            r == (self@.len() == 0),
    {
        self.ids.len() == 0
    }

    /// Position of the first occurrence of `id`, if it is present.
    fn position(&self, id: &str) -> (r: Option<usize>)
        ensures
            match r {
                Some(i) => i == first_index_of(self@, id@) && i < self@.len(),
                None => !self@.contains(id@),
            },
    {
        proof {
            lemma_first_index_of(self@, id@);
        }
        let n: usize = self.ids.len();
        let mut i: usize = 0;
        while i < n
            invariant
                0 <= i <= n,
                n == self@.len(),
                n == self.ids@.len(),
                forall|j: int| 0 <= j < i ==> self@[j] != id@,
                first_index_of(self@, id@) >= i,
            decreases n - i,
        {
            if str_eq(self.ids[i].as_str(), id) {
                proof {
                    assert(self@[i as int] == id@);
                    lemma_first_index_of(self@, id@);
                    if first_index_of(self@, id@) > i {
                        assert(self@[i as int] != id@);
                    }
                }
                return Some(i);
            }
            i = i + 1;
            proof {
                lemma_first_index_of(self@, id@);
                if first_index_of(self@, id@) < i {
                    assert(self@[first_index_of(self@, id@)] == id@);
                }
            }
        }
        proof {
            if self@.contains(id@) {
                let w = choose|j: int| 0 <= j < self@.len() && self@[j] == id@;
                assert(self@[w] != id@);
            }
        }
        None
    }

    pub fn contains(&self, id: &str) -> (r: bool)
        ensures
            r == self@.contains(id@),
    {
        proof {
            lemma_first_index_of(self@, id@);
        }
        match self.position(id) {
            Some(_) => {
                proof {
                    assert(self@[first_index_of(self@, id@)] == id@);
                }
                true
            },
            None => false,
        }
    }

    /// Adds an identifier at the top of the queue.
    pub fn add_top(&mut self, id: String)
        ensures
            final(self)@ == seq![id@] + old(self)@,
    {
        self.ids.insert(0, id);
        proof {
            assert(final(self)@ =~= seq![id@] + old(self)@);
        }
    }

    /// Adds an identifier at the bottom of the queue.
    pub fn add_bottom(&mut self, id: String)
        ensures
            final(self)@ == old(self)@ + seq![id@],
    {
        self.ids.push(id);
        proof {
            assert(final(self)@ =~= old(self)@ + seq![id@]);
        }
    }

    /// Replaces the top identifier; the queue must not be empty.
    pub fn replace_top(&mut self, id: String)
        requires
            old(self)@.len() > 0,
        ensures
            final(self)@ == old(self)@.update(0, id@),
    {
        let _ = self.ids.remove(0);
        self.ids.insert(0, id);
        proof {
            assert(final(self)@ =~= old(self)@.update(0, id@));
        }
    }

    /// Removes the first occurrence of `id`; reports whether it was
    /// present.
    pub fn remove(&mut self, id: &str) -> (r: bool)
        ensures
            r == old(self)@.contains(id@),
            r ==> final(self)@ == old(self)@.remove(first_index_of(old(self)@, id@)),
            !r ==> final(self)@ == old(self)@,
    {
        proof {
            lemma_first_index_of(self@, id@);
        }
        match self.position(id) {
            Some(i) => {
                let _ = self.ids.remove(i);
                proof {
                    assert(old(self)@[first_index_of(old(self)@, id@)] == id@);
                    assert(final(self)@ =~= old(self)@.remove(i as int));
                }
                true
            },
            None => false,
        }
    }

    /// Empties the queue.
    pub fn remove_all(&mut self)
        ensures
            final(self)@ == Seq::<Seq<char>>::empty(),
    {
        self.ids.clear();
        proof {
            assert(final(self)@ =~= Seq::<Seq<char>>::empty());
        }
    }

    /// The top identifier; the queue must not be empty.
    pub fn top(&self) -> (r: String)
        requires
            self@.len() > 0,
        ensures
            r@ == self@[0],
    {
        self.ids[0].clone()
    }

    /// The bottom identifier; the queue must not be empty.
    pub fn bottom(&self) -> (r: String)
        requires
            self@.len() > 0,
        ensures
            r@ == self@.last(),
    {
        self.ids[self.ids.len() - 1].clone()
    }

    /// The top identifier alone, or nothing when the queue is empty.
    pub fn top_as_vec(&self) -> (r: Vec<String>)
        ensures
            self@.len() > 0 ==> views_of(r@) == seq![self@[0]],
            self@.len() == 0 ==> views_of(r@) == Seq::<Seq<char>>::empty(),
    {
        let mut r: Vec<String> = Vec::new();
        if self.ids.len() > 0 {
            r.push(self.ids[0].clone());
            proof {
                assert(views_of(r@) =~= seq![self@[0]]);
            }
        } else {
            proof {
                assert(views_of(r@) =~= Seq::<Seq<char>>::empty());
            }
        }
        r
    }

    /// The bottom identifier alone, or nothing when the queue is empty.
    pub fn bottom_as_vec(&self) -> (r: Vec<String>)
        ensures
            self@.len() > 0 ==> views_of(r@) == seq![self@.last()],
            self@.len() == 0 ==> views_of(r@) == Seq::<Seq<char>>::empty(),
    {
        let mut r: Vec<String> = Vec::new();
        if self.ids.len() > 0 {
            r.push(self.ids[self.ids.len() - 1].clone());
            proof {
                assert(views_of(r@) =~= seq![self@.last()]);
            }
        } else {
            proof {
                assert(views_of(r@) =~= Seq::<Seq<char>>::empty());
            }
        }
        r
    }

    /// All identifiers, top first.
    pub fn all(&self) -> (r: Vec<String>)
        ensures
            views_of(r@) == self@,
    {
        let n: usize = self.ids.len();
        let mut r: Vec<String> = Vec::new();
        let mut i: usize = 0;
        while i < n
            invariant
                0 <= i <= n,
                n == self.ids@.len(),
                r@.len() == i,
                forall|j: int| 0 <= j < i ==> r@[j]@ == self@[j],
            decreases n - i,
        {
            r.push(self.ids[i].clone());
            i = i + 1;
        }
        proof {
            assert(views_of(r@) =~= self@);
        }
        r
    }

    /// All identifiers, bottom first.
    pub fn all_reversed(&self) -> (r: Vec<String>)
        ensures
            views_of(r@) == self@.reverse(),
    {
        let n: usize = self.ids.len();
        let mut r: Vec<String> = Vec::new();
        let mut i: usize = 0;
        while i < n
            invariant
                0 <= i <= n,
                n == self.ids@.len(),
                r@.len() == i,
                forall|j: int| 0 <= j < i ==> r@[j]@ == self@[n - 1 - j],
            decreases n - i,
        {
            r.push(self.ids[n - 1 - i].clone());
            i = i + 1;
        }
        proof {
            assert(views_of(r@) =~= self@.reverse());
        }
        r
    }

    /// The identifiers strictly above `id`, top first; empty when `id`
    /// is not in the queue.
    pub fn range(&self, id: &str) -> (r: Vec<String>)
        ensures
            self@.contains(id@) ==> views_of(r@) == self@.take(first_index_of(self@, id@)),
            !self@.contains(id@) ==> views_of(r@) == Seq::<Seq<char>>::empty(),
    {
        proof {
            lemma_first_index_of(self@, id@);
        }
        let mut r: Vec<String> = Vec::new();
        match self.position(id) {
            Some(p) => {
                let mut i: usize = 0;
                while i < p
                    invariant
                        0 <= i <= p,
                        p < self.ids@.len(),
                        r@.len() == i,
                        forall|j: int| 0 <= j < i ==> r@[j]@ == self@[j],
                    decreases p - i,
                {
                    r.push(self.ids[i].clone());
                    i = i + 1;
                }
                proof {
                    assert(self@[first_index_of(self@, id@)] == id@);
                    assert(views_of(r@) =~= self@.take(first_index_of(self@, id@)));
                }
            },
            None => {
                proof {
                    assert(views_of(r@) =~= Seq::<Seq<char>>::empty());
                }
            },
        }
        r
    }

    /// The identifiers from `id` down to the bottom, bottom first;
    /// empty when `id` is not in the queue.
    pub fn range_reversed(&self, id: &str) -> (r: Vec<String>)
        ensures
            self@.contains(id@) ==> views_of(r@) == self@.skip(
                first_index_of(self@, id@),
            ).reverse(),
            !self@.contains(id@) ==> views_of(r@) == Seq::<Seq<char>>::empty(),
    {
        proof {
            lemma_first_index_of(self@, id@);
        }
        let mut r: Vec<String> = Vec::new();
        match self.position(id) {
            Some(p) => {
                let n: usize = self.ids.len();
                let mut i: usize = 0;
                while i < n - p
                    invariant
                        0 <= i <= n - p,
                        p < n,
                        n == self.ids@.len(),
                        r@.len() == i,
                        forall|j: int| 0 <= j < i ==> r@[j]@ == self@[n - 1 - j],
                    decreases n - p - i,
                {
                    r.push(self.ids[n - 1 - i].clone());
                    i = i + 1;
                }
                proof {
                    assert(self@[first_index_of(self@, id@)] == id@);
                    assert(views_of(r@) =~= self@.skip(first_index_of(self@, id@)).reverse());
                }
            },
            None => {
                proof {
                    assert(views_of(r@) =~= Seq::<Seq<char>>::empty());
                }
            },
        }
        r
    }
}

} // verus!
