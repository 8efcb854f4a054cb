//! A set of signal paths, kept as a vector of distinct strings.

use vstd::prelude::*;

verus! {

/// A set of dotted signal paths, each held once.
#[derive(Clone, Debug)]
pub struct PathSet {
    items: Vec<String>,
}

impl View for PathSet {
    type V = Set<Seq<char>>;

    closed spec fn view(&self) -> Set<Seq<char>> {
        Set::new(|p: Seq<char>| exists|i: int| 0 <= i < self.items@.len() && #[trigger] self.items@[i]@ == p)
    }
}

impl PathSet {
    /// No path is held twice.
    pub closed spec fn wf(&self) -> bool {
        forall|i: int, j: int|
            0 <= i < j < self.items@.len() ==> #[trigger] self.items@[i]@ != #[trigger] self.items@[j]@
    }

    /// The paths in the order they were first inserted.
    pub closed spec fn seq(&self) -> Seq<String> {
        self.items@
    }

    /// The set holds exactly the paths of its insertion order.
    pub proof fn lemma_view_seq(&self)
        ensures
            forall|p: Seq<char>| #[trigger] self@.contains(p) <==> holds(self.seq(), self.seq().len() as int, p),
    {
        lemma_holds_all(*self);
    }

    /// No path stands twice in the insertion order.
    pub proof fn lemma_seq_distinct(&self)
        requires
            self.wf(),
        ensures
            forall|a: int, b: int|
                0 <= a < b < self.seq().len() ==> #[trigger] self.seq()[a]@ != #[trigger] self.seq()[b]@,
    {
    }

    /// The empty set.
    pub fn new() -> (r: PathSet)
        ensures
            r.wf(),
            r@ == Set::<Seq<char>>::empty(),
    {
        let r = PathSet { items: Vec::new() };
        assert(r@ =~= Set::<Seq<char>>::empty());
        r
    }

    /// The number of paths held.
    pub fn len(&self) -> (r: usize)
        requires
            self.wf(),
        ensures
            r == self.seq().len(),
    {
        self.items.len()
    }

    /// The path at position `i` of the insertion order.
    pub fn get(&self, i: usize) -> (r: &String)
        requires
            i < self.seq().len(),
        ensures
            r == self.seq()[i as int],
            self@.contains(r@),
    {
        &self.items[i]
    }

    /// A set holding the same paths.
    pub fn copy(&self) -> (r: PathSet)
        requires
            self.wf(),
        ensures
            r.wf(),
            r@ == self@,
    {
        let mut items: Vec<String> = Vec::new();
        let mut i: usize = 0;
        while i < self.items.len()
            invariant
                i <= self.items@.len(),
                items@.len() == i,
                forall|k: int| 0 <= k < i ==> #[trigger] items@[k]@ == self.items@[k]@,
            decreases self.items@.len() - i,
        {
            items.push(self.items[i].clone());
            i = i + 1;
        }
        let r = PathSet { items };
        proof {
            assert forall|x: Seq<char>| #[trigger] r@.contains(x) <==> self@.contains(x) by {
                if r@.contains(x) {
                    let k = choose|k: int| 0 <= k < r.items@.len() && r.items@[k]@ == x;
                    assert(self.items@[k]@ == x);
                }
                if self@.contains(x) {
                    let k = choose|k: int| 0 <= k < self.items@.len() && self.items@[k]@ == x;
                    assert(r.items@[k]@ == x);
                }
            }
            assert(r@ =~= self@);
        }
        r
    }

    /// Adds every path of `other`.
    pub fn union_with(&mut self, other: &PathSet)
        requires
            old(self).wf(),
        ensures
            final(self).wf(),
            final(self)@ == old(self)@.union(other@),
    {
        let mut i: usize = 0;
        while i < other.items.len()
            invariant
                i <= other.items@.len(),
                self.wf(),
                self@ == old(self)@.union(Set::new(|x: Seq<char>| holds(other.items@, i as int, x))),
            decreases other.items@.len() - i,
        {
            let ghost before = self@;
            self.insert(other.items[i].as_str());
            proof {
                lemma_holds_step(other.items@, i as int);
                assert(self@ =~= old(self)@.union(Set::new(|x: Seq<char>| holds(other.items@, i + 1, x))));
            }
            i = i + 1;
        }
        proof {
            lemma_holds_all(*other);
            assert(self@ =~= old(self)@.union(other@));
        }
    }

    /// Drops every path of `other`.
    pub fn subtract(&mut self, other: &PathSet)
        requires
            old(self).wf(),
        ensures
            final(self).wf(),
            final(self)@ == old(self)@.difference(other@),
    {
        let mut i: usize = 0;
        while i < other.items.len()
            invariant
                i <= other.items@.len(),
                self.wf(),
                self@ == old(self)@.difference(Set::new(|x: Seq<char>| holds(other.items@, i as int, x))),
            decreases other.items@.len() - i,
        {
            self.remove(other.items[i].as_str());
            proof {
                lemma_holds_step(other.items@, i as int);
                assert(self@ =~= old(self)@.difference(Set::new(|x: Seq<char>| holds(other.items@, i + 1, x))));
            }
            i = i + 1;
        }
        proof {
            lemma_holds_all(*other);
            assert(self@ =~= old(self)@.difference(other@));
        }
    }

    /// Whether `p` is held.
    pub fn contains(&self, p: &str) -> (r: bool)
        ensures
            r == self@.contains(p@),
    {
        let mut i: usize = 0;
        while i < self.items.len()
            invariant
                i <= self.items@.len(),
                forall|k: int| 0 <= k < i ==> self.items@[k]@ != p@,
            decreases self.items@.len() - i,
        {
            if same_text(self.items[i].as_str(), p) {
                return true;
            }
            i = i + 1;
        }
        false
    }

    /// Adds `p` if it is not held yet.
    pub fn insert(&mut self, p: &str)
        requires
            old(self).wf(),
        ensures
            final(self).wf(),
            final(self)@ == old(self)@.insert(p@),
    {
        if !self.contains(p) {
            self.items.push(p.to_owned());
            proof {
                let n = self.items@.len() - 1;
                assert forall|x: Seq<char>| #[trigger] self@.contains(x) <==> old(self)@.insert(p@).contains(x) by {
                    if old(self)@.contains(x) {
                        let i = choose|i: int| 0 <= i < old(self).items@.len() && old(self).items@[i]@ == x;
                        assert(self.items@[i]@ == x);
                    }
                    if x == p@ {
                        assert(self.items@[n]@ == x);
                    }
                }
                assert(self@ =~= old(self)@.insert(p@));
            }
        } else {
            assert(self@ =~= old(self)@.insert(p@));
        }
    }

    /// Drops `p` if it is held.
    pub fn remove(&mut self, p: &str)
        requires
            old(self).wf(),
        ensures
            final(self).wf(),
            final(self)@ == old(self)@.remove(p@),
    {
        let mut kept: Vec<String> = Vec::new();
        let mut i: usize = 0;
        while i < self.items.len()
            invariant
                i <= self.items@.len(),
                self.wf(),
                forall|a: int, b: int| 0 <= a < b < kept@.len() ==> #[trigger] kept@[a]@ != #[trigger] kept@[b]@,
                forall|x: Seq<char>|
                    #[trigger] holds(kept@, kept@.len() as int, x) <==> (x != p@ && holds(self.items@, i as int, x)),
            decreases self.items@.len() - i,
        {
            let ghost before = kept@;
            let ghost y = self.items@[i as int]@;
            proof {
                assert forall|x: Seq<char>|
                    #[trigger] holds(self.items@, i + 1, x) <==> (holds(self.items@, i as int, x) || x == y) by {
                    if holds(self.items@, i + 1, x) {
                        let k = choose|k: int| 0 <= k < i + 1 && #[trigger] self.items@[k]@ == x;
                        if k < i {
                            assert(holds(self.items@, i as int, x));
                        }
                    }
                    if holds(self.items@, i as int, x) {
                        let k = choose|k: int| 0 <= k < i && #[trigger] self.items@[k]@ == x;
                        assert(self.items@[k]@ == x);
                    }
                    if x == y {
                        assert(self.items@[i as int]@ == x);
                    }
                }
            }
            if !same_text(self.items[i].as_str(), p) {
                proof {
                    assert forall|k: int| 0 <= k < before.len() implies #[trigger] before[k]@ != y by {
                        if before[k]@ == y {
                            assert(holds(before, before.len() as int, y));
                            let q = choose|q: int| 0 <= q < i && #[trigger] self.items@[q]@ == y;
                            assert(self.items@[q]@ == self.items@[i as int]@);
                        }
                    }
                }
                kept.push(self.items[i].clone());
                proof {
                    assert forall|x: Seq<char>|
                        #[trigger] holds(kept@, kept@.len() as int, x) <==> (holds(before, before.len() as int, x)
                            || x == y) by {
                        if holds(kept@, kept@.len() as int, x) {
                            let k = choose|k: int| 0 <= k < kept@.len() && #[trigger] kept@[k]@ == x;
                            if k < before.len() {
                                assert(before[k]@ == x);
                            }
                        }
                        if holds(before, before.len() as int, x) {
                            let k = choose|k: int| 0 <= k < before.len() && #[trigger] before[k]@ == x;
                            assert(kept@[k]@ == x);
                        }
                        if x == y {
                            assert(kept@[before.len() as int]@ == x);
                        }
                    }
                }
            }
            i = i + 1;
        }
        let ghost old_items = self.items@;
        self.items = kept;
        proof {
            assert forall|x: Seq<char>| #[trigger] self@.contains(x) <==> old(self)@.remove(p@).contains(x) by {
                if old(self)@.contains(x) {
                    let k = choose|k: int| 0 <= k < old_items.len() && #[trigger] old_items[k]@ == x;
                    assert(holds(old_items, old_items.len() as int, x));
                }
                if holds(old_items, old_items.len() as int, x) {
                    let k = choose|k: int| 0 <= k < old_items.len() && #[trigger] old_items[k]@ == x;
                    assert(old(self)@.contains(x));
                }
                if self@.contains(x) {
                    let k = choose|k: int| 0 <= k < self.items@.len() && #[trigger] self.items@[k]@ == x;
                    assert(holds(self.items@, self.items@.len() as int, x));
                }
                if holds(self.items@, self.items@.len() as int, x) {
                    let k = choose|k: int| 0 <= k < self.items@.len() && #[trigger] self.items@[k]@ == x;
                    assert(self@.contains(x));
                }
            }
            assert(self@ =~= old(self)@.remove(p@));
        }
    }
}

pub(crate) proof fn lemma_holds_step(v: Seq<String>, i: int)
    requires
        0 <= i < v.len(),
    ensures
        forall|x: Seq<char>| #[trigger] holds(v, i + 1, x) <==> (holds(v, i, x) || x == v[i]@),
{
    assert forall|x: Seq<char>| #[trigger] holds(v, i + 1, x) <==> (holds(v, i, x) || x == v[i]@) by {
        if holds(v, i + 1, x) {
            let k = choose|k: int| 0 <= k < i + 1 && #[trigger] v[k]@ == x;
            if k < i {
                assert(holds(v, i, x));
            }
        }
        if holds(v, i, x) {
            let k = choose|k: int| 0 <= k < i && #[trigger] v[k]@ == x;
            assert(v[k]@ == x);
        }
        if x == v[i]@ {
            assert(v[i]@ == x);
        }
    }
}

proof fn lemma_holds_all(s: PathSet)
    ensures
        forall|x: Seq<char>| #[trigger] s@.contains(x) <==> holds(s.items@, s.items@.len() as int, x),
{
    assert forall|x: Seq<char>| #[trigger] s@.contains(x) <==> holds(s.items@, s.items@.len() as int, x) by {
        if s@.contains(x) {
            let k = choose|k: int| 0 <= k < s.items@.len() && s.items@[k]@ == x;
            assert(holds(s.items@, s.items@.len() as int, x));
        }
        if holds(s.items@, s.items@.len() as int, x) {
            let k = choose|k: int| 0 <= k < s.items@.len() && #[trigger] s.items@[k]@ == x;
            assert(s@.contains(x));
        }
    }
}

/// Whether `a` and `b` hold the same characters.
pub fn same_text(a: &str, b: &str) -> (r: bool)
    ensures
        r == (a@ == b@),
{
    let n = a.unicode_len();
    if n != b.unicode_len() {
        return false;
    }
    let mut i: usize = 0;
    while i < n
        invariant
            n == a@.len() == b@.len(),
            i <= n,
            forall|k: int| 0 <= k < i ==> a@[k] == b@[k],
        decreases n - i,
    {
        if a.get_char(i) != b.get_char(i) {
            return false;
        }
        i = i + 1;
    }
    assert(a@ =~= b@);
    true
}

/// Some of the first `n` strings of `v` reads `x`.
pub open spec fn holds(v: Seq<String>, n: int, x: Seq<char>) -> bool {
    exists|k: int| 0 <= k < n && #[trigger] v[k]@ == x
}

} // verus!
