use vstd::prelude::*;

use crate::traits::pair_view;
use crate::traits::pairs_view;

verus! {

/// A finite set of vertex pairs, backed by a duplicate-free vector.
/// The view is the set of pairs as mathematical integers. Pairs are
/// stored as given: callers that want unordered edges normalise before
/// calling.
pub struct EdgeSet {
    items: Vec<(usize, usize)>,
}

impl EdgeSet {
    /// The set of stored pairs.
    pub closed spec fn view_set(self) -> Set<(int, int)> {
        pairs_view(self.items@).to_set()
    }

    pub closed spec fn wf(self) -> bool {
        forall|k1: int, k2: int|
            0 <= k1 < k2 < self.items@.len() ==> pair_view(#[trigger] self.items@[k1])
                != pair_view(#[trigger] self.items@[k2])
    }

    /// The view of a well-formed set is finite and no larger than the
    /// backing vector.
    pub proof fn lemma_finite(self)
        ensures
            self.view_set().finite(),
    {
        vstd::seq_lib::seq_to_set_is_finite(pairs_view(self.items@));
    }

    /// Creates an empty set.
    pub fn new() -> (r: Self)
        ensures
            r.wf(),
            r.view_set() == Set::<(int, int)>::empty(),
    {
        let r = Self { items: Vec::new() };
        proof {
            assert(pairs_view(r.items@) =~= Seq::empty());
            assert(r.view_set() =~= Set::empty());
        }
        r
    }

    /// Number of pairs in the set.
    pub fn len(&self) -> (r: usize)
        requires
            self.wf(),
        ensures
            r == self.view_set().len(),
    {
        proof {
            let mapped = pairs_view(self.items@);
            assert(mapped.no_duplicates());
            mapped.unique_seq_to_set();
        }
        self.items.len()
    }

    /// Determines whether the pair `(a, b)` is in the set.
    pub fn contains(&self, a: usize, b: usize) -> (r: bool)
        ensures
            r == self.view_set().contains((a as int, b as int)),
    {
        let mut k: usize = 0;
        let n = self.items.len();
        while k < n
            invariant
                k <= n,
                n == self.items@.len(),
                forall|m: int|
                    0 <= m < k ==> pair_view(#[trigger] self.items@[m]) != (
                    a as int,
                    b as int,
                ),
            decreases n - k,
        {
            let e = self.items[k];
            if e.0 == a && e.1 == b {
                proof {
                    assert(pairs_view(self.items@)[k as int] == (a as int, b as int));
                    assert(pairs_view(self.items@).contains((a as int, b as int)));
                }
                return true;
            }
            k = k + 1;
        }
        proof {
            if self.view_set().contains((a as int, b as int)) {
                let m = choose|m: int|
                    0 <= m < pairs_view(self.items@).len() && pairs_view(self.items@)[m]
                        == (a as int, b as int);
                assert(pair_view(self.items@[m]) == (a as int, b as int));
            }
        }
        false
    }

    /// Inserts the pair `(a, b)`; nothing changes when it is already
    /// present.
    pub fn insert(&mut self, a: usize, b: usize)
        requires
            old(self).wf(),
        ensures
            final(self).wf(),
            final(self).view_set() == old(self).view_set().insert((a as int, b as int)),
    {
        if !self.contains(a, b) {
            let ghost prev = self.items@;
            self.items.push((a, b));
            proof {
                assert(pairs_view(self.items@) =~= pairs_view(prev).push(
                    (a as int, b as int),
                ));
                pairs_view(prev).lemma_push_to_set_commute((a as int, b as int));
                assert forall|k1: int, k2: int|
                    0 <= k1 < k2 < self.items@.len() implies pair_view(
                    #[trigger] self.items@[k1],
                ) != pair_view(#[trigger] self.items@[k2]) by {
                    if k2 == self.items@.len() - 1 {
                        assert(self.items@[k1] == prev[k1]);
                        assert(pairs_view(prev)[k1] == pair_view(prev[k1]));
                        assert(!pairs_view(prev).contains((a as int, b as int)))
                            by {
                            if pairs_view(prev).contains((a as int, b as int)) {
                                assert(old(self).view_set().contains(
                                    (a as int, b as int),
                                ));
                            }
                        }
                        if pair_view(self.items@[k1]) == (a as int, b as int) {
                            assert(pairs_view(prev)[k1] == (a as int, b as int));
                            assert(pairs_view(prev).contains((a as int, b as int)));
                        }
                    }
                }
            }
        } else {
            proof {
                assert(final(self).view_set() =~= old(self).view_set().insert((
                    a as int,
                    b as int,
                )));
            }
        }
    }

    /// Removes the pair `(a, b)`; nothing changes when it is absent.
    pub fn remove(&mut self, a: usize, b: usize)
        requires
            old(self).wf(),
        ensures
            final(self).wf(),
            final(self).view_set() == old(self).view_set().remove((a as int, b as int)),
    {
        let n = self.items.len();
        let mut k: usize = 0;
        let mut idx: usize = n;
        while k < n
            invariant
                self == old(self),
                self.wf(),
                k <= n,
                n == self.items@.len(),
                idx <= n,
                idx == n ==> (forall|m: int|
                    0 <= m < k ==> pair_view(#[trigger] self.items@[m]) != (
                    a as int,
                    b as int,
                )),
                idx < n ==> pair_view(self.items@[idx as int]) == (a as int, b as int),
            decreases n - k,
        {
            let e = self.items[k];
            if idx == n && e.0 == a && e.1 == b {
                idx = k;
            }
            k = k + 1;
        }
        if idx == n {
            proof {
                if self.view_set().contains((a as int, b as int)) {
                    let m = choose|m: int|
                        0 <= m < pairs_view(self.items@).len() && pairs_view(
                            self.items@,
                        )[m] == (a as int, b as int);
                    assert(pair_view(self.items@[m]) == (a as int, b as int));
                }
                assert(final(self).view_set() =~= old(self).view_set().remove((
                    a as int,
                    b as int,
                )));
            }
            return ;
        }
        let ghost prev = self.items@;
        self.items.remove(idx);
        proof {
            prev.remove_ensures(idx as int);
            let gone = (a as int, b as int);
            assert forall|o: int|
                0 <= o < prev.len() && o != idx as int implies pair_view(
                #[trigger] prev[o],
            ) != gone by {
                if o < idx as int {
                    assert(pair_view(prev[o]) != pair_view(prev[idx as int]));
                } else {
                    assert(pair_view(prev[idx as int]) != pair_view(prev[o]));
                }
            }
            assert forall|k1: int, k2: int|
                0 <= k1 < k2 < self.items@.len() implies pair_view(
                #[trigger] self.items@[k1],
            ) != pair_view(#[trigger] self.items@[k2]) by {
                let o1 = if k1 < idx as int {
                    k1
                } else {
                    k1 + 1
                };
                let o2 = if k2 < idx as int {
                    k2
                } else {
                    k2 + 1
                };
                assert(self.items@[k1] == prev[o1]);
                assert(self.items@[k2] == prev[o2]);
            }
            assert forall|e: (int, int)| #[trigger]
                final(self).view_set().contains(e) implies old(self).view_set().remove(
                gone,
            ).contains(e) by {
                let m = choose|m: int|
                    0 <= m < pairs_view(self.items@).len() && pairs_view(self.items@)[m]
                        == e;
                let o = if m < idx as int {
                    m
                } else {
                    m + 1
                };
                assert(self.items@[m] == prev[o]);
                assert(pairs_view(prev)[o] == e);
                assert(pairs_view(prev).contains(e));
                assert(pair_view(prev[o]) != gone);
            }
            assert forall|e: (int, int)|
                old(self).view_set().remove(gone).contains(e) implies #[trigger] final(self).view_set().contains(e) by {
                let m = choose|m: int|
                    0 <= m < pairs_view(prev).len() && pairs_view(prev)[m] == e;
                assert(pair_view(prev[m]) == e);
                assert(m != idx as int);
                if m < idx as int {
                    assert(pairs_view(self.items@)[m] == e);
                    assert(pairs_view(self.items@).contains(e));
                } else {
                    assert(self.items@[m - 1] == prev[m]);
                    assert(pairs_view(self.items@)[m - 1] == e);
                    assert(pairs_view(self.items@).contains(e));
                }
            }
            assert(final(self).view_set() =~= old(self).view_set().remove(gone));
        }
    }

    /// Returns the pairs of the set as a duplicate-free vector.
    pub fn to_vec(&self) -> (r: Vec<(usize, usize)>)
        requires
            self.wf(),
        ensures
            r@ == self.spec_items(),
            pairs_view(r@).to_set() == self.view_set(),
            r@.len() == self.view_set().len(),
            forall|k: int|
                0 <= k < r@.len() ==> self.view_set().contains(pair_view(
                    #[trigger] r@[k],
                )),
            forall|k1: int, k2: int|
                0 <= k1 < k2 < r@.len() ==> pair_view(#[trigger] r@[k1]) != pair_view(
                    #[trigger] r@[k2],
                ),
    {
        proof {
            let mapped = pairs_view(self.items@);
            assert(mapped.no_duplicates());
            mapped.unique_seq_to_set();
            assert forall|k: int| 0 <= k < self.items@.len()
                implies self.view_set().contains(pair_view(#[trigger] self.items@[k]))
                by {
                assert(mapped[k] == pair_view(self.items@[k]));
                assert(mapped.contains(mapped[k]));
            }
        }
        self.copy_items()
    }

    // copies the backing vector element by element
    fn copy_items(&self) -> (r: Vec<(usize, usize)>)
        ensures
            r@ == self.spec_items(),
    {
        let mut r: Vec<(usize, usize)> = Vec::new();
        let mut k: usize = 0;
        while k < self.items.len()
            invariant
                k <= self.items@.len(),
                r@.len() == k,
                forall|m: int| 0 <= m < k ==> #[trigger] r@[m] == self.items@[m],
            decreases self.items@.len() - k,
        {
            r.push(self.items[k]);
            k = k + 1;
        }
        proof {
            assert(r@ =~= self.items@);
        }
        r
    }

    /// The stored pairs, in storage order.
    pub closed spec fn spec_items(self) -> Seq<(usize, usize)> {
        self.items@
    }
}

impl Clone for EdgeSet {
    /// The copy has the same pairs.
    fn clone(&self) -> (r: Self)
        ensures
            r.spec_items() == self.spec_items(),
            r.view_set() == self.view_set(),
            r.wf() == self.wf(),
    {
        Self { items: self.copy_items() }
    }
}

} // verus!
