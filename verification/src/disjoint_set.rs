use vstd::prelude::*;

verus! {

/// A universe of `n` elements, the indices `0` to `n - 1`, distributed
/// among a family of disjoint sets. Each set is represented by one of
/// its elements. The ghost field `rep` assigns to every element the
/// representative of its set, and the ghost field `depth` orders each
/// parent chain so that every walk towards a root terminates.
pub struct DisjointSet {
    parent: Vec<usize>,
    rank: Vec<usize>,
    rep: Ghost<Seq<int>>,
    depth: Ghost<Seq<nat>>,
}

impl DisjointSet {
    /// Number of elements in the universe.
    pub closed spec fn spec_len(self) -> int {
        self.parent@.len() as int
    }

    /// The universe is held in a vector, so its size fits the machine
    /// word: callers may compare representatives as `usize` values.
    pub proof fn lemma_len_bound(&self)
        ensures
            self.spec_len() <= usize::MAX,
    {
        broadcast use vstd::std_specs::vec::axiom_spec_len;

        assert(vstd::std_specs::vec::spec_vec_len(&self.parent) == self.parent@.len());
    }

    /// Representative of element `i`, as tracked by the ghost model.
    pub closed spec fn spec_rep(self, i: int) -> int {
        self.rep@[i]
    }

    /// Two elements lie in the same disjoint set exactly when their
    /// representatives coincide.
    pub open spec fn same_set(self, x: int, y: int) -> bool {
        self.spec_rep(x) == self.spec_rep(y)
    }

    /// Well-formedness: parents stay in range, the ghost representative
    /// is constant along parent chains and is a fixed point, and the
    /// ghost depth strictly decreases towards each root.
    pub closed spec fn wf(self) -> bool {
        let n = self.parent@.len() as int;
        &&& self.rank@.len() == n
        &&& self.rep@.len() == n
        &&& self.depth@.len() == n
        &&& (forall|i: int| 0 <= i < n ==> #[trigger] self.parent@[i] < n)
        &&& (forall|i: int| 0 <= i < n ==> 0 <= #[trigger] self.rep@[i] < n)
        &&& (forall|i: int|
            0 <= i < n ==> #[trigger] self.rep@[i] == self.rep@[self.parent@[i] as int])
        &&& (forall|i: int|
            0 <= i < n ==> self.parent@[#[trigger] self.rep@[i]] == self.rep@[i])
        &&& (forall|i: int|
            0 <= i < n && #[trigger] self.parent@[i] == i ==> self.rep@[i] == i)
        &&& (forall|i: int|
            0 <= i < n && #[trigger] self.parent@[i] != i ==> self.depth@[self.parent@[i] as int] < self.depth@[i])
    }

    /// Every element is its own representative initially.
    pub open spec fn all_singletons(self) -> bool {
        forall|i: int| 0 <= i < self.spec_len() ==> self.spec_rep(i) == i
    }

    /// Creates a `DisjointSet` with `num_elements` elements, each one
    /// forming a singleton disjoint set.
    pub fn new(num_elements: usize) -> (r: Self)
        ensures
            r.wf(),
            r.spec_len() == num_elements,
            r.all_singletons(),
    {
        let mut parent: Vec<usize> = Vec::new();
        let mut rank: Vec<usize> = Vec::new();
        let mut e: usize = 0;
        while e < num_elements
            invariant
                e <= num_elements,
                parent@.len() == e,
                rank@.len() == e,
                forall|i: int| 0 <= i < e ==> #[trigger] parent@[i] == i,
                forall|i: int| 0 <= i < e ==> #[trigger] rank@[i] == 0,
            decreases num_elements - e,
        {
            parent.push(e);
            rank.push(0);
            e = e + 1;
        }
        let rep = Ghost(Seq::new(num_elements as nat, |i: int| i));
        let depth = Ghost(Seq::new(num_elements as nat, |i: int| 0nat));
        Self { parent, rank, rep, depth }
    }

    // determines whether element is valid for this DisjointSet
    fn valid(&self, element: usize) -> (r: bool)
        ensures
            r == (element < self.spec_len()),
    {
        element < self.parent.len()
    }

    /// Returns the representative of `element`, or `None` when `element`
    /// is out of range. Takes a mutable reference in order to apply path
    /// compression: afterwards every node on the find path points
    /// directly to the root. The partition itself does not change.
    pub fn representative(&mut self, element: usize) -> (r: Option<usize>)
        requires
            old(self).wf(),
        ensures
            final(self).wf(),
            final(self).spec_len() == old(self).spec_len(),
            forall|i: int|
                0 <= i < old(self).spec_len() ==> final(self).spec_rep(i) == old(
                    self,
                ).spec_rep(i),
            r == (if element < old(self).spec_len() {
                Some(old(self).spec_rep(element as int) as usize)
            } else {
                None::<usize>
            }),
    {
        if !self.valid(element) {
            return None;
        }
        let ghost n = self.parent@.len() as int;
        // first pass: walk to the root, recording the path
        let mut x = element;
        let mut path: Vec<usize> = Vec::new();
        while self.parent[x] != x
            invariant
                self.wf(),
                self == old(self),
                x < self.parent@.len(),
                n == self.parent@.len() as int,
                element < n,
                self.spec_rep(x as int) == self.spec_rep(element as int),
                forall|k: int|
                    0 <= k < path@.len() ==> #[trigger] path@[k] < n,
                forall|k: int|
                    0 <= k < path@.len() ==> self.depth@[x as int] < self.depth@[#[trigger] path@[k] as int],
                forall|k: int|
                    0 <= k < path@.len() ==> self.spec_rep(#[trigger] path@[k] as int)
                        == self.spec_rep(element as int),
            decreases self.depth@[x as int],
        {
            path.push(x);
            x = self.parent[x];
        }
        let root = x;
        proof {
            // a root is its own representative
            assert(self.spec_rep(root as int) == root as int);
        }
        // second pass: point every node on the path directly at the root
        let mut k: usize = 0;
        while k < path.len()
            invariant
                self.wf(),
                k <= path@.len(),
                n == self.parent@.len() as int,
                root < n,
                self.rep@ == old(self).rep@,
                self.depth@ == old(self).depth@,
                self.rank@ == old(self).rank@,
                self.parent@.len() == old(self).parent@.len(),
                self.parent@[root as int] == root,
                self.spec_rep(root as int) == root as int,
                forall|j: int|
                    0 <= j < path@.len() ==> #[trigger] path@[j] < n,
                forall|j: int|
                    0 <= j < path@.len() ==> self.depth@[root as int] < self.depth@[#[trigger] path@[j] as int],
                forall|j: int|
                    0 <= j < path@.len() ==> self.spec_rep(#[trigger] path@[j] as int)
                        == root as int,
            decreases path@.len() - k,
        {
            let node = path[k];
            self.parent[node] = root;
            k = k + 1;
        }
        Some(root)
    }

    /// Holds when `post` is `pre` with the two classes represented by
    /// `ra` and `rb` merged into one class represented by `c`, every
    /// other class untouched.
    pub open spec fn classes_merged(pre: Self, post: Self, ra: int, rb: int, c: int) -> bool {
        forall|i: int|
            0 <= i < pre.spec_len() ==> post.spec_rep(i) == (if pre.spec_rep(i) == ra
                || pre.spec_rep(i) == rb {
                c
            } else {
                pre.spec_rep(i)
            })
    }

    /// Turns the disjoint sets containing `element_a` and `element_b`
    /// into a single disjoint set, by rank. Fails exactly when one of
    /// the two elements is out of range, leaving the partition as it
    /// was. On success the merged class is represented by the old
    /// representative of one of the two arguments; all other classes
    /// are untouched.
    pub fn join(&mut self, element_a: usize, element_b: usize) -> (r: Result<
        (),
        &'static str,
    >)
        requires
            old(self).wf(),
        ensures
            final(self).wf(),
            final(self).spec_len() == old(self).spec_len(),
            r is Ok <==> (element_a < old(self).spec_len() && element_b < old(
                self,
            ).spec_len()),
            r is Err ==> forall|i: int|
                0 <= i < old(self).spec_len() ==> final(self).spec_rep(i) == old(
                    self,
                ).spec_rep(i),
            r is Ok ==> final(self).same_set(element_a as int, element_b as int),
            r is Ok ==> {
                let ra = old(self).spec_rep(element_a as int);
                let rb = old(self).spec_rep(element_b as int);
                let c = final(self).spec_rep(element_a as int);
                &&& (c == ra || c == rb)
                &&& Self::classes_merged(*old(self), *final(self), ra, rb, c)
            },
    {
        if !self.valid(element_a) || !self.valid(element_b) {
            return Err("DisjointSet: attempt to join invalid elements");
        }
        let ghost n = self.parent@.len() as int;
        let rep_a = self.representative(element_a).unwrap();
        let rep_b = self.representative(element_b).unwrap();
        proof {
            assert(self.spec_rep(rep_a as int) == rep_a as int);
            assert(self.spec_rep(rep_b as int) == rep_b as int);
        }
        if rep_a == rep_b {
            return Ok(());
        }
        // lower rank representative becomes represented by the higher
        // rank representative; on a tie the second one keeps representing
        let (child, parent) = if self.rank[rep_a] < self.rank[rep_b] {
            (rep_a, rep_b)
        } else if self.rank[rep_a] > self.rank[rep_b] {
            (rep_b, rep_a)
        } else {
            if self.rank[rep_b] < usize::MAX {
                self.rank[rep_b] = self.rank[rep_b] + 1;
            }
            (rep_a, rep_b)
        };
        let ghost pre = *self;
        self.parent[child] = parent;
        proof {
            let shift = pre.depth@[parent as int] + 1;
            self.rep = Ghost(
                Seq::new(n as nat, |i: int|
                    if pre.rep@[i] == child as int {
                        parent as int
                    } else {
                        pre.rep@[i]
                    }),
            );
            self.depth = Ghost(
                Seq::new(n as nat, |i: int|
                    if pre.rep@[i] == child as int {
                        (pre.depth@[i] + shift) as nat
                    } else {
                        pre.depth@[i]
                    }),
            );
            assert(self.wf()) by {
                assert forall|i: int|
                    0 <= i < n && #[trigger] self.parent@[i] != i implies self.depth@[self.parent@[i] as int] < self.depth@[i] by {
                    if i == child as int {
                        assert(pre.rep@[i] == child as int);
                        assert(pre.rep@[parent as int] == parent as int);
                    } else {
                        assert(self.parent@[i] == pre.parent@[i]);
                        assert(pre.rep@[pre.parent@[i] as int] == pre.rep@[i]);
                    }
                }
                assert forall|i: int|
                    0 <= i < n implies #[trigger] self.rep@[i] == self.rep@[self.parent@[i] as int] by {
                    if i == child as int {
                        assert(pre.rep@[parent as int] == parent as int);
                    } else {
                        assert(self.parent@[i] == pre.parent@[i]);
                        assert(pre.rep@[pre.parent@[i] as int] == pre.rep@[i]);
                    }
                }
            }
        }
        Ok(())
    }

    /// Number of disjoint sets currently in the family.
    pub fn num_sets(&self) -> (r: usize)
        requires
            self.wf(),
        ensures
            r == self.spec_num_sets(),
    {
        let ghost n = self.parent@.len() as int;
        let mut count: usize = 0;
        let mut i: usize = 0;
        let ghost mut roots = Set::<int>::empty();
        proof {
            assert(roots =~= Set::new(|j: int| 0 <= j < 0 && self.spec_rep(j) == j));
        }
        while i < self.parent.len()
            invariant
                self.wf(),
                i <= self.parent@.len(),
                n == self.parent@.len() as int,
                roots == Set::new(|j: int| 0 <= j < i && self.spec_rep(j) == j),
                roots.finite(),
                count == roots.len(),
                count <= i,
            decreases self.parent@.len() - i,
        {
            if self.parent[i] == i {
                proof {
                    assert(self.spec_rep(i as int) == i as int);
                    let roots2 = Set::new(
                        |j: int| 0 <= j < i + 1 && self.spec_rep(j) == j,
                    );
                    assert(roots2 =~= roots.insert(i as int));
                    assert(!roots.contains(i as int));
                    roots = roots2;
                }
                count = count + 1;
            } else {
                proof {
                    assert(self.spec_rep(i as int) != i as int) by {
                        if self.spec_rep(i as int) == i as int {
                            assert(self.parent@[self.spec_rep(i as int)] == self.spec_rep(
                                i as int,
                            ));
                        }
                    }
                    let roots2 = Set::new(
                        |j: int| 0 <= j < i + 1 && self.spec_rep(j) == j,
                    );
                    assert(roots2 =~= roots);
                    roots = roots2;
                }
            }
            i = i + 1;
        }
        proof {
            assert(roots =~= Set::new(
                |j: int| 0 <= j < self.spec_len() && self.spec_rep(j) == j,
            ));
        }
        count
    }

    /// The set of elements that represent themselves: one per disjoint set.
    pub open spec fn roots(self) -> Set<int> {
        Set::new(|j: int| 0 <= j < self.spec_len() && self.spec_rep(j) == j)
    }

    /// Lying in the same disjoint set is an equivalence: reflexive,
    /// symmetric and transitive. Together with `join`'s contract, two
    /// elements share a representative exactly when some chain of joins
    /// connects them.
    pub proof fn lemma_same_set_equivalence(self, x: int, y: int, z: int)
        ensures
            self.same_set(x, x),
            self.same_set(x, y) == self.same_set(y, x),
            self.same_set(x, y) && self.same_set(y, z) ==> self.same_set(x, z),
    {
    }

    /// The number of disjoint sets: the count of elements that represent
    /// themselves.
    pub open spec fn spec_num_sets(self) -> int {
        self.roots().len() as int
    }

    /// A representative lies in range and represents itself.
    pub proof fn lemma_rep_props(self, i: int)
        requires
            self.wf(),
            0 <= i < self.spec_len(),
        ensures
            0 <= self.spec_rep(i) < self.spec_len(),
            self.spec_rep(self.spec_rep(i)) == self.spec_rep(i),
            self.roots().contains(self.spec_rep(i)),
    {
        assert(self.parent@[self.spec_rep(i)] == self.spec_rep(i));
    }

    /// The set of roots is finite and no larger than the universe.
    pub proof fn lemma_roots_finite(self)
        requires
            self.wf(),
        ensures
            self.roots().finite(),
            self.roots().len() <= self.spec_len(),
    {
        let range = vstd::set_lib::set_int_range(0, self.spec_len());
        vstd::set_lib::lemma_int_range(0, self.spec_len());
        vstd::set_lib::lemma_len_subset(self.roots(), range);
    }

    /// Merging two distinct classes lowers the number of disjoint sets
    /// by exactly one.
    pub proof fn lemma_merge_num_sets(pre: Self, post: Self, ra: int, rb: int, c: int)
        requires
            pre.wf(),
            post.wf(),
            post.spec_len() == pre.spec_len(),
            0 <= ra < pre.spec_len(),
            0 <= rb < pre.spec_len(),
            ra != rb,
            pre.spec_rep(ra) == ra,
            pre.spec_rep(rb) == rb,
            c == ra || c == rb,
            Self::classes_merged(pre, post, ra, rb, c),
        ensures
            post.spec_num_sets() == pre.spec_num_sets() - 1,
    {
        let gone = if c == ra {
            rb
        } else {
            ra
        };
        assert(post.roots() =~= pre.roots().remove(gone));
        pre.lemma_roots_finite();
        assert(pre.roots().contains(gone));
    }

    /// When every pair of elements lies in the same set, there is
    /// exactly one disjoint set.
    pub proof fn lemma_one_class(self)
        requires
            self.wf(),
            self.spec_len() >= 1,
            forall|x: int, y: int|
                0 <= x < self.spec_len() && 0 <= y < self.spec_len() ==> self.same_set(
                    x,
                    y,
                ),
        ensures
            self.spec_num_sets() == 1,
    {
        self.lemma_rep_props(0);
        let r0 = self.spec_rep(0);
        assert forall|j: int| self.roots().contains(j) implies j == r0 by {
            assert(self.same_set(j, 0));
        }
        assert(self.roots() =~= Set::empty().insert(r0));
    }

    /// When there is exactly one disjoint set, every pair of elements
    /// lies in the same set.
    pub proof fn lemma_one_class_converse(self)
        requires
            self.wf(),
            self.spec_num_sets() == 1,
        ensures
            forall|x: int, y: int|
                0 <= x < self.spec_len() && 0 <= y < self.spec_len() ==> self.same_set(
                    x,
                    y,
                ),
    {
        self.lemma_roots_finite();
        assert forall|x: int, y: int|
            0 <= x < self.spec_len() && 0 <= y < self.spec_len() implies self.same_set(
            x,
            y,
        ) by {
            self.lemma_rep_props(x);
            self.lemma_rep_props(y);
            let rx = self.spec_rep(x);
            let ry = self.spec_rep(y);
            if rx != ry {
                let smaller = self.roots().remove(rx);
                assert(smaller.contains(ry));
                assert(smaller.len() == 0);
                assert(smaller.finite());
                smaller.lemma_len0_is_empty();
            }
        }
    }
}

} // verus!
