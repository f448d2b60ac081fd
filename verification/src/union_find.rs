//! Disjoint sets over the ids `0..n`, with path compression and union by
//! size.

use crate::sums::{lemma_sum_equal, lemma_sum_two, lemma_sum_update, sum};
use vstd::prelude::*;

verus! {

/// What a [`UnionFind`] stands for: each id's leader and the size of each
/// id's class.
pub struct Partition {
    /// The leader of each id's class.
    pub leaders: Seq<usize>,
    /// The number of ids in each id's class.
    pub sizes: Seq<nat>,
}

impl Partition {
    /// The number of ids.
    pub open spec fn len(self) -> nat {
        self.leaders.len()
    }

    /// Leaders are ids, lead themselves, and a class has one size.
    pub open spec fn wf(self) -> bool {
        &&& self.sizes.len() == self.leaders.len()
        &&& forall|i: int|
            0 <= i < self.leaders.len() ==> {
                &&& (#[trigger] self.leaders[i]) < self.leaders.len()
                &&& self.leaders[self.leaders[i] as int] == self.leaders[i]
                &&& self.sizes[self.leaders[i] as int] == self.sizes[i]
            }
    }

    /// The partition of `n` ids in which every id is alone.
    pub open spec fn singletons(n: nat) -> Partition {
        Partition { leaders: Seq::new(n, |i: int| i as usize), sizes: Seq::new(n, |i: int| 1nat) }
    }

    /// Whether `a` and `b` are in one class.
    pub open spec fn same(self, a: int, b: int) -> bool {
        self.leaders[a] == self.leaders[b]
    }

    /// The leader that the classes of `a` and `b` get when they are joined:
    /// that of the larger class, and that of `a` when they are equal in size.
    pub open spec fn winner(self, a: int, b: int) -> usize {
        if self.sizes[a] < self.sizes[b] {
            self.leaders[b]
        } else {
            self.leaders[a]
        }
    }

    /// The leader that is replaced when the classes of `a` and `b` are
    /// joined.
    pub open spec fn loser(self, a: int, b: int) -> usize {
        if self.sizes[a] < self.sizes[b] {
            self.leaders[a]
        } else {
            self.leaders[b]
        }
    }

    /// The partition after the classes of `a` and `b` are joined. Joining a
    /// class with itself changes nothing.
    pub open spec fn merge(self, a: int, b: int) -> Partition {
        if self.same(a, b) {
            self
        } else {
            let w = self.winner(a, b);
            let l = self.loser(a, b);
            Partition {
                leaders: Seq::new(
                    self.leaders.len(),
                    |i: int|
                        if self.leaders[i] == l {
                            w
                        } else {
                            self.leaders[i]
                        },
                ),
                sizes: Seq::new(
                    self.leaders.len(),
                    |i: int|
                        if self.leaders[i] == l || self.leaders[i] == w {
                            self.sizes[a] + self.sizes[b]
                        } else {
                            self.sizes[i]
                        },
                ),
            }
        }
    }

    /// The partition after the two ends of every edge are joined, in order.
    pub open spec fn merge_all(self, edges: Seq<(usize, usize)>) -> Partition
        decreases edges.len(),
    {
        if edges.len() == 0 {
            self
        } else {
            self.merge_all(edges.drop_last()).merge(edges.last().0 as int, edges.last().1 as int)
        }
    }

    /// Whether both ends of every edge are ids of a partition of `n` ids.
    pub open spec fn edges_within(edges: Seq<(usize, usize)>, n: nat) -> bool {
        forall|i: int| 0 <= i < edges.len() ==> (#[trigger] edges[i]).0 < n && edges[i].1 < n
    }

    /// Joining keeps a partition well formed and joins the two classes.
    pub proof fn lemma_merge(self, a: int, b: int)
        requires
            self.wf(),
            0 <= a < self.len(),
            0 <= b < self.len(),
        ensures
            self.merge(a, b).wf(),
            self.merge(a, b).len() == self.len(),
            self.merge(a, b).same(a, b),
    {
    }

    /// Ids that are in one class stay in one class when two classes are
    /// joined.
    pub proof fn lemma_merge_keeps(self, a: int, b: int, p: int, q: int)
        requires
            self.wf(),
            0 <= a < self.len(),
            0 <= b < self.len(),
            0 <= p < self.len(),
            0 <= q < self.len(),
            self.same(p, q),
        ensures
            self.merge(a, b).same(p, q),
    {
    }

    /// After two classes are joined, two ids are in one class exactly if
    /// they were before or if the join connects them.
    pub proof fn lemma_merge_exact(self, a: int, b: int, p: int, q: int)
        requires
            self.wf(),
            0 <= a < self.len(),
            0 <= b < self.len(),
            0 <= p < self.len(),
            0 <= q < self.len(),
        ensures
            self.merge(a, b).same(p, q) <==> (self.same(p, q) || (self.same(p, a) && self.same(
                b,
                q,
            )) || (self.same(p, b) && self.same(a, q))),
    {
    }

    /// Joining along a list of edges keeps a partition well formed.
    pub proof fn lemma_merge_all(self, edges: Seq<(usize, usize)>)
        requires
            self.wf(),
            Self::edges_within(edges, self.len()),
        ensures
            self.merge_all(edges).wf(),
            self.merge_all(edges).len() == self.len(),
        decreases edges.len(),
    {
        if edges.len() > 0 {
            let init = edges.drop_last();
            self.lemma_merge_all(init);
            self.merge_all(init).lemma_merge(edges.last().0 as int, edges.last().1 as int);
        }
    }

    /// Once two ids have been joined they stay in one class, whatever is
    /// joined afterwards.
    pub proof fn lemma_joined_stays(self, a: int, b: int, later: Seq<(usize, usize)>)
        requires
            self.wf(),
            0 <= a < self.len(),
            0 <= b < self.len(),
            Self::edges_within(later, self.len()),
        ensures
            self.merge(a, b).merge_all(later).same(a, b),
        decreases later.len(),
    {
        self.lemma_merge(a, b);
        if later.len() > 0 {
            let init = later.drop_last();
            self.lemma_joined_stays(a, b, init);
            self.merge(a, b).lemma_merge_all(init);
            self.merge(a, b).merge_all(init).lemma_merge_keeps(
                later.last().0 as int,
                later.last().1 as int,
                a,
                b,
            );
        }
    }
}

/// Disjoint sets over the ids `0..n`.
pub struct UnionFind {
    n: usize,
    parent: Vec<usize>,
    size: Vec<usize>,
    leaders: Ghost<Seq<usize>>,
    depth: Ghost<Seq<nat>>,
}

impl View for UnionFind {
    type V = Partition;

    closed spec fn view(&self) -> Partition {
        Partition {
            leaders: self.leaders@,
            sizes: Seq::new(
                self.leaders@.len(),
                |i: int| self.size@[self.leaders@[i] as int] as nat,
            ),
        }
    }
}

impl UnionFind {
    spec fn weights(&self) -> Seq<int> {
        Seq::new(
            self.n as nat,
            |i: int|
                if self.parent@[i] == i {
                    self.size@[i] as int
                } else {
                    0
                },
        )
    }

    /// The structure is consistent: parents lead to the leaders and the
    /// sizes of the classes add up to the number of ids.
    pub closed spec fn wf(&self) -> bool {
        &&& self.parent@.len() == self.n
        &&& self.size@.len() == self.n
        &&& self.leaders@.len() == self.n
        &&& self.depth@.len() == self.n
        &&& forall|i: int|
            0 <= i < self.n ==> {
                &&& (#[trigger] self.parent@[i]) < self.n
                &&& self.leaders@[self.parent@[i] as int] == self.leaders@[i]
                &&& (self.parent@[i] == i <==> self.leaders@[i] == i)
                &&& (self.parent@[i] == i <==> self.depth@[i] == 0)
                &&& (self.parent@[i] != i ==> self.depth@[self.parent@[i] as int] < self.depth@[i])
            }
        &&& forall|i: int|
            0 <= i < self.n ==> {
                &&& (#[trigger] self.leaders@[i]) < self.n
                &&& self.leaders@[self.leaders@[i] as int] == self.leaders@[i]
            }
        &&& sum(self.weights()) == self.n
    }

    /// A well-formed structure stands for a well-formed partition.
    pub proof fn lemma_view_wf(&self)
        requires
            self.wf(),
        ensures
            self@.wf(),
    {
    }

    /// `n` ids, each alone in its class.
    pub fn new(n: usize) -> (uf: Self)
        ensures
            uf.wf(),
            uf@ == Partition::singletons(n as nat),
    {
        let mut parent: Vec<usize> = Vec::new();
        let mut size: Vec<usize> = Vec::new();
        let mut i: usize = 0;
        while i < n
            invariant
                i <= n,
                parent@.len() == i,
                size@.len() == i,
                forall|j: int| 0 <= j < i ==> parent@[j] == j && size@[j] == 1,
            decreases n - i,
        {
            parent.push(i);
            size.push(1);
            i += 1;
        }
        let uf = UnionFind {
            n,
            parent,
            size,
            leaders: Ghost(Seq::new(n as nat, |i: int| i as usize)),
            depth: Ghost(Seq::new(n as nat, |i: int| 0nat)),
        };
        proof {
            let ones = Seq::new(n as nat, |i: int| 1int);
            assert(uf.weights() =~= ones);
            crate::sums::lemma_sum_bounds(ones, 1, 1);
            assert(uf@.leaders =~= Partition::singletons(n as nat).leaders);
            assert(uf@.sizes =~= Partition::singletons(n as nat).sizes);
        }
        uf
    }

    /// The number of ids.
    pub fn len(&self) -> (n: usize)
        requires
            self.wf(),
        ensures
            n == self@.len(),
    {
        self.n
    }

    /// The leader of the class of `a`. The classes stay as they are; paths to
    /// the leader are shortened on the way.
    pub fn leader(&mut self, a: usize) -> (r: usize)
        requires
            old(self).wf(),
            a < old(self)@.len(),
        ensures
            final(self).wf(),
            final(self)@ == old(self)@,
            r == old(self)@.leaders[a as int],
            r < old(self)@.len(),
    {
        let mut root: usize = a;
        while self.parent[root] != root
            invariant
                self.wf(),
                *self == *old(self),
                root < self.n,
                a < self.n,
                self.leaders@[root as int] == self.leaders@[a as int],
            decreases self.depth@[root as int],
        {
            root = self.parent[root];
        }
        let mut cur: usize = a;
        while self.parent[cur] != cur
            invariant
                self.wf(),
                self.n == old(self).n,
                self.size == old(self).size,
                self.leaders == old(self).leaders,
                self.depth == old(self).depth,
                cur < self.n,
                root < self.n,
                a < self.n,
                self.parent@[root as int] == root,
                self.leaders@[cur as int] == root,
                self.leaders@[a as int] == root,
            decreases self.depth@[cur as int],
        {
            let next: usize = self.parent[cur];
            let ghost before = self.weights();
            self.parent[cur] = root;
            proof {
                lemma_sum_equal(before, self.weights());
            }
            cur = next;
        }
        proof {
            assert(self@.sizes =~= old(self)@.sizes);
        }
        root
    }

    /// Whether `a` and `b` are in one class. The classes stay as they are.
    pub fn same(&mut self, a: usize, b: usize) -> (r: bool)
        requires
            old(self).wf(),
            a < old(self)@.len(),
            b < old(self)@.len(),
        ensures
            final(self).wf(),
            final(self)@ == old(self)@,
            r == old(self)@.same(a as int, b as int),
    {
        let x: usize = self.leader(a);
        let y: usize = self.leader(b);
        x == y
    }

    /// Joins the classes of `a` and `b` and returns the leader of the joined
    /// class: the leader of the larger of the two, or that of `a` when they
    /// are equal in size. Ids that were in one class stay in one class.
    pub fn merge(&mut self, a: usize, b: usize) -> (r: usize)
        requires
            old(self).wf(),
            a < old(self)@.len(),
            b < old(self)@.len(),
        ensures
            final(self).wf(),
            final(self)@ == old(self)@.merge(a as int, b as int),
            r == final(self)@.leaders[a as int],
            final(self)@.same(a as int, b as int),
            forall|p: int, q: int|
                0 <= p < old(self)@.len() && 0 <= q < old(self)@.len() && old(self)@.same(p, q)
                    ==> final(self)@.same(p, q),
    {
        let x: usize = self.leader(a);
        let y: usize = self.leader(b);
        if x == y {
            return x;
        }
        let (w, l): (usize, usize) = if self.size[x] < self.size[y] {
            (y, x)
        } else {
            (x, y)
        };
        let ghost before = *self;
        proof {
            assert forall|k: int| 0 <= k < before.weights().len() implies 0
                <= #[trigger] before.weights()[k] by {}
            lemma_sum_two(before.weights(), w as int, l as int);
        }
        let total: usize = self.size[w] + self.size[l];
        self.size[w] = total;
        self.parent[l] = w;
        proof {
            let leaders = Seq::new(
                self.n as nat,
                |i: int|
                    if before.leaders@[i] == l {
                        w
                    } else {
                        before.leaders@[i]
                    },
            );
            let depth = Seq::new(
                self.n as nat,
                |i: int|
                    if before.leaders@[i] == l {
                        before.depth@[i] + 1
                    } else {
                        before.depth@[i]
                    },
            );
            self.leaders = Ghost(leaders);
            self.depth = Ghost(depth);
            lemma_sum_update(before.weights(), w as int, total as int);
            lemma_sum_update(before.weights().update(w as int, total as int), l as int, 0);
            assert(self.weights() =~= before.weights().update(w as int, total as int).update(
                l as int,
                0,
            ));
            assert(self@.leaders =~= before@.merge(a as int, b as int).leaders);
            assert(self@.sizes =~= before@.merge(a as int, b as int).sizes);
        }
        w
    }
}

} // verus!
