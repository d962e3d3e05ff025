//! Facts about the operations of a [`Forest`].

use vstd::prelude::*;
use vstd::assert_by_contradiction;
use vstd::set_lib::{lemma_int_range, lemma_len_subset, set_int_range};
use crate::forest::Forest;

verus! {

impl Forest {
    /// A walk from an identifier stays among the identifiers.
    pub proof fn lemma_ancestor_has(self, i: int, k: nat)
        requires
            self.closed_under_parent(),
            self.has(i),
        ensures
            self.has(self.ancestor(i, k)),
        decreases k,
    {
        if k > 0 {
            self.lemma_ancestor_has(i, (k - 1) as nat);
        }
    }

    /// A walk of `a + b` steps is a walk of `a` steps and then one of `b`.
    pub proof fn lemma_ancestor_add(self, i: int, a: nat, b: nat)
        ensures
            self.ancestor(i, a + b) == self.ancestor(self.ancestor(i, a), b),
        decreases b,
    {
        if b > 0 {
            self.lemma_ancestor_add(i, a, (b - 1) as nat);
        }
    }

    /// A walk from a root stays at the root.
    pub proof fn lemma_ancestor_of_root(self, r: int, k: nat)
        requires
            self.is_root(r),
        ensures
            self.ancestor(r, k) == r,
        decreases k,
    {
        if k > 0 {
            self.lemma_ancestor_of_root(r, (k - 1) as nat);
        }
    }

    /// Once the walk from `i` has reached a root it stays there.
    pub proof fn lemma_ancestor_past_root(self, i: int, k: nat, m: nat)
        requires
            self.is_root(self.ancestor(i, k)),
            k <= m,
        ensures
            self.ancestor(i, m) == self.ancestor(i, k),
    {
        self.lemma_ancestor_add(i, k, (m - k) as nat);
        self.lemma_ancestor_of_root(self.ancestor(i, k), (m - k) as nat);
    }

    /// A root is its own root.
    pub proof fn lemma_root_of_root(self, r: int)
        requires
            self.is_root(r),
        ensures
            self.root(r) == r,
    {
        self.lemma_ancestor_of_root(r, self.len());
    }

    /// Every identifier on the walk from `i` has the root of `i`.
    pub proof fn lemma_root_of_ancestor(self, i: int, k: nat)
        requires
            self.wf(),
            self.has(i),
        ensures
            self.has(self.ancestor(i, k)),
            self.root(self.ancestor(i, k)) == self.root(i),
    {
        self.lemma_ancestor_has(i, k);
        self.lemma_ancestor_add(i, k, self.len());
        assert(self.is_root(self.root(i)));
        self.lemma_ancestor_past_root(i, self.len(), k + self.len());
    }

    /// A walk that comes back to where it began began at a root.
    proof fn lemma_cycle_is_root(self, x: int, p: nat)
        requires
            self.wf(),
            self.has(x),
            p > 0,
            self.ancestor(x, p) == x,
        ensures
            self.is_root(x),
    {
        let s = self.lemma_cycle_repeats(x, p, self.len());
        assert(self.is_root(self.root(x)));
        self.lemma_ancestor_past_root(x, self.len(), s);
    }

    proof fn lemma_cycle_repeats(self, x: int, p: nat, t: nat) -> (s: nat)
        requires
            p > 0,
            self.ancestor(x, p) == x,
        ensures
            s >= t,
            self.ancestor(x, s) == x,
        decreases t,
    {
        if t == 0 {
            0
        } else {
            let s = self.lemma_cycle_repeats(x, p, (t - 1) as nat);
            self.lemma_ancestor_add(x, s, p);
            s + p
        }
    }

    /// The walk from any identifier reaches its root in fewer steps than
    /// there are identifiers.
    pub proof fn lemma_root_within_len(self, i: int)
        requires
            self.wf(),
            self.has(i),
        ensures
            self.ancestor(i, (self.len() - 1) as nat) == self.root(i),
    {
        let n = self.len();
        let last = (n - 1) as nat;
        assert_by_contradiction!(self.is_root(self.ancestor(i, last)), {
            // Otherwise the first `n` stops of the walk and the root are
            // `n + 1` different identifiers.
            let walk = Seq::new(n, |k: int| self.ancestor(i, k as nat)).push(self.root(i));
            assert forall|a: int, b: int| 0 <= a < b < walk.len() implies walk[a] != walk[b] by {
                if self.is_root(walk[a]) {
                    self.lemma_ancestor_past_root(i, a as nat, last);
                }
                if walk[a] == walk[b] && b < n {
                    self.lemma_ancestor_has(i, a as nat);
                    self.lemma_ancestor_add(i, a as nat, (b - a) as nat);
                    self.lemma_cycle_is_root(walk[a], (b - a) as nat);
                }
            }
            walk.unique_seq_to_set();
            lemma_int_range(0, n as int);
            assert forall|v: int| walk.to_set().contains(v) implies set_int_range(
                0,
                n as int,
            ).contains(v) by {
                let k = choose|k: int| 0 <= k < walk.len() && walk[k] == v;
                if k < n {
                    self.lemma_ancestor_has(i, k as nat);
                }
            }
            lemma_len_subset(walk.to_set(), set_int_range(0, n as int));
        });
        self.lemma_ancestor_past_root(i, last, n);
    }

    proof fn lemma_first_step(self, i: int)
        ensures
            self.ancestor(i, 1) == self.parents[i],
    {
        reveal_with_fuel(Forest::ancestor, 2);
    }

    proof fn lemma_add_point_ancestor(self, p: (nat, nat), i: int, k: nat)
        requires
            self.closed_under_parent(),
            self.has(i),
            !self.points.contains(p),
        ensures
            self.add_point(p).ancestor(i, k) == self.ancestor(i, k),
        decreases k,
    {
        if k > 0 {
            self.lemma_add_point_ancestor(p, i, (k - 1) as nat);
            self.lemma_ancestor_has(i, (k - 1) as nat);
        }
    }

    /// Registering a point keeps the forest well formed and the root of
    /// every identifier; a new identifier is its own root.
    pub proof fn lemma_add_point(self, p: (nat, nat))
        requires
            self.wf(),
        ensures
            self.add_point(p).wf(),
            self.add_point(p).points.contains(p),
            forall|i: int| self.has(i) ==> #[trigger] self.add_point(p).root(i) == self.root(i),
            !self.points.contains(p) ==> self.add_point(p).root(self.len() as int) == self.len(),
    {
        let g = self.add_point(p);
        let n = self.len();
        if !self.points.contains(p) {
            assert(g.points[n as int] == p);
            assert forall|i: int| self.has(i) implies #[trigger] g.root(i) == self.root(i) by {
                self.lemma_add_point_ancestor(p, i, n);
            }
            g.lemma_root_of_root(n as int);
            assert forall|i: int| g.has(i) implies g.is_root(#[trigger] g.root(i)) by {
                if i < n {
                    assert(self.is_root(self.root(i)));
                }
            }
        }
    }

    proof fn lemma_connect_ancestor_apart(self, a: int, b: int, i: int, k: nat)
        requires
            self.wf(),
            self.has(a),
            self.has(b),
            self.has(i),
            self.root(i) != self.root(b),
        ensures
            self.connect(a, b).ancestor(i, k) == self.ancestor(i, k),
        decreases k,
    {
        if k > 0 {
            self.lemma_connect_ancestor_apart(a, b, i, (k - 1) as nat);
            self.lemma_root_of_ancestor(i, (k - 1) as nat);
            self.lemma_root_of_root(self.root(b));
        }
    }

    proof fn lemma_connect_ancestor_joined(self, a: int, b: int, i: int, k: nat)
        requires
            self.wf(),
            self.has(a),
            self.has(b),
            self.has(i),
            self.root(a) != self.root(b),
            self.ancestor(i, k) == self.root(b),
        ensures
            self.connect(a, b).ancestor(i, k + 1) == self.root(a),
        decreases k,
    {
        let g = self.connect(a, b);
        g.lemma_first_step(i);
        if i == self.root(b) {
            g.lemma_ancestor_past_root(i, 1, k + 1);
        } else {
            self.lemma_first_step(i);
            self.lemma_ancestor_add(i, 1, (k - 1) as nat);
            self.lemma_connect_ancestor_joined(a, b, self.parents[i], (k - 1) as nat);
            g.lemma_ancestor_add(i, 1, k);
        }
    }

    /// Uniting two sets keeps the forest well formed and moves exactly the
    /// identifiers of the second set under the root of the first.
    pub proof fn lemma_connect(self, a: int, b: int)
        requires
            self.wf(),
        ensures
            self.connect(a, b).wf(),
            self.connect(a, b).points == self.points,
            self.connect(a, b).len() == self.len(),
            self.has(a) && self.has(b) ==> forall|i: int|
                self.has(i) ==> #[trigger] self.connect(a, b).root(i) == (if self.root(i)
                    == self.root(b) {
                    self.root(a)
                } else {
                    self.root(i)
                }),
    {
        let g = self.connect(a, b);
        if self.has(a) && self.has(b) {
            let ra = self.root(a);
            let rb = self.root(b);
            if ra == rb {
                assert(g.parents == self.parents);
            } else {
                assert forall|i: int| self.has(i) implies #[trigger] g.root(i) == (if self.root(i)
                    == rb {
                    ra
                } else {
                    self.root(i)
                }) by {
                    if self.root(i) == rb {
                        self.lemma_root_within_len(i);
                        self.lemma_connect_ancestor_joined(a, b, i, (self.len() - 1) as nat);
                    } else {
                        self.lemma_connect_ancestor_apart(a, b, i, self.len());
                    }
                }
                assert forall|i: int| g.has(i) implies g.is_root(#[trigger] g.root(i)) by {
                    assert(self.is_root(self.root(i)));
                }
            }
        }
    }

    /// How the members below `k` come from those below `k - 1`.
    pub proof fn lemma_members_step(self, r: int, k: nat)
        requires
            k > 0,
        ensures
            self.members_below(r, k) == if self.root(k - 1) == r {
                self.members_below(r, (k - 1) as nat).push(k - 1)
            } else {
                self.members_below(r, (k - 1) as nat)
            },
    {
        reveal(Seq::filter);
        assert(Seq::new(k, |i: int| i).drop_last() == Seq::new((k - 1) as nat, |i: int| i));
    }

    /// The members of a group are exactly the identifiers with that root,
    /// each once and in ascending order.
    pub proof fn lemma_members_below(self, r: int, k: nat)
        ensures
            forall|j: int| #[trigger]
                self.members_below(r, k).contains(j) <==> 0 <= j < k && self.root(j) == r,
            forall|a: int, b: int|
                0 <= a < b < self.members_below(r, k).len() ==> #[trigger] self.members_below(
                    r,
                    k,
                )[a] < #[trigger] self.members_below(r, k)[b],
        decreases k,
    {
        let m = self.members_below(r, k);
        if k > 0 {
            let before = self.members_below(r, (k - 1) as nat);
            self.lemma_members_below(r, (k - 1) as nat);
            self.lemma_members_step(r, k);
            assert forall|j: int| #[trigger] m.contains(j) <==> 0 <= j < k && self.root(j) == r by {
                if m.contains(j) {
                    let a = choose|a: int| 0 <= a < m.len() && m[a] == j;
                    if a < before.len() {
                        assert(before.contains(j));
                    }
                }
                if 0 <= j < k && self.root(j) == r {
                    if j == k - 1 {
                        assert(m[m.len() - 1] == j);
                    } else {
                        assert(before.contains(j));
                        let a = choose|a: int| 0 <= a < before.len() && before[a] == j;
                        assert(m[a] == j);
                    }
                }
            }
            assert forall|a: int, b: int| 0 <= a < b < m.len() implies #[trigger] m[a]
                < #[trigger] m[b] by {
                assert(before.contains(before[a]));
                if b < before.len() {
                    assert(before[b] == m[b]);
                }
            }
        }
    }

    /// A group is not empty exactly when it is the group of a root.
    pub proof fn lemma_group_of_root(self, r: int)
        requires
            self.wf(),
        ensures
            self.members(r).len() > 0 <==> self.is_root(r),
    {
        self.lemma_members_below(r, self.len());
        let m = self.members(r);
        if m.len() > 0 {
            assert(m.contains(m[0]));
        }
        if self.is_root(r) {
            self.lemma_root_of_root(r);
            assert(m.contains(r));
        }
    }

    /// A registered point keeps its identifier when another is registered.
    pub proof fn lemma_index_kept(self, p: (nat, nat), q: (nat, nat))
        requires
            self.points.contains(p),
        ensures
            self.add_point(q).index(p) == self.index(p),
    {
        let g = self.add_point(q);
        self.points.index_of_first_ensures(p);
        g.points.index_of_first_ensures(p);
        let i = self.index(p).unwrap();
        assert(g.points[i] == p);
        let j = g.index(p).unwrap();
        if j < i {
            assert(self.points[j] == p);
        }
    }

    /// Registering points keeps the forest well formed and the identifier of
    /// every point that was registered before.
    pub proof fn lemma_add_points(self, ps: Seq<(nat, nat)>)
        requires
            self.wf(),
        ensures
            self.add_points(ps).wf(),
            forall|p: (nat, nat)|
                self.points.contains(p) ==> #[trigger] self.add_points(ps).index(p) == self.index(
                    p,
                ),
        decreases ps.len(),
    {
        if ps.len() > 0 {
            let before = self.add_points(ps.drop_last());
            self.lemma_add_points(ps.drop_last());
            before.lemma_add_point(ps.last());
            assert forall|p: (nat, nat)| self.points.contains(p) implies #[trigger] self.add_points(
                ps,
            ).index(p) == self.index(p) by {
                assert(before.index(p) == self.index(p));
                self.points.index_of_first_ensures(p);
                before.points.index_of_first_ensures(p);
                before.lemma_index_kept(p, ps.last());
            }
        } else {
            assert forall|p: (nat, nat)| self.points.contains(p) implies #[trigger] self.add_points(
                ps,
            ).index(p) == self.index(p) by {}
        }
    }

    /// Unions keep the forest well formed and leave the points alone.
    pub proof fn lemma_connect_all(self, pairs: Seq<(int, int)>)
        requires
            self.wf(),
        ensures
            self.connect_all(pairs).wf(),
            self.connect_all(pairs).points == self.points,
            self.connect_all(pairs).len() == self.len(),
        decreases pairs.len(),
    {
        if pairs.len() > 0 {
            self.lemma_connect_all(pairs.drop_last());
            self.connect_all(pairs.drop_last()).lemma_connect(pairs.last().0, pairs.last().1);
        }
    }

    /// Having the same sets carries over from forest to forest.
    pub proof fn lemma_same_partition_transitive(self, second: Forest, third: Forest)
        requires
            self.same_partition(second),
            second.same_partition(third),
        ensures
            self.same_partition(third),
    {
        assert forall|i: int, j: int|
            #![trigger self.same_set(i, j)]
            #![trigger third.same_set(i, j)]
            self.same_set(i, j) <==> third.same_set(i, j) by {
            assert(self.same_set(i, j) <==> second.same_set(i, j));
        }
    }

    /// One union on two forests with the same sets leaves them with the
    /// same sets.
    pub proof fn lemma_connect_same_partition(self, other: Forest, a: int, b: int)
        requires
            self.wf(),
            other.wf(),
            self.same_partition(other),
        ensures
            self.connect(a, b).same_partition(other.connect(a, b)),
    {
        let f = self.connect(a, b);
        let g = other.connect(a, b);
        self.lemma_connect(a, b);
        other.lemma_connect(a, b);
        if self.has(a) && self.has(b) {
            assert forall|i: int, j: int|
                #![trigger f.same_set(i, j)]
                #![trigger g.same_set(i, j)]
                f.same_set(i, j) <==> g.same_set(i, j) by {
                if self.has(i) && self.has(j) {
                    assert(self.same_set(i, j) <==> other.same_set(i, j));
                    assert(self.same_set(i, b) <==> other.same_set(i, b));
                    assert(self.same_set(j, b) <==> other.same_set(j, b));
                    assert(self.same_set(i, a) <==> other.same_set(i, a));
                    assert(self.same_set(a, j) <==> other.same_set(a, j));
                }
            }
        }
    }

    /// Two unions in either order give the same sets.
    pub proof fn lemma_connect_commutes(self, a: int, b: int, c: int, d: int)
        requires
            self.wf(),
        ensures
            self.connect(a, b).connect(c, d).same_partition(self.connect(c, d).connect(a, b)),
    {
        let f1 = self.connect(a, b);
        let f2 = self.connect(c, d);
        let f12 = f1.connect(c, d);
        let f21 = f2.connect(a, b);
        self.lemma_connect(a, b);
        self.lemma_connect(c, d);
        f1.lemma_connect(c, d);
        f2.lemma_connect(a, b);
        if self.has(a) && self.has(b) && self.has(c) && self.has(d) {
            assert forall|i: int, j: int|
                #![trigger f12.same_set(i, j)]
                #![trigger f21.same_set(i, j)]
                f12.same_set(i, j) <==> f21.same_set(i, j) by {
                if self.has(i) && self.has(j) {
                    assert(f12.root(i) == f12.root(j) <==> f21.root(i) == f21.root(j));
                }
            }
        }
    }

    /// Forests with the same sets have the same members in the set of `i`.
    pub proof fn lemma_same_partition_members(self, other: Forest, i: int, k: nat)
        requires
            self.same_partition(other),
            self.has(i),
            k <= self.len(),
        ensures
            self.members_below(self.root(i), k) == other.members_below(other.root(i), k),
        decreases k,
    {
        if k > 0 {
            self.lemma_same_partition_members(other, i, (k - 1) as nat);
            self.lemma_members_step(self.root(i), k);
            other.lemma_members_step(other.root(i), k);
            assert(self.same_set(k - 1, i) <==> other.same_set(k - 1, i));
        } else {
            reveal(Seq::filter);
        }
    }
}

} // verus!
