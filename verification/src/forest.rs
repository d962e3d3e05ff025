//! The mathematical model of the registry: a table of points and a table of
//! parent pointers, with the operations on them as spec functions.

use vstd::prelude::*;

verus! {

/// An identifier is an index into both tables. The entry of `parents` at an
/// identifier is the identifier's parent; a root is its own parent.
pub struct Forest {
    pub points: Seq<(nat, nat)>,
    pub parents: Seq<int>,
}

impl Forest {
    /// The registry in which nothing has been registered.
    pub open spec fn empty() -> Forest {
        Forest { points: Seq::empty(), parents: Seq::empty() }
    }

    /// The number of identifiers handed out.
    pub open spec fn len(self) -> nat {
        self.parents.len()
    }

    /// Whether `i` is an identifier that has been handed out.
    pub open spec fn has(self, i: int) -> bool {
        0 <= i < self.parents.len()
    }

    /// Whether `i` is an identifier that is its own parent.
    pub open spec fn is_root(self, i: int) -> bool {
        self.has(i) && self.parents[i] == i
    }

    /// Where `k` steps along the parent pointers lead from `i`.
    pub open spec fn ancestor(self, i: int, k: nat) -> int
        decreases k,
    {
        if k == 0 {
            i
        } else {
            self.parents[self.ancestor(i, (k - 1) as nat)]
        }
    }

    /// The representative of the set of `i`: where as many steps as there are
    /// identifiers lead. In a well-formed forest that is a root.
    pub open spec fn root(self, i: int) -> int {
        self.ancestor(i, self.parents.len())
    }

    /// Every parent is an identifier.
    pub open spec fn closed_under_parent(self) -> bool {
        forall|i: int| self.has(i) ==> self.has(#[trigger] self.parents[i])
    }

    /// Both tables have one entry for each identifier, no point is registered
    /// twice, and the parent pointers lead from every identifier to a root
    /// within as many steps as there are identifiers.
    pub open spec fn wf(self) -> bool {
        &&& self.points.len() == self.parents.len()
        &&& self.points.no_duplicates()
        &&& self.closed_under_parent()
        &&& forall|i: int| self.has(i) ==> self.is_root(#[trigger] self.root(i))
    }

    /// The identifier of a point, if the point has been registered.
    pub open spec fn index(self, p: (nat, nat)) -> Option<int> {
        self.points.index_of_first(p)
    }

    /// The forest after registering `p`: unchanged where `p` is known, else
    /// with `p` as a new identifier that is its own root.
    pub open spec fn add_point(self, p: (nat, nat)) -> Forest {
        if self.points.contains(p) {
            self
        } else {
            Forest { points: self.points.push(p), parents: self.parents.push(self.len() as int) }
        }
    }

    /// The forest after registering the points of `ps` in order.
    pub open spec fn add_points(self, ps: Seq<(nat, nat)>) -> Forest
        decreases ps.len(),
    {
        if ps.len() == 0 {
            self
        } else {
            self.add_points(ps.drop_last()).add_point(ps.last())
        }
    }

    /// The root of `i`, if `i` is an identifier.
    pub open spec fn find_parent(self, i: int) -> Option<int> {
        if self.has(i) {
            Some(self.root(i))
        } else {
            None
        }
    }

    /// The forest after uniting the sets of `a` and `b`: the root of `b` gets
    /// the root of `a` as its parent. Unchanged unless both are identifiers.
    pub open spec fn connect(self, a: int, b: int) -> Forest {
        if self.has(a) && self.has(b) {
            Forest { points: self.points, parents: self.parents.update(self.root(b), self.root(a)) }
        } else {
            self
        }
    }

    /// The forest after one instruction to connect two points: both are
    /// registered, then their sets are united.
    pub open spec fn add_pair(self, p: (nat, nat), q: (nat, nat)) -> Forest {
        let g = self.add_point(p).add_point(q);
        g.connect(g.index(p).unwrap(), g.index(q).unwrap())
    }

    /// The forest after the unions of `pairs` in order.
    pub open spec fn connect_all(self, pairs: Seq<(int, int)>) -> Forest
        decreases pairs.len(),
    {
        if pairs.len() == 0 {
            self
        } else {
            self.connect_all(pairs.drop_last()).connect(pairs.last().0, pairs.last().1)
        }
    }

    /// Whether `i` and `j` are identifiers of one set.
    pub open spec fn same_set(self, i: int, j: int) -> bool {
        self.has(i) && self.has(j) && self.root(i) == self.root(j)
    }

    /// Whether two forests hold the same points under the same identifiers
    /// and divide them into the same sets. The roots may differ.
    pub open spec fn same_partition(self, other: Forest) -> bool {
        &&& self.points == other.points
        &&& self.len() == other.len()
        &&& forall|i: int, j: int|
            #![trigger self.same_set(i, j)]
            #![trigger other.same_set(i, j)]
            self.same_set(i, j) <==> other.same_set(i, j)
    }

    /// The test that picks the identifiers whose root is `r`.
    pub open spec fn has_root(self, r: int) -> spec_fn(int) -> bool {
        |i: int| self.root(i) == r
    }

    /// The identifiers below `k` whose root is `r`, in ascending order.
    pub open spec fn members_below(self, r: int, k: nat) -> Seq<int> {
        Seq::new(k, |i: int| i).filter(self.has_root(r))
    }

    /// The identifiers whose root is `r`, in ascending order.
    pub open spec fn members(self, r: int) -> Seq<int> {
        self.members_below(r, self.len())
    }

    /// The points of the identifiers below `k` whose root is `r`, in ascending
    /// order of identifier.
    pub open spec fn group_below(self, r: int, k: nat) -> Seq<(nat, nat)> {
        self.members_below(r, k).map_values(|i: int| self.points[i])
    }

    /// The points whose root is `r`, in ascending order of identifier.
    pub open spec fn group(self, r: int) -> Seq<(nat, nat)> {
        self.group_below(r, self.len())
    }

    /// The sizes of the groups under the identifiers below `m`, added up. No
    /// group stands under an identifier that is no root, and none is counted.
    pub open spec fn group_sizes(self, m: nat) -> nat
        decreases m,
    {
        if m == 0 {
            0
        } else {
            self.group_sizes((m - 1) as nat) + if self.is_root(m - 1) {
                self.group(m - 1).len()
            } else {
                0
            }
        }
    }

    /// The groups, each under its root.
    pub open spec fn components(self) -> Map<int, Seq<(nat, nat)>> {
        Map::new(|r: int| self.is_root(r), |r: int| self.group(r))
    }
}

} // verus!
