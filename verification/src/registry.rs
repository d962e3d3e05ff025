//! The registry: the executable tables behind a [`Forest`].

use vstd::prelude::*;
use std::collections::HashMap;
use crate::forest::Forest;
use crate::laws::lemma_groups_hold_every_point_once;
use crate::point::Point;
use crate::record::{parse_record, record};

verus! {

/// Assigns each distinct point an identifier and keeps the identifiers in
/// disjoint sets.
pub struct UnionFind {
    points: Vec<Point>,
    parents: Vec<usize>,
}

impl View for UnionFind {
    type V = Forest;

    closed spec fn view(&self) -> Forest {
        Forest {
            points: self.points@.map_values(|p: Point| p@),
            parents: self.parents@.map_values(|i: usize| i as int),
        }
    }
}

/// The coordinates of borrowed points.
pub open spec fn ref_views(s: Seq<&Point>) -> Seq<(nat, nat)> {
    s.map_values(|p: &Point| p@)
}

/// The forest after one line of input: after the instruction that the line
/// holds, or unchanged where it holds none.
pub open spec fn add_record(f: Forest, line: Seq<char>) -> Forest {
    match record(line) {
        Some((p, q)) => f.add_pair(p, q),
        None => f,
    }
}

/// The forest after the lines of an input, taken in order.
pub open spec fn add_records(f: Forest, lines: Seq<Seq<char>>) -> Forest
    decreases lines.len(),
{
    if lines.len() == 0 {
        f
    } else {
        add_record(add_records(f, lines.drop_last()), lines.last())
    }
}

/// The characters of each line.
pub open spec fn line_views(lines: Seq<String>) -> Seq<Seq<char>> {
    lines.map_values(|l: String| l@)
}

impl UnionFind {
    /// The invariant of the registry, which every method keeps: its forest
    /// is well formed and every identifier fits a machine word.
    pub open spec fn wf(&self) -> bool {
        self@.wf() && self@.len() <= usize::MAX
    }

    /// A registry in which nothing has been registered.
    pub fn new() -> (uf: UnionFind)
        ensures
            uf.wf(),
            uf@ == Forest::empty(),
    {
        let uf = UnionFind { points: Vec::new(), parents: Vec::new() };
        assert(uf@.points == Seq::<(nat, nat)>::empty());
        assert(uf@.parents == Seq::<int>::empty());
        uf
    }

    /// The registry that the lines of an input describe. Each line that
    /// holds an instruction has its two points registered and connected; a
    /// line that holds none is passed over.
    pub fn load(lines: &[String]) -> (uf: UnionFind)
        ensures
            uf.wf(),
            uf@ == add_records(Forest::empty(), line_views(lines@)),
    {
        let mut uf = UnionFind::new();
        let mut i: usize = 0;
        while i < lines.len()
            invariant
                i <= lines.len(),
                uf.wf(),
                uf@ == add_records(Forest::empty(), line_views(lines@).take(i as int)),
            decreases lines.len() - i,
        {
            proof {
                let done = line_views(lines@).take(i + 1);
                assert(done.drop_last() == line_views(lines@).take(i as int));
            }
            if let Some((p1, p2)) = parse_record(lines[i].as_str()) {
                uf.add_pair(p1, p2);
            }
            i += 1;
        }
        proof {
            assert(line_views(lines@).take(i as int) == line_views(lines@));
        }
        uf
    }

    /// The identifier of `p`, if `p` has been registered.
    pub fn index(&self, p: &Point) -> (r: Option<usize>)
        ensures
            match r {
                Some(i) => self@.index(p@) == Some(i as int),
                None => self@.index(p@) is None,
            },
            match r {
                Some(i) => i < self@.points.len() && self@.points[i as int] == p@,
                None => !self@.points.contains(p@),
            },
    {
        let mut i: usize = 0;
        while i < self.points.len()
            invariant
                i <= self.points.len(),
                forall|j: int| 0 <= j < i ==> self@.points[j] != p@,
            decreases self.points.len() - i,
        {
            proof {
                Point::lemma_view_injective(*p, self.points@[i as int]);
            }
            if *p == self.points[i] {
                proof {
                    assert(self@.points[i as int] == p@);
                    self@.points.index_of_first_ensures(p@);
                }
                return Some(i);
            }
            i += 1;
        }
        proof {
            self@.points.index_of_first_ensures(p@);
        }
        None
    }

    /// Registers `p` and returns its identifier: the one it has, or the next
    /// free one if `p` is new.
    pub fn add_point(&mut self, p: Point) -> (id: usize)
        requires
            old(self).wf(),
        ensures
            final(self).wf(),
            final(self)@ == old(self)@.add_point(p@),
            final(self)@.index(p@) == Some(id as int),
            id as int == match old(self)@.index(p@) {
                Some(i) => i,
                None => old(self)@.len() as int,
            },
            id < final(self)@.points.len() && final(self)@.points[id as int] == p@,
    {
        proof {
            self@.lemma_add_point(p@);
            self@.points.index_of_first_ensures(p@);
        }
        if let Some(i) = self.index(&p) {
            i
        } else {
            self.points.push(p);
            let pos = self.parents.len();
            self.parents.push(pos);
            proof {
                let g = old(self)@.add_point(p@);
                assert(self.parents.len() == self.parents@.len());
                assert(self@.points == g.points);
                assert(self@.parents == g.parents);
                g.points.index_of_first_ensures(p@);
            }
            pos
        }
    }

    /// Carries out one instruction to connect two points: registers both,
    /// then unites their sets.
    pub fn add_pair(&mut self, p1: Point, p2: Point)
        requires
            old(self).wf(),
        ensures
            final(self).wf(),
            final(self)@ == old(self)@.add_pair(p1@, p2@),
    {
        let pos1 = self.add_point(p1);
        proof {
            self@.points.index_of_first_ensures(p1@);
            self@.lemma_index_kept(p1@, p2@);
        }
        let pos2 = self.add_point(p2);
        self.connect(pos1, pos2);
    }

    /// The root of the set of `point`, or `None` if `point` is no identifier.
    pub fn find_parent(&self, point: usize) -> (r: Option<usize>)
        requires
            self.wf(),
        ensures
            match r {
                Some(root) => self@.find_parent(point as int) == Some(root as int),
                None => self@.find_parent(point as int) is None,
            },
    {
        let mut p = point;
        let ghost mut steps: nat = 0;
        loop
            invariant
                self.wf(),
                p == self@.ancestor(point as int, steps),
                self@.has(point as int) ==> self@.has(p as int) && steps < self@.len(),
                !self@.has(point as int) ==> p == point,
            decreases self@.len() - steps,
        {
            if self.parents.len() <= p {
                return None;
            } else {
                if self.parents[p] == p {
                    proof {
                        self@.lemma_ancestor_past_root(point as int, steps, self@.len());
                    }
                    return Some(p);
                } else {
                    proof {
                        assert(self@.has(self@.parents[p as int]));
                        assert(self@.ancestor(point as int, steps + 1) == self@.parents[p as int]);
                        self@.lemma_root_within_len(point as int);
                        assert(self@.is_root(self@.root(point as int)));
                        if steps + 1 >= self@.len() {
                            self@.lemma_ancestor_past_root(
                                point as int,
                                (self@.len() - 1) as nat,
                                steps,
                            );
                        }
                        steps = steps + 1;
                    }
                    p = self.parents[p];
                }
            }
        }
    }

    /// Unites the sets of `p1` and `p2`: the root of `p2` gets the root of
    /// `p1` as its parent. Does nothing unless both are identifiers.
    pub fn connect(&mut self, p1: usize, p2: usize)
        requires
            old(self).wf(),
        ensures
            final(self).wf(),
            final(self)@ == old(self)@.connect(p1 as int, p2 as int),
    {
        proof {
            self@.lemma_connect(p1 as int, p2 as int);
        }
        if let Some(parent_p1) = self.find_parent(p1) {
            if let Some(parent_p2) = self.find_parent(p2) {
                self.parents[parent_p2] = parent_p1;
                proof {
                    assert(self@.parents == old(self)@.connect(p1 as int, p2 as int).parents);
                }
            }
        }
    }

    /// Whether `groups` holds the groups of this registry: its keys are the
    /// roots, none left out, and under each root stand the points of that
    /// root's set in ascending order of identifier.
    pub open spec fn grouped_as(&self, groups: Map<usize, Vec<&Point>>) -> bool {
        &&& forall|r: usize| groups.contains_key(r) <==> self@.components().contains_key(r as int)
        &&& forall|r: int|
            self@.components().contains_key(r) ==> 0 <= r <= usize::MAX
                && #[trigger] groups.contains_key(r as usize)
        &&& forall|r: usize|
            groups.contains_key(r) ==> ref_views(#[trigger] groups[r]@)
                == self@.components()[r as int]
    }

    /// The groups hold the registered points and nothing else, every
    /// registered point stands in the group under its root, and no point
    /// stands at two places.
    pub proof fn lemma_grouping_is_complete(&self, groups: Map<usize, Vec<&Point>>)
        requires
            self.wf(),
            self.grouped_as(groups),
        ensures
            forall|r: usize, k: int|
                groups.contains_key(r) && 0 <= k < groups[r]@.len() ==> self@.points.contains(
                    (#[trigger] groups[r]@[k])@,
                ),
            forall|i: int|
                self@.has(i) ==> 0 <= self@.root(i) <= usize::MAX && groups.contains_key(
                    self@.root(i) as usize,
                ) && ref_views(groups[self@.root(i) as usize]@).contains(#[trigger] self@.points[i]),
            forall|r1: usize, k1: int, r2: usize, k2: int|
                groups.contains_key(r1) && 0 <= k1 < groups[r1]@.len() && groups.contains_key(r2)
                    && 0 <= k2 < groups[r2]@.len() && (#[trigger] groups[r1]@[k1])@
                    == (#[trigger] groups[r2]@[k2])@ ==> r1 == r2 && k1 == k2,
    {
        let f = self@;
        lemma_groups_hold_every_point_once(f);
        assert forall|r: usize, k: int|
            groups.contains_key(r) && 0 <= k < groups[r]@.len() implies f.points.contains(
            (#[trigger] groups[r]@[k])@,
        ) by {
            assert(ref_views(groups[r]@)[k] == groups[r]@[k]@);
            assert(f.points.contains(f.components()[r as int][k]));
        }
        assert forall|i: int| f.has(i) implies 0 <= f.root(i) <= usize::MAX && groups.contains_key(
            f.root(i) as usize,
        ) && ref_views(groups[f.root(i) as usize]@).contains(#[trigger] f.points[i]) by {
            assert(f.components().contains_key(f.root(i)));
            assert(groups.contains_key(f.root(i) as usize));
        }
        assert forall|r1: usize, k1: int, r2: usize, k2: int|
            groups.contains_key(r1) && 0 <= k1 < groups[r1]@.len() && groups.contains_key(r2) && 0
                <= k2 < groups[r2]@.len() && (#[trigger] groups[r1]@[k1])@
                == (#[trigger] groups[r2]@[k2])@ implies r1 == r2 && k1 == k2 by {
            assert(ref_views(groups[r1]@)[k1] == groups[r1]@[k1]@);
            assert(ref_views(groups[r2]@)[k2] == groups[r2]@[k2]@);
            assert(f.components()[r1 as int][k1] == f.components()[r2 as int][k2]);
        }
    }

    /// The groups of points, each under the root of its set and in
    /// ascending order of identifier.
    pub fn get_connected_components(&self) -> (groups: HashMap<usize, Vec<&Point>>)
        requires
            self.wf(),
        ensures
            self.grouped_as(groups@),
    {
        let mut out: HashMap<usize, Vec<&Point>> = HashMap::new();
        let n = self.points.len();
        for i in 0..n
            invariant
                self.wf(),
                n == self@.len(),
                forall|r: usize|
                    out@.contains_key(r) <==> self@.members_below(r as int, i as nat).len() > 0,
                forall|r: usize|
                    out@.contains_key(r) ==> ref_views(#[trigger] out@[r]@) == self@.group_below(
                        r as int,
                        i as nat,
                    ),
        {
            let parent = self.find_parent(i).unwrap();
            let ghost before = out@;
            let e = out.entry(parent).or_insert(Vec::new());
            let ghost group = e@;
            e.push(&self.points[i]);
            proof {
                assert forall|r: usize|
                    self@.members_below(r as int, (i + 1) as nat) == if self@.root(i as int) == r {
                        self@.members_below(r as int, i as nat).push(i as int)
                    } else {
                        self@.members_below(r as int, i as nat)
                    } by {
                    self@.lemma_members_step(r as int, (i + 1) as nat);
                }
                assert(self@.group_below(parent as int, (i + 1) as nat) == self@.group_below(
                    parent as int,
                    i as nat,
                ).push(self@.points[i as int]));
                if !before.contains_key(parent) {
                    assert(ref_views(group) == self@.group_below(parent as int, i as nat));
                }
            }
        }
        proof {
            assert forall|r: usize| out@.contains_key(r) <==> self@.components().contains_key(
                r as int,
            ) by {
                self@.lemma_group_of_root(r as int);
            }
        }
        out
    }
}

} // verus!
