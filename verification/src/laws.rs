//! What holds of the registry whatever it is used for, stated over the
//! [`Forest`] by which the contracts of the registry's methods speak.

use vstd::prelude::*;
use crate::forest::Forest;
use crate::record::record;
use crate::registry::add_records;

verus! {

/// Registering a point again yields the identifier that it was given first,
/// whatever points were registered in between.
pub proof fn lemma_same_point_same_identifier(
    f: Forest,
    p: (nat, nat),
    between: Seq<(nat, nat)>,
)
    requires
        f.wf(),
    ensures
        ({
            let first = f.add_point(p);
            let again = first.add_points(between).add_point(p);
            first.index(p) is Some && again.index(p) == first.index(p)
        }),
{
    let first = f.add_point(p);
    let later = first.add_points(between);
    f.lemma_add_point(p);
    first.lemma_add_points(between);
    assert(later.index(p) == first.index(p));
    first.points.index_of_first_ensures(p);
    later.points.index_of_first_ensures(p);
    later.lemma_index_kept(p, p);
}

/// Two different points never get the same identifier, whatever points are
/// registered between them.
pub proof fn lemma_different_points_different_identifiers(
    f: Forest,
    p: (nat, nat),
    q: (nat, nat),
    between: Seq<(nat, nat)>,
)
    requires
        f.wf(),
        p != q,
    ensures
        ({
            let first = f.add_point(p);
            let second = first.add_points(between).add_point(q);
            first.index(p) is Some && second.index(q) is Some && first.index(p) != second.index(q)
        }),
{
    let first = f.add_point(p);
    let later = first.add_points(between);
    let second = later.add_point(q);
    f.lemma_add_point(p);
    first.lemma_add_points(between);
    later.lemma_add_point(q);
    assert(later.index(p) == first.index(p));
    first.points.index_of_first_ensures(p);
    later.points.index_of_first_ensures(p);
    later.lemma_index_kept(p, q);
    second.points.index_of_first_ensures(p);
    second.points.index_of_first_ensures(q);
}

/// The identifier of a registered point always has a root.
pub proof fn lemma_registered_point_has_root(f: Forest, p: (nat, nat), i: int)
    requires
        f.wf(),
        f.index(p) == Some(i),
    ensures
        f.find_parent(i) is Some,
        f.is_root(f.find_parent(i).unwrap()),
{
    f.points.index_of_first_ensures(p);
}

/// After the unions of `a` with `b` and of `b` with `c`, in either order,
/// all three have the same root.
pub proof fn lemma_union_is_transitive(f: Forest, a: int, b: int, c: int)
    requires
        f.wf(),
        f.has(a),
        f.has(b),
        f.has(c),
    ensures
        ({
            let g = f.connect(a, b).connect(b, c);
            g.find_parent(a) is Some && g.find_parent(a) == g.find_parent(b) && g.find_parent(b)
                == g.find_parent(c)
        }),
        ({
            let h = f.connect(b, c).connect(a, b);
            h.find_parent(a) is Some && h.find_parent(a) == h.find_parent(b) && h.find_parent(b)
                == h.find_parent(c)
        }),
{
    f.lemma_connect(a, b);
    f.connect(a, b).lemma_connect(b, c);
    f.lemma_connect(b, c);
    f.connect(b, c).lemma_connect(a, b);
}

/// The groups hold the registered points and nothing else, every registered
/// point stands in the group of its root, and no point stands at two places.
pub proof fn lemma_groups_hold_every_point_once(f: Forest)
    requires
        f.wf(),
    ensures
        forall|r: int| f.components().contains_key(r) <==> f.is_root(r),
        forall|r: int, k: int|
            f.components().contains_key(r) && 0 <= k < f.components()[r].len()
                ==> f.points.contains(#[trigger] f.components()[r][k]),
        forall|i: int|
            f.has(i) ==> f.components().contains_key(#[trigger] f.root(i))
                && f.components()[f.root(i)].contains(f.points[i]),
        forall|r1: int, k1: int, r2: int, k2: int|
            f.components().contains_key(r1) && 0 <= k1 < f.components()[r1].len()
                && f.components().contains_key(r2) && 0 <= k2 < f.components()[r2].len()
                && #[trigger] f.components()[r1][k1] == #[trigger] f.components()[r2][k2] ==> r1
                == r2 && k1 == k2,
{
    let n = f.len();
    assert forall|r: int, k: int|
        f.components().contains_key(r) && 0 <= k < f.components()[r].len()
        implies f.points.contains(#[trigger] f.components()[r][k]) by {
        f.lemma_members_below(r, n);
        assert(f.members(r).contains(f.members(r)[k]));
    }
    assert forall|i: int| f.has(i) implies f.components().contains_key(#[trigger] f.root(i))
        && f.components()[f.root(i)].contains(f.points[i]) by {
        let r = f.root(i);
        f.lemma_members_below(r, n);
        assert(f.members(r).contains(i));
        let k = choose|k: int| 0 <= k < f.members(r).len() && f.members(r)[k] == i;
        assert(f.group(r)[k] == f.points[i]);
    }
    assert forall|r1: int, k1: int, r2: int, k2: int|
        f.components().contains_key(r1) && 0 <= k1 < f.components()[r1].len()
            && f.components().contains_key(r2) && 0 <= k2 < f.components()[r2].len()
            && #[trigger] f.components()[r1][k1] == #[trigger] f.components()[r2][k2]
        implies r1 == r2 && k1 == k2 by {
        f.lemma_members_below(r1, n);
        f.lemma_members_below(r2, n);
        let i1 = f.members(r1)[k1];
        let i2 = f.members(r2)[k2];
        assert(f.members(r1).contains(i1));
        assert(f.members(r2).contains(i2));
        if k1 < k2 {
            assert(f.members(r1)[k1] < f.members(r1)[k2]);
        }
        if k2 < k1 {
            assert(f.members(r1)[k2] < f.members(r1)[k1]);
        }
    }
}

/// The members below `k` of the groups under the identifiers below `m`,
/// counted.
spec fn members_counted(f: Forest, m: nat, k: nat) -> nat
    decreases m,
{
    if m == 0 {
        0
    } else {
        members_counted(f, (m - 1) as nat, k) + f.members_below(m - 1, k).len()
    }
}

proof fn lemma_members_counted_step(f: Forest, m: nat, k: nat)
    requires
        k > 0,
    ensures
        members_counted(f, m, k) == members_counted(f, m, (k - 1) as nat) + if 0 <= f.root(k - 1)
            < m {
            1nat
        } else {
            0nat
        },
    decreases m,
{
    if m > 0 {
        lemma_members_counted_step(f, (m - 1) as nat, k);
        f.lemma_members_step(m - 1, k);
    }
}

proof fn lemma_members_counted(f: Forest, k: nat)
    requires
        f.wf(),
        k <= f.len(),
    ensures
        members_counted(f, f.len(), k) == k,
    decreases k,
{
    if k == 0 {
        lemma_members_counted_none(f, f.len());
    } else {
        lemma_members_counted(f, (k - 1) as nat);
        lemma_members_counted_step(f, f.len(), k);
        assert(f.is_root(f.root(k - 1)));
    }
}

proof fn lemma_members_counted_none(f: Forest, m: nat)
    ensures
        members_counted(f, m, 0) == 0,
    decreases m,
{
    if m > 0 {
        lemma_members_counted_none(f, (m - 1) as nat);
        f.lemma_members_below(m - 1, 0);
        let none = f.members_below(m - 1, 0);
        if none.len() > 0 {
            assert(none.contains(none[0]));
        }
    }
}

proof fn lemma_group_sizes_counted(f: Forest, m: nat)
    requires
        f.wf(),
    ensures
        f.group_sizes(m) == members_counted(f, m, f.len()),
    decreases m,
{
    if m > 0 {
        lemma_group_sizes_counted(f, (m - 1) as nat);
        f.lemma_group_of_root(m - 1);
    }
}

/// The sizes of all groups add up to the number of registered points.
pub proof fn lemma_group_sizes_add_up(f: Forest)
    requires
        f.wf(),
    ensures
        f.group_sizes(f.len()) == f.len(),
{
    lemma_group_sizes_counted(f, f.len());
    lemma_members_counted(f, f.len());
}

/// The test that picks the lines that hold a record.
pub open spec fn holds_record() -> spec_fn(Seq<char>) -> bool {
    |line: Seq<char>| record(line) is Some
}

/// Lines that hold no record leave no trace: an input gives the forest that
/// it gives with those lines taken out.
pub proof fn lemma_lines_without_record_leave_no_trace(f: Forest, lines: Seq<Seq<char>>)
    ensures
        add_records(f, lines) == add_records(f, lines.filter(holds_record())),
    decreases lines.len(),
{
    reveal(Seq::filter);
    if lines.len() > 0 {
        lemma_lines_without_record_leave_no_trace(f, lines.drop_last());
        let kept = lines.drop_last().filter(holds_record());
        if record(lines.last()) is Some {
            assert(kept.push(lines.last()).drop_last() == kept);
        }
    }
}

/// Carrying out one union of a sequence last instead of in its place gives
/// the same sets.
proof fn lemma_union_moved_to_end(f: Forest, pairs: Seq<(int, int)>, k: int)
    requires
        f.wf(),
        0 <= k < pairs.len(),
    ensures
        f.connect_all(pairs).same_partition(f.connect_all(pairs.remove(k).push(pairs[k]))),
    decreases pairs.len(),
{
    let x = pairs[k];
    let moved = pairs.remove(k).push(x);
    if k == pairs.len() - 1 {
        assert(moved == pairs);
    } else {
        let y = pairs.last();
        let before = pairs.drop_last();
        let others = before.remove(k);
        lemma_union_moved_to_end(f, before, k);
        let a = f.connect_all(before);
        let b = f.connect_all(others.push(x));
        let c = f.connect_all(others);
        f.lemma_connect_all(before);
        f.lemma_connect_all(others.push(x));
        f.lemma_connect_all(others);
        assert(others.push(x).drop_last() == others);
        a.lemma_connect_same_partition(b, y.0, y.1);
        c.lemma_connect_commutes(x.0, x.1, y.0, y.1);
        assert(moved.drop_last() == others.push(y));
        assert(others.push(y).drop_last() == others);
        assert(f.connect_all(others.push(y)) == c.connect(y.0, y.1));
        a.connect(y.0, y.1).lemma_same_partition_transitive(
            b.connect(y.0, y.1),
            f.connect_all(moved),
        );
    }
}

proof fn lemma_reordered_unions(f: Forest, unions: Seq<(int, int)>, reordered: Seq<(int, int)>)
    requires
        f.wf(),
        unions.to_multiset() == reordered.to_multiset(),
    ensures
        f.connect_all(unions).same_partition(f.connect_all(reordered)),
    decreases unions.len(),
{
    unions.to_multiset_ensures();
    reordered.to_multiset_ensures();
    if reordered.len() > 0 {
        let x = reordered.last();
        let shorter = reordered.drop_last();
        assert(unions.to_multiset().count(x) > 0);
        let k = choose|k: int| 0 <= k < unions.len() && unions[k] == x;
        let rest = unions.remove(k);
        lemma_union_moved_to_end(f, unions, k);
        shorter.to_multiset_ensures();
        assert(shorter.push(x) == reordered);
        assert(rest.to_multiset() =~= shorter.to_multiset());
        lemma_reordered_unions(f, rest, shorter);
        f.lemma_connect_all(rest);
        f.lemma_connect_all(shorter);
        f.connect_all(rest).lemma_connect_same_partition(f.connect_all(shorter), x.0, x.1);
        assert(rest.push(x).drop_last() == rest);
        f.connect_all(unions).lemma_same_partition_transitive(
            f.connect_all(rest.push(x)),
            f.connect_all(reordered),
        );
    }
}

/// The same unions in another order divide the points into the same groups:
/// the same identifiers stand together, and the group of every identifier
/// holds the same points in the same order. Only the roots may differ.
pub proof fn lemma_unions_in_any_order(
    f: Forest,
    unions: Seq<(int, int)>,
    reordered: Seq<(int, int)>,
)
    requires
        f.wf(),
        unions.to_multiset() == reordered.to_multiset(),
    ensures
        f.connect_all(unions).same_partition(f.connect_all(reordered)),
        forall|i: int|
            f.has(i) ==> #[trigger] f.connect_all(unions).find_parent(i) is Some && f.connect_all(
                unions,
            ).components()[f.connect_all(unions).root(i)] == f.connect_all(
                reordered,
            ).components()[f.connect_all(reordered).root(i)],
{
    let g = f.connect_all(unions);
    let h = f.connect_all(reordered);
    lemma_reordered_unions(f, unions, reordered);
    f.lemma_connect_all(unions);
    f.lemma_connect_all(reordered);
    assert forall|i: int| f.has(i) implies #[trigger] g.find_parent(i) is Some && g.components()[g.root(
        i,
    )] == h.components()[h.root(i)] by {
        g.lemma_same_partition_members(h, i, g.len());
    }
}

/// A union carried out twice leaves the forest as the union carried out once.
pub proof fn lemma_union_twice_is_union_once(f: Forest, a: int, b: int)
    requires
        f.wf(),
    ensures
        f.connect(a, b).connect(a, b) == f.connect(a, b),
{
    let g = f.connect(a, b);
    f.lemma_connect(a, b);
    if f.has(a) && f.has(b) {
        assert(g.connect(a, b).parents == g.parents);
    }
}

/// Whether `u` and `v` are tied directly: they stood in one set of `f`, or
/// `pairs` holds a union of the two, in either order.
pub open spec fn is_link(f: Forest, pairs: Seq<(int, int)>, u: int, v: int) -> bool {
    ||| f.same_set(u, v)
    ||| f.has(u) && f.has(v) && (pairs.contains((u, v)) || pairs.contains((v, u)))
}

/// Whether `chain` leads from `i` to `j` by direct ties alone.
pub open spec fn is_chain(
    f: Forest,
    pairs: Seq<(int, int)>,
    chain: Seq<int>,
    i: int,
    j: int,
) -> bool {
    &&& f.has(i)
    &&& chain.len() > 0
    &&& chain.first() == i
    &&& chain.last() == j
    &&& forall|t: int|
        0 <= t < chain.len() - 1 ==> is_link(f, pairs, #[trigger] chain[t], chain[t + 1])
}

proof fn lemma_connect_all_keeps_same_set(f: Forest, pairs: Seq<(int, int)>, u: int, v: int)
    requires
        f.wf(),
        f.same_set(u, v),
    ensures
        f.connect_all(pairs).same_set(u, v),
    decreases pairs.len(),
{
    if pairs.len() > 0 {
        let before = f.connect_all(pairs.drop_last());
        lemma_connect_all_keeps_same_set(f, pairs.drop_last(), u, v);
        f.lemma_connect_all(pairs.drop_last());
        before.lemma_connect(pairs.last().0, pairs.last().1);
    }
}

proof fn lemma_link_same_set(f: Forest, pairs: Seq<(int, int)>, u: int, v: int)
    requires
        f.wf(),
        is_link(f, pairs, u, v),
    ensures
        f.connect_all(pairs).same_set(u, v),
    decreases pairs.len(),
{
    if f.same_set(u, v) {
        lemma_connect_all_keeps_same_set(f, pairs, u, v);
    } else {
        let earlier = pairs.drop_last();
        let before = f.connect_all(earlier);
        let x = pairs.last();
        f.lemma_connect_all(earlier);
        before.lemma_connect(x.0, x.1);
        if x != (u, v) && x != (v, u) {
            let k = choose|k: int| 0 <= k < pairs.len() && (pairs[k] == (u, v) || pairs[k] == (v, u));
            assert(earlier[k] == pairs[k]);
            lemma_link_same_set(f, earlier, u, v);
        }
    }
}

proof fn lemma_chain_same_set(f: Forest, pairs: Seq<(int, int)>, chain: Seq<int>, i: int, j: int)
    requires
        f.wf(),
        is_chain(f, pairs, chain, i, j),
    ensures
        f.connect_all(pairs).same_set(i, j),
    decreases chain.len(),
{
    f.lemma_connect_all(pairs);
    if chain.len() > 1 {
        let shorter = chain.drop_last();
        let last = chain.len() - 1;
        assert forall|t: int| 0 <= t < shorter.len() - 1 implies is_link(
            f,
            pairs,
            #[trigger] shorter[t],
            shorter[t + 1],
        ) by {
            assert(is_link(f, pairs, chain[t], chain[t + 1]));
        }
        lemma_chain_same_set(f, pairs, shorter, i, chain[last - 1]);
        lemma_link_same_set(f, pairs, chain[last - 1], j);
    }
}

proof fn lemma_chains_joined(
    f: Forest,
    pairs: Seq<(int, int)>,
    left: Seq<int>,
    right: Seq<int>,
    i: int,
    u: int,
    v: int,
    j: int,
)
    requires
        is_chain(f, pairs, left, i, u),
        is_chain(f, pairs, right, v, j),
        is_link(f, pairs, u, v),
    ensures
        is_chain(f, pairs, left + right, i, j),
{
    let chain = left + right;
    assert forall|t: int| 0 <= t < chain.len() - 1 implies is_link(
        f,
        pairs,
        #[trigger] chain[t],
        chain[t + 1],
    ) by {
        if t < left.len() - 1 {
            assert(is_link(f, pairs, left[t], left[t + 1]));
        } else if t >= left.len() {
            assert(is_link(f, pairs, right[t - left.len()], right[t - left.len() + 1]));
        }
    }
}

proof fn lemma_chain_with_more_unions(
    f: Forest,
    pairs: Seq<(int, int)>,
    chain: Seq<int>,
    i: int,
    j: int,
)
    requires
        pairs.len() > 0,
        is_chain(f, pairs.drop_last(), chain, i, j),
    ensures
        is_chain(f, pairs, chain, i, j),
{
    let earlier = pairs.drop_last();
    assert forall|t: int| 0 <= t < chain.len() - 1 implies is_link(
        f,
        pairs,
        #[trigger] chain[t],
        chain[t + 1],
    ) by {
        let u = chain[t];
        let v = chain[t + 1];
        if earlier.contains((u, v)) {
            let k = choose|k: int| 0 <= k < earlier.len() && earlier[k] == (u, v);
        }
        if earlier.contains((v, u)) {
            let k = choose|k: int| 0 <= k < earlier.len() && earlier[k] == (v, u);
        }
    }
}

proof fn lemma_same_set_has_chain(f: Forest, pairs: Seq<(int, int)>, i: int, j: int) -> (chain: Seq<
    int,
>)
    requires
        f.wf(),
        f.connect_all(pairs).same_set(i, j),
    ensures
        is_chain(f, pairs, chain, i, j),
    decreases pairs.len(),
{
    if pairs.len() == 0 {
        seq![i, j]
    } else {
        let earlier = pairs.drop_last();
        let before = f.connect_all(earlier);
        let (a, b) = pairs.last();
        f.lemma_connect_all(earlier);
        before.lemma_connect(a, b);
        if before.same_set(i, j) {
            let chain = lemma_same_set_has_chain(f, earlier, i, j);
            lemma_chain_with_more_unions(f, pairs, chain, i, j);
            chain
        } else {
            if before.root(i) == before.root(b) {
                let left = lemma_same_set_has_chain(f, earlier, i, b);
                let right = lemma_same_set_has_chain(f, earlier, a, j);
                lemma_chain_with_more_unions(f, pairs, left, i, b);
                lemma_chain_with_more_unions(f, pairs, right, a, j);
                lemma_chains_joined(f, pairs, left, right, i, b, a, j);
                left + right
            } else {
                let left = lemma_same_set_has_chain(f, earlier, i, a);
                let right = lemma_same_set_has_chain(f, earlier, b, j);
                lemma_chain_with_more_unions(f, pairs, left, i, a);
                lemma_chain_with_more_unions(f, pairs, right, b, j);
                lemma_chains_joined(f, pairs, left, right, i, a, b, j);
                left + right
            }
        }
    }
}

/// After any unions, two identifiers stand in one set exactly when a chain of
/// direct ties leads from one to the other: each step of the chain joins two
/// identifiers that stood together before the unions or that one of the
/// unions names.
pub proof fn lemma_same_set_iff_chain(f: Forest, pairs: Seq<(int, int)>, i: int, j: int)
    requires
        f.wf(),
    ensures
        f.connect_all(pairs).same_set(i, j) <==> exists|chain: Seq<int>|
            is_chain(f, pairs, chain, i, j),
{
    if f.connect_all(pairs).same_set(i, j) {
        let chain = lemma_same_set_has_chain(f, pairs, i, j);
    }
    if exists|chain: Seq<int>| is_chain(f, pairs, chain, i, j) {
        let chain = choose|chain: Seq<int>| is_chain(f, pairs, chain, i, j);
        lemma_chain_same_set(f, pairs, chain, i, j);
    }
}

} // verus!
