use std::collections::HashMap;

use union_find::{Point, UnionFind};

fn pt(x: usize, y: usize) -> Point {
    Point::new(x, y)
}

/// The groups as coordinate pairs, ordered by their first member.
fn groups_of(uf: &UnionFind) -> Vec<Vec<(usize, usize)>> {
    let components: HashMap<usize, Vec<&Point>> = uf.get_connected_components();
    let mut groups: Vec<Vec<(usize, usize)>> = components
        .values()
        .map(|group| group.iter().map(|p| (p.x(), p.y())).collect())
        .collect();
    groups.sort();
    groups
}

fn lines(records: &[&str]) -> Vec<String> {
    records.iter().map(|r| format!("{}\n", r)).collect()
}

#[test]
fn point_keeps_its_coordinates() {
    let p = pt(3, 4);
    assert_eq!(p.x(), 3);
    assert_eq!(p.y(), 4);
    assert_eq!(p, pt(3, 4));
    assert_ne!(p, pt(4, 3));
    assert_ne!(p, pt(3, 5));
}

#[test]
fn new_registry_is_empty() {
    let uf = UnionFind::new();
    assert_eq!(uf.index(&pt(0, 0)), None);
    assert_eq!(uf.find_parent(0), None);
    assert!(uf.get_connected_components().is_empty());
}

#[test]
fn identifiers_are_dense_and_in_order_of_first_appearance() {
    let mut uf = UnionFind::new();
    assert_eq!(uf.add_point(pt(7, 7)), 0);
    assert_eq!(uf.add_point(pt(0, 0)), 1);
    assert_eq!(uf.add_point(pt(7, 0)), 2);
    assert_eq!(uf.add_point(pt(0, 7)), 3);
    assert_eq!(uf.index(&pt(7, 7)), Some(0));
    assert_eq!(uf.index(&pt(0, 0)), Some(1));
    assert_eq!(uf.index(&pt(7, 0)), Some(2));
    assert_eq!(uf.index(&pt(0, 7)), Some(3));
    assert_eq!(uf.index(&pt(1, 1)), None);
}

#[test]
fn same_point_gets_same_identifier() {
    let mut uf = UnionFind::new();
    let first = uf.add_point(pt(5, 9));
    assert_eq!(uf.add_point(pt(5, 9)), first);
    uf.add_point(pt(1, 2));
    uf.add_point(pt(9, 5));
    assert_eq!(uf.add_point(pt(5, 9)), first);
    assert_eq!(uf.find_parent(3), None);
}

#[test]
fn different_points_get_different_identifiers() {
    let mut uf = UnionFind::new();
    let a = uf.add_point(pt(1, 2));
    let b = uf.add_point(pt(2, 1));
    let c = uf.add_point(pt(1, 3));
    assert_ne!(a, b);
    assert_ne!(a, c);
    assert_ne!(b, c);
}

#[test]
fn registered_point_has_a_root() {
    let mut uf = UnionFind::new();
    for k in 0..10 {
        let id = uf.add_point(pt(k, 2 * k));
        assert_eq!(uf.find_parent(id), Some(id));
    }
    uf.connect(3, 4);
    uf.connect(4, 5);
    for id in 0..10 {
        assert!(uf.find_parent(id).is_some());
    }
}

#[test]
fn find_parent_of_unknown_identifier_is_none() {
    let mut uf = UnionFind::new();
    uf.add_point(pt(0, 0));
    uf.add_point(pt(1, 1));
    assert_eq!(uf.find_parent(2), None);
    assert_eq!(uf.find_parent(usize::MAX), None);
}

#[test]
fn root_of_first_argument_becomes_the_representative() {
    let mut uf = UnionFind::new();
    for k in 0..4 {
        uf.add_point(pt(k, k));
    }
    uf.connect(2, 1);
    assert_eq!(uf.find_parent(1), Some(2));
    assert_eq!(uf.find_parent(2), Some(2));
    uf.connect(0, 1);
    assert_eq!(uf.find_parent(0), Some(0));
    assert_eq!(uf.find_parent(1), Some(0));
    assert_eq!(uf.find_parent(2), Some(0));
    assert_eq!(uf.find_parent(3), Some(3));
    uf.connect(3, 1);
    for id in 0..4 {
        assert_eq!(uf.find_parent(id), Some(3));
    }
}

#[test]
fn connect_with_unknown_identifier_changes_nothing() {
    let mut uf = UnionFind::new();
    uf.add_point(pt(0, 0));
    uf.add_point(pt(1, 1));
    uf.connect(0, 2);
    uf.connect(2, 1);
    uf.connect(5, 6);
    assert_eq!(uf.find_parent(0), Some(0));
    assert_eq!(uf.find_parent(1), Some(1));
    assert_eq!(groups_of(&uf), vec![vec![(0, 0)], vec![(1, 1)]]);
}

#[test]
fn union_is_transitive() {
    let mut uf = UnionFind::new();
    let a = uf.add_point(pt(1, 0));
    let b = uf.add_point(pt(2, 0));
    let c = uf.add_point(pt(3, 0));
    uf.connect(a, b);
    uf.connect(b, c);
    assert_eq!(uf.find_parent(a), uf.find_parent(b));
    assert_eq!(uf.find_parent(b), uf.find_parent(c));

    let mut other = UnionFind::new();
    let a = other.add_point(pt(1, 0));
    let b = other.add_point(pt(2, 0));
    let c = other.add_point(pt(3, 0));
    other.connect(b, c);
    other.connect(a, b);
    assert_eq!(other.find_parent(a), other.find_parent(b));
    assert_eq!(other.find_parent(b), other.find_parent(c));
}

#[test]
fn union_twice_is_union_once() {
    let mut once = UnionFind::new();
    let mut twice = UnionFind::new();
    for k in 0..5 {
        once.add_point(pt(k, 1));
        twice.add_point(pt(k, 1));
    }
    once.connect(1, 3);
    twice.connect(1, 3);
    twice.connect(1, 3);
    for id in 0..5 {
        assert_eq!(once.find_parent(id), twice.find_parent(id));
    }
    assert_eq!(groups_of(&once), groups_of(&twice));
    assert_eq!(groups_of(&once), vec![vec![(0, 1)], vec![(1, 1), (3, 1)], vec![(2, 1)], vec![(4, 1)]]);
}

#[test]
fn grouping_does_not_depend_on_the_order_of_unions() {
    let unions = [(0, 1), (2, 3), (1, 2), (5, 6), (6, 4), (3, 0)];
    let orders: [[usize; 6]; 4] =
        [[0, 1, 2, 3, 4, 5], [5, 4, 3, 2, 1, 0], [2, 0, 4, 1, 5, 3], [3, 5, 1, 4, 0, 2]];
    let mut seen: Vec<Vec<Vec<(usize, usize)>>> = Vec::new();
    for order in orders.iter() {
        let mut uf = UnionFind::new();
        for k in 0..8 {
            uf.add_point(pt(k, 10 + k));
        }
        for &at in order.iter() {
            let (a, b) = unions[at];
            uf.connect(a, b);
        }
        seen.push(groups_of(&uf));
    }
    let expected = vec![
        vec![(0, 10), (1, 11), (2, 12), (3, 13)],
        vec![(4, 14), (5, 15), (6, 16)],
        vec![(7, 17)],
    ];
    for groups in seen {
        assert_eq!(groups, expected);
    }
}

#[test]
fn every_point_is_in_exactly_one_group() {
    let mut uf = UnionFind::new();
    for k in 0..9 {
        uf.add_point(pt(k % 3, k / 3));
    }
    uf.connect(0, 4);
    uf.connect(8, 4);
    uf.connect(1, 2);
    uf.connect(7, 6);
    let components = uf.get_connected_components();
    let mut all: Vec<(usize, usize)> = Vec::new();
    for (root, group) in components.iter() {
        assert_eq!(uf.find_parent(*root), Some(*root));
        assert!(!group.is_empty());
        for p in group.iter() {
            let id = uf.index(p).unwrap();
            assert_eq!(uf.find_parent(id), Some(*root));
            all.push((p.x(), p.y()));
        }
    }
    all.sort();
    let mut expected: Vec<(usize, usize)> = (0..9).map(|k| (k % 3, k / 3)).collect();
    expected.sort();
    assert_eq!(all, expected);
}

#[test]
fn groups_are_keyed_by_root_and_ordered_by_identifier() {
    let mut uf = UnionFind::new();
    for k in 0..6 {
        uf.add_point(pt(100 - k, k));
    }
    uf.connect(4, 1);
    uf.connect(1, 5);
    uf.connect(3, 0);
    let components = uf.get_connected_components();
    assert_eq!(components.len(), 3);
    let of = |root: usize| -> Vec<(usize, usize)> {
        components[&root].iter().map(|p| (p.x(), p.y())).collect()
    };
    assert_eq!(of(4), vec![(99, 1), (96, 4), (95, 5)]);
    assert_eq!(of(3), vec![(100, 0), (97, 3)]);
    assert_eq!(of(2), vec![(98, 2)]);
}

#[test]
fn add_pair_registers_and_connects() {
    let mut uf = UnionFind::new();
    uf.add_pair(pt(1, 1), pt(2, 2));
    assert_eq!(uf.index(&pt(1, 1)), Some(0));
    assert_eq!(uf.index(&pt(2, 2)), Some(1));
    assert_eq!(uf.find_parent(1), Some(0));
    uf.add_pair(pt(3, 3), pt(3, 3));
    assert_eq!(uf.index(&pt(3, 3)), Some(2));
    assert_eq!(uf.find_parent(2), Some(2));
    uf.add_pair(pt(3, 3), pt(2, 2));
    assert_eq!(uf.find_parent(0), Some(2));
    assert_eq!(groups_of(&uf), vec![vec![(1, 1), (2, 2), (3, 3)]]);
}

#[test]
fn chained_records_give_one_group() {
    let uf = UnionFind::load(&lines(&["[1, 1][2, 2]", "[2, 2][3, 3]"]));
    assert_eq!(groups_of(&uf), vec![vec![(1, 1), (2, 2), (3, 3)]]);
}

#[test]
fn disjoint_records_give_two_groups() {
    let uf = UnionFind::load(&lines(&["[0, 0][1, 1]", "[5, 5][6, 6]"]));
    assert_eq!(groups_of(&uf), vec![vec![(0, 0), (1, 1)], vec![(5, 5), (6, 6)]]);
}

#[test]
fn malformed_record_is_skipped() {
    let expected = vec![vec![(0, 0), (1, 1)], vec![(5, 5), (6, 6)]];
    let good = UnionFind::load(&lines(&["[0, 0][1, 1]", "[5, 5][6, 6]"]));
    for bad in [
        "[7, 7][8, 8",
        "[7, 7[8, 8]",
        "[7, 7]8, 8]",
        "7, 7][8, 8]",
        "x7, 7][8, 8]",
        "[7, 7][8]",
        "[7, 7][8, ]",
        "[7, 7][, 8]",
        "[7, 7][8, 8][9, 9]",
        "[7, 7][8, 8] 9",
        "[7 7][8 8]",
        "[7, 7][8, 8 8]",
        "",
        "garbage",
        "[7, x][8, 8]",
        "[7, -7][8, 8]",
        "[7, 7][8, 99999999999999999999999999]",
    ] {
        let uf = UnionFind::load(&lines(&["[0, 0][1, 1]", bad, "[5, 5][6, 6]"]));
        assert_eq!(groups_of(&uf), expected);
        assert_eq!(uf.index(&pt(7, 7)), None);
        assert_eq!(uf.index(&pt(8, 8)), None);
        assert_eq!(uf.index(&pt(5, 5)), Some(2));
        assert_eq!(uf.index(&pt(6, 6)), Some(3));
        assert_eq!(uf.find_parent(4), None);
        for id in 0..5 {
            assert_eq!(uf.find_parent(id), good.find_parent(id));
        }
    }
}

#[test]
fn record_without_closing_bracket_leaves_the_tables_alone() {
    let uf = UnionFind::load(&lines(&["[0, 0][1, 1]", "[7, 7][8, 8", "[5, 5][6, 6]"]));
    assert_eq!(uf.index(&pt(0, 0)), Some(0));
    assert_eq!(uf.index(&pt(1, 1)), Some(1));
    assert_eq!(uf.index(&pt(5, 5)), Some(2));
    assert_eq!(uf.index(&pt(6, 6)), Some(3));
    assert_eq!(uf.index(&pt(7, 7)), None);
    assert_eq!(uf.index(&pt(8, 8)), None);
    assert_eq!(uf.find_parent(0), Some(0));
    assert_eq!(uf.find_parent(1), Some(0));
    assert_eq!(uf.find_parent(2), Some(2));
    assert_eq!(uf.find_parent(3), Some(2));
    assert_eq!(uf.find_parent(4), None);
}

#[test]
fn group_sizes_add_up_to_the_number_of_points() {
    let mut uf = UnionFind::new();
    for k in 0..12 {
        uf.add_point(pt(k, k * k));
    }
    for (a, b) in [(0, 5), (5, 7), (11, 2), (3, 3), (9, 8), (8, 2)] {
        uf.connect(a, b);
    }
    let components = uf.get_connected_components();
    let total: usize = components.values().map(|group| group.len()).sum();
    assert_eq!(total, 12);
    for id in 0..12 {
        let root = uf.find_parent(id).unwrap();
        assert!(components.contains_key(&root));
    }
}

#[test]
fn repeated_record_does_not_duplicate_points() {
    let uf = UnionFind::load(&lines(&["[1, 1][2, 2]", "[2, 2][3, 3]", "[1, 1][2, 2]", "[3, 3][1, 1]"]));
    assert_eq!(groups_of(&uf), vec![vec![(1, 1), (2, 2), (3, 3)]]);
    assert_eq!(uf.find_parent(3), None);

    let mut uf = UnionFind::new();
    let a = uf.add_point(pt(1, 1));
    let b = uf.add_point(pt(2, 2));
    uf.connect(a, b);
    let again = uf.add_point(pt(2, 2));
    assert_eq!(again, b);
    uf.connect(a, again);
    assert_eq!(groups_of(&uf), vec![vec![(1, 1), (2, 2)]]);
}

#[test]
fn load_of_nothing_is_empty() {
    let uf = UnionFind::load(&[]);
    assert!(uf.get_connected_components().is_empty());
    assert_eq!(uf.find_parent(0), None);
}
