use grids::{Dynamic2DGrid, HexGrid, HexPoint, NDGrid, NDPoint, Point, Static2DGrid, UPoint};

#[test]
fn sparse_set_then_get_returns_value() {
    let mut g: Dynamic2DGrid<i32> = Dynamic2DGrid::new();
    assert!(g.is_empty());
    assert!(g.is_blank());
    assert_eq!(g.set(Point::new(0, 0), 5), None);
    assert_eq!(g.set(Point::new(2, 3), 7), None);
    assert_eq!(g.get(&Point::new(0, 0)), Some(&5));
    assert_eq!(g.get(&Point::new(2, 3)), Some(&7));
    assert_eq!(g.get(&Point::new(1, 1)), None);
    assert_eq!(g.set(Point::new(0, 0), 9), Some(5));
    assert_eq!(g.get(&Point::new(0, 0)), Some(&9));
    assert!(!g.is_empty());
}

#[test]
fn sparse_bounds_rows_columns() {
    let mut g: Dynamic2DGrid<char> = Dynamic2DGrid::new();
    assert_eq!(g.bounds(), None);
    assert_eq!(g.rows(), None);
    assert_eq!(g.columns(), None);
    g.set(Point::new(0, 0), 'a');
    g.set(Point::new(2, 3), 'b');
    assert_eq!(g.bounds(), Some((Point::new(0, 0), Point::new(2, 3))));
    assert_eq!(g.rows(), Some(3));
    assert_eq!(g.columns(), Some(4));
}

#[test]
fn sparse_get_mut_updates_in_place() {
    let mut g: Dynamic2DGrid<i32> = Dynamic2DGrid::new();
    g.set(Point::new(1, 1), 10);
    match g.get_mut(&Point::new(1, 1)) {
        Some(v) => *v += 5,
        None => panic!("expected a stored value"),
    }
    assert_eq!(g.get(&Point::new(1, 1)), Some(&15));
    assert!(g.get_mut(&Point::new(9, 9)).is_none());
}

#[test]
fn sparse_iteration_follows_insertion_order() {
    let mut g: Dynamic2DGrid<i32> = Dynamic2DGrid::new();
    g.set(Point::new(0, 0), 1);
    g.set(Point::new(1, 0), 2);
    g.set(Point::new(0, 1), 3);
    let vals: Vec<i32> = g.iter().into_iter().map(|v| *v).collect();
    assert_eq!(vals, vec![1, 2, 3]);
    let pairs: Vec<(Point, i32)> = g.indexed_iter().into_iter().map(|(p, v)| (p, *v)).collect();
    assert_eq!(
        pairs,
        vec![(Point::new(0, 0), 1), (Point::new(1, 0), 2), (Point::new(0, 1), 3)]
    );
    let owned = g.into_indexed_iter();
    assert_eq!(owned.len(), 3);
    assert_eq!(owned[2], (Point::new(0, 1), 3));
}

#[test]
fn sparse_from_pairs_last_entry_wins() {
    let g = Dynamic2DGrid::from_pairs(vec![
        (Point::new(0, 0), 1),
        (Point::new(1, 1), 2),
        (Point::new(0, 0), 3),
    ]);
    assert_eq!(g.get(&Point::new(0, 0)), Some(&3));
    assert_eq!(g.get(&Point::new(1, 1)), Some(&2));
}

#[test]
fn sparse_all_any_probe_the_missing_cell_too() {
    let empty: Dynamic2DGrid<i32> = Dynamic2DGrid::new();
    assert!(!empty.all(|v: Option<&i32>| v.is_some()));
    assert!(empty.any(|v: Option<&i32>| v.is_none()));
    let mut g: Dynamic2DGrid<i32> = Dynamic2DGrid::new();
    g.set(Point::new(0, 0), 4);
    g.set(Point::new(0, 1), 6);
    assert!(g.all(|v: Option<&i32>| v.map_or(true, |x| x % 2 == 0)));
    assert!(g.indexed_all(|_p, v: Option<&i32>| v.map_or(false, |x| *x > 0)));
    assert!(g.any(|v: Option<&i32>| v.map_or(false, |x| *x == 6)));
    assert!(!g.indexed_any(|p, _v: Option<&i32>| p.r > 5));
}

#[test]
fn sparse_filter_map_retain() {
    let mut g: Dynamic2DGrid<i32> = Dynamic2DGrid::new();
    g.set(Point::new(0, 0), 1);
    g.set(Point::new(0, 1), 2);
    g.set(Point::new(0, 2), 3);
    let kept = g.filter(|v: Option<&i32>| v.map_or(false, |x| x % 2 == 1));
    assert_eq!(kept.len(), 2);
    assert_eq!(kept[0], Some(&1));
    assert_eq!(kept[1], Some(&3));
    let doubled = g.map(|v: Option<&i32>| v.map(|x| x * 2));
    assert_eq!(doubled, vec![Some(2), Some(4), Some(6)]);
    let tagged = g.indexed_map(|p, v: Option<&i32>| v.map(|x| p.c + *x as isize));
    assert_eq!(tagged.len(), 3);
    assert_eq!(tagged[1], (Point::new(0, 1), Some(3)));
    g.retain(|v: Option<&i32>| v.map_or(false, |x| *x != 2));
    assert_eq!(g.get(&Point::new(0, 1)), None);
    assert_eq!(g.get(&Point::new(0, 0)), Some(&1));
    g.indexed_retain(|p, _v: Option<&i32>| p.c == 0);
    assert_eq!(g.get(&Point::new(0, 2)), None);
    assert_eq!(g.get(&Point::new(0, 0)), Some(&1));
}

#[test]
fn sparse_update_reads_only_pre_update_values() {
    let a = Point::new(0, 0);
    let b = Point::new(0, 1);
    let mut g: Dynamic2DGrid<i32> = Dynamic2DGrid::new();
    g.set(a, 1);
    g.set(b, 10);
    let old_a = *g.get(&a).unwrap();
    let old_b = *g.get(&b).unwrap();
    g.indexed_update(|p, _v: Option<&i32>| {
        if p == a {
            Some(old_b)
        } else {
            Some(old_a)
        }
    });
    assert_eq!(g.get(&a), Some(&10));
    assert_eq!(g.get(&b), Some(&1));
}

#[test]
fn sparse_plain_update_keeps_on_none() {
    let mut g: Dynamic2DGrid<i32> = Dynamic2DGrid::new();
    g.set(Point::new(0, 0), 3);
    g.set(Point::new(1, 0), 4);
    g.update(|v: Option<&i32>| v.and_then(|x| if x % 2 == 0 { Some(x + 1) } else { None }));
    assert_eq!(g.get(&Point::new(0, 0)), Some(&3));
    assert_eq!(g.get(&Point::new(1, 0)), Some(&5));
}

#[test]
fn sparse_neighbors_skip_absent_cells() {
    let mut g: Dynamic2DGrid<i32> = Dynamic2DGrid::new();
    g.set(Point::new(0, 1), 1);
    g.set(Point::new(2, 1), 2);
    g.set(Point::new(1, 0), 3);
    g.set(Point::new(5, 5), 9);
    let center = Point::new(1, 1);
    let vals: Vec<i32> = g.cardinal_neighbors(center).into_iter().map(|v| *v).collect();
    assert_eq!(vals, vec![1, 2, 3]);
    let coords = g.indexed_cardinal_neighbors(center);
    assert_eq!(coords, vec![Point::new(0, 1), Point::new(2, 1), Point::new(1, 0)]);
    let ring = g.indexed_all_neighbors(Point::new(1, 1));
    assert_eq!(ring.len(), 3);
    assert_eq!(g.all_neighbors(Point::new(4, 4)).len(), 1);
}

#[test]
fn sparse_round_trip_text() {
    let g = Dynamic2DGrid::from_text("AB\nC D");
    assert_eq!(g.get(&Point::new(0, 0)), Some(&'A'));
    assert_eq!(g.get(&Point::new(1, 1)), None);
    assert_eq!(g.render(), "AB\nC D");
    let empty = Dynamic2DGrid::from_text("");
    assert_eq!(empty.render(), "");
}

#[test]
fn dense_new_is_blank() {
    let g: Static2DGrid<char> = Static2DGrid::new(3, 4);
    assert_eq!(g.rows(), 3);
    assert_eq!(g.columns(), 4);
    assert!(g.is_blank());
    assert!(!g.is_empty());
    for r in 0..3 {
        for c in 0..4 {
            assert_eq!(g.get(r, c), None);
        }
    }
    let nil: Static2DGrid<char> = Static2DGrid::new(0, 0);
    assert!(nil.is_empty());
}

#[test]
fn dense_set_and_find() {
    let mut g: Static2DGrid<char> = Static2DGrid::new(3, 4);
    assert_eq!(g.set(1, 1, 'x'), None);
    assert_eq!(g.find(Some(&'x')), Some(UPoint::new(1, 1)));
    assert_eq!(g.find(None), Some(UPoint::new(0, 0)));
    assert_eq!(g.find(Some(&'q')), None);
    assert_eq!(g.set(1, 1, 'y'), Some('x'));
    assert_eq!(g.get(1, 1), Some(&'y'));
    assert_eq!(g.set(9, 9, 'z'), None);
    assert_eq!(g.get(9, 9), None);
    assert!(g.in_bounds(2, 3));
    assert!(!g.in_bounds(3, 0));
}

#[test]
fn dense_get_mut_writes_cell() {
    let mut g: Static2DGrid<i32> = Static2DGrid::new(2, 2);
    g.set(0, 1, 41);
    match g.get_mut(0, 1) {
        Some(v) => *v += 1,
        None => panic!("expected an occupied cell"),
    }
    assert_eq!(g.get(0, 1), Some(&42));
    assert!(g.get_mut(0, 0).is_none());
    assert!(g.get_mut(5, 0).is_none());
}

#[test]
fn dense_combinators_visit_every_cell() {
    let mut g: Static2DGrid<i32> = Static2DGrid::new(2, 2);
    g.set(0, 0, 1);
    g.set(1, 1, 2);
    assert!(!g.all(|v: Option<&i32>| v.is_some()));
    assert!(g.any(|v: Option<&i32>| v.is_none()));
    assert!(g.indexed_all(|r, c, v: Option<&i32>| (r == c) == v.is_some()));
    assert!(g.indexed_any(|r, c, v: Option<&i32>| r == 1 && c == 1 && v == Some(&2)));
    let kept = g.filter(|v: Option<&i32>| v.is_some());
    assert_eq!(kept.len(), 2);
    let triples = g.indexed_filter(|_r, _c, v: Option<&i32>| v.is_none());
    assert_eq!(triples.len(), 2);
    assert_eq!(triples[0].0, 0);
    assert_eq!(triples[0].1, 1);
    let states = g.map(|v: Option<&i32>| v.map(|x| x * 10));
    assert_eq!(states, vec![Some(10), None, None, Some(20)]);
    let cells = g.iter();
    assert_eq!(cells.len(), 4);
    let indexed = g.indexed_iter();
    assert_eq!(indexed[3], (1, 1, &Some(2)));
}

#[test]
fn dense_retain_and_update() {
    let mut g: Static2DGrid<i32> = Static2DGrid::new(1, 3);
    g.set(0, 0, 1);
    g.set(0, 1, 2);
    g.set(0, 2, 3);
    g.retain(|v: Option<&i32>| v.map_or(true, |x| x % 2 == 1));
    assert_eq!(g.get(0, 1), None);
    g.update(|v: Option<&i32>| Some(v.map_or(0, |x| *x + 1)));
    assert_eq!(g.get(0, 0), Some(&2));
    assert_eq!(g.get(0, 1), Some(&0));
    assert_eq!(g.get(0, 2), Some(&4));
    g.indexed_update(|_r, c, v: Option<&i32>| if c == 0 { None } else { v.copied() });
    assert_eq!(g.get(0, 0), None);
    assert_eq!(g.get(0, 2), Some(&4));
}

#[test]
fn dense_update_reads_only_pre_update_values() {
    let mut g: Static2DGrid<i32> = Static2DGrid::new(1, 2);
    g.set(0, 0, 1);
    g.set(0, 1, 10);
    let before: Vec<(usize, usize, Option<i32>)> =
        g.indexed_iter().into_iter().map(|(r, c, v)| (r, c, v.clone())).collect();
    let cell_b = before[1].2;
    let cell_a = before[0].2;
    g.indexed_update(move |_r, c, _v: Option<&i32>| if c == 0 { cell_b } else { cell_a });
    assert_eq!(g.get(0, 0), Some(&10));
    assert_eq!(g.get(0, 1), Some(&1));
}

#[test]
fn dense_neighbors_respect_bounds() {
    let mut g: Static2DGrid<i32> = Static2DGrid::new(2, 2);
    g.set(0, 0, 1);
    g.set(0, 1, 2);
    g.set(1, 0, 3);
    g.set(1, 1, 4);
    let vals: Vec<i32> = g.cardinal_neighbors(0, 0).into_iter().map(|v| *v).collect();
    assert_eq!(vals, vec![3, 2]);
    let coords = g.indexed_cardinal_neighbors(0, 0);
    assert_eq!(coords, vec![UPoint::new(1, 0), UPoint::new(0, 1)]);
    let ring: Vec<i32> = g.all_neighbors(1, 1).into_iter().map(|v| *v).collect();
    assert_eq!(ring, vec![2, 3, 1]);
    assert_eq!(g.indexed_all_neighbors(1, 1).len(), 3);
}

#[test]
fn dense_round_trip_text() {
    let g = Static2DGrid::from_text("AB\nC D");
    assert_eq!(g.rows(), 2);
    assert_eq!(g.columns(), 3);
    assert_eq!(g.get(0, 0), Some(&'A'));
    assert_eq!(g.get(1, 1), None);
    assert_eq!(g.render(), "AB\nC D");
    let padded = Static2DGrid::from_text("AB \nC D");
    assert_eq!(padded.render(), "AB\nC D");
    let blank: Static2DGrid<char> = Static2DGrid::from_text("");
    assert_eq!(blank.render(), "");
}

#[test]
fn dense_into_indexed_iter_row_major() {
    let mut g: Static2DGrid<i32> = Static2DGrid::new(2, 2);
    g.set(0, 1, 7);
    let cells = g.into_indexed_iter();
    assert_eq!(cells, vec![(0, 0, None), (0, 1, Some(7)), (1, 0, None), (1, 1, None)]);
}

#[test]
fn hex_grid_set_get_neighbors() {
    let mut g: HexGrid<i32> = HexGrid::new();
    assert!(g.is_empty());
    assert_eq!(g.set(HexPoint::new(0, 0), 1), None);
    assert_eq!(g.set(HexPoint::new(1, 0), 2), None);
    assert_eq!(g.set(HexPoint::new(0, 1), 3), None);
    assert_eq!(g.set(HexPoint::new(0, 0), 5), Some(1));
    assert_eq!(g.get(&HexPoint::new(0, 0)), Some(&5));
    let vals: Vec<i32> = g.neighbors(HexPoint::new(0, 0)).into_iter().map(|v| *v).collect();
    assert_eq!(vals, vec![2, 3]);
    let coords = g.indexed_neighbors(HexPoint::new(0, 0));
    assert_eq!(coords, vec![HexPoint::new(1, 0), HexPoint::new(0, 1)]);
    assert_eq!(g.bounds(), Some((HexPoint::new(0, 0), HexPoint::new(1, 1))));
    assert_eq!(g.rows(), Some(2));
    assert_eq!(g.columns(), Some(2));
}

#[test]
fn nd_grid_set_get_and_neighbors() {
    let mut g: NDGrid<i32> = NDGrid::new();
    assert!(g.is_empty());
    assert_eq!(g.set(NDPoint::new(vec![0, 0]), 1), None);
    assert_eq!(g.set(NDPoint::new(vec![0, 1]), 2), None);
    assert_eq!(g.set(NDPoint::new(vec![0, 0]), 3), Some(1));
    assert_eq!(g.get(&NDPoint::new(vec![0, 0])), Some(&3));
    assert_eq!(g.get(&NDPoint::new(vec![1, 1])), None);
    let vals: Vec<i32> = g.neighbors(&NDPoint::new(vec![0, 0])).into_iter().map(|v| *v).collect();
    assert_eq!(vals, vec![2]);
    let coords = g.indexed_neighbors(&NDPoint::new(vec![1, 1]));
    assert_eq!(coords.len(), 2);
    assert_eq!(coords[0].coords, vec![0, 0]);
    assert_eq!(coords[1].coords, vec![0, 1]);
    let pairs = g.indexed_iter();
    assert_eq!(pairs.len(), 2);
    assert_eq!(*pairs[0].1, 3);
    g.retain(|v: Option<&i32>| v.map_or(false, |x| *x > 2));
    assert!(g.get(&NDPoint::new(vec![0, 1])).is_none());
    assert_eq!(g.get(&NDPoint::new(vec![0, 0])), Some(&3));
}
