use grids::{HexPoint, NDPoint, Point, UPoint};

#[test]
fn test() {
    let p = NDPoint::new(vec![1, 2]);
    for n in p.neighbors() {
        println!("{:?}", n.coords);
    }
}

#[test]
fn signed_cardinal_neighbors_are_manhattan_one() {
    let p = Point::new(2, 3);
    let ns = p.cardinal_neighbors();
    assert_eq!(ns.len(), 4);
    for n in ns.iter() {
        let d = (n.r - p.r).abs() + (n.c - p.c).abs();
        assert_eq!(d, 1);
    }
    assert_eq!(ns[0], Point::new(1, 3));
    assert_eq!(ns[1], Point::new(3, 3));
    assert_eq!(ns[2], Point::new(2, 2));
    assert_eq!(ns[3], Point::new(2, 4));
}

#[test]
fn signed_all_neighbors_are_chebyshev_one() {
    let p = Point::new(0, 0);
    let ns = p.all_neighbors();
    assert_eq!(ns.len(), 8);
    for n in ns.iter() {
        let d = (n.r - p.r).abs().max((n.c - p.c).abs());
        assert_eq!(d, 1);
    }
    for i in 0..8 {
        for j in (i + 1)..8 {
            assert_ne!(ns[i], ns[j]);
        }
    }
}

#[test]
fn signed_point_arithmetic() {
    let p = Point::new(6, -7);
    let q = Point::new(2, 2);
    assert_eq!(p.add(q), Point::new(8, -5));
    assert_eq!(p.sub(q), Point::new(4, -9));
    assert_eq!(p.mul(q), Point::new(12, -14));
    assert_eq!(p.div(q), Point::new(3, -3));
    assert_eq!(p.rem(q), Point::new(0, -1));
    assert_eq!(p.add_scalar(1), Point::new(7, -6));
    assert_eq!(p.sub_scalar(1), Point::new(5, -8));
    assert_eq!(p.mul_scalar(-2), Point::new(-12, 14));
    assert_eq!(p.div_scalar(2), Point::new(3, -3));
    assert_eq!(p.rem_scalar(2), Point::new(0, -1));
    assert_eq!(Point::scalar_add(1, p), Point::new(7, -6));
    assert_eq!(Point::scalar_sub(0, p), Point::new(-6, 7));
    assert_eq!(Point::scalar_mul(3, p), Point::new(18, -21));
    assert_eq!(Point::scalar_div(12, q), Point::new(6, 6));
    assert_eq!(Point::scalar_rem(7, q), Point::new(1, 1));
}

#[test]
fn truncating_division_follows_rust() {
    assert_eq!(grids::idiv(-7, 2), -3);
    assert_eq!(grids::irem(-7, 2), -1);
    assert_eq!(grids::idiv(7, -2), -3);
    assert_eq!(grids::irem(7, -2), 1);
    assert_eq!(grids::idiv(-7, -2), 3);
    assert_eq!(grids::irem(-7, -2), -1);
}

#[test]
fn unsigned_point_wraps() {
    let p = UPoint::new(0, 0);
    let ns = p.cardinal_neighbors();
    assert_eq!(ns[0], UPoint::new(usize::MAX, 0));
    assert_eq!(ns[1], UPoint::new(1, 0));
    assert_eq!(ns[2], UPoint::new(0, usize::MAX));
    assert_eq!(ns[3], UPoint::new(0, 1));
    assert_eq!(p.sub(UPoint::new(1, 0)), UPoint::new(usize::MAX, 0));
    assert_eq!(UPoint::new(usize::MAX, 1).add(UPoint::new(1, 1)), UPoint::new(0, 2));
    assert_eq!(UPoint::new(9, 7).div(UPoint::new(2, 2)), UPoint::new(4, 3));
    assert_eq!(UPoint::new(9, 7).rem_scalar(4), UPoint::new(1, 3));
}

#[test]
fn hex_length_is_half_the_cube_sum() {
    let h = HexPoint::new(2, -1);
    assert_eq!(h.q(), 2);
    assert_eq!(h.r(), -1);
    assert_eq!(h.s(), -1);
    assert_eq!(h.length(), 2);
    let origin = HexPoint::new(0, 0);
    assert_eq!(origin.length(), 0);
}

#[test]
fn hex_distance_is_symmetric() {
    let a = HexPoint::new(3, -2);
    let b = HexPoint::new(-1, 4);
    assert_eq!(a.distance(b), b.distance(a));
    assert_eq!(a.distance(a), 0);
}

#[test]
fn hex_neighbors_in_ring_order() {
    let h = HexPoint::new(0, 0);
    let ns = h.neighbors();
    assert_eq!(ns[0], HexPoint::new(1, 0));
    assert_eq!(ns[1], HexPoint::new(1, -1));
    assert_eq!(ns[2], HexPoint::new(0, -1));
    assert_eq!(ns[3], HexPoint::new(-1, 0));
    assert_eq!(ns[4], HexPoint::new(-1, 1));
    assert_eq!(ns[5], HexPoint::new(0, 1));
}

#[test]
fn nd_neighbors_count_and_distinct() {
    let p = NDPoint::new(vec![1, 2]);
    let ns = p.neighbors();
    assert_eq!(ns.len(), 8);
    for n in ns.iter() {
        assert_ne!(n.coords, p.coords);
    }
    for i in 0..ns.len() {
        for j in (i + 1)..ns.len() {
            assert_ne!(ns[i].coords, ns[j].coords);
        }
    }
    let three = NDPoint::new(vec![0, 0, 0]);
    assert_eq!(three.neighbors().len(), 26);
}

#[test]
fn nd_neighbors_lexicographic_order() {
    let p = NDPoint::new(vec![1, 2]);
    let ns = p.neighbors();
    let expected: Vec<Vec<isize>> = vec![
        vec![0, 1],
        vec![0, 2],
        vec![0, 3],
        vec![1, 1],
        vec![1, 3],
        vec![2, 1],
        vec![2, 2],
        vec![2, 3],
    ];
    for (n, e) in ns.iter().zip(expected.iter()) {
        assert_eq!(&n.coords, e);
    }
}

#[test]
fn nd_point_arithmetic() {
    let p = NDPoint::new(vec![4, -6, 9]);
    let q = NDPoint::new(vec![2, 3, -3]);
    assert_eq!(p.clone().add(q.clone()).coords, vec![6, -3, 6]);
    assert_eq!(p.clone().sub(q.clone()).coords, vec![2, -9, 12]);
    assert_eq!(p.clone().mul(q.clone()).coords, vec![8, -18, -27]);
    assert_eq!(p.clone().div(q.clone()).coords, vec![2, -2, -3]);
    assert_eq!(p.clone().rem(q.clone()).coords, vec![0, 0, 0]);
    assert_eq!(p.clone().add_scalar(1).coords, vec![5, -5, 10]);
    assert_eq!(NDPoint::scalar_sub(1, p.clone()).coords, vec![-3, 7, -8]);
    assert_eq!(p.offset(&[1, 1, 1]).coords, vec![5, -5, 10]);
    assert_eq!(p.ndim(), 3);
    assert_eq!(p, NDPoint::new(vec![4, -6, 9]));
    assert_ne!(p, q);
}
