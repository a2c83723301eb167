use grids::{BinaryTree, Line, Matrix, Point, StrExt, TreeNode};

#[test]
fn primality_examples() {
    assert!(grids::is_prime(2));
    assert!(grids::is_prime(3));
    assert!(grids::is_prime(5));
    assert!(grids::is_prime(97));
    assert!(!grids::is_prime(1));
    assert!(!grids::is_prime(0));
    assert!(!grids::is_prime(-5));
    assert!(!grids::is_prime(49));
    assert!(!grids::is_prime(91));
}

#[test]
fn gcd_and_lcm_examples() {
    assert_eq!(grids::gcd(12, 18), 6);
    assert_eq!(grids::gcd(-4, 6), 2);
    assert_eq!(grids::gcd(0, 5), 5);
    assert_eq!(grids::gcd(0, 0), 0);
    assert_eq!(grids::lcm(4, 6), 12);
    assert_eq!(grids::lcm(-4, 6), -12);
}

#[test]
fn factorial_examples() {
    assert_eq!(grids::factorial(0), 1);
    assert_eq!(grids::factorial(1), 1);
    assert_eq!(grids::factorial(5), 120);
}

#[test]
fn binomial_examples() {
    assert_eq!(grids::n_choose_k(5, 2), 10);
    assert_eq!(grids::n_choose_k(5, 0), 1);
    assert_eq!(grids::n_choose_k(5, 5), 1);
    assert_eq!(grids::n_choose_k(5, -1), 0);
    assert_eq!(grids::n_choose_k(3, 5), 0);
    assert_eq!(grids::n_choose_k(10, 3), 120);
}

#[test]
fn pow_examples() {
    assert_eq!(grids::pow(2, 10), 1024);
    assert_eq!(grids::pow(3, 0), 1);
    assert_eq!(grids::pow(-2, 3), -8);
    assert_eq!(grids::pow(7, 1), 7);
}

#[test]
fn matrix_add_sub_transpose() {
    let mut a = Matrix::new(2, 2);
    let i = Matrix::identity(2);
    a = a.add(&i);
    assert_eq!(a.entry(0, 0), 1);
    assert_eq!(a.entry(0, 1), 0);
    let z = a.sub(&i);
    assert_eq!(z.entry(1, 1), 0);
    let mut b = Matrix::new(2, 3);
    assert_eq!(b.row_count(), 2);
    assert_eq!(b.col_count(), 3);
    b = b.add(&Matrix::new(2, 3));
    let t = b.transpose();
    assert_eq!(t.row_count(), 3);
    assert_eq!(t.col_count(), 2);
}

#[test]
fn matrix_multiplication() {
    let mut a = Matrix::new(2, 2);
    {
        let i = Matrix::identity(2);
        a = a.add(&i);
        a = a.add(&i);
    }
    let b = Matrix::identity(2);
    let p = a.mul(&b);
    assert_eq!(p.entry(0, 0), 2);
    assert_eq!(p.entry(0, 1), 0);
    assert_eq!(p.entry(1, 0), 0);
    assert_eq!(p.entry(1, 1), 2);
}

#[test]
fn line_through_points() {
    let l = Line::new(Point::new(0, 0), Point::new(2, 2));
    assert_eq!((l.a, l.b, l.c), (1, -1, 0));
    assert!(l.contains(Point::new(1, 1)));
    assert!(!l.contains(Point::new(1, 2)));
    assert_eq!(l.signed_distance_num(Point::new(0, 2)), 2);
    assert_eq!(l.side(Point::new(0, 2)), 1);
    assert_eq!(l.side(Point::new(2, 0)), -1);
    assert_eq!(l.side(Point::new(1, 1)), 0);
}

#[test]
fn line_normalization_and_parallels() {
    let l = Line { a: 2, b: 4, c: 6 }.normalized();
    assert_eq!((l.a, l.b, l.c), (1, 2, 3));
    let flipped = Line { a: -2, b: 4, c: 6 }.normalized();
    assert_eq!((flipped.a, flipped.b, flipped.c), (1, -2, -3));
    let m = Line { a: 1, b: 2, c: 9 };
    assert!(l.parallel(&m));
    assert!(!l.same(&m));
    assert!(l.same(&Line { a: 1, b: 2, c: 3 }));
    assert_eq!(l.direction(), Point { r: -1, c: 2 });
    assert_eq!(l.normal(), Point { r: 2, c: 1 });
}

#[test]
fn tree_inorder_is_sorted_insertion() {
    let n = TreeNode::new(7);
    assert_eq!(n.val, 7);
    assert_eq!(n.left, None);
    assert_eq!(n.right, None);
    let mut t = BinaryTree::new();
    assert_eq!(t.inorder(), Vec::<isize>::new());
    t.insert(5);
    t.insert(3);
    t.insert(8);
    t.insert(1);
    t.insert(4);
    assert_eq!(t.inorder(), vec![1, 3, 4, 5, 8]);
}

#[test]
fn split_and_join_text() {
    let lines = grids::split_text("AB\nC D\n\nE");
    let views: Vec<String> = lines.iter().map(|l| l.iter().collect()).collect();
    assert_eq!(views, vec!["AB", "C D", "", "E"]);
    let joined = grids::join_text(&lines);
    assert_eq!(joined, "AB\nC D\n\nE");
    assert_eq!(grids::split_text("").len(), 0);
    assert_eq!(grids::split_text("x\n").len(), 1);
}

#[test]
fn drop_and_take_lines() {
    let s = "a\nb\nc";
    assert_eq!(s.drop_lines(1), "b\nc");
    assert_eq!(s.drop_lines(2), "c");
    assert_eq!(s.drop_lines(3), "");
    assert_eq!(s.drop_lines(5), "");
    assert_eq!("abc".drop_lines(0), "");
    assert_eq!(s.take_lines(0), "");
    assert_eq!(s.take_lines(1), "a");
    assert_eq!(s.take_lines(2), "a\nb");
    assert_eq!(s.take_lines(9), "a\nb\nc");
}

#[test]
fn split_on_blank_lines() {
    let pieces = "a\n\nb\nc\n\n\nd".sdnl();
    assert_eq!(pieces, vec!["a", "b\nc", "\nd"]);
    assert_eq!("".sdnl(), vec![""]);
    assert_eq!("a".sdnl(), vec!["a"]);
    assert_eq!("a\n\n".sdnl(), vec!["a", ""]);
}
