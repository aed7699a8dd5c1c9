use aoc25::ds::bitmask::BitMask;
use aoc25::ds::coords::{ComplexI, Point, Point3};
use aoc25::ds::dense_grid::DenseGrid2D;
use aoc25::ds::neighbors::{deltas4, deltas8};
use aoc25::ds::sparse_grid::SparseGrid;

#[test]
fn bitmask_basic() {
    let mut b = BitMask::new();
    b.set(0); b.set(3);
    assert!(b.test(0) && b.test(3));
    b.toggle(3);
    assert!(!b.test(3));
    b.clear(0);
    assert_eq!(b.count_ones(), 0);
    assert_eq!(b.value(), 0);
}

#[test]
fn from_and_with_bits() {
    let b = BitMask::with_bits(0b1010);
    assert!(b.test(1) && b.test(3));
    let c: BitMask = 0b11u128.into();
    assert!(c.test(0) && c.test(1));
}

#[test]
fn point_neighbors() {
    let p = Point::new(0, 0);
    let n4 = p.neighbors4();
    assert!(n4.contains(&Point::new(1, 0)));
    assert!(n4.contains(&Point::new(0, -1)));
    let n8 = p.neighbors8();
    assert!(n8.contains(&Point::new(1, 1)));
    assert!(n8.contains(&Point::new(-1, -1)));
}

#[test]
fn complex_rotations() {
    let v = ComplexI::new(1, 0);
    assert_eq!(v.mul_i(), ComplexI::new(0, 1));
    assert_eq!(v.mul_neg_i(), ComplexI::new(0, -1));
}

#[test]
fn point_ops_and_from() {
    let p: Point = (1, 2).into();
    assert_eq!(p, Point::new(1, 2));
    assert_eq!(Point::new(1, 2) + Point::new(3, 4), Point::new(4, 6));
    assert_eq!(Point::new(5, 5) - Point::new(2, 3), Point::new(3, 2));
}

#[test]
fn complex_add_sub() {
    let a = ComplexI::new(2, 3);
    let b = ComplexI::new(1, 1);
    assert_eq!(a + b, ComplexI::new(3, 4));
    assert_eq!(a - b, ComplexI::new(1, 2));
}

#[test]
fn point3_neighbors() {
    let p = Point3::new(0, 0, 0);
    let n6 = p.neighbors6();
    assert!(n6.contains(&Point3::new(1, 0, 0)) && n6.contains(&Point3::new(0, 0, -1)));
    let n26 = p.neighbors26();
    assert_eq!(n26.len(), 26);
    assert!(n26.contains(&Point3::new(1, 1, 1)));
}

#[test]
fn point_add_sub() {
    let a = Point::new(1, 1);
    let b = Point::new(0, 2);
    assert_eq!(a + b, Point::new(1, 3));
    assert_eq!(a - b, Point::new(1, -1));
}

#[test]
fn point3_add_sub() {
    let a = Point3::new(1, 2, 3);
    let b = Point3::new(-1, 0, 2);
    assert_eq!(a + b, Point3::new(0, 2, 5));
    assert_eq!(a - b, Point3::new(2, 2, 1));
}

#[test]
fn dense_grid_basic() {
    let mut g = DenseGrid2D::new(3, 2, 0);
    assert_eq!(g.width(), 3);
    assert_eq!(g.height(), 2);
    assert!(g.in_bounds(0, 0));
    assert!(!g.in_bounds(-1, 0));
    *g.get_mut(1, 1) = 9;
    assert_eq!(*g.get(1, 1), 9);
    let n4: Vec<_> = g.neighbors4(1, 0).into_iter().collect();
    assert!(
        n4.contains(&Point::new(0, 0))
            && n4.contains(&Point::new(2, 0))
            && n4.contains(&Point::new(1, 1))
    );
    let n8: Vec<_> = g.neighbors8(0, 0).into_iter().collect();
    assert!(n8.contains(&Point::new(1, 1)));
}

#[test]
fn deltas() {
    assert!(deltas4().contains(&Point { x: 1, y: 0 }));
    assert!(deltas8().contains(&Point { x: -1, y: -1 }));
}

#[test]
fn sparse_grid_basic() {
    let mut g = SparseGrid::new();
    assert!(g.is_empty());
    g.insert(Point::new(2,3), 9);
    g.insert(Point::new(-1,0), 7);
    assert_eq!(g.len(), 2);
    // iterate cells
    let mut seen = 0;
    for (_p, _v) in g.iter() { seen+=1; }
    assert_eq!(seen, 2);
    assert_eq!(g.get(&Point::new(2,3)), Some(&9));
    if let Some(v) = g.get_mut(&Point::new(2,3)) { *v += 1; }
    assert_eq!(g.get(&Point::new(2,3)), Some(&10));
    let b = g.bounds().unwrap();
    assert_eq!(b, (-1,2,0,3));
    assert_eq!(g.remove(&Point::new(2,3)), Some(10));
    assert!(g.get(&Point::new(2,3)).is_none());
    // Removing missing key returns None
    assert_eq!(g.remove(&Point::new(99,99)), None);
    // Bounds None when empty
    let mut g2: SparseGrid<i32> = SparseGrid::new();
    assert!(g2.bounds().is_none());
}

#[test]
fn bitmask_counts_members() {
    let mut b = BitMask::with_bits(0b1011);
    assert_eq!(b.count_ones(), 3);
    b.set(127);
    assert_eq!(b.count_ones(), 4);
    assert!(b.test(127));
    assert_eq!(BitMask::with_bits(u128::MAX).count_ones(), 128);
}
