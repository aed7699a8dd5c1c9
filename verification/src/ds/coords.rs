//! Points and vectors with integer coordinates.

use vstd::prelude::*;
use vstd::std_specs::convert::FromSpecImpl;
use vstd::std_specs::ops::{AddSpecImpl, SubSpecImpl};

verus! {

/// A point of the plane.
#[derive(Copy, Clone, Debug, PartialEq, Eq, Structural, Hash)]
pub struct Point {
    pub x: i64,
    pub y: i64,
}

impl Default for Point {
    fn default() -> (p: Self)
        ensures
            p == (Point { x: 0, y: 0 }),
    {
        Point { x: 0, y: 0 }
    }
}

impl Point {
    /// The point `(x, y)`.
    pub fn new(x: i64, y: i64) -> (p: Self)
        ensures
            p == (Point { x, y }),
    {
        Point { x, y }
    }

    /// The point moved by `dx` and `dy`.
    pub open spec fn moved(self, dx: int, dy: int) -> Point {
        Point { x: (self.x + dx) as i64, y: (self.y + dy) as i64 }
    }

    /// Both coordinates can move by one in either direction.
    pub open spec fn has_neighbors(self) -> bool {
        i64::MIN < self.x < i64::MAX && i64::MIN < self.y < i64::MAX
    }

    /// The four points one step away along an axis: east, west, south,
    /// north.
    pub fn neighbors4(self) -> (n: [Point; 4])
        requires
            self.has_neighbors(),
        ensures
            n@ == seq![
                self.moved(1, 0),
                self.moved(-1, 0),
                self.moved(0, 1),
                self.moved(0, -1),
            ],
    {
        let n = [
            Point::new(self.x + 1, self.y),
            Point::new(self.x - 1, self.y),
            Point::new(self.x, self.y + 1),
            Point::new(self.x, self.y - 1),
        ];
        assert(n@ =~= seq![
            self.moved(1, 0),
            self.moved(-1, 0),
            self.moved(0, 1),
            self.moved(0, -1),
        ]);
        n
    }

    /// The eight points one step away along an axis or a diagonal.
    pub fn neighbors8(self) -> (n: [Point; 8])
        requires
            self.has_neighbors(),
        ensures
            n@ == seq![
                self.moved(1, 0),
                self.moved(-1, 0),
                self.moved(0, 1),
                self.moved(0, -1),
                self.moved(1, 1),
                self.moved(1, -1),
                self.moved(-1, 1),
                self.moved(-1, -1),
            ],
    {
        let n = [
            Point::new(self.x + 1, self.y),
            Point::new(self.x - 1, self.y),
            Point::new(self.x, self.y + 1),
            Point::new(self.x, self.y - 1),
            Point::new(self.x + 1, self.y + 1),
            Point::new(self.x + 1, self.y - 1),
            Point::new(self.x - 1, self.y + 1),
            Point::new(self.x - 1, self.y - 1),
        ];
        assert(n@ =~= seq![
            self.moved(1, 0),
            self.moved(-1, 0),
            self.moved(0, 1),
            self.moved(0, -1),
            self.moved(1, 1),
            self.moved(1, -1),
            self.moved(-1, 1),
            self.moved(-1, -1),
        ]);
        n
    }
}

impl From<(i64, i64)> for Point {
    fn from(t: (i64, i64)) -> (p: Self) {
        Point { x: t.0, y: t.1 }
    }
}

impl FromSpecImpl<(i64, i64)> for Point {
    open spec fn obeys_from_spec() -> bool {
        true
    }

    open spec fn from_spec(t: (i64, i64)) -> Self {
        Point { x: t.0, y: t.1 }
    }
}

impl core::ops::Add for Point {
    type Output = Point;

    fn add(self, rhs: Point) -> (sum: Point) {
        Point { x: self.x + rhs.x, y: self.y + rhs.y }
    }
}

impl AddSpecImpl for Point {
    open spec fn obeys_add_spec() -> bool {
        true
    }

    open spec fn add_req(self, rhs: Point) -> bool {
        i64::MIN <= self.x + rhs.x <= i64::MAX && i64::MIN <= self.y + rhs.y <= i64::MAX
    }

    open spec fn add_spec(self, rhs: Point) -> Point {
        Point { x: (self.x + rhs.x) as i64, y: (self.y + rhs.y) as i64 }
    }
}

impl core::ops::Sub for Point {
    type Output = Point;

    fn sub(self, rhs: Point) -> (diff: Point) {
        Point { x: self.x - rhs.x, y: self.y - rhs.y }
    }
}

impl SubSpecImpl for Point {
    open spec fn obeys_sub_spec() -> bool {
        true
    }

    open spec fn sub_req(self, rhs: Point) -> bool {
        i64::MIN <= self.x - rhs.x <= i64::MAX && i64::MIN <= self.y - rhs.y <= i64::MAX
    }

    open spec fn sub_spec(self, rhs: Point) -> Point {
        Point { x: (self.x - rhs.x) as i64, y: (self.y - rhs.y) as i64 }
    }
}

/// A complex number with integer parts.
#[derive(Copy, Clone, Debug, PartialEq, Eq, Structural, Hash)]
pub struct ComplexI {
    pub re: i64,
    pub im: i64,
}

impl Default for ComplexI {
    fn default() -> (c: Self)
        ensures
            c == (ComplexI { re: 0, im: 0 }),
    {
        ComplexI { re: 0, im: 0 }
    }
}

impl ComplexI {
    /// The number `re + im i`.
    pub fn new(re: i64, im: i64) -> (c: Self)
        ensures
            c == (ComplexI { re, im }),
    {
        ComplexI { re, im }
    }

    /// This number times `i`: a quarter turn counter-clockwise.
    pub fn mul_i(self) -> (c: Self)
        requires
            self.im != i64::MIN,
        ensures
            c.re == -self.im,
            c.im == self.re,
    {
        ComplexI { re: -self.im, im: self.re }
    }

    /// This number times `-i`: a quarter turn clockwise.
    pub fn mul_neg_i(self) -> (c: Self)
        requires
            self.re != i64::MIN,
        ensures
            c.re == self.im,
            c.im == -self.re,
    {
        ComplexI { re: self.im, im: -self.re }
    }
}

impl core::ops::Add for ComplexI {
    type Output = ComplexI;

    fn add(self, rhs: ComplexI) -> (sum: ComplexI) {
        ComplexI { re: self.re + rhs.re, im: self.im + rhs.im }
    }
}

impl AddSpecImpl for ComplexI {
    open spec fn obeys_add_spec() -> bool {
        true
    }

    open spec fn add_req(self, rhs: ComplexI) -> bool {
        i64::MIN <= self.re + rhs.re <= i64::MAX && i64::MIN <= self.im + rhs.im <= i64::MAX
    }

    open spec fn add_spec(self, rhs: ComplexI) -> ComplexI {
        ComplexI { re: (self.re + rhs.re) as i64, im: (self.im + rhs.im) as i64 }
    }
}

impl core::ops::Sub for ComplexI {
    type Output = ComplexI;

    fn sub(self, rhs: ComplexI) -> (diff: ComplexI) {
        ComplexI { re: self.re - rhs.re, im: self.im - rhs.im }
    }
}

impl SubSpecImpl for ComplexI {
    open spec fn obeys_sub_spec() -> bool {
        true
    }

    open spec fn sub_req(self, rhs: ComplexI) -> bool {
        i64::MIN <= self.re - rhs.re <= i64::MAX && i64::MIN <= self.im - rhs.im <= i64::MAX
    }

    open spec fn sub_spec(self, rhs: ComplexI) -> ComplexI {
        ComplexI { re: (self.re - rhs.re) as i64, im: (self.im - rhs.im) as i64 }
    }
}

/// A point of space.
#[derive(Copy, Clone, Debug, PartialEq, Eq, Structural, Hash)]
pub struct Point3 {
    pub x: i64,
    pub y: i64,
    pub z: i64,
}

impl Default for Point3 {
    fn default() -> (p: Self)
        ensures
            p == (Point3 { x: 0, y: 0, z: 0 }),
    {
        Point3 { x: 0, y: 0, z: 0 }
    }
}

/// The `k`-th offset, in the order in which the 26 neighbours are listed:
/// `dx` slowest and `dz` fastest, each from -1 to 1, the origin left out.
pub open spec fn offset26(k: int) -> (int, int, int) {
    let m = if k < 13 {
        k
    } else {
        k + 1
    };
    (m / 9 - 1, (m / 3) % 3 - 1, m % 3 - 1)
}

impl Point3 {
    /// The point `(x, y, z)`.
    pub fn new(x: i64, y: i64, z: i64) -> (p: Self)
        ensures
            p == (Point3 { x, y, z }),
    {
        Point3 { x, y, z }
    }

    /// All three coordinates can move by one in either direction.
    pub open spec fn has_neighbors(self) -> bool {
        &&& i64::MIN < self.x < i64::MAX
        &&& i64::MIN < self.y < i64::MAX
        &&& i64::MIN < self.z < i64::MAX
    }

    /// The point moved by the offset given.
    pub open spec fn moved(self, d: (int, int, int)) -> Point3 {
        Point3 { x: (self.x + d.0) as i64, y: (self.y + d.1) as i64, z: (self.z + d.2) as i64 }
    }

    /// The six points one step away along an axis.
    pub fn neighbors6(self) -> (n: [Point3; 6])
        requires
            self.has_neighbors(),
        ensures
            n@ == seq![
                self.moved((1, 0, 0)),
                self.moved((-1, 0, 0)),
                self.moved((0, 1, 0)),
                self.moved((0, -1, 0)),
                self.moved((0, 0, 1)),
                self.moved((0, 0, -1)),
            ],
    {
        let n = [
            Point3::new(self.x + 1, self.y, self.z),
            Point3::new(self.x - 1, self.y, self.z),
            Point3::new(self.x, self.y + 1, self.z),
            Point3::new(self.x, self.y - 1, self.z),
            Point3::new(self.x, self.y, self.z + 1),
            Point3::new(self.x, self.y, self.z - 1),
        ];
        assert(n@ =~= seq![
            self.moved((1, 0, 0)),
            self.moved((-1, 0, 0)),
            self.moved((0, 1, 0)),
            self.moved((0, -1, 0)),
            self.moved((0, 0, 1)),
            self.moved((0, 0, -1)),
        ]);
        n
    }

    /// The 26 points that differ by at most one in every coordinate.
    pub fn neighbors26(self) -> (v: Vec<Point3>)
        requires
            self.has_neighbors(),
        ensures
            v@.len() == 26,
            forall|k: int| 0 <= k < 26 ==> #[trigger] v@[k] == self.moved(offset26(k)),
    {
        let mut v: Vec<Point3> = Vec::with_capacity(26);
        let mut m: i64 = 0;
        while m < 27
            invariant
                0 <= m <= 27,
                self.has_neighbors(),
                v@.len() == (if m <= 13 {
                    m as int
                } else {
                    m - 1
                }),
                forall|k: int| 0 <= k < v@.len() ==> #[trigger] v@[k] == self.moved(offset26(k)),
            decreases 27 - m,
        {
            let dx = m / 9 - 1;
            let dy = (m / 3) % 3 - 1;
            let dz = m % 3 - 1;
            if !(dx == 0 && dy == 0 && dz == 0) {
                v.push(Point3::new(self.x + dx, self.y + dy, self.z + dz));
            }
            m += 1;
        }
        v
    }
}

impl core::ops::Add for Point3 {
    type Output = Point3;

    fn add(self, rhs: Point3) -> (sum: Point3) {
        Point3 { x: self.x + rhs.x, y: self.y + rhs.y, z: self.z + rhs.z }
    }
}

impl AddSpecImpl for Point3 {
    open spec fn obeys_add_spec() -> bool {
        true
    }

    open spec fn add_req(self, rhs: Point3) -> bool {
        &&& i64::MIN <= self.x + rhs.x <= i64::MAX
        &&& i64::MIN <= self.y + rhs.y <= i64::MAX
        &&& i64::MIN <= self.z + rhs.z <= i64::MAX
    }

    open spec fn add_spec(self, rhs: Point3) -> Point3 {
        Point3 { x: (self.x + rhs.x) as i64, y: (self.y + rhs.y) as i64, z: (self.z + rhs.z) as i64 }
    }
}

impl core::ops::Sub for Point3 {
    type Output = Point3;

    fn sub(self, rhs: Point3) -> (diff: Point3) {
        Point3 { x: self.x - rhs.x, y: self.y - rhs.y, z: self.z - rhs.z }
    }
}

impl SubSpecImpl for Point3 {
    open spec fn obeys_sub_spec() -> bool {
        true
    }

    open spec fn sub_req(self, rhs: Point3) -> bool {
        &&& i64::MIN <= self.x - rhs.x <= i64::MAX
        &&& i64::MIN <= self.y - rhs.y <= i64::MAX
        &&& i64::MIN <= self.z - rhs.z <= i64::MAX
    }

    open spec fn sub_spec(self, rhs: Point3) -> Point3 {
        Point3 { x: (self.x - rhs.x) as i64, y: (self.y - rhs.y) as i64, z: (self.z - rhs.z) as i64 }
    }
}

} // verus!
