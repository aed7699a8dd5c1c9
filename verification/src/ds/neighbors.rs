//! The steps to the neighbours of a point.

use vstd::prelude::*;
use crate::ds::coords::Point;

verus! {

/// The steps to the four neighbours along an axis: east, west, south,
/// north.
pub fn deltas4() -> (d: [Point; 4])
    ensures
        d@ == seq![
            Point { x: 1, y: 0 },
            Point { x: -1i64, y: 0 },
            Point { x: 0, y: 1 },
            Point { x: 0, y: -1i64 },
        ],
{
    let d = [Point::new(1, 0), Point::new(-1, 0), Point::new(0, 1), Point::new(0, -1)];
    assert(d@ =~= seq![
        Point { x: 1, y: 0 },
        Point { x: -1i64, y: 0 },
        Point { x: 0, y: 1 },
        Point { x: 0, y: -1i64 },
    ]);
    d
}

/// The steps to the eight neighbours along an axis or a diagonal.
pub fn deltas8() -> (d: [Point; 8])
    ensures
        d@ == seq![
            Point { x: 1, y: 0 },
            Point { x: -1i64, y: 0 },
            Point { x: 0, y: 1 },
            Point { x: 0, y: -1i64 },
            Point { x: 1, y: 1 },
            Point { x: 1, y: -1i64 },
            Point { x: -1i64, y: 1 },
            Point { x: -1i64, y: -1i64 },
        ],
{
    let d = [
        Point::new(1, 0),
        Point::new(-1, 0),
        Point::new(0, 1),
        Point::new(0, -1),
        Point::new(1, 1),
        Point::new(1, -1),
        Point::new(-1, 1),
        Point::new(-1, -1),
    ];
    assert(d@ =~= seq![
        Point { x: 1, y: 0 },
        Point { x: -1i64, y: 0 },
        Point { x: 0, y: 1 },
        Point { x: 0, y: -1i64 },
        Point { x: 1, y: 1 },
        Point { x: 1, y: -1i64 },
        Point { x: -1i64, y: 1 },
        Point { x: -1i64, y: -1i64 },
    ]);
    d
}

} // verus!
