//! Cells of the ring and the arithmetic of offsets around it.

use vstd::prelude::*;
use crate::common::LED_COUNT;

verus! {

/// `d`, an offset in `[0, N)`, folded into `(-N/2, N/2]`.
pub open spec fn fold_offset(d: int) -> int {
    if d > LED_COUNT / 2 {
        d - LED_COUNT
    } else {
        d
    }
}

/// The shortest signed offset that leads from cell `a` to cell `b`.
pub open spec fn offset(a: int, b: int) -> int {
    fold_offset((b - a) % (LED_COUNT as int))
}

/// Cell `p` moved by `delta` cells around the ring.
pub open spec fn wrap_add(p: int, delta: int) -> int {
    (p + delta % (LED_COUNT as int)) % (LED_COUNT as int)
}

pub open spec fn abs(x: int) -> int {
    if x < 0 {
        -x
    } else {
        x
    }
}

/// For all cells `a` and `b`, the offset from `a` to `b` lies in
/// `(-N/2, N/2]`, and moving `a` by it reaches `b`.
pub proof fn lemma_offset_round_trip(a: int, b: int)
    requires
        0 <= a < LED_COUNT,
        0 <= b < LED_COUNT,
    ensures
        -(LED_COUNT as int) / 2 < offset(a, b) <= (LED_COUNT as int) / 2,
        wrap_add(a, offset(a, b)) == b,
{
    let n = LED_COUNT as int;
    let d = (b - a) % n;
    assert(0 <= d < n);
    if b >= a {
        assert(d == b - a);
    } else {
        assert(d == b - a + n);
    }
    assert(offset(a, b) % n == d);
}

/// A cell of the ring.
#[derive(Clone, Copy, Debug, PartialEq, Eq, Structural)]
pub struct Position(pub usize);

impl Position {
    pub open spec fn wf(self) -> bool {
        self.0 < LED_COUNT
    }

    /// Signed shortest offset that leads from `a` to `b`, in `(-N/2, N/2]`.
    pub fn distances(a: usize, b: usize) -> (r: i32)
        requires
            a < LED_COUNT,
            b < LED_COUNT,
        ensures
            r == offset(a as int, b as int),
    {
        let dist = ((b + LED_COUNT - a) % LED_COUNT) as i32;
        assert((b + LED_COUNT - a) % (LED_COUNT as int) == (b - a) % (LED_COUNT as int)) by {
            if b >= a {
                assert(b + LED_COUNT - a == (b - a) + LED_COUNT);
            }
        }
        if dist > LED_COUNT as i32 / 2 {
            dist - LED_COUNT as i32
        } else {
            dist
        }
    }

    /// Signed shortest offset that leads from `self` to `other`.
    pub fn direction(&self, other: Position) -> (r: i32)
        requires
            self.wf(),
            other.wf(),
        ensures
            r == offset(self.0 as int, other.0 as int),
    {
        Self::distances(self.0, other.0)
    }

    /// This cell moved by `delta` cells.
    pub fn add(&self, delta: i32) -> (r: Position)
        requires
            self.wf(),
        ensures
            r.wf(),
            r.0 == wrap_add(self.0 as int, delta as int),
    {
        let d = match delta.checked_rem_euclid(LED_COUNT as i32) {
            Some(d) => d as usize,
            None => 0,
        };
        Position((self.0 + d) % LED_COUNT)
    }

    /// This cell moved by `-delta` cells.
    pub fn sub(&self, delta: i32) -> (r: Position)
        requires
            self.wf(),
            delta > i32::MIN,
        ensures
            r.wf(),
            r.0 == wrap_add(self.0 as int, -delta),
    {
        self.add(-delta)
    }
}


} // verus!
