//! Points and vectors on the canvas grid.
//!
//! Canvas coordinates are whole grid cells; a coordinate stays within
//! `COORD_LIMIT` (2^24) in magnitude, the range in which single-precision
//! grid coordinates are exact.
use vstd::prelude::*;

verus! {

/// The largest magnitude a canvas coordinate may have.
pub const COORD_LIMIT: i32 = 16777216;

/// A point (or a displacement) on the canvas grid.
#[derive(PartialEq, Eq, Structural, Debug, Clone, Copy)]
pub struct IVec2 {
    pub x: i32,
    pub y: i32,
}

/// The sum of two grid vectors, over the integers.
pub open spec fn vadd(a: IVec2, b: IVec2) -> (int, int) {
    (a.x + b.x, a.y + b.y)
}

pub open spec fn coord_ok(c: int) -> bool {
    -COORD_LIMIT <= c <= COORD_LIMIT
}

/// Both integers are admissible canvas coordinates.
pub open spec fn pair_in_range(p: (int, int)) -> bool {
    coord_ok(p.0) && coord_ok(p.1)
}

/// The point `p` as a pair of integers.
pub open spec fn as_pair(p: IVec2) -> (int, int) {
    (p.x as int, p.y as int)
}

/// The grid vector with the given coordinates (which must fit `i32`).
pub open spec fn mk(p: (int, int)) -> IVec2 {
    IVec2 { x: p.0 as i32, y: p.1 as i32 }
}

/// The key under which the nodes at `p` are looked up: the two coordinates
/// shifted into `0..2^32` and packed into one word.
pub open spec fn key_of(p: IVec2) -> u64 {
    ((p.x + 0x8000_0000) * 0x1_0000_0000 + (p.y + 0x8000_0000)) as u64
}

impl IVec2 {
    pub open spec fn in_range(self) -> bool {
        coord_ok(self.x as int) && coord_ok(self.y as int)
    }

    pub fn new(x: i32, y: i32) -> (r: IVec2)
        ensures
            r.x == x,
            r.y == y,
    {
        IVec2 { x, y }
    }

    /// `self + o`, when both are admissible canvas points.
    pub fn plus(self, o: IVec2) -> (r: IVec2)
        requires
            self.in_range(),
            o.in_range(),
        ensures
            as_pair(r) == vadd(self, o),
    {
        IVec2 { x: self.x + o.x, y: self.y + o.y }
    }

    /// `self - o`, when both are admissible canvas points.
    pub fn minus(self, o: IVec2) -> (r: IVec2)
        requires
            self.in_range(),
            o.in_range(),
        ensures
            r.x == self.x - o.x,
            r.y == self.y - o.y,
    {
        IVec2 { x: self.x - o.x, y: self.y - o.y }
    }

    /// `-self`, for an admissible canvas vector.
    pub fn negated(self) -> (r: IVec2)
        requires
            self.in_range(),
        ensures
            r.x == -self.x,
            r.y == -self.y,
            r.in_range(),
    {
        IVec2 { x: -self.x, y: -self.y }
    }

    /// `self + o` when that sum is an admissible canvas point, else `None`.
    pub fn checked_plus(self, o: IVec2) -> (r: Option<IVec2>)
        requires
            self.in_range(),
            o.in_range(),
        ensures
            r is Some <==> pair_in_range(vadd(self, o)),
            r matches Some(q) ==> as_pair(q) == vadd(self, o) && q.in_range(),
    {
        let x = self.x + o.x;
        let y = self.y + o.y;
        if -COORD_LIMIT <= x && x <= COORD_LIMIT && -COORD_LIMIT <= y && y <= COORD_LIMIT {
            Some(IVec2 { x, y })
        } else {
            None
        }
    }

    /// The key under which the nodes at this point are looked up.
    pub fn lookup_key(self) -> (k: u64)
        ensures
            k == key_of(self),
    {
        let hi: u64 = (self.x as i64 + 0x8000_0000i64) as u64;
        let lo: u64 = (self.y as i64 + 0x8000_0000i64) as u64;
        assert(hi * 0x1_0000_0000 <= 0xffff_ffff * 0x1_0000_0000) by (nonlinear_arith)
            requires
                hi <= 0xffff_ffff,
        ;
        hi * 0x1_0000_0000 + lo
    }
}

/// `v` lies in the box with corners `p1` (least) and `p2` (greatest),
/// edges included.
pub open spec fn in_box(v: IVec2, p1: IVec2, p2: IVec2) -> bool {
    p1.x <= v.x <= p2.x && p1.y <= v.y <= p2.y
}

/// Whether `v` lies between `p1` and `p2` on both axes.
pub fn check(v: IVec2, p1: IVec2, p2: IVec2) -> (r: bool)
    ensures
        r == in_box(v, p1, p2),
{
    (v.x >= p1.x && v.x <= p2.x) && (v.y >= p1.y && v.y <= p2.y)
}

/// A difference of two admissible points.
pub open spec fn small_vec(v: IVec2) -> bool {
    -0x200_0000 <= v.x <= 0x200_0000 && -0x200_0000 <= v.y <= 0x200_0000
}

/// The cross product of two differences of admissible points (zero
/// exactly when they are parallel).
pub fn cross(a: IVec2, b: IVec2) -> (r: i64)
    requires
        small_vec(a),
        small_vec(b),
    ensures
        r == a.x * b.y - a.y * b.x,
{
    let ax = a.x as i64;
    let ay = a.y as i64;
    let bx = b.x as i64;
    let by = b.y as i64;
    assert(-0x4_0000_0000_0000 <= ax * by <= 0x4_0000_0000_0000) by (nonlinear_arith)
        requires -0x200_0000 <= ax <= 0x200_0000, -0x200_0000 <= by <= 0x200_0000;
    assert(-0x4_0000_0000_0000 <= ay * bx <= 0x4_0000_0000_0000) by (nonlinear_arith)
        requires -0x200_0000 <= ay <= 0x200_0000, -0x200_0000 <= bx <= 0x200_0000;
    ax * by - ay * bx
}

/// Distinct points have distinct lookup keys.
pub proof fn lemma_key_of_injective(p: IVec2, q: IVec2)
    ensures
        key_of(p) == key_of(q) <==> p == q,
{
    let a = p.x + 0x8000_0000;
    let b = p.y + 0x8000_0000;
    let c = q.x + 0x8000_0000;
    let d = q.y + 0x8000_0000;
    assert(0 <= a * 0x1_0000_0000 + b < 0x1_0000_0000_0000_0000) by (nonlinear_arith)
        requires
            0 <= a < 0x1_0000_0000,
            0 <= b < 0x1_0000_0000,
    ;
    assert(0 <= c * 0x1_0000_0000 + d < 0x1_0000_0000_0000_0000) by (nonlinear_arith)
        requires
            0 <= c < 0x1_0000_0000,
            0 <= d < 0x1_0000_0000,
    ;
    if a * 0x1_0000_0000 + b == c * 0x1_0000_0000 + d {
        assert(a == c && b == d) by (nonlinear_arith)
            requires
                a * 0x1_0000_0000 + b == c * 0x1_0000_0000 + d,
                0 <= b < 0x1_0000_0000,
                0 <= d < 0x1_0000_0000,
        ;
    }
}

} // verus!
