//! Plain integer geometry: points in nanometres, the shapes built from them,
//! and the exact distance comparisons that every hit test and drill-spacing
//! rule of the editor goes through.

use vstd::prelude::*;

verus! {

/// A length in nanometres.
pub type Unit = i64;

/// One millimetre in [`Unit`]s.
pub const MM: Unit = 1_000_000;

/// A position on the board.
#[derive(Debug, Clone, Copy, PartialEq, Eq, Structural)]
pub struct Point {
    pub x: Unit,
    pub y: Unit,
}

impl Point {
    pub fn new(x: Unit, y: Unit) -> (p: Point)
        ensures
            p == (Point { x, y }),
    {
        Point { x, y }
    }
}

/// A filled disc.
#[derive(Debug, Clone, Copy, PartialEq, Eq, Structural)]
pub struct Circle {
    pub center: Point,
    pub radius: Unit,
}

impl Circle {
    pub fn new(center: Point, radius: Unit) -> (c: Circle)
        ensures
            c == (Circle { center, radius }),
    {
        Circle { center, radius }
    }
}

/// A capsule: every point within half of `width` of the line from `a` to `b`.
#[derive(Debug, Clone, Copy, PartialEq, Eq, Structural)]
pub struct Segment {
    pub a: Point,
    pub b: Point,
    pub width: Unit,
}

impl Segment {
    pub fn new(a: Point, b: Point, width: Unit) -> (s: Segment)
        ensures
            s == (Segment { a, b, width }),
    {
        Segment { a, b, width }
    }
}

/// A closed polygon, by its corners in order.
#[derive(Debug, Clone, PartialEq, Eq)]
pub struct Polygon {
    pub points: Vec<Point>,
}

impl Polygon {
    pub fn new(points: Vec<Point>) -> (p: Polygon)
        ensures
            p.points == points,
    {
        Polygon { points }
    }
}

/// A rotation in degrees, held as the bit pattern of the angle's IEEE 754
/// double. The library carries it from one record to the next and never
/// computes with it.
#[derive(Debug, Clone, Copy, PartialEq, Eq, Structural)]
pub struct Angle {
    pub bits: u64,
}

/// The square of the distance between two points.
pub open spec fn dist2(a: Point, b: Point) -> int {
    (a.x - b.x) * (a.x - b.x) + (a.y - b.y) * (a.y - b.y)
}

/// The distance between `a` and `b` is less than `limit`.
pub open spec fn closer(a: Point, b: Point, limit: int) -> bool {
    limit > 0 && dist2(a, b) < limit * limit
}

/// The distance between `a` and `b` is at most `limit`.
pub open spec fn within(a: Point, b: Point, limit: int) -> bool {
    limit >= 0 && dist2(a, b) <= limit * limit
}

/// The distance between `a` and `b` is at most half of `diameter`.
pub open spec fn within_half(a: Point, b: Point, diameter: int) -> bool {
    diameter >= 0 && 4 * dist2(a, b) <= diameter * diameter
}

/// Two discs come closer to each other than `clearance`.
pub open spec fn discs_touch(a: Circle, b: Circle, clearance: int) -> bool {
    closer(a.center, b.center, a.radius + b.radius + clearance)
}

/// The magnitude of `a - b`.
fn gap(a: Unit, b: Unit) -> (d: u128)
    ensures
        d == if a >= b { a - b } else { b - a },
{
    if a >= b {
        (a as i128 - b as i128) as u128
    } else {
        (b as i128 - a as i128) as u128
    }
}

/// Whether `dx * dx + dy * dy` exceeds the square of `limit`: the room left
/// by `dx` is the product of `limit - dx` and `limit + dx`, which is compared
/// with `dy * dy` without ever forming a square that does not fit.
fn sum_of_squares_exceeds(dx: u128, dy: u128, limit: u128) -> (r: bool)
    requires
        dx < 0x4_0000_0000_0000_0000,
        dy < 0x4_0000_0000_0000_0000,
        limit < 0x4_0000_0000_0000_0000,
        limit <= 0xffff_ffff_ffff_ffff || dy <= 0xffff_ffff_ffff_ffff,
    ensures
        r == (dx * dx + dy * dy > limit * limit),
{
    if dx > limit {
        proof {
            assert(dx * dx > limit * limit && dy * dy >= 0) by (nonlinear_arith)
                requires
                    dx > limit,
            ;
        }
        return true;
    }
    if dy > limit {
        proof {
            assert(dy * dy > limit * limit && dx * dx >= 0) by (nonlinear_arith)
                requires
                    dy > limit,
            ;
        }
        return true;
    }
    proof {
        assert((limit - dx) * (limit + dx) == limit * limit - dx * dx) by (nonlinear_arith);
        assert(0 <= dy * dy <= 0xffff_ffff_ffff_ffffu128 * 0xffff_ffff_ffff_ffffu128)
            by (nonlinear_arith)
            requires
                0 <= dy <= 0xffff_ffff_ffff_ffff,
        ;
    }
    match (limit - dx).checked_mul(limit + dx) {
        Some(room) => dy * dy > room,
        None => false,
    }
}

/// Whether `dx * dx + dy * dy` reaches the square of `limit`.
fn sum_of_squares_reaches(dx: u128, dy: u128, limit: u128) -> (r: bool)
    requires
        dx <= 0xffff_ffff_ffff_ffff,
        dy <= 0xffff_ffff_ffff_ffff,
        limit < 0x4_0000_0000_0000_0000,
    ensures
        r == (dx * dx + dy * dy >= limit * limit),
{
    if dx > limit {
        proof {
            assert(dx * dx > limit * limit && dy * dy >= 0) by (nonlinear_arith)
                requires
                    dx > limit,
            ;
        }
        return true;
    }
    proof {
        assert((limit - dx) * (limit + dx) == limit * limit - dx * dx) by (nonlinear_arith);
        assert(0 <= dy * dy <= 0xffff_ffff_ffff_ffffu128 * 0xffff_ffff_ffff_ffffu128)
            by (nonlinear_arith)
            requires
                0 <= dy <= 0xffff_ffff_ffff_ffff,
        ;
    }
    match (limit - dx).checked_mul(limit + dx) {
        Some(room) => dy * dy >= room,
        None => false,
    }
}

proof fn lemma_gap_squares(a: Point, b: Point, dx: int, dy: int)
    requires
        dx == if a.x >= b.x { a.x - b.x } else { b.x - a.x },
        dy == if a.y >= b.y { a.y - b.y } else { b.y - a.y },
    ensures
        dist2(a, b) == dx * dx + dy * dy,
{
    assert((a.x - b.x) * (a.x - b.x) == (b.x - a.x) * (b.x - a.x)) by (nonlinear_arith);
    assert((a.y - b.y) * (a.y - b.y) == (b.y - a.y) * (b.y - a.y)) by (nonlinear_arith);
}

/// Whether `a` and `b` lie less than `limit` apart.
pub fn is_closer(a: Point, b: Point, limit: i128) -> (r: bool)
    requires
        limit < 0x4_0000_0000_0000_0000,
    ensures
        r == closer(a, b, limit as int),
{
    let dx: u128 = gap(a.x, b.x);
    let dy: u128 = gap(a.y, b.y);
    proof {
        lemma_gap_squares(a, b, dx as int, dy as int);
    }
    limit > 0 && !sum_of_squares_reaches(dx, dy, limit as u128)
}

/// Whether `a` and `b` lie at most `limit` apart.
pub fn is_within(a: Point, b: Point, limit: i128) -> (r: bool)
    requires
        limit < 0x4_0000_0000_0000_0000,
    ensures
        r == within(a, b, limit as int),
{
    let dx: u128 = gap(a.x, b.x);
    let dy: u128 = gap(a.y, b.y);
    proof {
        lemma_gap_squares(a, b, dx as int, dy as int);
    }
    limit >= 0 && !sum_of_squares_exceeds(dx, dy, limit as u128)
}

/// Whether `a` and `b` lie at most half of `diameter` apart.
pub fn is_within_half(a: Point, b: Point, diameter: Unit) -> (r: bool)
    ensures
        r == within_half(a, b, diameter as int),
{
    let dx: u128 = gap(a.x, b.x);
    let dy: u128 = gap(a.y, b.y);
    proof {
        lemma_gap_squares(a, b, dx as int, dy as int);
        assert((2 * dx) * (2 * dx) + (2 * dy) * (2 * dy) == 4 * (dx * dx + dy * dy))
            by (nonlinear_arith);
    }
    diameter >= 0 && !sum_of_squares_exceeds(2 * dx, 2 * dy, diameter as u128)
}

/// Whether two filled circles come closer to each other than `clearance`: the
/// one distance formula that every dot-against-dot and dot-against-round-pad
/// rule shares.
pub fn circles_touch(a: &Circle, b: &Circle, clearance: Unit) -> (r: bool)
    ensures
        r == discs_touch(*a, *b, clearance as int),
{
    is_closer(a.center, b.center, a.radius as i128 + b.radius as i128 + clearance as i128)
}

/// Distance does not depend on which point comes first.
pub proof fn law_dist2_is_symmetric(a: Point, b: Point)
    ensures
        dist2(a, b) == dist2(b, a),
{
    assert((a.x - b.x) * (a.x - b.x) == (b.x - a.x) * (b.x - a.x)) by (nonlinear_arith);
    assert((a.y - b.y) * (a.y - b.y) == (b.y - a.y) * (b.y - a.y)) by (nonlinear_arith);
}

/// Whether two discs are too close does not depend on which of them was
/// there first.
pub proof fn law_discs_touch_is_symmetric(a: Circle, b: Circle, clearance: int)
    ensures
        discs_touch(a, b, clearance) == discs_touch(b, a, clearance),
{
    law_dist2_is_symmetric(a.center, b.center);
}

} // verus!
