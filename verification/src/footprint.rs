//! Footprint templates: pads, holes and courtyards of a part in its own
//! frame, the built-in library, and the rules that look at a template alone.

use vstd::prelude::*;

use crate::board_doc::{half, halved};
use crate::dfm::DfmViolation;
use crate::geom::{Angle, Point, Unit};
use crate::item::{LayerId, ZoneConnection};
use crate::text::{
    ascii_upper_chars, chars_of, decimal, decimal_string, find_from, is_alnum, joined, mentions,
    same_text, spells, starts_with, trim_chars, trimmed, uppercased,
};

verus! {

/// An unplated mechanical hole of a template.
#[derive(Debug, Clone, Copy, PartialEq, Eq, Structural)]
pub struct HoleTemplate {
    pub offset: Point,
    pub drill: Unit,
}

/// A pad's true shape.
#[derive(Debug, Clone, Copy, PartialEq, Eq, Structural)]
pub enum PadShapeKind {
    Circle,
    Rect { width: Unit, height: Unit },
    Oval { width: Unit, height: Unit },
}

/// One pad of a template. `offset` is relative to the footprint's origin
/// before rotation; `hole_diameter` is the drill of a plated through-hole
/// pad.
#[derive(Debug, Clone)]
pub struct PadTemplate {
    pub offset: Point,
    pub radius: Unit,
    pub layer: LayerId,
    pub number: String,
    pub shape: PadShapeKind,
    pub rotation_deg: Angle,
    pub hole_diameter: Option<Unit>,
    pub pin_name: Option<String>,
    pub zone_connection: ZoneConnection,
}

/// A rectangle that a part's body keeps for itself, in the footprint's frame.
#[derive(Debug, Clone, Copy, PartialEq, Eq, Structural)]
pub struct Courtyard {
    pub center: Point,
    pub width: Unit,
    pub height: Unit,
}

/// A part as the library knows it.
#[derive(Debug, Clone)]
pub struct FootprintTemplate {
    pub name: String,
    pub reference_prefix: String,
    pub pads: Vec<PadTemplate>,
    pub holes: Vec<HoleTemplate>,
    pub exclude_from_bom: bool,
    pub explicit_courtyard: Option<Courtyard>,
}

/// The angle of zero degrees.
pub open spec fn no_turn() -> Angle {
    Angle { bits: 0 }
}

/// A plain round surface-mount pad.
pub open spec fn is_round_pad(
    pad: PadTemplate,
    offset: Point,
    radius: Unit,
    layer: LayerId,
    number: Seq<char>,
) -> bool {
    &&& pad.offset == offset
    &&& pad.radius == radius
    &&& pad.layer == layer
    &&& pad.number@ == number
    &&& pad.shape == PadShapeKind::Circle
    &&& pad.rotation_deg == no_turn()
    &&& pad.hole_diameter is None
    &&& pad.pin_name is None
    &&& pad.zone_connection == ZoneConnection::Thermal
}

impl PadTemplate {
    /// A plain round surface-mount pad.
    pub fn circle(offset: Point, radius: Unit, layer: LayerId, number: String) -> (pad: PadTemplate)
        ensures
            is_round_pad(pad, offset, radius, layer, number@),
    {
        PadTemplate {
            offset,
            radius,
            layer,
            number,
            shape: PadShapeKind::Circle,
            rotation_deg: Angle { bits: 0 },
            hole_diameter: None,
            pin_name: None,
            zone_connection: ZoneConnection::Thermal,
        }
    }
}

/// The longest side of a pad's copper.
pub open spec fn longest_side(pad: PadTemplate) -> int {
    match pad.shape {
        PadShapeKind::Circle => pad.radius * 2,
        PadShapeKind::Rect { width, height } => if width >= height {
            width as int
        } else {
            height as int
        },
        PadShapeKind::Oval { width, height } => if width >= height {
            width as int
        } else {
            height as int
        },
    }
}

/// The narrowest side of a pad's copper.
pub open spec fn narrowest_side(pad: PadTemplate) -> int {
    match pad.shape {
        PadShapeKind::Circle => pad.radius * 2,
        PadShapeKind::Rect { width, height } => if width <= height {
            width as int
        } else {
            height as int
        },
        PadShapeKind::Oval { width, height } => if width <= height {
            width as int
        } else {
            height as int
        },
    }
}

/// `n`, kept between the smallest and the largest [`Unit`].
pub open spec fn saturated(n: int) -> int {
    if n > Unit::MAX {
        Unit::MAX as int
    } else if n < Unit::MIN {
        Unit::MIN as int
    } else {
        n
    }
}

/// The area of the rectangle around a pad, saturating.
pub open spec fn pad_area(pad: PadTemplate) -> int {
    match pad.shape {
        PadShapeKind::Circle => saturated((pad.radius * 2) * (pad.radius * 2)),
        PadShapeKind::Rect { width, height } => saturated(width * height),
        PadShapeKind::Oval { width, height } => saturated(width * height),
    }
}

/// `a` divided by `b`, rounded towards zero.
pub open spec fn quotient(a: int, b: int) -> int {
    if a >= 0 {
        a / b
    } else {
        -((-a) / b)
    }
}

/// The magnitude of `n`.
pub open spec fn magnitude(n: int) -> int {
    if n >= 0 {
        n
    } else {
        -n
    }
}

pub open spec fn larger(a: int, b: int) -> int {
    if a >= b {
        a
    } else {
        b
    }
}

/// The name by which a pad may be recognised as an exposed pad: that of its
/// pin, else its number.
pub open spec fn pad_label(pad: PadTemplate) -> Seq<char> {
    match pad.pin_name {
        Some(name) => name@,
        None => pad.number@,
    }
}

/// A name that an exposed or thermal pad goes by.
pub open spec fn names_exposed_pad(name: Seq<char>) -> bool {
    let n = uppercased(trimmed(name));
    ||| find_from(n, "EXPOSED"@, 0) is Some
    ||| n == "EP"@
    ||| n == "E.P."@
    ||| n == "THERMAL"@
    ||| n == "THERMAL PAD"@
    ||| n == "THERMAL_PAD"@
    ||| n == "PAD"@
    ||| n == "GNDPAD"@
    ||| n == "GND_PAD"@
    ||| "EP"@.is_prefix_of(n) && (n.len() <= 2 || !is_alnum(n[2]))
}

/// Another pad has the number of pad `i`.
pub open spec fn number_is_shared(pads: Seq<PadTemplate>, i: int) -> bool {
    exists|j: int| 0 <= j < pads.len() && j != i && (#[trigger] pads[j]).number@ == pads[i].number@
}

pub open spec fn sum_x(pads: Seq<PadTemplate>) -> int
    decreases pads.len(),
{
    if pads.len() == 0 {
        0
    } else {
        sum_x(pads.drop_last()) + pads.last().offset.x
    }
}

pub open spec fn sum_y(pads: Seq<PadTemplate>) -> int
    decreases pads.len(),
{
    if pads.len() == 0 {
        0
    } else {
        sum_y(pads.drop_last()) + pads.last().offset.y
    }
}

/// How far the pads reach from `(cx, cy)` along either axis.
pub open spec fn reach_from(pads: Seq<PadTemplate>, cx: int, cy: int) -> int
    decreases pads.len(),
{
    if pads.len() == 0 {
        0
    } else {
        larger(
            larger(
                reach_from(pads.drop_last(), cx, cy),
                magnitude(pads.last().offset.x - cx),
            ),
            magnitude(pads.last().offset.y - cy),
        )
    }
}

/// The areas of all pads but pad `i`.
pub open spec fn other_areas(pads: Seq<PadTemplate>, i: int) -> Seq<int> {
    pads.remove(i).map_values(|p: PadTemplate| pad_area(p))
}

/// The median of the areas of all pads but pad `i` (the upper one of two).
pub open spec fn median_of_others(pads: Seq<PadTemplate>, i: int) -> int {
    let others = other_areas(pads, i);
    others.sort()[others.len() as int / 2]
}

/// The distance from the centroid within which a pad counts as central: a
/// fifth of the pads' reach, at least 0.1 mm.
pub open spec fn central_reach(pads: Seq<PadTemplate>) -> int {
    let n = pads.len() as int;
    larger(reach_from(pads, quotient(sum_x(pads), n), quotient(sum_y(pads), n)) / 5, 100_000)
}

/// Pad `i` sits near the centroid of at least three pads, and has four times
/// the median area of the others.
pub open spec fn is_dominant_center(pads: Seq<PadTemplate>, i: int) -> bool {
    let n = pads.len() as int;
    let median = median_of_others(pads, i);
    &&& n >= 3
    &&& median > 0
    &&& magnitude(pads[i].offset.x - quotient(sum_x(pads), n)) <= central_reach(pads)
    &&& magnitude(pads[i].offset.y - quotient(sum_y(pads), n)) <= central_reach(pads)
    &&& pad_area(pads[i]) >= saturated(median * 4)
}

/// How pad `i` should join a pour of its net: solidly if it shares its number
/// (an exposed-pad grid), goes by an exposed pad's name, is at least
/// `solid_min_side` long, or dominates the centre; by thermal spokes else.
pub open spec fn connection_of(
    pads: Seq<PadTemplate>,
    i: int,
    solid_min_side: int,
) -> ZoneConnection {
    if number_is_shared(pads, i) || names_exposed_pad(pad_label(pads[i])) || longest_side(pads[i])
        >= solid_min_side || is_dominant_center(pads, i) {
        ZoneConnection::Solid
    } else {
        ZoneConnection::Thermal
    }
}

fn pad_longest_side(pad: &PadTemplate) -> (r: i128)
    ensures
        r == longest_side(*pad),
{
    match pad.shape {
        PadShapeKind::Circle => pad.radius as i128 * 2,
        PadShapeKind::Rect { width, height } | PadShapeKind::Oval { width, height } => if width
            >= height {
            width as i128
        } else {
            height as i128
        },
    }
}

fn pad_area_nm2(pad: &PadTemplate) -> (r: i64)
    ensures
        r == pad_area(*pad),
{
    let (a, b): (i128, i128) = match pad.shape {
        PadShapeKind::Circle => (pad.radius as i128 * 2, pad.radius as i128 * 2),
        PadShapeKind::Rect { width, height } | PadShapeKind::Oval { width, height } => (
            width as i128,
            height as i128,
        ),
    };
    proof {
        assert(a == b ==> a * b >= 0) by (nonlinear_arith);
        assert(-0x8000_0000_0000_0000 <= a <= 0x7fff_ffff_ffff_ffff && -0x8000_0000_0000_0000 <= b
            <= 0x7fff_ffff_ffff_ffff ==> -0x4000_0000_0000_0000_0000_0000_0000_0000 <= a * b
            <= 0x4000_0000_0000_0000_0000_0000_0000_0000) by (nonlinear_arith);
    }
    match a.checked_mul(b) {
        Some(area) => {
            if area > i64::MAX as i128 {
                i64::MAX
            } else if area < i64::MIN as i128 {
                i64::MIN
            } else {
                area as i64
            }
        },
        None => i64::MAX,
    }
}

/// `xs` in ascending order.
fn sorted(xs: &[i64]) -> (r: Vec<i64>)
    ensures
        r@.map_values(|x: i64| x as int) == xs@.map_values(|x: i64| x as int).sort(),
        r@.len() == xs@.len(),
{
    let mut r: Vec<i64> = Vec::new();
    let mut i: usize = 0;
    assert(r@ =~= xs@.take(0));
    while i < xs.len()
        invariant
            i <= xs@.len(),
            r@.len() == i,
            forall|a: int, b: int| #![trigger r@[a], r@[b]] 0 <= a <= b < r@.len() ==> r@[a] <= r@[b],
            r@.to_multiset() == xs@.take(i as int).to_multiset(),
        decreases xs@.len() - i,
    {
        let x: i64 = xs[i];
        let mut p: usize = 0;
        while p < r.len() && r[p] < x
            invariant
                p <= r@.len(),
                forall|a: int| 0 <= a < p ==> r@[a] < x,
            decreases r@.len() - p,
        {
            p += 1;
        }
        let ghost before = r@;
        r.insert(p, x);
        proof {
            assert(r@ == before.insert(p as int, x));
            assert forall|a: int, b: int| #![trigger r@[a], r@[b]] 0 <= a <= b < r@.len() implies r@[a]
                <= r@[b] by {
                let a2 = if a < p {
                    a
                } else {
                    a - 1
                };
                let b2 = if b < p {
                    b
                } else {
                    b - 1
                };
                if a != p && b != p {
                    assert(r@[a] == before[a2] && r@[b] == before[b2]);
                } else if a == p && b != p {
                    assert(r@[b] == before[b2]);
                    assert(before[p as int] <= before[b2]);
                } else if a != p && b == p {
                    assert(r@[a] == before[a]);
                }
            }
            vstd::seq_lib::to_multiset_insert(before, p as int, x);
            assert(xs@.take(i + 1) =~= xs@.take(i as int).push(x));
            vstd::seq_lib::to_multiset_build(xs@.take(i as int), x);
        }
        i += 1;
    }
    proof {
        assert(xs@.take(i as int) =~= xs@);
        let ints = r@.map_values(|x: i64| x as int);
        let source = xs@.map_values(|x: i64| x as int);
        let leq = |x: int, y: int| x <= y;
        lemma_same_multiset_mapped(r@, xs@);
        source.lemma_sort_ensures();
        assert(vstd::relations::sorted_by(ints, leq)) by {
            assert forall|a: int, b: int| 0 <= a < b < ints.len() implies (#[trigger] leq(
                ints[a],
                ints[b],
            )) by {
                assert(r@[a] <= r@[b]);
            }
        }
        vstd::seq_lib::lemma_sorted_unique(ints, source.sort(), leq);
    }
    r
}

/// Sequences with the same elements still have the same elements once their
/// elements are read as mathematical integers.
proof fn lemma_same_multiset_mapped(a: Seq<i64>, b: Seq<i64>)
    requires
        a.to_multiset() == b.to_multiset(),
    ensures
        a.map_values(|x: i64| x as int).to_multiset() == b.map_values(
            |x: i64| x as int,
        ).to_multiset(),
    decreases a.len(),
{
    broadcast use vstd::seq_lib::group_to_multiset_ensures;

    let f = |x: i64| x as int;
    if a.len() == 0 {
        a.to_multiset_ensures();
        b.to_multiset_ensures();
        assert(b.len() == 0);
        assert(a.map_values(f) =~= b.map_values(f));
    } else {
        let x = a.last();
        assert(a.to_multiset().count(x) > 0) by {
            assert(a.contains(x));
        }
        assert(b.contains(x));
        let k = choose|k: int| 0 <= k < b.len() && b[k] == x;
        let rest = b.remove(k);
        assert(a.remove(a.len() - 1) =~= a.drop_last());
        vstd::seq_lib::to_multiset_remove(a, a.len() - 1);
        vstd::seq_lib::to_multiset_remove(b, k);
        lemma_same_multiset_mapped(a.drop_last(), rest);
        assert(a.map_values(f) =~= a.drop_last().map_values(f).push(f(x)));
        assert(b.map_values(f) =~= rest.map_values(f).insert(k, f(x)));
        vstd::seq_lib::to_multiset_build(a.drop_last().map_values(f), f(x));
        vstd::seq_lib::to_multiset_insert(rest.map_values(f), k, f(x));
    }
}

fn looks_like_exposed_pad_name(name: &str) -> (r: bool)
    ensures
        r == names_exposed_pad(name@),
{
    let chars: Vec<char> = chars_of(name);
    let bare: Vec<char> = trim_chars(&chars);
    let n: Vec<char> = ascii_upper_chars(&bare);
    if mentions(&n, "EXPOSED") {
        return true;
    }
    if spells(&n, "EP") || spells(&n, "E.P.") || spells(&n, "THERMAL") || spells(&n, "THERMAL PAD")
        || spells(&n, "THERMAL_PAD") || spells(&n, "PAD") || spells(&n, "GNDPAD") || spells(
        &n,
        "GND_PAD",
    ) {
        return true;
    }
    let ep: Vec<char> = chars_of("EP");
    starts_with(&n, &ep) && (n.len() <= 2 || !is_ascii_alnum(n[2]))
}

fn is_ascii_alnum(c: char) -> (r: bool)
    ensures
        r == is_alnum(c),
{
    ('0' <= c && c <= '9') || ('A' <= c && c <= 'Z') || ('a' <= c && c <= 'z')
}

fn is_number_shared(pads: &[PadTemplate], i: usize) -> (r: bool)
    requires
        i < pads@.len(),
    ensures
        r == number_is_shared(pads@, i as int),
{
    let mut j: usize = 0;
    while j < pads.len()
        invariant
            i < pads@.len(),
            j <= pads@.len(),
            forall|k: int|
                0 <= k < j && k != i ==> (#[trigger] pads@[k]).number@ != pads@[i as int].number@,
        decreases pads@.len() - j,
    {
        if j != i && same_text(&pads[j].number, &pads[i].number) {
            assert(pads@[j as int].number@ == pads@[i as int].number@);
            return true;
        }
        j += 1;
    }
    false
}

/// `a` divided by `b`, rounded towards zero.
fn divided(a: i128, b: i128) -> (r: i128)
    requires
        b > 0,
        a > i128::MIN,
    ensures
        r == quotient(a as int, b as int),
{
    if a >= 0 {
        a / b
    } else {
        let m: i128 = (-a) / b;
        proof {
            assert(0 <= (-a) / (b as int) <= -a) by (nonlinear_arith)
                requires
                    b > 0,
                    a < 0,
            ;
        }
        -m
    }
}

fn distance(a: i128, b: i128) -> (r: i128)
    requires
        -0x1_0000_0000_0000_0000_0000_0000 <= a <= 0x1_0000_0000_0000_0000_0000_0000,
        -0x1_0000_0000_0000_0000_0000_0000 <= b <= 0x1_0000_0000_0000_0000_0000_0000,
    ensures
        r == magnitude(a - b),
{
    if a >= b {
        a - b
    } else {
        b - a
    }
}

proof fn lemma_sums_are_small(pads: Seq<PadTemplate>)
    ensures
        -0x8000_0000_0000_0000 * pads.len() <= sum_x(pads) <= 0x8000_0000_0000_0000 * pads.len(),
        -0x8000_0000_0000_0000 * pads.len() <= sum_y(pads) <= 0x8000_0000_0000_0000 * pads.len(),
    decreases pads.len(),
{
    if pads.len() > 0 {
        lemma_sums_are_small(pads.drop_last());
    }
}

proof fn lemma_mean_is_small(sum: int, n: int)
    requires
        n > 0,
        -0x8000_0000_0000_0000 * n <= sum <= 0x8000_0000_0000_0000 * n,
    ensures
        -0x8000_0000_0000_0000 <= quotient(sum, n) <= 0x8000_0000_0000_0000,
{
    assert(sum >= 0 ==> sum / n <= 0x8000_0000_0000_0000) by (nonlinear_arith)
        requires
            n > 0,
            sum <= 0x8000_0000_0000_0000 * n,
    ;
    assert(sum < 0 ==> (-sum) / n <= 0x8000_0000_0000_0000) by (nonlinear_arith)
        requires
            n > 0,
            -0x8000_0000_0000_0000 * n <= sum,
    ;
    assert(sum >= 0 ==> sum / n >= 0) by (nonlinear_arith)
        requires
            n > 0,
    ;
    assert(sum < 0 ==> (-sum) / n >= 0) by (nonlinear_arith)
        requires
            n > 0,
    ;
}

/// The centroid of the pads, each coordinate rounded towards zero.
fn centroid(pads: &[PadTemplate]) -> (c: (i128, i128))
    requires
        pads@.len() > 0,
    ensures
        c.0 == quotient(sum_x(pads@), pads@.len() as int),
        c.1 == quotient(sum_y(pads@), pads@.len() as int),
        -0x8000_0000_0000_0000 <= c.0 <= 0x8000_0000_0000_0000,
        -0x8000_0000_0000_0000 <= c.1 <= 0x8000_0000_0000_0000,
{
    let n: usize = pads.len();
    let mut sx: i128 = 0;
    let mut sy: i128 = 0;
    let mut i: usize = 0;
    while i < n
        invariant
            i <= n,
            n == pads@.len(),
            sx == sum_x(pads@.take(i as int)),
            sy == sum_y(pads@.take(i as int)),
        decreases n - i,
    {
        proof {
            assert(pads@.take(i + 1).drop_last() =~= pads@.take(i as int));
            assert(pads@.take(i + 1).last() == pads@[i as int]);
            lemma_sums_are_small(pads@.take(i as int));
        }
        sx = sx + pads[i].offset.x as i128;
        sy = sy + pads[i].offset.y as i128;
        i += 1;
    }
    proof {
        assert(pads@.take(i as int) =~= pads@);
        lemma_sums_are_small(pads@);
        lemma_mean_is_small(sum_x(pads@), n as int);
        lemma_mean_is_small(sum_y(pads@), n as int);
    }
    (divided(sx, n as i128), divided(sy, n as i128))
}

/// How far the pads reach from a point along either axis.
fn reach(pads: &[PadTemplate], cx: i128, cy: i128) -> (r: i128)
    requires
        -0x8000_0000_0000_0000 <= cx <= 0x8000_0000_0000_0000,
        -0x8000_0000_0000_0000 <= cy <= 0x8000_0000_0000_0000,
    ensures
        r == reach_from(pads@, cx as int, cy as int),
        r >= 0,
{
    let mut r: i128 = 0;
    let mut i: usize = 0;
    while i < pads.len()
        invariant
            -0x8000_0000_0000_0000 <= cx <= 0x8000_0000_0000_0000,
            -0x8000_0000_0000_0000 <= cy <= 0x8000_0000_0000_0000,
            i <= pads@.len(),
            r >= 0,
            r == reach_from(pads@.take(i as int), cx as int, cy as int),
        decreases pads@.len() - i,
    {
        proof {
            assert(pads@.take(i + 1).drop_last() =~= pads@.take(i as int));
            assert(pads@.take(i + 1).last() == pads@[i as int]);
        }
        let dx: i128 = distance(pads[i].offset.x as i128, cx);
        let dy: i128 = distance(pads[i].offset.y as i128, cy);
        if dx > r {
            r = dx;
        }
        if dy > r {
            r = dy;
        }
        i += 1;
    }
    assert(pads@.take(i as int) =~= pads@);
    r
}

/// The median of the areas of all pads but pad `i`.
fn median_area_of_others(pads: &[PadTemplate], i: usize) -> (r: i64)
    requires
        i < pads@.len(),
        pads@.len() >= 3,
    ensures
        r == median_of_others(pads@, i as int),
{
    let ghost rest = pads@.remove(i as int);
    let mut others: Vec<i64> = Vec::new();
    let mut j: usize = 0;
    while j < pads.len()
        invariant
            i < pads@.len(),
            j <= pads@.len(),
            rest == pads@.remove(i as int),
            others@.len() == if j <= i {
                j as int
            } else {
                j - 1
            },
            forall|k: int|
                #![trigger others@[k]]
                0 <= k < others@.len() ==> others@[k] == pad_area(rest[k]),
        decreases pads@.len() - j,
    {
        if j != i {
            others.push(pad_area_nm2(&pads[j]));
        }
        j += 1;
    }
    let ordered: Vec<i64> = sorted(&others);
    proof {
        assert(others@.map_values(|x: i64| x as int) =~= other_areas(pads@, i as int));
        assert(ordered@.map_values(|x: i64| x as int)[ordered@.len() as int / 2]
            == ordered@[ordered@.len() as int / 2]);
    }
    ordered[ordered.len() / 2]
}

fn dominates_center(pads: &[PadTemplate], i: usize) -> (r: bool)
    requires
        i < pads@.len(),
    ensures
        r == is_dominant_center(pads@, i as int),
{
    if pads.len() < 3 {
        return false;
    }
    let (cx, cy): (i128, i128) = centroid(pads);
    let span: i128 = reach(pads, cx, cy);
    let near: i128 = if span / 5 >= 100_000 {
        span / 5
    } else {
        100_000
    };
    let median: i64 = median_area_of_others(pads, i);
    if median <= 0 {
        return false;
    }
    let wanted: i64 = if median > i64::MAX / 4 {
        i64::MAX
    } else {
        median * 4
    };
    distance(pads[i].offset.x as i128, cx) <= near && distance(pads[i].offset.y as i128, cy) <= near
        && pad_area_nm2(&pads[i]) >= wanted
}

/// Decides for every pad how it joins a pour of its net (see
/// [`connection_of`]); nothing else about the pads changes.
pub fn apply_zone_connection_heuristic(pads: &mut Vec<PadTemplate>, solid_min_side: Unit)
    ensures
        final(pads)@ == Seq::new(
            old(pads)@.len(),
            |i: int|
                PadTemplate {
                    zone_connection: connection_of(old(pads)@, i, solid_min_side as int),
                    ..old(pads)@[i]
                },
        ),
{
    let ghost before = pads@;
    let mut decided: Vec<ZoneConnection> = Vec::new();
    let mut i: usize = 0;
    while i < pads.len()
        invariant
            pads@ == before,
            i <= pads@.len(),
            decided@.len() == i,
            forall|k: int|
                #![trigger decided@[k]]
                0 <= k < i ==> decided@[k] == connection_of(before, k, solid_min_side as int),
        decreases pads@.len() - i,
    {
        let exposed = match &pads[i].pin_name {
            Some(name) => looks_like_exposed_pad_name(name),
            None => looks_like_exposed_pad_name(&pads[i].number),
        };
        let solid = is_number_shared(pads, i) || exposed || pad_longest_side(&pads[i])
            >= solid_min_side as i128 || dominates_center(pads, i);
        decided.push(
            if solid {
                ZoneConnection::Solid
            } else {
                ZoneConnection::Thermal
            },
        );
        i += 1;
    }
    let mut j: usize = 0;
    while j < pads.len()
        invariant
            pads@.len() == before.len(),
            decided@.len() == before.len(),
            j <= before.len(),
            forall|k: int|
                #![trigger decided@[k]]
                0 <= k < before.len() ==> decided@[k] == connection_of(
                    before,
                    k,
                    solid_min_side as int,
                ),
            forall|k: int|
                #![trigger pads@[k]]
                0 <= k < before.len() ==> pads@[k] == if k < j {
                    PadTemplate {
                        zone_connection: connection_of(before, k, solid_min_side as int),
                        ..before[k]
                    }
                } else {
                    before[k]
                },
        decreases before.len() - j,
    {
        let ghost now = pads@;
        pads[j].zone_connection = decided[j];
        assert forall|k: int| #![trigger pads@[k]] 0 <= k < before.len() implies pads@[k] == if k < j
            + 1 {
            PadTemplate {
                zone_connection: connection_of(before, k, solid_min_side as int),
                ..before[k]
            }
        } else {
            before[k]
        } by {
            assert(now[k] == now[k]);
            assert(decided@[j as int] == connection_of(before, j as int, solid_min_side as int));
        }
        j += 1;
    }
    assert(pads@ =~= Seq::new(
        before.len(),
        |i: int|
            PadTemplate {
                zone_connection: connection_of(before, i, solid_min_side as int),
                ..before[i]
            },
    ));
}

/// A value that a [`Unit`] can hold.
pub open spec fn fits(n: int) -> bool {
    Unit::MIN <= n <= Unit::MAX
}

/// The square of side `2 * w` by `2 * h` around `center`, by its corners.
pub open spec fn box_corners(center: Point, w: int, h: int) -> Seq<Point> {
    seq![
        Point { x: (center.x - w) as Unit, y: (center.y - h) as Unit },
        Point { x: (center.x + w) as Unit, y: (center.y - h) as Unit },
        Point { x: (center.x + w) as Unit, y: (center.y + h) as Unit },
        Point { x: (center.x - w) as Unit, y: (center.y + h) as Unit },
    ]
}

/// Half of a pad's extent along x.
pub open spec fn half_width(pad: PadTemplate) -> int {
    match pad.shape {
        PadShapeKind::Circle => pad.radius as int,
        PadShapeKind::Rect { width, .. } => half(width as int),
        PadShapeKind::Oval { width, .. } => half(width as int),
    }
}

/// Half of a pad's extent along y.
pub open spec fn half_height(pad: PadTemplate) -> int {
    match pad.shape {
        PadShapeKind::Circle => pad.radius as int,
        PadShapeKind::Rect { height, .. } => half(height as int),
        PadShapeKind::Oval { height, .. } => half(height as int),
    }
}

/// The pad's extent does not depend on a rotation of its own.
pub open spec fn is_upright(pad: PadTemplate) -> bool {
    pad.shape == PadShapeKind::Circle || pad.rotation_deg == no_turn()
}

/// The corners of an upright pad can be represented.
pub open spec fn pad_fits(pad: PadTemplate) -> bool {
    is_upright(pad) ==> {
        &&& fits(pad.offset.x - half_width(pad))
        &&& fits(pad.offset.x + half_width(pad))
        &&& fits(pad.offset.y - half_height(pad))
        &&& fits(pad.offset.y + half_height(pad))
    }
}

/// The corners of the square around a hole can be represented.
pub open spec fn hole_fits(hole: HoleTemplate) -> bool {
    &&& fits(hole.offset.x - half(hole.drill as int))
    &&& fits(hole.offset.x + half(hole.drill as int))
    &&& fits(hole.offset.y - half(hole.drill as int))
    &&& fits(hole.offset.y + half(hole.drill as int))
}

/// The corners of a pad's true extent: those of its own rectangle, or, for a
/// pad with a rotation of its own, the given ones.
pub open spec fn corners_of(pad: PadTemplate, turned: Seq<Point>) -> Seq<Point> {
    if is_upright(pad) {
        box_corners(pad.offset, half_width(pad), half_height(pad))
    } else {
        turned
    }
}

/// The corners of all pads, where `turned[i]` holds those of pad `i` in case
/// it has a rotation of its own.
pub open spec fn all_corners(pads: Seq<PadTemplate>, turned: Seq<Vec<Point>>) -> Seq<Point>
    decreases pads.len(),
{
    if pads.len() == 0 {
        Seq::empty()
    } else {
        let k = pads.len() - 1;
        all_corners(pads.drop_last(), turned) + corners_of(
            pads.last(),
            if k < turned.len() {
                turned[k]@
            } else {
                Seq::empty()
            },
        )
    }
}

/// Two opposite corners of the square around every hole.
pub open spec fn hole_corners(holes: Seq<HoleTemplate>) -> Seq<Point>
    decreases holes.len(),
{
    if holes.len() == 0 {
        Seq::empty()
    } else {
        let hole = holes.last();
        let r = half(hole.drill as int);
        hole_corners(holes.drop_last()).push(
            Point { x: (hole.offset.x - r) as Unit, y: (hole.offset.y - r) as Unit },
        ).push(Point { x: (hole.offset.x + r) as Unit, y: (hole.offset.y + r) as Unit })
    }
}

pub open spec fn smaller(a: int, b: int) -> int {
    if a <= b {
        a
    } else {
        b
    }
}

/// The least x of some points.
pub open spec fn left_of(points: Seq<Point>) -> int
    decreases points.len(),
{
    if points.len() <= 1 {
        points[0].x as int
    } else {
        smaller(left_of(points.drop_last()), points.last().x as int)
    }
}

/// The greatest x of some points.
pub open spec fn right_of(points: Seq<Point>) -> int
    decreases points.len(),
{
    if points.len() <= 1 {
        points[0].x as int
    } else {
        larger(right_of(points.drop_last()), points.last().x as int)
    }
}

/// The least y of some points.
pub open spec fn top_of(points: Seq<Point>) -> int
    decreases points.len(),
{
    if points.len() <= 1 {
        points[0].y as int
    } else {
        smaller(top_of(points.drop_last()), points.last().y as int)
    }
}

/// The greatest y of some points.
pub open spec fn bottom_of(points: Seq<Point>) -> int
    decreases points.len(),
{
    if points.len() <= 1 {
        points[0].y as int
    } else {
        larger(bottom_of(points.drop_last()), points.last().y as int)
    }
}

/// The rectangle from `(left, top)` to `(right, bottom)`, by its centre
/// (rounded towards zero) and size.
pub open spec fn courtyard_between(left: int, top: int, right: int, bottom: int) -> Courtyard {
    Courtyard {
        center: Point {
            x: quotient(left + right, 2) as Unit,
            y: quotient(top + bottom, 2) as Unit,
        },
        width: (right - left) as Unit,
        height: (bottom - top) as Unit,
    }
}

/// The bounding box of some points; of none, a point at the origin.
pub open spec fn courtyard_around(points: Seq<Point>) -> Courtyard {
    if points.len() == 0 {
        Courtyard { center: Point { x: 0, y: 0 }, width: 0, height: 0 }
    } else {
        courtyard_between(left_of(points), top_of(points), right_of(points), bottom_of(points))
    }
}

/// The size of the bounding box of some points can be represented.
pub open spec fn span_fits(points: Seq<Point>) -> bool {
    points.len() > 0 ==> fits(right_of(points) - left_of(points)) && fits(
        bottom_of(points) - top_of(points),
    )
}

pub open spec fn low_x(c: Courtyard) -> int {
    c.center.x - half(c.width as int)
}

pub open spec fn high_x(c: Courtyard) -> int {
    c.center.x + half(c.width as int)
}

pub open spec fn low_y(c: Courtyard) -> int {
    c.center.y - half(c.height as int)
}

pub open spec fn high_y(c: Courtyard) -> int {
    c.center.y + half(c.height as int)
}

/// A courtyard without any extent.
pub open spec fn is_void(c: Courtyard) -> bool {
    c.width <= 0 && c.height <= 0
}

/// The bounding box of two courtyards; one without extent does not count.
pub open spec fn union_of(a: Courtyard, b: Courtyard) -> Courtyard {
    if is_void(a) {
        b
    } else if is_void(b) {
        a
    } else {
        courtyard_between(
            smaller(low_x(a), low_x(b)),
            smaller(low_y(a), low_y(b)),
            larger(high_x(a), high_x(b)),
            larger(high_y(a), high_y(b)),
        )
    }
}

/// The edges and the size of the union of two courtyards can be represented.
pub open spec fn union_fits(a: Courtyard, b: Courtyard) -> bool {
    !is_void(a) && !is_void(b) ==> {
        &&& fits(low_x(a)) && fits(low_x(b)) && fits(high_x(a)) && fits(high_x(b))
        &&& fits(low_y(a)) && fits(low_y(b)) && fits(high_y(a)) && fits(high_y(b))
        &&& fits(larger(high_x(a), high_x(b)) - smaller(low_x(a), low_x(b)))
        &&& fits(larger(high_y(a), high_y(b)) - smaller(low_y(a), low_y(b)))
    }
}

/// The middle between two coordinates, rounded towards zero.
pub fn middle(a: Unit, b: Unit) -> (m: Unit)
    ensures
        m == quotient(a + b, 2),
{
    divided(a as i128 + b as i128, 2) as Unit
}

fn min_unit(a: Unit, b: Unit) -> (r: Unit)
    ensures
        r == smaller(a as int, b as int),
{
    if a <= b {
        a
    } else {
        b
    }
}

fn max_unit(a: Unit, b: Unit) -> (r: Unit)
    ensures
        r == larger(a as int, b as int),
{
    if a >= b {
        a
    } else {
        b
    }
}

/// The rectangle around two courtyards.
pub fn union_courtyards(a: Courtyard, b: Courtyard) -> (r: Courtyard)
    requires
        union_fits(a, b),
    ensures
        r == union_of(a, b),
{
    if a.width <= 0 && a.height <= 0 {
        return b;
    }
    if b.width <= 0 && b.height <= 0 {
        return a;
    }
    let (aw, ah): (Unit, Unit) = (halved(a.width), halved(a.height));
    let (bw, bh): (Unit, Unit) = (halved(b.width), halved(b.height));
    let left: Unit = min_unit(a.center.x - aw, b.center.x - bw);
    let top: Unit = min_unit(a.center.y - ah, b.center.y - bh);
    let right: Unit = max_unit(a.center.x + aw, b.center.x + bw);
    let bottom: Unit = max_unit(a.center.y + ah, b.center.y + bh);
    Courtyard {
        center: Point::new(middle(left, right), middle(top, bottom)),
        width: right - left,
        height: bottom - top,
    }
}

/// The least and the greatest corner of the bounding box of some points.
pub fn bounds(points: &[Point]) -> (r: (Point, Point))
    requires
        points@.len() > 0,
    ensures
        r.0.x == left_of(points@),
        r.0.y == top_of(points@),
        r.1.x == right_of(points@),
        r.1.y == bottom_of(points@),
{
    let mut min = points[0];
    let mut max = points[0];
    let mut j: usize = 1;
    while j < points.len()
        invariant
            1 <= j <= points@.len(),
            min.x == left_of(points@.take(j as int)),
            max.x == right_of(points@.take(j as int)),
            min.y == top_of(points@.take(j as int)),
            max.y == bottom_of(points@.take(j as int)),
        decreases points@.len() - j,
    {
        let p = points[j];
        assert(points@.take(j + 1).drop_last() =~= points@.take(j as int));
        assert(points@.take(j + 1).last() == p);
        min = Point::new(min_unit(min.x, p.x), min_unit(min.y, p.y));
        max = Point::new(max_unit(max.x, p.x), max_unit(max.y, p.y));
        j += 1;
    }
    assert(points@.take(j as int) =~= points@);
    (min, max)
}

/// The bounding box of every pad's corners and every hole, in the template's
/// own frame: the courtyard of a part that comes with no body outline.
pub fn fallback_courtyard(corners: &[Point], holes: &[HoleTemplate]) -> (r: Courtyard)
    requires
        forall|k: int| #![trigger holes@[k]] 0 <= k < holes@.len() ==> hole_fits(holes@[k]),
        span_fits(corners@ + hole_corners(holes@)),
    ensures
        r == courtyard_around(corners@ + hole_corners(holes@)),
{
    let mut points: Vec<Point> = Vec::new();
    let mut i: usize = 0;
    while i < corners.len()
        invariant
            i <= corners@.len(),
            points@ == corners@.take(i as int),
        decreases corners@.len() - i,
    {
        points.push(corners[i]);
        i += 1;
        assert(points@ =~= corners@.take(i as int));
    }
    assert(corners@.take(i as int) =~= corners@);
    let mut k: usize = 0;
    assert(points@ =~= corners@ + hole_corners(holes@.take(0)));
    while k < holes.len()
        invariant
            forall|k: int| #![trigger holes@[k]] 0 <= k < holes@.len() ==> hole_fits(holes@[k]),
            k <= holes@.len(),
            points@ == corners@ + hole_corners(holes@.take(k as int)),
        decreases holes@.len() - k,
    {
        assert(holes@.take(k + 1).drop_last() =~= holes@.take(k as int));
        assert(holes@.take(k + 1).last() == holes@[k as int]);
        assert(hole_fits(holes@[k as int]));
        let r: Unit = halved(holes[k].drill);
        let at = holes[k].offset;
        points.push(Point::new(at.x - r, at.y - r));
        points.push(Point::new(at.x + r, at.y + r));
        assert(points@ =~= corners@ + hole_corners(holes@.take(k + 1)));
        k += 1;
    }
    assert(holes@.take(k as int) =~= holes@);
    if points.len() == 0 {
        return Courtyard { center: Point::new(0, 0), width: 0, height: 0 };
    }
    let (min, max) = bounds(&points);
    Courtyard {
        center: Point::new(middle(min.x, max.x), middle(min.y, max.y)),
        width: max.x - min.x,
        height: max.y - min.y,
    }
}

/// The corners of one pad's true extent.
pub fn pad_local_corners(pad: &PadTemplate, turned: &[Point]) -> (r: Vec<Point>)
    requires
        pad_fits(*pad),
    ensures
        r@ == corners_of(*pad, turned@),
{
    let (w, h): (Unit, Unit) = match pad.shape {
        PadShapeKind::Circle => (pad.radius, pad.radius),
        PadShapeKind::Rect { width, height } | PadShapeKind::Oval { width, height } => (
            halved(width),
            halved(height),
        ),
    };
    let mut r: Vec<Point> = Vec::new();
    let round = match pad.shape {
        PadShapeKind::Circle => true,
        _ => false,
    };
    if round || pad.rotation_deg.bits == 0 {
        assert(is_upright(*pad));
        let at = pad.offset;
        r.push(Point::new(at.x - w, at.y - h));
        r.push(Point::new(at.x + w, at.y - h));
        r.push(Point::new(at.x + w, at.y + h));
        r.push(Point::new(at.x - w, at.y + h));
        assert(r@ =~= corners_of(*pad, turned@));
        return r;
    }
    let mut i: usize = 0;
    while i < turned.len()
        invariant
            i <= turned@.len(),
            r@ == turned@.take(i as int),
        decreases turned@.len() - i,
    {
        r.push(turned[i]);
        i += 1;
        assert(r@ =~= turned@.take(i as int));
    }
    assert(turned@.take(i as int) =~= turned@);
    assert(!is_upright(*pad));
    r
}

/// The corners of all pads, where `turned[i]` holds those of pad `i` in case
/// it has a rotation of its own.
pub fn template_corners(pads: &[PadTemplate], turned: &[Vec<Point>]) -> (r: Vec<Point>)
    requires
        forall|k: int| #![trigger pads@[k]] 0 <= k < pads@.len() ==> pad_fits(pads@[k]),
    ensures
        r@ == all_corners(pads@, turned@),
{
    let mut r: Vec<Point> = Vec::new();
    let mut i: usize = 0;
    while i < pads.len()
        invariant
            forall|k: int| #![trigger pads@[k]] 0 <= k < pads@.len() ==> pad_fits(pads@[k]),
            i <= pads@.len(),
            r@ == all_corners(pads@.take(i as int), turned@),
        decreases pads@.len() - i,
    {
        assert(pads@.take(i + 1).drop_last() =~= pads@.take(i as int));
        assert(pads@.take(i + 1).last() == pads@[i as int]);
        assert(pad_fits(pads@[i as int]));
        let mut own: Vec<Point> = if i < turned.len() {
            pad_local_corners(&pads[i], &turned[i])
        } else {
            pad_local_corners(&pads[i], &[])
        };
        r.append(&mut own);
        i += 1;
    }
    assert(pads@.take(i as int) =~= pads@);
    r
}

impl FootprintTemplate {
    /// The bounding box of the pads and holes.
    pub open spec fn copper_courtyard(&self, turned: Seq<Vec<Point>>) -> Courtyard {
        courtyard_around(all_corners(self.pads@, turned) + hole_corners(self.holes@))
    }

    /// The rectangle the part's body keeps for itself: that of its pads and
    /// holes, widened to the body outline it came with.
    pub open spec fn body_courtyard(&self, turned: Seq<Vec<Point>>) -> Courtyard {
        match self.explicit_courtyard {
            Some(silk) => union_of(silk, self.copper_courtyard(turned)),
            None => self.copper_courtyard(turned),
        }
    }

    /// Every coordinate that goes into the courtyard can be represented.
    pub open spec fn courtyard_fits(&self, turned: Seq<Vec<Point>>) -> bool {
        &&& forall|k: int| #![trigger self.pads@[k]] 0 <= k < self.pads@.len() ==> pad_fits(self.pads@[k])
        &&& forall|k: int|
            #![trigger self.holes@[k]]
            0 <= k < self.holes@.len() ==> hole_fits(self.holes@[k])
        &&& span_fits(all_corners(self.pads@, turned) + hole_corners(self.holes@))
        &&& self.explicit_courtyard matches Some(silk) ==> union_fits(
            silk,
            self.copper_courtyard(turned),
        )
    }

    /// The rectangle the part's body keeps for itself; `turned[i]` holds the
    /// corners of pad `i` in case it has a rotation of its own. A body outline
    /// smaller than the copper never shrinks it.
    pub fn courtyard(&self, turned: &[Vec<Point>]) -> (r: Courtyard)
        requires
            self.courtyard_fits(turned@),
        ensures
            r == self.body_courtyard(turned@),
    {
        let corners: Vec<Point> = template_corners(&self.pads, turned);
        let copper = fallback_courtyard(&corners, &self.holes);
        match self.explicit_courtyard {
            Some(silk) => union_courtyards(silk, copper),
            None => copper,
        }
    }
}

/// The union of two courtyards is at least as large as either of them (an odd
/// size may lose the one unit that its half cannot express), and its edges
/// enclose both up to that unit.
pub proof fn law_union_covers_both(a: Courtyard, b: Courtyard)
    requires
        a.width >= 0,
        a.height >= 0,
        b.width >= 0,
        b.height >= 0,
        union_fits(a, b),
    ensures
        union_of(a, b).width + 1 >= a.width,
        union_of(a, b).height + 1 >= a.height,
        union_of(a, b).width + 1 >= b.width,
        union_of(a, b).height + 1 >= b.height,
        a.width % 2 == 0 ==> union_of(a, b).width >= a.width,
        a.height % 2 == 0 ==> union_of(a, b).height >= a.height,
        b.width % 2 == 0 ==> union_of(a, b).width >= b.width,
        b.height % 2 == 0 ==> union_of(a, b).height >= b.height,
        !is_void(a) ==> {
            &&& low_x(union_of(a, b)) <= low_x(a) + 1
            &&& high_x(union_of(a, b)) >= high_x(a) - 1
            &&& low_y(union_of(a, b)) <= low_y(a) + 1
            &&& high_y(union_of(a, b)) >= high_y(a) - 1
        },
        !is_void(b) ==> {
            &&& low_x(union_of(a, b)) <= low_x(b) + 1
            &&& high_x(union_of(a, b)) >= high_x(b) - 1
            &&& low_y(union_of(a, b)) <= low_y(b) + 1
            &&& high_y(union_of(a, b)) >= high_y(b) - 1
        },
{
}

/// A template without a body outline.
pub open spec fn is_plain_template(
    t: FootprintTemplate,
    name: Seq<char>,
    prefix: Seq<char>,
    exclude_from_bom: bool,
) -> bool {
    &&& t.name@ == name
    &&& t.reference_prefix@ == prefix
    &&& t.exclude_from_bom == exclude_from_bom
    &&& t.explicit_courtyard is None
}

/// The name of a copper layer as board files write it.
pub open spec fn layer_name(layer: LayerId) -> Seq<char> {
    match layer {
        LayerId::FCu => "F.Cu"@,
        LayerId::BCu => "B.Cu"@,
    }
}

/// One surface-mount solder pad on one side.
pub open spec fn is_solder_pad(t: FootprintTemplate, layer: LayerId) -> bool {
    &&& is_plain_template(t, "Solder pad (SMD, 1.5mm, "@ + layer_name(layer) + ")"@, "P"@, true)
    &&& t.holes@.len() == 0
    &&& t.pads@.len() == 1
    &&& is_round_pad(t.pads@[0], Point { x: 0, y: 0 }, 750_000, layer, "1"@)
}

/// One plated through-hole solder pad for a wire.
pub open spec fn is_wire_pad(
    t: FootprintTemplate,
    name: Seq<char>,
    radius: Unit,
    drill: Unit,
    connection: ZoneConnection,
) -> bool {
    &&& is_plain_template(t, name, "W"@, true)
    &&& t.holes@.len() == 0
    &&& t.pads@.len() == 1
    &&& t.pads@[0].hole_diameter == Some(drill)
    &&& t.pads@[0].zone_connection == connection
    &&& is_round_pad(
        PadTemplate {
            hole_diameter: None,
            zone_connection: ZoneConnection::Thermal,
            ..t.pads@[0]
        },
        Point { x: 0, y: 0 },
        radius,
        LayerId::FCu,
        "1"@,
    )
}

/// One mechanical hole for a screw, and no pad.
pub open spec fn is_mounting_hole(t: FootprintTemplate, screw: Seq<char>, drill: Unit) -> bool {
    &&& is_plain_template(t, "Mounting hole ("@ + screw + ", NPTH)"@, "H"@, true)
    &&& t.pads@.len() == 0
    &&& t.holes@ == seq![HoleTemplate { offset: Point { x: 0, y: 0 }, drill }]
}

fn no_pads() -> (v: Vec<PadTemplate>)
    ensures
        v@.len() == 0,
{
    Vec::new()
}

fn no_holes() -> (v: Vec<HoleTemplate>)
    ensures
        v@.len() == 0,
{
    Vec::new()
}

fn smd_solder_pad_template(layer: LayerId) -> (t: FootprintTemplate)
    ensures
        is_solder_pad(t, layer),
{
    let side = match layer {
        LayerId::FCu => "F.Cu",
        LayerId::BCu => "B.Cu",
    };
    let mut name = joined("Solder pad (SMD, 1.5mm, ", side);
    name.append(")");
    let mut pads = no_pads();
    pads.push(PadTemplate::circle(Point::new(0, 0), 750_000, layer, "1".to_owned()));
    FootprintTemplate {
        name,
        reference_prefix: "P".to_owned(),
        pads,
        holes: no_holes(),
        exclude_from_bom: true,
        explicit_courtyard: None,
    }
}

fn wire_pad_template(
    name: &str,
    copper_radius: Unit,
    drill: Unit,
    zone_connection: ZoneConnection,
) -> (t: FootprintTemplate)
    ensures
        is_wire_pad(t, name@, copper_radius, drill, zone_connection),
{
    let mut pad = PadTemplate::circle(
        Point::new(0, 0),
        copper_radius,
        LayerId::FCu,
        "1".to_owned(),
    );
    pad.hole_diameter = Some(drill);
    pad.zone_connection = zone_connection;
    let mut pads = no_pads();
    pads.push(pad);
    FootprintTemplate {
        name: name.to_owned(),
        reference_prefix: "W".to_owned(),
        pads,
        holes: no_holes(),
        exclude_from_bom: true,
        explicit_courtyard: None,
    }
}

fn mounting_hole_template(screw_size: &str, drill: Unit) -> (t: FootprintTemplate)
    ensures
        is_mounting_hole(t, screw_size@, drill),
{
    let mut name = joined("Mounting hole (", screw_size);
    name.append(", NPTH)");
    let mut holes = no_holes();
    holes.push(HoleTemplate { offset: Point::new(0, 0), drill });
    assert(holes@ =~= seq![HoleTemplate { offset: Point { x: 0, y: 0 }, drill }]);
    FootprintTemplate {
        name,
        reference_prefix: "H".to_owned(),
        pads: no_pads(),
        holes,
        exclude_from_bom: true,
        explicit_courtyard: None,
    }
}

/// The placeable built-in library.
pub open spec fn is_builtin_library(ts: Seq<FootprintTemplate>) -> bool {
    &&& ts.len() == 8
    &&& is_solder_pad(ts[0], LayerId::FCu)
    &&& is_solder_pad(ts[1], LayerId::BCu)
    &&& is_wire_pad(
        ts[2],
        "Wire pad (PTH, 1.0mm hole)"@,
        1_000_000,
        1_000_000,
        ZoneConnection::Thermal,
    )
    &&& is_wire_pad(
        ts[3],
        "Wire pad (solder, 2mm)"@,
        1_250_000,
        1_500_000,
        ZoneConnection::Thermal,
    )
    &&& is_wire_pad(
        ts[4],
        "Wire pad (PTH, 2.0mm hole)"@,
        1_600_000,
        2_000_000,
        ZoneConnection::Solid,
    )
    &&& is_mounting_hole(ts[5], "M2"@, 2_200_000)
    &&& is_mounting_hole(ts[6], "M2.5"@, 2_700_000)
    &&& is_mounting_hole(ts[7], "M3"@, 3_200_000)
}

/// The placeable built-in library: solder pads, wire pads and mounting holes.
pub fn builtin_templates() -> (ts: Vec<FootprintTemplate>)
    ensures
        is_builtin_library(ts@),
{
    let mut ts: Vec<FootprintTemplate> = Vec::new();
    ts.push(smd_solder_pad_template(LayerId::FCu));
    ts.push(smd_solder_pad_template(LayerId::BCu));
    ts.push(
        wire_pad_template(
            "Wire pad (PTH, 1.0mm hole)",
            1_000_000,
            1_000_000,
            ZoneConnection::Thermal,
        ),
    );
    ts.push(
        wire_pad_template(
            "Wire pad (solder, 2mm)",
            1_250_000,
            1_500_000,
            ZoneConnection::Thermal,
        ),
    );
    ts.push(
        wire_pad_template(
            "Wire pad (PTH, 2.0mm hole)",
            1_600_000,
            2_000_000,
            ZoneConnection::Solid,
        ),
    );
    ts.push(mounting_hole_template("M2", 2_200_000));
    ts.push(mounting_hole_template("M2.5", 2_700_000));
    ts.push(mounting_hole_template("M3", 3_200_000));
    ts
}

/// The name of a demo part that is no longer placeable.
pub open spec fn is_legacy_name(name: Seq<char>) -> bool {
    ||| name == "2-pin THT (2.54mm pitch)"@
    ||| name == "4-pin THT header (2.54mm pitch)"@
    ||| name == "SOIC-8 (1.27mm pitch)"@
}

/// Whether this is one of the former demo parts, which still open with an old
/// board but cannot be placed any more.
pub fn is_legacy_demo_template(name: &str) -> (r: bool)
    ensures
        r == is_legacy_name(name@),
{
    same_text(name, "2-pin THT (2.54mm pitch)") || same_text(
        name,
        "4-pin THT header (2.54mm pitch)",
    ) || same_text(name, "SOIC-8 (1.27mm pitch)")
}

/// Where pin `i` of the SOIC-8 stands: four down the left side, four up the
/// right.
pub open spec fn soic_offset(i: int) -> Point {
    if i < 4 {
        Point { x: -2_650_000i64, y: (1_270_000 * i - 1_905_000) as Unit }
    } else {
        Point { x: 2_650_000, y: (1_270_000 * (7 - i) - 1_905_000) as Unit }
    }
}

/// A template of round surface-mount pads numbered from one.
pub open spec fn is_round_pad_part(
    t: FootprintTemplate,
    name: Seq<char>,
    prefix: Seq<char>,
    pins: nat,
    radius: Unit,
    at: spec_fn(int) -> Point,
) -> bool {
    &&& is_plain_template(t, name, prefix, false)
    &&& t.holes@.len() == 0
    &&& t.pads@.len() == pins
    &&& forall|i: int|
        #![trigger t.pads@[i]]
        0 <= i < pins ==> is_round_pad(
            t.pads@[i],
            at(i),
            radius,
            LayerId::FCu,
            decimal((i + 1) as nat),
        )
}

/// The former demo parts.
pub open spec fn is_legacy_library(ts: Seq<FootprintTemplate>) -> bool {
    &&& ts.len() == 3
    &&& is_round_pad_part(
        ts[0],
        "2-pin THT (2.54mm pitch)"@,
        "P"@,
        2,
        450_000,
        |i: int| Point { x: (2_540_000 * i - 1_270_000) as Unit, y: 0 },
    )
    &&& is_round_pad_part(
        ts[1],
        "4-pin THT header (2.54mm pitch)"@,
        "J"@,
        4,
        450_000,
        |i: int| Point { x: (2_540_000 * i - 3_810_000) as Unit, y: 0 },
    )
    &&& is_round_pad_part(
        ts[2],
        "SOIC-8 (1.27mm pitch)"@,
        "U"@,
        8,
        300_000,
        |i: int| soic_offset(i),
    )
}

/// Round pads in a row along x, numbered from one, `first` being where the
/// first one stands.
fn round_pad_row(count: u64, pitch: Unit, first: Unit, radius: Unit) -> (pads: Vec<PadTemplate>)
    requires
        forall|i: int| 0 <= i < count ==> fits(#[trigger] (pitch * i)) && fits(pitch * i + first),
    ensures
        pads@.len() == count,
        forall|i: int|
            #![trigger pads@[i]]
            0 <= i < count ==> is_round_pad(
                pads@[i],
                Point { x: (pitch * i + first) as Unit, y: 0 },
                radius,
                LayerId::FCu,
                decimal((i + 1) as nat),
            ),
{
    let mut pads = no_pads();
    let mut i: u64 = 0;
    while i < count
        invariant
            forall|i: int|
                0 <= i < count ==> fits(#[trigger] (pitch * i)) && fits(pitch * i + first),
            i <= count,
            pads@.len() == i,
            forall|k: int|
                #![trigger pads@[k]]
                0 <= k < i ==> is_round_pad(
                    pads@[k],
                    Point { x: (pitch * k + first) as Unit, y: 0 },
                    radius,
                    LayerId::FCu,
                    decimal((k + 1) as nat),
                ),
        decreases count - i,
    {
        let ghost n = i as int;
        assert(fits(pitch * n) && fits(pitch * n + first));
        let x: i128 = (pitch as i128) * (i as i128) + first as i128;
        pads.push(
            PadTemplate::circle(
                Point::new(x as Unit, 0),
                radius,
                LayerId::FCu,
                decimal_string(i + 1),
            ),
        );
        i += 1;
    }
    pads
}

fn soic_pads() -> (pads: Vec<PadTemplate>)
    ensures
        pads@.len() == 8,
        forall|i: int|
            #![trigger pads@[i]]
            0 <= i < 8 ==> is_round_pad(
                pads@[i],
                soic_offset(i),
                300_000,
                LayerId::FCu,
                decimal((i + 1) as nat),
            ),
{
    let mut pads = no_pads();
    let mut i: u64 = 0;
    while i < 8
        invariant
            i <= 8,
            pads@.len() == i,
            forall|k: int|
                #![trigger pads@[k]]
                0 <= k < i ==> is_round_pad(
                    pads@[k],
                    soic_offset(k),
                    300_000,
                    LayerId::FCu,
                    decimal((k + 1) as nat),
                ),
        decreases 8 - i,
    {
        let (side, in_row): (Unit, Unit) = if i < 4 {
            (-2_650_000, i as Unit)
        } else {
            (2_650_000, 7 - i as Unit)
        };
        pads.push(
            PadTemplate::circle(
                Point::new(side, 1_270_000 * in_row - 1_905_000),
                300_000,
                LayerId::FCu,
                decimal_string(i + 1),
            ),
        );
        i += 1;
    }
    pads
}

/// The former demo parts, which open with an old board.
pub fn legacy_builtin_templates() -> (ts: Vec<FootprintTemplate>)
    ensures
        is_legacy_library(ts@),
{
    let mut ts: Vec<FootprintTemplate> = Vec::new();
    ts.push(
        FootprintTemplate {
            name: "2-pin THT (2.54mm pitch)".to_owned(),
            reference_prefix: "P".to_owned(),
            pads: round_pad_row(2, 2_540_000, -1_270_000, 450_000),
            holes: no_holes(),
            exclude_from_bom: false,
            explicit_courtyard: None,
        },
    );
    ts.push(
        FootprintTemplate {
            name: "4-pin THT header (2.54mm pitch)".to_owned(),
            reference_prefix: "J".to_owned(),
            pads: round_pad_row(4, 2_540_000, -3_810_000, 450_000),
            holes: no_holes(),
            exclude_from_bom: false,
            explicit_courtyard: None,
        },
    );
    ts.push(
        FootprintTemplate {
            name: "SOIC-8 (1.27mm pitch)".to_owned(),
            reference_prefix: "U".to_owned(),
            pads: soic_pads(),
            holes: no_holes(),
            exclude_from_bom: false,
            explicit_courtyard: None,
        },
    );
    ts
}

/// Placeable and former built-in parts together: what an open board needs.
pub fn session_builtin_templates() -> (ts: Vec<FootprintTemplate>)
    ensures
        ts@.len() == 11,
        is_builtin_library(ts@.take(8)),
        is_legacy_library(ts@.skip(8)),
{
    let mut ts: Vec<FootprintTemplate> = builtin_templates();
    let mut legacy: Vec<FootprintTemplate> = legacy_builtin_templates();
    let ghost placeable = ts@;
    let ghost former = legacy@;
    ts.append(&mut legacy);
    assert(ts@.take(8) =~= placeable);
    assert(ts@.skip(8) =~= former);
    ts
}

/// The pins a row has: at least one.
pub open spec fn row_pins(pin_count: u32) -> int {
    if pin_count == 0 {
        1
    } else {
        pin_count as int
    }
}

/// A row of round pads at an even pitch, centred on the origin.
pub open spec fn is_row(
    t: FootprintTemplate,
    name: Seq<char>,
    prefix: Seq<char>,
    pin_count: u32,
    pitch: Unit,
    radius: Unit,
    hole: Option<Unit>,
) -> bool {
    &&& is_plain_template(t, name, prefix, false)
    &&& t.holes@.len() == 0
    &&& t.pads@.len() == row_pins(pin_count)
    &&& forall|i: int|
        #![trigger t.pads@[i]]
        0 <= i < row_pins(pin_count) ==> t.pads@[i].hole_diameter == hole && is_round_pad(
            PadTemplate { hole_diameter: None, ..t.pads@[i] },
            Point {
                x: (pitch * i - quotient(pitch * (row_pins(pin_count) - 1), 2)) as Unit,
                y: 0,
            },
            radius,
            LayerId::FCu,
            decimal((i + 1) as nat),
        )
}

/// A straight row of surface-mount pads, as the "add part" form generates it.
pub fn straight_row_template(
    name: String,
    reference_prefix: String,
    pin_count: u32,
    pitch: Unit,
    pad_radius: Unit,
) -> (t: FootprintTemplate)
    requires
        fits(pitch * (row_pins(pin_count) - 1)),
    ensures
        is_row(t, name@, reference_prefix@, pin_count, pitch, pad_radius, None),
{
    straight_row_template_with_hole(name, reference_prefix, pin_count, pitch, pad_radius, None)
}

/// The same row, with a plated drill of the given diameter in every pad; a
/// diameter that is not positive means no drill.
pub fn straight_row_template_with_hole(
    name: String,
    reference_prefix: String,
    pin_count: u32,
    pitch: Unit,
    pad_radius: Unit,
    hole_diameter: Option<Unit>,
) -> (t: FootprintTemplate)
    requires
        fits(pitch * (row_pins(pin_count) - 1)),
    ensures
        is_row(
            t,
            name@,
            reference_prefix@,
            pin_count,
            pitch,
            pad_radius,
            match hole_diameter {
                Some(d) => if d > 0 {
                    Some(d)
                } else {
                    None
                },
                None => None,
            },
        ),
{
    let hole: Option<Unit> = match hole_diameter {
        Some(d) => if d > 0 {
            Some(d)
        } else {
            None
        },
        None => None,
    };
    let pins: u64 = if pin_count == 0 {
        1
    } else {
        pin_count as u64
    };
    let span: i128 = pitch as i128 * (pins as i128 - 1);
    let first: i128 = -divided(span, 2);
    proof {
        let n = pins as int;
        assert forall|i: int| 0 <= i < n implies fits(#[trigger] (pitch * i)) && fits(
            pitch * i + first,
        ) by {
            lemma_row_fits(pitch as int, i, n);
        }
    }
    let mut pads = round_pad_row(pins, pitch, first as Unit, pad_radius);
    let ghost plain = pads@;
    let mut k: usize = 0;
    while k < pads.len()
        invariant
            k <= pads@.len(),
            pads@.len() == plain.len(),
            forall|i: int|
                #![trigger pads@[i]]
                0 <= i < plain.len() ==> pads@[i] == if i < k {
                    PadTemplate { hole_diameter: hole, ..plain[i] }
                } else {
                    plain[i]
                },
        decreases pads@.len() - k,
    {
        pads[k].hole_diameter = hole;
        k += 1;
    }
    proof {
        assert forall|i: int| #![trigger pads@[i]] 0 <= i < plain.len() implies pads@[i].hole_diameter
            == hole && is_round_pad(
            PadTemplate { hole_diameter: None, ..pads@[i] },
            Point { x: (pitch * i + first) as Unit, y: 0 },
            pad_radius,
            LayerId::FCu,
            decimal((i + 1) as nat),
        ) by {
            assert(is_round_pad(
                plain[i],
                Point { x: (pitch * i + first) as Unit, y: 0 },
                pad_radius,
                LayerId::FCu,
                decimal((i + 1) as nat),
            ));
        }
    }
    FootprintTemplate {
        name,
        reference_prefix,
        pads,
        holes: no_holes(),
        exclude_from_bom: false,
        explicit_courtyard: None,
    }
}

proof fn lemma_row_fits(pitch: int, i: int, n: int)
    requires
        0 <= i < n,
        fits(pitch),
        fits(pitch * (n - 1)),
    ensures
        fits(pitch * i),
        fits(pitch * i - quotient(pitch * (n - 1), 2)),
{
    assert(pitch >= 0 ==> 0 <= pitch * i <= pitch * (n - 1)) by (nonlinear_arith)
        requires
            0 <= i <= n - 1,
    ;
    assert(pitch < 0 ==> pitch * (n - 1) <= pitch * i <= 0) by (nonlinear_arith)
        requires
            0 <= i <= n - 1,
    ;
}

/// What the scalar rules are asked about one pad: the narrowest side of its
/// copper, and its drill where it has one.
#[derive(Debug, Clone, Copy, PartialEq, Eq, Structural)]
pub enum PadQuery {
    Smd { side: Unit },
    Pth { side: Unit, drill: Unit },
}

/// What the scalar rules are asked about a pad.
pub open spec fn query_of(pad: PadTemplate) -> PadQuery {
    match pad.hole_diameter {
        None => PadQuery::Smd { side: narrowest_side(pad) as Unit },
        Some(drill) => PadQuery::Pth { side: narrowest_side(pad) as Unit, drill },
    }
}

/// What the scalar rules are asked about a pad: its narrowest side counts,
/// and a through-hole pad's ring is measured against that same number.
pub fn pad_dfm_query(pad: &PadTemplate) -> (r: PadQuery)
    requires
        fits(narrowest_side(*pad)),
    ensures
        r == query_of(*pad),
{
    let side: Unit = match pad.shape {
        PadShapeKind::Circle => pad.radius * 2,
        PadShapeKind::Rect { width, height } | PadShapeKind::Oval { width, height } => min_unit(
            width,
            height,
        ),
    };
    match pad.hole_diameter {
        None => PadQuery::Smd { side },
        Some(drill) => PadQuery::Pth { side, drill },
    }
}

/// The verdict at place `i`; there is none past the end.
pub open spec fn verdict(verdicts: Seq<Option<DfmViolation>>, i: int) -> Option<DfmViolation> {
    if 0 <= i < verdicts.len() {
        verdicts[i]
    } else {
        None
    }
}

fn verdict_at(verdicts: &[Option<DfmViolation>], i: usize) -> (r: Option<DfmViolation>)
    ensures
        r == verdict(verdicts@, i as int),
{
    if i < verdicts.len() {
        verdicts[i]
    } else {
        None
    }
}

/// The violations among the pads, labelled by the pad's number.
pub open spec fn pad_violations(
    pads: Seq<PadTemplate>,
    verdicts: Seq<Option<DfmViolation>>,
) -> Seq<(Seq<char>, DfmViolation)>
    decreases pads.len(),
{
    if pads.len() == 0 {
        Seq::empty()
    } else {
        let rest = pad_violations(pads.drop_last(), verdicts);
        match verdict(verdicts, pads.len() - 1) {
            Some(v) => rest.push(("pad "@ + pads.last().number@, v)),
            None => rest,
        }
    }
}

/// The violations among the first `n` holes, labelled by their number from
/// one.
pub open spec fn hole_violations(
    n: nat,
    verdicts: Seq<Option<DfmViolation>>,
) -> Seq<(Seq<char>, DfmViolation)>
    decreases n,
{
    if n == 0 {
        Seq::empty()
    } else {
        let rest = hole_violations((n - 1) as nat, verdicts);
        match verdict(verdicts, n - 1) {
            Some(v) => rest.push(("hole "@ + decimal(n), v)),
            None => rest,
        }
    }
}

/// A list of labelled violations by what the labels say.
pub open spec fn labelled(vs: Seq<(String, DfmViolation)>) -> Seq<(Seq<char>, DfmViolation)> {
    vs.map_values(|v: (String, DfmViolation)| (v.0@, v.1))
}

/// A violation that no fab can ignore; the annular ring of a through-hole pad
/// and the size of a surface-mount pad are only reported.
pub open spec fn is_hard(v: DfmViolation) -> bool {
    v != DfmViolation::PthAnnularRingBelowMin && v != DfmViolation::SmdPadBelowMin
}

/// The hard ones among labelled violations.
pub open spec fn hard_only(
    vs: Seq<(Seq<char>, DfmViolation)>,
) -> Seq<(Seq<char>, DfmViolation)>
    decreases vs.len(),
{
    if vs.len() == 0 {
        vs
    } else {
        let rest = hard_only(vs.drop_last());
        if is_hard(vs.last().1) {
            rest.push(vs.last())
        } else {
            rest
        }
    }
}

/// Every scalar rule that the pads and holes break, with the offender's label:
/// `pad_verdicts[i]` and `hole_verdicts[i]` are what the fab's rules say to
/// [`pad_dfm_query`] of pad `i` and to the drill of hole `i`.
pub fn template_dfm_violations(
    pads: &[PadTemplate],
    holes: &[HoleTemplate],
    pad_verdicts: &[Option<DfmViolation>],
    hole_verdicts: &[Option<DfmViolation>],
) -> (r: Vec<(String, DfmViolation)>)
    ensures
        labelled(r@) == pad_violations(pads@, pad_verdicts@) + hole_violations(
            holes@.len(),
            hole_verdicts@,
        ),
{
    let mut r: Vec<(String, DfmViolation)> = Vec::new();
    let mut i: usize = 0;
    assert(labelled(r@) =~= pad_violations(pads@.take(0), pad_verdicts@));
    while i < pads.len()
        invariant
            i <= pads@.len(),
            labelled(r@) == pad_violations(pads@.take(i as int), pad_verdicts@),
        decreases pads@.len() - i,
    {
        assert(pads@.take(i + 1).drop_last() =~= pads@.take(i as int));
        assert(pads@.take(i + 1).last() == pads@[i as int]);
        match verdict_at(pad_verdicts, i) {
            Some(v) => {
                let label = joined("pad ", &pads[i].number);
                let ghost before = r@;
                r.push((label, v));
                assert(labelled(r@) =~= labelled(before).push((label@, v)));
            },
            None => {},
        }
        i += 1;
    }
    assert(pads@.take(i as int) =~= pads@);
    let ghost of_pads = pad_violations(pads@, pad_verdicts@);
    let mut k: usize = 0;
    assert(labelled(r@) =~= of_pads + hole_violations(0, hole_verdicts@));
    while k < holes.len()
        invariant
            k <= holes@.len(),
            labelled(r@) == of_pads + hole_violations(k as nat, hole_verdicts@),
        decreases holes@.len() - k,
    {
        match verdict_at(hole_verdicts, k) {
            Some(v) => {
                let number = decimal_string(k as u64 + 1);
                let label = joined("hole ", &number);
                let ghost before = r@;
                r.push((label, v));
                assert(labelled(r@) =~= labelled(before).push((label@, v)));
            },
            None => {},
        }
        k += 1;
        assert(labelled(r@) =~= of_pads + hole_violations(k as nat, hole_verdicts@));
    }
    r
}

/// The violations that refuse a template at registration, download and
/// placement.
pub fn template_dfm_hard_violations(
    pads: &[PadTemplate],
    holes: &[HoleTemplate],
    pad_verdicts: &[Option<DfmViolation>],
    hole_verdicts: &[Option<DfmViolation>],
) -> (r: Vec<(String, DfmViolation)>)
    ensures
        labelled(r@) == hard_only(
            pad_violations(pads@, pad_verdicts@) + hole_violations(holes@.len(), hole_verdicts@),
        ),
{
    let all: Vec<(String, DfmViolation)> = template_dfm_violations(
        pads,
        holes,
        pad_verdicts,
        hole_verdicts,
    );
    let mut r: Vec<(String, DfmViolation)> = Vec::new();
    let mut i: usize = 0;
    assert(labelled(r@) =~= hard_only(labelled(all@).take(0)));
    while i < all.len()
        invariant
            i <= all@.len(),
            labelled(r@) == hard_only(labelled(all@).take(i as int)),
        decreases all@.len() - i,
    {
        let ghost so_far = labelled(all@).take(i + 1);
        assert(so_far.drop_last() =~= labelled(all@).take(i as int));
        assert(so_far.last() == labelled(all@)[i as int]);
        let v = all[i].1;
        let hard = match v {
            DfmViolation::PthAnnularRingBelowMin => false,
            DfmViolation::SmdPadBelowMin => false,
            _ => true,
        };
        if hard {
            let ghost before = r@;
            let label = all[i].0.clone();
            r.push((label, v));
            assert(labelled(r@) =~= labelled(before).push((label@, v)));
        }
        i += 1;
    }
    assert(labelled(all@).take(i as int) =~= labelled(all@));
    r
}

/// What refuses a template is always among what is reported of it.
pub proof fn law_hard_violations_are_reported(vs: Seq<(Seq<char>, DfmViolation)>)
    ensures
        forall|v: (Seq<char>, DfmViolation)| #[trigger]
            hard_only(vs).contains(v) <==> vs.contains(v) && is_hard(v.1),
    decreases vs.len(),
{
    if vs.len() > 0 {
        law_hard_violations_are_reported(vs.drop_last());
        let rest = hard_only(vs.drop_last());
        let last = vs.last();
        assert forall|v: (Seq<char>, DfmViolation)| #[trigger]
            hard_only(vs).contains(v) <==> vs.contains(v) && is_hard(v.1) by {
            assert(vs[vs.len() - 1] == last);
            if vs.contains(v) {
                let k = choose|k: int| 0 <= k < vs.len() && vs[k] == v;
                if k < vs.len() - 1 {
                    assert(vs.drop_last()[k] == v);
                    assert(vs.drop_last().contains(v));
                }
            }
            if vs.drop_last().contains(v) {
                let k = choose|k: int| 0 <= k < vs.drop_last().len() && vs.drop_last()[k] == v;
                assert(vs[k] == v);
            }
            assert(rest.push(last)[rest.len() as int] == last);
            if rest.contains(v) {
                let k = choose|k: int| 0 <= k < rest.len() && rest[k] == v;
                assert(rest.push(last)[k] == v);
            }
            if rest.push(last).contains(v) {
                let k = choose|k: int| 0 <= k < rest.push(last).len() && rest.push(last)[k] == v;
                if k < rest.len() {
                    assert(rest[k] == v);
                }
            }
        }
    }
}

/// The hidden demo parts are exactly the ones the built-in library keeps for
/// old boards: every former part has such a name, no placeable one has.
pub proof fn law_legacy_names_are_the_legacy_library(
    placeable: Seq<FootprintTemplate>,
    former: Seq<FootprintTemplate>,
)
    requires
        is_builtin_library(placeable),
        is_legacy_library(former),
    ensures
        forall|i: int| #![trigger former[i]] 0 <= i < 3 ==> is_legacy_name(former[i].name@),
        forall|i: int| #![trigger placeable[i]] 0 <= i < 8 ==> !is_legacy_name(placeable[i].name@),
{
    reveal_strlit("2-pin THT (2.54mm pitch)");
    reveal_strlit("4-pin THT header (2.54mm pitch)");
    reveal_strlit("SOIC-8 (1.27mm pitch)");
    reveal_strlit("Solder pad (SMD, 1.5mm, ");
    reveal_strlit("Wire pad (PTH, 1.0mm hole)");
    reveal_strlit("Wire pad (solder, 2mm)");
    reveal_strlit("Wire pad (PTH, 2.0mm hole)");
    reveal_strlit("Mounting hole (");
    assert forall|i: int| #![trigger placeable[i]] 0 <= i < 8 implies !is_legacy_name(
        placeable[i].name@,
    ) by {
        let n = placeable[i].name@;
        assert(n[1] == 'o' || n[0] == 'W' || n[0] == 'M');
        assert(n[0] == 'S' ==> n[1] == 'o');
        assert("SOIC-8 (1.27mm pitch)"@[1] == 'O');
        assert("2-pin THT (2.54mm pitch)"@[0] == '2');
        assert("4-pin THT header (2.54mm pitch)"@[0] == '4');
        assert("2-pin THT (2.54mm pitch)"@[1] == '-');
        assert("4-pin THT header (2.54mm pitch)"@[1] == '-');
        assert("SOIC-8 (1.27mm pitch)"@[0] == 'S');
    }
}

} // verus!
