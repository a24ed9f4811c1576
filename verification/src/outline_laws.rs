//! What an outline keeps of the drawing it is read from.

use vstd::prelude::*;

use crate::area::{contour_area, exceeds, negated, next_place, shoelace, Amount};
use crate::decimal::{grid, highest, law_bounds_hold_every_value, lowest, rounded, Spot, LIMIT, NAN};
use crate::dxf_contour::{
    across, bow_at, corners_of, doubled_middle, drawing_corners, joint, largest_contour,
    largest_polyline, larger, legs_upto, on_board, polyline_candidate, polyline_contour,
    ring_candidate, ring_contour, ring_points, same_coordinate, segment_count, segment_joints,
    segment_points, steps_upto, the_ring, upward, walked, Curves, DrawnVertex, Drawing,
};
use crate::dxf_outline::{
    arcs_upto, closed_in, code_of, corners_in, cross_sum, last_with, lines_upto, next_zero, is_ring,
    law_a_ring_can_be_walked, lemma_full_means_all_visited, pending_x, sound_corners, verts_in,
    visits, without_repeats, DxfArc, DxfLine, DxfOutlineError, Group, RingStep, Vertex,
};
use crate::geom::Point;
use crate::text::trimmed;

verus! {

/// A leg bows, one way or the other.
pub open spec fn bows_out(v: DrawnVertex) -> bool {
    v.bulge != NAN && (v.bulge > 1_000_000 || v.bulge < -1_000_000)
}

proof fn lemma_legs_grow(verts: Seq<DrawnVertex>, bows: Seq<Vec<Spot>>, m: int, n: int)
    requires
        0 <= m <= n,
    ensures
        legs_upto(verts, bows, m).len() <= legs_upto(verts, bows, n).len(),
        legs_upto(verts, bows, n).take(legs_upto(verts, bows, m).len() as int) == legs_upto(
            verts,
            bows,
            m,
        ),
    decreases n - m,
{
    let short = legs_upto(verts, bows, m);
    if m < n {
        lemma_legs_grow(verts, bows, m, n - 1);
        let rest = legs_upto(verts, bows, n - 1);
        let all = legs_upto(verts, bows, n);
        assert(all.take(short.len() as int) =~= rest.take(short.len() as int));
    } else {
        assert(short.take(short.len() as int) =~= short);
    }
}

/// Every corner of a closed polyline is on the contour, in order, the first
/// one in front; behind a corner whose leg bows, either way, stand all the
/// points along that leg, in order; and then the next corner.
pub proof fn law_every_leg_is_traced(
    verts: Seq<DrawnVertex>,
    closed: bool,
    bows: Seq<Vec<Spot>>,
    i: int,
) -> (o: int)
    requires
        polyline_contour(verts, closed, bows) is Some,
        0 <= i < corners_of(verts),
    ensures
        ({
            let c = polyline_contour(verts, closed, bows)->0;
            let along = if bows_out(verts[i]) && i < bows.len() {
                bows[i]@
            } else {
                Seq::empty()
            };
            let next = o + 1 + along.len();
            &&& 0 <= o
            &&& next <= c.len()
            &&& i == 0 ==> o == 0
            &&& c[o] == verts[i].place
            &&& c.subrange(o + 1, next) == along
            &&& i + 1 < corners_of(verts) ==> next < c.len() && c[next] == verts[i + 1].place
            &&& i + 1 == corners_of(verts) ==> next == c.len()
        }),
{
    let n = corners_of(verts);
    let c = legs_upto(verts, bows, n);
    let before = legs_upto(verts, bows, i);
    let here = legs_upto(verts, bows, i + 1);
    let o = before.len() as int;
    lemma_legs_grow(verts, bows, i + 1, n);
    let along = bow_at(verts, bows, i);
    assert(here == before.push(verts[i].place) + along);
    assert(here[o] == verts[i].place);
    assert(c.take(here.len() as int)[o] == here[o]);
    assert(c.subrange(o + 1, o + 1 + along.len()) =~= along) by {
        assert forall|k: int| 0 <= k < along.len() implies c[o + 1 + k] == along[k] by {
            assert(c.take(here.len() as int)[o + 1 + k] == here[o + 1 + k]);
        }
    }
    if i + 1 < n {
        lemma_legs_grow(verts, bows, i + 2, n);
        let further = legs_upto(verts, bows, i + 2);
        let at = here.len() as int;
        assert(further == here.push(verts[i + 1].place) + bow_at(verts, bows, i + 1));
        assert(further[at] == verts[i + 1].place);
        assert(c.take(further.len() as int)[at] == further[at]);
    }
    o
}

/// Which way the legs bow makes no difference to which points are traced: a
/// polyline with every bulge turned round, along the same points, gives the
/// same contour.
pub proof fn law_a_bow_counts_either_way(
    verts: Seq<DrawnVertex>,
    other: Seq<DrawnVertex>,
    closed: bool,
    bows: Seq<Vec<Spot>>,
)
    requires
        verts.len() == other.len(),
        forall|i: int|
            #![trigger verts[i]]
            #![trigger other[i]]
            0 <= i < verts.len() ==> {
                &&& other[i].place == verts[i].place
                &&& verts[i].bulge == NAN ==> other[i].bulge == NAN
                &&& verts[i].bulge != NAN ==> other[i].bulge == -verts[i].bulge
            },
    ensures
        polyline_contour(verts, closed, bows) == polyline_contour(other, closed, bows),
{
    if verts.len() > 0 {
        assert(verts[0].place == other[0].place);
        assert(verts[verts.len() - 1].place == other[other.len() - 1].place);
    }
    lemma_same_legs(verts, other, bows, corners_of(verts));
}

proof fn lemma_same_legs(
    verts: Seq<DrawnVertex>,
    other: Seq<DrawnVertex>,
    bows: Seq<Vec<Spot>>,
    n: int,
)
    requires
        verts.len() == other.len(),
        n <= verts.len(),
        forall|i: int|
            #![trigger verts[i]]
            #![trigger other[i]]
            0 <= i < verts.len() ==> {
                &&& other[i].place == verts[i].place
                &&& verts[i].bulge == NAN ==> other[i].bulge == NAN
                &&& verts[i].bulge != NAN ==> other[i].bulge == -verts[i].bulge
            },
    ensures
        legs_upto(verts, bows, n) == legs_upto(other, bows, n),
    decreases n,
{
    if n > 0 {
        lemma_same_legs(verts, other, bows, n - 1);
        assert(verts[n - 1].place == other[n - 1].place);
    }
}

/// Both coordinates of a place are finite.
pub open spec fn is_finite(p: Spot) -> bool {
    -LIMIT <= p.x <= LIMIT && -LIMIT <= p.y <= LIMIT
}

/// Two places are less than a billionth of a millimetre apart, across and
/// upward.
pub open spec fn coincide(a: Spot, b: Spot) -> bool {
    -1_000_000_000 < a.x - b.x < 1_000_000_000 && -1_000_000_000 < a.y - b.y < 1_000_000_000
}

/// A polyline is a contour if it is closed by its flag or by ending where it
/// began, and has three corners, the repeated one not counted.
pub proof fn law_a_closed_polyline_is_a_contour(
    verts: Seq<DrawnVertex>,
    closed: bool,
    bows: Seq<Vec<Spot>>,
)
    requires
        forall|i: int| 0 <= i < verts.len() ==> is_finite((#[trigger] verts[i]).place),
    ensures
        verts.len() < 3 ==> polyline_contour(verts, closed, bows) is None,
        verts.len() >= 3 ==> {
            let back = coincide(verts[0].place, verts[verts.len() - 1].place);
            &&& polyline_contour(verts, closed, bows) is Some <==> if back {
                verts.len() >= 4
            } else {
                closed
            }
            &&& corners_of(verts) == if back {
                verts.len() - 1
            } else {
                verts.len() as int
            }
        },
{
    if verts.len() > 0 {
        let a = verts[0].place;
        let b = verts[verts.len() - 1].place;
        assert(is_finite(a) && is_finite(b));
        assert(same_coordinate(a.x as int, b.x as int) == (-1_000_000_000 < a.x - b.x
            < 1_000_000_000));
        assert(same_coordinate(a.y as int, b.y as int) == (-1_000_000_000 < a.y - b.y
            < 1_000_000_000));
    }
}

/// The area of a rectangle is measured as the product of its sides, twice,
/// whichever way round it is drawn.
pub proof fn law_area_of_a_rectangle(x: i128, y: i128, w: i128, h: i128)
    requires
        -LIMIT <= x <= LIMIT,
        -LIMIT <= y <= LIMIT,
        0 <= w <= LIMIT,
        0 <= h <= LIMIT,
    ensures
        ({
            let (a, b) = (Spot { x, y }, Spot { x: (x + w) as i128, y });
            let (c, d) = (
                Spot { x: (x + w) as i128, y: (y + h) as i128 },
                Spot { x, y: (y + h) as i128 },
            );
            &&& contour_area(seq![a, b, c, d]) == Amount::Finite(2 * (w * h))
            &&& contour_area(seq![a, d, c, b]) == Amount::Finite(-2 * (w * h))
        }),
{
    let (a, b) = (Spot { x, y }, Spot { x: (x + w) as i128, y });
    let (c, d) = (
        Spot { x: (x + w) as i128, y: (y + h) as i128 },
        Spot { x, y: (y + h) as i128 },
    );
    let there = seq![a, b, c, d];
    let back = seq![a, d, c, b];
    assert(there[0] == a && there[1] == b && there[2] == c && there[3] == d);
    assert(back[0] == a && back[1] == d && back[2] == c && back[3] == b);
    reveal_with_fuel(shoelace, 5);
    assert(next_place(there, 3) == a && next_place(back, 3) == a);
    assert(x * y - (x + w) * y + ((x + w) * (y + h) - (x + w) * y) + ((x + w) * (y + h) - x * (y
        + h)) + (x * y - x * (y + h)) == 2 * (w * h)) by (nonlinear_arith);
    assert(x * (y + h) - x * y + (x * (y + h) - (x + w) * (y + h)) + ((x + w) * y - (x + w) * (y
        + h)) + ((x + w) * y - x * y) == -2 * (w * h)) by (nonlinear_arith);
}

/// Of two contours the one with the larger area is larger, whichever way they
/// are drawn round.
pub proof fn law_the_way_round_does_not_count(a: Amount, b: Amount, x: int, y: int)
    ensures
        exceeds(negated(a), b) == exceeds(a, b),
        exceeds(a, negated(b)) == exceeds(a, b),
        0 <= x && 0 <= y ==> exceeds(Amount::Finite(x), Amount::Finite(y)) == (x > y),
{
}

/// The contour that is taken is one of those in the drawing, and none of them
/// is larger, as far as their areas are finite.
pub proof fn law_the_largest_contour_is_taken(drawing: Drawing, curves: Curves, p: int)
    requires
        0 <= p < drawing.polylines@.len(),
        forall|q: int|
            0 <= q < drawing.polylines@.len() ==> (#[trigger] polyline_candidate(drawing, curves, q)
                matches Some(c) ==> contour_area(c.0) is Finite),
        ring_candidate(drawing, curves) matches Some(c) ==> contour_area(c.0) is Finite,
    ensures
        polyline_candidate(drawing, curves, p) matches Some(c) ==> (largest_contour(drawing, curves)
            matches Some(best) && !exceeds(contour_area(c.0), contour_area(best.0))),
        ring_candidate(drawing, curves) matches Some(c) ==> (largest_contour(drawing, curves)
            matches Some(best) && !exceeds(contour_area(c.0), contour_area(best.0))),
        largest_contour(drawing, curves) is Some ==> largest_contour(drawing, curves)
            == ring_candidate(drawing, curves) || exists|q: int|
            0 <= q < drawing.polylines@.len() && #[trigger] polyline_candidate(drawing, curves, q)
                == largest_contour(drawing, curves),
{
    let n = drawing.polylines@.len() as int;
    lemma_largest(drawing, curves, n);
    let best = largest_polyline(drawing, curves, n);
    if polyline_candidate(drawing, curves, p) is Some {
        assert(best is Some);
    }
}

proof fn lemma_largest(drawing: Drawing, curves: Curves, n: int)
    requires
        0 <= n <= drawing.polylines@.len(),
        forall|q: int|
            0 <= q < drawing.polylines@.len() ==> (#[trigger] polyline_candidate(drawing, curves, q)
                matches Some(c) ==> contour_area(c.0) is Finite),
    ensures
        forall|p: int|
            0 <= p < n ==> (#[trigger] polyline_candidate(drawing, curves, p) matches Some(c) ==> (
            largest_polyline(drawing, curves, n) matches Some(best) && contour_area(best.0) is Finite
                && !exceeds(contour_area(c.0), contour_area(best.0)))),
        largest_polyline(drawing, curves, n) is Some ==> exists|q: int|
            0 <= q < n && #[trigger] polyline_candidate(drawing, curves, q) == largest_polyline(
                drawing,
                curves,
                n,
            ),
    decreases n,
{
    if n > 0 {
        lemma_largest(drawing, curves, n - 1);
        let next = polyline_candidate(drawing, curves, n - 1);
        let rest = largest_polyline(drawing, curves, n - 1);
        assert(largest_polyline(drawing, curves, n) == larger(rest, next));
    }
}

/// A drawing without any contour is told from one whose contour is no good.
pub proof fn law_no_contour_means_none(drawing: Drawing, curves: Curves)
    ensures
        drawing_corners(drawing, curves) == Err::<Seq<Point>, DxfOutlineError>(
            DxfOutlineError::NoContour,
        ) <==> ring_candidate(drawing, curves) is None && forall|p: int|
            0 <= p < drawing.polylines@.len() ==> #[trigger] polyline_candidate(drawing, curves, p)
                is None,
{
    lemma_any_polyline(drawing, curves, drawing.polylines@.len() as int);
}

proof fn lemma_any_polyline(drawing: Drawing, curves: Curves, n: int)
    ensures
        largest_polyline(drawing, curves, n) is None <==> forall|p: int|
            0 <= p < n ==> #[trigger] polyline_candidate(drawing, curves, p) is None,
    decreases n,
{
    if n > 0 {
        lemma_any_polyline(drawing, curves, n - 1);
    }
}

pub proof fn lemma_rounded(v: int, d: int)
    requires
        d > 0,
    ensures
        -d <= 2 * (rounded(v, d) * d - v) <= d,
{
    let m = if v >= 0 {
        v
    } else {
        -v
    };
    let q = (2 * m + d) / (2 * d);
    vstd::arithmetic::div_mod::lemma_fundamental_div_mod(2 * m + d, 2 * d);
    let r = (2 * m + d) % (2 * d);
    assert(2 * d * q == 2 * (q * d)) by (nonlinear_arith);
    assert((-q) * d == -(q * d)) by (nonlinear_arith);
    assert(0 <= r < 2 * d) by {
        vstd::arithmetic::div_mod::lemma_mod_bound(2 * m + d, 2 * d);
    }
}

/// On the board the outline lies with its middle at the origin, in nanometres
/// for millimetres, and upside down: what is up in the drawing has the smaller
/// coordinate. No point is off by more than half a nanometre.
pub proof fn law_the_outline_is_centred(
    places: Seq<Spot>,
    i: int,
    left: int,
    right: int,
    bottom: int,
    top: int,
)
    requires
        0 <= i < places.len(),
        forall|k: int| 0 <= k < places.len() ==> is_finite(#[trigger] places[k]),
        forall|k: int|
            0 <= k < places.len() ==> left <= (#[trigger] places[k]).x <= right && bottom
                <= places[k].y <= top,
        exists|k: int| 0 <= k < places.len() && (#[trigger] places[k]).x == left,
        exists|k: int| 0 <= k < places.len() && (#[trigger] places[k]).x == right,
        exists|k: int| 0 <= k < places.len() && (#[trigger] places[k]).y == bottom,
        exists|k: int| 0 <= k < places.len() && (#[trigger] places[k]).y == top,
        right - left < 2_000_000_000_000 * i64::MAX,
        top - bottom < 2_000_000_000_000 * i64::MAX,
    ensures
        -1_000_000_000_000 <= on_board(places)[i].x * 2_000_000_000_000 - (2 * places[i].x - (left
            + right)) <= 1_000_000_000_000,
        -1_000_000_000_000 <= on_board(places)[i].y * 2_000_000_000_000 - ((bottom + top) - 2
            * places[i].y) <= 1_000_000_000_000,
{
    let xs = across(places);
    let ys = upward(places);
    assert forall|k: int| 0 <= k < places.len() implies xs[k] == places[k].x && ys[k]
        == places[k].y && xs[k] != NAN && ys[k] != NAN by {
        assert(is_finite(places[k]));
    }
    let kl = choose|k: int| 0 <= k < places.len() && (#[trigger] places[k]).x == left;
    let kr = choose|k: int| 0 <= k < places.len() && (#[trigger] places[k]).x == right;
    let kb = choose|k: int| 0 <= k < places.len() && (#[trigger] places[k]).y == bottom;
    let kt = choose|k: int| 0 <= k < places.len() && (#[trigger] places[k]).y == top;
    assert(xs[kl] == left && xs[kr] == right && ys[kb] == bottom && ys[kt] == top);
    lemma_extremes(xs, left, right);
    lemma_extremes(ys, bottom, top);
    assert(is_finite(places[i]));
    lemma_finite_bounds(places, left, right, bottom, top);
    let vx = 2 * places[i].x - (left + right);
    let vy = (bottom + top) - 2 * places[i].y;
    assert(doubled_middle(xs) == left + right);
    assert(doubled_middle(ys) == bottom + top);
    lemma_rounded(vx, 2_000_000_000_000);
    lemma_rounded(vy, 2_000_000_000_000);
    assert(i64::MIN <= rounded(vx, 2_000_000_000_000) <= i64::MAX);
    assert(i64::MIN <= rounded(vy, 2_000_000_000_000) <= i64::MAX);
    assert(grid(vx, 2_000_000_000_000) == rounded(vx, 2_000_000_000_000));
    assert(grid(vy, 2_000_000_000_000) == rounded(vy, 2_000_000_000_000));
}

proof fn lemma_finite_bounds(places: Seq<Spot>, left: int, right: int, bottom: int, top: int)
    requires
        forall|k: int| 0 <= k < places.len() ==> is_finite(#[trigger] places[k]),
        exists|k: int| 0 <= k < places.len() && (#[trigger] places[k]).x == left,
        exists|k: int| 0 <= k < places.len() && (#[trigger] places[k]).x == right,
        exists|k: int| 0 <= k < places.len() && (#[trigger] places[k]).y == bottom,
        exists|k: int| 0 <= k < places.len() && (#[trigger] places[k]).y == top,
    ensures
        -LIMIT <= left <= LIMIT,
        -LIMIT <= right <= LIMIT,
        -LIMIT <= bottom <= LIMIT,
        -LIMIT <= top <= LIMIT,
{
}

proof fn lemma_extremes(values: Seq<int>, low: int, high: int)
    requires
        values.len() > 0,
        forall|k: int| 0 <= k < values.len() ==> #[trigger] values[k] != NAN,
        forall|k: int| 0 <= k < values.len() ==> low <= #[trigger] values[k] <= high,
        exists|k: int| 0 <= k < values.len() && #[trigger] values[k] == low,
        exists|k: int| 0 <= k < values.len() && #[trigger] values[k] == high,
    ensures
        lowest(values) == low,
        highest(values) == high,
{
    let a = choose|k: int| 0 <= k < values.len() && #[trigger] values[k] == low;
    let b = choose|k: int| 0 <= k < values.len() && #[trigger] values[k] == high;
    law_bounds_hold_every_value(values, a);
    law_bounds_hold_every_value(values, b);
    let la = choose|k: int| 0 <= k < values.len() && values[k] == lowest(values);
    let lb = choose|k: int| 0 <= k < values.len() && values[k] == highest(values);
    assert(low <= values[la] && values[lb] <= high);
}

/// Ends of segments meet on a grid of a hundredth of a millimetre: an end is
/// joined at the grid point that is nearest to it.
pub proof fn law_joints_are_the_nearest(p: Spot)
    requires
        is_finite(p),
        -10_000_000_000_000_000 * i64::MAX < p.x < 10_000_000_000_000_000 * i64::MAX,
        -10_000_000_000_000_000 * i64::MAX < p.y < 10_000_000_000_000_000 * i64::MAX,
    ensures
        -5_000_000_000_000_000 <= joint(p).x * 10_000_000_000_000_000 - p.x
            <= 5_000_000_000_000_000,
        -5_000_000_000_000_000 <= joint(p).y * 10_000_000_000_000_000 - p.y
            <= 5_000_000_000_000_000,
{
    lemma_rounded(p.x as int, 10_000_000_000_000_000);
    lemma_rounded(p.y as int, 10_000_000_000_000_000);
}

proof fn lemma_repeats_go(points: Seq<Point>)
    ensures
        points.len() > 0 ==> without_repeats(points).len() > 0 && without_repeats(points).last()
            == points.last(),
        forall|k: int|
            #![trigger without_repeats(points)[k]]
            0 <= k < without_repeats(points).len() - 1 ==> without_repeats(points)[k]
                != without_repeats(points)[k + 1],
        forall|k: int|
            0 <= k < without_repeats(points).len() ==> points.contains(
                #[trigger] without_repeats(points)[k],
            ),
        forall|k: int|
            0 <= k < points.len() ==> without_repeats(points).contains(#[trigger] points[k]),
    decreases points.len(),
{
    if points.len() > 0 {
        let init = points.drop_last();
        lemma_repeats_go(init);
        let rest = without_repeats(init);
        let all = without_repeats(points);
        assert(points[points.len() - 1] == points.last());
        assert forall|k: int| 0 <= k < all.len() implies points.contains(#[trigger] all[k]) by {
            if k < rest.len() {
                assert(rest[k] == all[k]);
                let j = choose|j: int| 0 <= j < init.len() && init[j] == rest[k];
                assert(points[j] == all[k]);
            }
        }
        assert forall|k: int| 0 <= k < points.len() implies all.contains(#[trigger] points[k]) by {
            if k < init.len() {
                assert(init[k] == points[k]);
                let j = choose|j: int| 0 <= j < rest.len() && rest[j] == init[k];
                assert(all[j] == points[k]);
            } else {
                assert(all[all.len() - 1] == points[k]);
            }
        }
        assert forall|k: int| #![trigger all[k]] 0 <= k < all.len() - 1 implies all[k] != all[k
            + 1] by {
            if k + 1 < rest.len() {
                assert(rest[k] == all[k] && rest[k + 1] == all[k + 1]);
            }
        }
    }
}

/// An outline that comes out has at least three corners, no corner twice in a
/// row, none but the points of the contour, and all of those.
pub proof fn law_an_outline_is_sound(vertex_count: int, flat: bool, points: Seq<Point>)
    requires
        sound_corners(vertex_count, flat, points) is Ok,
    ensures
        ({
            let c = sound_corners(vertex_count, flat, points)->Ok_0;
            &&& !flat
            &&& vertex_count >= 3
            &&& c.len() >= 3
            &&& c[0] != c[c.len() - 1]
            &&& forall|k: int| #![trigger c[k]] 0 <= k < c.len() - 1 ==> c[k] != c[k + 1]
            &&& forall|k: int| 0 <= k < c.len() ==> points.contains(#[trigger] c[k])
            &&& forall|k: int| 0 <= k < points.len() ==> c.contains(#[trigger] points[k])
        }),
{
    lemma_repeats_go(points);
    let kept = without_repeats(points);
    let c = corners_in(points);
    assert forall|k: int| #![trigger c[k]] 0 <= k < c.len() implies c[k] == kept[k] by {}
    assert forall|k: int| 0 <= k < points.len() implies c.contains(#[trigger] points[k]) by {
        let j = choose|j: int| 0 <= j < kept.len() && kept[j] == points[k];
        if j < c.len() {
            assert(c[j] == points[k]);
        } else {
            assert(c[0] == points[k]);
        }
    }
    assert(c[0] != c[c.len() - 1]) by {
        if kept.len() >= 2 && kept[0] == kept.last() {
            assert(kept[kept.len() - 2] != kept[kept.len() - 2 + 1]);
        }
    }
}

/// A contour without repeated points comes out as it is, unless it is flat.
pub proof fn law_distinct_corners_are_kept(points: Seq<Point>)
    requires
        points.len() > 0,
        points[0] != points[points.len() - 1],
        forall|k: int| #![trigger points[k]] 0 <= k < points.len() - 1 ==> points[k] != points[k
            + 1],
    ensures
        corners_in(points) == points,
{
    lemma_nothing_repeats(points);
}

proof fn lemma_nothing_repeats(points: Seq<Point>)
    requires
        forall|k: int| #![trigger points[k]] 0 <= k < points.len() - 1 ==> points[k] != points[k
            + 1],
    ensures
        without_repeats(points) == points,
    decreases points.len(),
{
    if points.len() > 0 {
        let init = points.drop_last();
        assert forall|k: int| #![trigger init[k]] 0 <= k < init.len() - 1 implies init[k] != init[k
            + 1] by {
            assert(init[k] == points[k]);
        }
        lemma_nothing_repeats(init);
        if init.len() > 0 {
            assert(points[points.len() - 2] != points[points.len() - 2 + 1]);
        }
        assert(points =~= init.push(points.last()));
    }
}

/// A rectangle is a board outline from an area of a square millimetre on,
/// whichever way round.
pub proof fn law_a_rectangle_needs_a_square_millimetre(x: i64, y: i64, w: i64, h: i64, ccw: bool)
    requires
        0 < w,
        0 < h,
        x + w <= i64::MAX,
        y + h <= i64::MAX,
    ensures
        ({
            let (a, b) = (Point { x, y }, Point { x: (x + w) as i64, y });
            let (c, d) = (
                Point { x: (x + w) as i64, y: (y + h) as i64 },
                Point { x, y: (y + h) as i64 },
            );
            let points = if ccw {
                seq![a, b, c, d]
            } else {
                seq![a, d, c, b]
            };
            sound_corners(4, false, points) == if w * h >= 1_000_000_000_000 {
                Ok::<Seq<Point>, DxfOutlineError>(points)
            } else {
                Err(DxfOutlineError::Degenerate)
            }
        }),
{
    let (a, b) = (Point { x, y }, Point { x: (x + w) as i64, y });
    let (c, d) = (
        Point { x: (x + w) as i64, y: (y + h) as i64 },
        Point { x, y: (y + h) as i64 },
    );
    let points = if ccw {
        seq![a, b, c, d]
    } else {
        seq![a, d, c, b]
    };
    assert(a != b && b != c && c != d && d != a);
    assert forall|k: int| #![trigger points[k]] 0 <= k < points.len() - 1 implies points[k]
        != points[k + 1] by {
        if k == 0 {
        } else if k == 1 {
        } else {
            assert(k == 2);
        }
    }
    law_distinct_corners_are_kept(points);
    reveal_with_fuel(cross_sum, 5);
    assert(crate::dxf_outline::following(points, 3) == a);
    assert(x * y - (x + w) * y + ((x + w) * (y + h) - (x + w) * y) + ((x + w) * (y + h) - x * (y
        + h)) + (x * y - x * (y + h)) == 2 * (w * h)) by (nonlinear_arith);
    assert(x * (y + h) - x * y + (x * (y + h) - (x + w) * (y + h)) + ((x + w) * y - (x + w) * (y
        + h)) + ((x + w) * y - x * y) == -2 * (w * h)) by (nonlinear_arith);
    assert(cross_sum(points, 4) == if ccw {
        2 * (w * h)
    } else {
        -2 * (w * h)
    });
}

/// The groups of an entity: those behind its name, up to the next name.
pub open spec fn is_entity(groups: Seq<Group>, at: int, end: int, name: Seq<char>) -> bool {
    &&& 0 <= at < end <= groups.len()
    &&& groups[at].code == 0
    &&& trimmed(groups[at].value@) == name
    &&& forall|k: int| at < k < end ==> (#[trigger] groups[k]).code != 0
    &&& end < groups.len() ==> groups[end].code == 0
}

/// Group `k` holds the number that an entity gives under a code: it is the
/// last one with that code.
pub open spec fn gives(
    groups: Seq<Group>,
    numeric: Seq<bool>,
    at: int,
    end: int,
    code: i32,
    k: int,
) -> bool {
    &&& at < k < end
    &&& groups[k].code == code
    &&& k < numeric.len() && numeric[k]
    &&& forall|j: int| k < j < end ==> (#[trigger] groups[j]).code != code
}

proof fn lemma_next_zero(groups: Seq<Group>, i: int, end: int)
    requires
        0 <= i <= end <= groups.len(),
        forall|k: int| i <= k < end ==> (#[trigger] groups[k]).code != 0,
        end < groups.len() ==> groups[end].code == 0,
    ensures
        next_zero(groups, i) == end,
    decreases end - i,
{
    if i < end {
        lemma_next_zero(groups, i + 1, end);
    }
}

proof fn lemma_last_with(groups: Seq<Group>, from: int, to: int, code: i32, k: int)
    requires
        from <= k < to,
        groups[k].code == code,
        forall|j: int| k < j < to ==> (#[trigger] groups[j]).code != code,
    ensures
        last_with(groups, from, to, code) == Some(k),
    decreases to - from,
{
    if k < to - 1 {
        assert(groups[to - 1].code != code);
        lemma_last_with(groups, from, to - 1, code, k);
    }
}

/// Every `LINE` of a drawing whose four coordinates are numbers is read, from
/// the groups that give them.
pub proof fn law_every_line_is_read(
    groups: Seq<Group>,
    numeric: Seq<bool>,
    at: int,
    end: int,
    line: DxfLine,
)
    requires
        groups.len() <= usize::MAX,
        is_entity(groups, at, end, "LINE"@),
        gives(groups, numeric, at, end, 10, line.x1 as int),
        gives(groups, numeric, at, end, 20, line.y1 as int),
        gives(groups, numeric, at, end, 11, line.x2 as int),
        gives(groups, numeric, at, end, 21, line.y2 as int),
    ensures
        lines_upto(groups, numeric, groups.len() as int).contains(line),
{
    lemma_next_zero(groups, at + 1, end);
    lemma_last_with(groups, at + 1, end, 10, line.x1 as int);
    lemma_last_with(groups, at + 1, end, 20, line.y1 as int);
    lemma_last_with(groups, at + 1, end, 11, line.x2 as int);
    lemma_last_with(groups, at + 1, end, 21, line.y2 as int);
    let here = lines_upto(groups, numeric, at + 1);
    assert(here.last() == line);
    assert(here[here.len() - 1] == line);
    lemma_lines_stay(groups, numeric, at + 1, groups.len() as int, line);
}

proof fn lemma_lines_stay(groups: Seq<Group>, numeric: Seq<bool>, m: int, n: int, line: DxfLine)
    requires
        0 <= m <= n,
        lines_upto(groups, numeric, m).contains(line),
    ensures
        lines_upto(groups, numeric, n).contains(line),
    decreases n - m,
{
    if m < n {
        lemma_lines_stay(groups, numeric, m, n - 1, line);
        let rest = lines_upto(groups, numeric, n - 1);
        let all = lines_upto(groups, numeric, n);
        let k = choose|k: int| 0 <= k < rest.len() && rest[k] == line;
        assert(all[k] == line);
    }
}

/// Every line that is read stands in the drawing as a `LINE`: its numbers are
/// those under the codes 10, 20, 11 and 21 behind the name.
pub proof fn law_every_line_was_drawn(groups: Seq<Group>, numeric: Seq<bool>, n: int, line: DxfLine)
    requires
        0 <= n <= groups.len() <= usize::MAX,
        lines_upto(groups, numeric, n).contains(line),
    ensures
        exists|at: int|
            0 <= at < n && (#[trigger] groups[at]).code == 0 && trimmed(groups[at].value@) == "LINE"@
                && at < line.x1 && at < line.y1 && at < line.x2 && at < line.y2,
        groups[line.x1 as int].code == 10,
        groups[line.y1 as int].code == 20,
        groups[line.x2 as int].code == 11,
        groups[line.y2 as int].code == 21,
    decreases n,
{
    let all = lines_upto(groups, numeric, n);
    let k = choose|k: int| 0 <= k < all.len() && all[k] == line;
    let rest = lines_upto(groups, numeric, n - 1);
    let end = next_zero(groups, n);
    lemma_last_with_is(groups, n, end, 10);
    lemma_last_with_is(groups, n, end, 20);
    lemma_last_with_is(groups, n, end, 11);
    lemma_last_with_is(groups, n, end, 21);
    lemma_next_zero_in(groups, n);
    if k < rest.len() {
        assert(rest[k] == line);
        law_every_line_was_drawn(groups, numeric, n - 1, line);
    } else {
        assert(groups[n - 1].code == 0);
    }
}

proof fn lemma_last_with_is(groups: Seq<Group>, from: int, to: int, code: i32)
    ensures
        last_with(groups, from, to, code) matches Some(k) ==> from <= k < to && groups[k].code
            == code,
    decreases to - from,
{
    if from < to {
        lemma_last_with_is(groups, from, to - 1, code);
    }
}

proof fn lemma_next_zero_in(groups: Seq<Group>, i: int)
    requires
        0 <= i <= groups.len(),
    ensures
        i <= next_zero(groups, i) <= groups.len(),
    decreases groups.len() - i,
{
    if i < groups.len() && groups[i].code != 0 {
        lemma_next_zero_in(groups, i + 1);
    }
}

/// Every `ARC` of a drawing whose numbers are all there, with a radius above
/// nought, is read, from the groups that give them.
pub proof fn law_every_arc_is_read(
    groups: Seq<Group>,
    numeric: Seq<bool>,
    positive: Seq<bool>,
    at: int,
    end: int,
    arc: DxfArc,
)
    requires
        groups.len() <= usize::MAX,
        is_entity(groups, at, end, "ARC"@),
        gives(groups, numeric, at, end, 10, arc.cx as int),
        gives(groups, numeric, at, end, 20, arc.cy as int),
        gives(groups, numeric, at, end, 40, arc.radius as int),
        gives(groups, numeric, at, end, 50, arc.start_deg as int),
        gives(groups, numeric, at, end, 51, arc.end_deg as int),
        arc.radius < positive.len() && positive[arc.radius as int],
    ensures
        arcs_upto(groups, numeric, positive, groups.len() as int).contains(arc),
{
    lemma_next_zero(groups, at + 1, end);
    lemma_last_with(groups, at + 1, end, 10, arc.cx as int);
    lemma_last_with(groups, at + 1, end, 20, arc.cy as int);
    lemma_last_with(groups, at + 1, end, 40, arc.radius as int);
    lemma_last_with(groups, at + 1, end, 50, arc.start_deg as int);
    lemma_last_with(groups, at + 1, end, 51, arc.end_deg as int);
    let here = arcs_upto(groups, numeric, positive, at + 1);
    assert(here.last() == arc);
    assert(here[here.len() - 1] == arc);
    lemma_arcs_stay(groups, numeric, positive, at + 1, groups.len() as int, arc);
}

proof fn lemma_arcs_stay(
    groups: Seq<Group>,
    numeric: Seq<bool>,
    positive: Seq<bool>,
    m: int,
    n: int,
    arc: DxfArc,
)
    requires
        0 <= m <= n,
        arcs_upto(groups, numeric, positive, m).contains(arc),
    ensures
        arcs_upto(groups, numeric, positive, n).contains(arc),
    decreases n - m,
{
    if m < n {
        lemma_arcs_stay(groups, numeric, positive, m, n - 1, arc);
        let rest = arcs_upto(groups, numeric, positive, n - 1);
        let all = arcs_upto(groups, numeric, positive, n);
        let k = choose|k: int| 0 <= k < rest.len() && rest[k] == arc;
        assert(all[k] == arc);
    }
}

/// A polyline's corners are its pairs of codes 10 and 20, in order; a bulge
/// under code 42 belongs to the corner before it; other codes add nothing.
pub proof fn law_corners_are_read_in_pairs(
    groups: Seq<Group>,
    numeric: Seq<bool>,
    from: int,
    to: int,
)
    requires
        0 <= from <= to,
        to + 1 < groups.len() <= usize::MAX,
        to + 1 < numeric.len(),
    ensures
        ({
            let verts = verts_in(groups, numeric, from, to);
            &&& groups[to].code == 10 && groups[to + 1].code == 20 && numeric[to] && numeric[to + 1]
                ==> verts_in(groups, numeric, from, to + 2) == verts.push(
                Vertex { x: to as usize, y: (to + 1) as usize, bulge: None },
            )
            &&& groups[to].code == 42 && numeric[to] && verts.len() > 0 ==> {
                let bowed = verts_in(groups, numeric, from, to + 1);
                &&& bowed.len() == verts.len()
                &&& bowed.drop_last() == verts.drop_last()
                &&& bowed.last() == (Vertex {
                    x: verts.last().x,
                    y: verts.last().y,
                    bulge: Some(to as usize),
                })
            }
            &&& groups[to].code != 20 && groups[to].code != 42 ==> verts_in(
                groups,
                numeric,
                from,
                to + 1,
            ) == verts
        }),
{
    let verts = verts_in(groups, numeric, from, to);
    if groups[to].code == 42 && numeric[to] && verts.len() > 0 {
        let bowed = verts_in(groups, numeric, from, to + 1);
        assert(bowed.drop_last() =~= verts.drop_last());
    }
    if groups[to].code == 10 && groups[to + 1].code == 20 && numeric[to] && numeric[to + 1] {
        assert(verts_in(groups, numeric, from, to + 1) == verts);
        assert(pending_x(groups, numeric, from, to + 1) == Some(to as usize));
    }
}

/// A polyline is closed if the last of its flags, under code 70, is odd.
pub proof fn law_an_odd_flag_closes(groups: Seq<Group>, from: int, to: int, flags: int)
    requires
        0 <= from <= to < groups.len(),
        groups[to].code == 70,
        code_of(groups[to].value@) == Some(flags as i32),
        i32::MIN <= flags <= i32::MAX,
    ensures
        closed_in(groups, from, to + 1) == (flags % 2 == 1),
        !closed_in(groups, from, from),
{
}

proof fn lemma_steps_grow(drawing: Drawing, curves: Curves, ring: Seq<RingStep>, m: int, n: int)
    requires
        0 <= m <= n,
    ensures
        steps_upto(drawing, curves, ring, m).len() <= steps_upto(drawing, curves, ring, n).len(),
        steps_upto(drawing, curves, ring, n).take(
            steps_upto(drawing, curves, ring, m).len() as int,
        ) == steps_upto(drawing, curves, ring, m),
    decreases n - m,
{
    let short = steps_upto(drawing, curves, ring, m);
    if m < n {
        lemma_steps_grow(drawing, curves, ring, m, n - 1);
        let rest = steps_upto(drawing, curves, ring, n - 1);
        let all = steps_upto(drawing, curves, ring, n);
        if n == 1 {
            assert(short =~= Seq::<Spot>::empty());
            assert(all.take(0) =~= short);
        } else {
            assert(all.take(short.len() as int) =~= rest.take(short.len() as int));
        }
    } else {
        assert(short.take(short.len() as int) =~= short);
    }
}

/// A ring holds every point along every one of its segments, between the
/// segment's ends, whatever the order and direction in which it is walked.
pub proof fn law_every_point_along_a_segment_is_on_the_ring(
    drawing: Drawing,
    curves: Curves,
    s: int,
    k: int,
)
    requires
        ring_contour(drawing, curves) is Some,
        segment_count(drawing, curves) <= usize::MAX,
        0 <= s < drawing.lines@.len() + curves.arcs@.len(),
        0 < k < segment_points(drawing, curves, s).len() - 1,
    ensures
        ring_contour(drawing, curves)->0.contains(segment_points(drawing, curves, s)[k]),
{
    let ends = segment_joints(drawing, curves);
    let ring = the_ring(ends);
    let walk = law_a_ring_can_be_walked(ends);
    assert(is_ring(ends, ring) && ring[0] == (RingStep { segment: 0, forward: true }));
    let n = ring.len() as int;
    assert forall|j: int| #![trigger ring[j]] 0 <= j < ring.len() implies ring[j].segment
        < ring.len() by {
        assert(2 * ring[j].segment + 1 < ends.len());
    }
    lemma_full_means_all_visited(ring);
    assert(visits(ring, s));
    let m = choose|m: int| 0 <= m < ring.len() && #[trigger] ring[m].segment == s;
    let own = segment_points(drawing, curves, s);
    let points = walked(own, ring[m].forward);
    let j = if ring[m].forward {
        k
    } else {
        own.len() - 1 - k
    };
    assert(points[j] == own[k]);
    let rest = steps_upto(drawing, curves, ring, m);
    let here = steps_upto(drawing, curves, ring, m + 1);
    let all = steps_upto(drawing, curves, ring, n);
    lemma_steps_grow(drawing, curves, ring, m + 1, n);
    let at = if m == 0 {
        j
    } else {
        rest.len() + j - 1
    };
    assert(here[at] == own[k] && at < here.len() - 1) by {
        if m == 0 {
            assert(here == points);
        } else {
            assert(here == rest + points.skip(1));
            assert(points.skip(1)[j - 1] == points[j]);
        }
    }
    assert(all.take(here.len() as int)[at] == here[at]);
    assert(all[at] == own[k]);
    assert(ring_points(drawing, curves)[at] == own[k]);
}

} // verus!
