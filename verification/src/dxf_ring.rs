//! What a ring of loose segments does not depend on: the order in which they
//! are drawn, and the end from which each of them is drawn.

use vstd::prelude::*;

use crate::decimal::Spot;
use crate::dxf_contour::{
    joint, law_ring_is_walked_one_way, ring_contour, ring_points, segment_joints, segment_points,
    steps_upto, the_ring, walked, Curves, Drawing, DrawnLine,
};
use crate::dxf_outline::{
    far_end, forms_one_ring, is_link, is_partner, is_ring, law_a_ring_can_be_walked,
    lemma_full_means_all_visited, linked, meets_one, near_end, touching, visits, RingStep,
};
use crate::geom::Point;

verus! {

/// Another order for some segments: `order[i]` says which of them comes in
/// place `i`, and whether it keeps its direction.
pub open spec fn is_arrangement(order: Seq<RingStep>) -> bool {
    &&& forall|k: int| #![trigger order[k]] 0 <= k < order.len() ==> order[k].segment < order.len()
    &&& forall|a: int, b: int|
        #![trigger order[a], order[b]]
        0 <= a < b < order.len() ==> order[a].segment != order[b].segment
}

/// Which end of the segments comes in place `e` of another order.
pub open spec fn end_at(order: Seq<RingStep>, e: int) -> int {
    if e % 2 == 0 {
        near_end(order[e / 2])
    } else {
        far_end(near_end(order[e / 2]))
    }
}

/// The ends of the segments in another order.
pub open spec fn rearranged(ends: Seq<Point>, order: Seq<RingStep>) -> Seq<Point> {
    Seq::new(ends.len(), |e: int| ends[end_at(order, e)])
}

/// A step over rearranged segments, as a step over the segments as they were.
pub open spec fn step_back(order: Seq<RingStep>, step: RingStep) -> RingStep {
    RingStep {
        segment: order[step.segment as int].segment,
        forward: step.forward == order[step.segment as int].forward,
    }
}

/// A walk over rearranged segments, as a walk over the segments as they were.
pub open spec fn walk_back(order: Seq<RingStep>, ring: Seq<RingStep>) -> Seq<RingStep> {
    ring.map_values(|step: RingStep| step_back(order, step))
}

/// The same round, begun at step `k`.
pub open spec fn begun_at(ring: Seq<RingStep>, k: int) -> Seq<RingStep> {
    ring.skip(k) + ring.take(k)
}

/// The same round, the other way.
pub open spec fn turned_round(ring: Seq<RingStep>) -> Seq<RingStep> {
    Seq::new(
        ring.len(),
        |k: int|
            RingStep {
                segment: ring[ring.len() - 1 - k].segment,
                forward: !ring[ring.len() - 1 - k].forward,
            },
    )
}

/// Whether two walks go round the same ring, from whichever step and in
/// whichever direction.
pub open spec fn same_round(a: Seq<RingStep>, b: Seq<RingStep>) -> bool {
    ||| exists|k: int| 0 <= k < a.len() && b == #[trigger] begun_at(a, k)
    ||| exists|k: int| 0 <= k < a.len() && b == #[trigger] begun_at(turned_round(a), k)
}

/// The joints at which a walk arrives, from the one where it begins.
pub open spec fn stops(ends: Seq<Point>, ring: Seq<RingStep>) -> Seq<Point> {
    Seq::new(ring.len(), |k: int| ends[near_end(ring[k])])
}

/// The same closed loop of points, begun at point `k`.
pub open spec fn loop_from(points: Seq<Point>, k: int) -> Seq<Point> {
    points.skip(k) + points.take(k)
}

/// Whether two sequences of points are the same closed loop, from whichever
/// point and in whichever direction.
pub open spec fn same_loop(a: Seq<Point>, b: Seq<Point>) -> bool {
    ||| exists|k: int| 0 <= k < a.len() && b == #[trigger] loop_from(a, k)
    ||| exists|k: int| 0 <= k < a.len() && b == #[trigger] loop_from(a.reverse(), k)
}

/// Lines in another order, some of them drawn from the other end.
pub open spec fn lines_rearranged(lines: Seq<DrawnLine>, order: Seq<RingStep>) -> Seq<DrawnLine> {
    Seq::new(
        lines.len(),
        |i: int|
            {
                let line = lines[order[i].segment as int];
                if order[i].forward {
                    line
                } else {
                    DrawnLine { a: line.b, b: line.a }
                }
            },
    )
}

/// Some places on the grid on which ends are joined.
pub open spec fn on_joints(places: Seq<Spot>) -> Seq<Point> {
    places.map_values(|p: Spot| joint(p))
}

/// Where a segment comes in another order.
spec fn place_of(order: Seq<RingStep>, segment: int) -> int {
    choose|k: int| 0 <= k < order.len() && #[trigger] order[k].segment == segment
}

/// The order that puts rearranged segments back.
spec fn inverse(order: Seq<RingStep>) -> Seq<RingStep> {
    Seq::new(
        order.len(),
        |s: int|
            RingStep {
                segment: place_of(order, s) as usize,
                forward: order[place_of(order, s)].forward,
            },
    )
}

proof fn lemma_place_of(order: Seq<RingStep>, segment: int)
    requires
        is_arrangement(order),
        0 <= segment < order.len(),
    ensures
        0 <= place_of(order, segment) < order.len(),
        order[place_of(order, segment)].segment == segment,
{
    lemma_full_means_all_visited(order);
    assert(visits(order, segment));
}

/// Which place of another order an end comes in.
spec fn end_from(order: Seq<RingStep>, e: int) -> int {
    let i = place_of(order, e / 2);
    if near_end(order[i]) == e {
        2 * i
    } else {
        2 * i + 1
    }
}

proof fn lemma_end_from(order: Seq<RingStep>, e: int)
    requires
        is_arrangement(order),
        0 <= e < 2 * order.len(),
    ensures
        0 <= end_from(order, e) < 2 * order.len(),
        end_at(order, end_from(order, e)) == e,
{
    lemma_place_of(order, e / 2);
}

proof fn lemma_end_at(order: Seq<RingStep>, e: int)
    requires
        is_arrangement(order),
        0 <= e < 2 * order.len(),
    ensures
        0 <= end_at(order, e) < 2 * order.len(),
        end_at(order, e) / 2 == order[e / 2].segment,
        end_at(order, far_end(e)) == far_end(end_at(order, e)),
        0 <= far_end(e) < 2 * order.len(),
{
    assert(order[e / 2].segment < order.len());
    assert(far_end(e) / 2 == e / 2);
}

proof fn lemma_end_at_is_injective(order: Seq<RingStep>, a: int, b: int)
    requires
        is_arrangement(order),
        0 <= a < 2 * order.len(),
        0 <= b < 2 * order.len(),
        end_at(order, a) == end_at(order, b),
    ensures
        a == b,
{
    lemma_end_at(order, a);
    lemma_end_at(order, b);
    if a / 2 < b / 2 {
        assert(order[a / 2].segment != order[b / 2].segment);
    }
    if b / 2 < a / 2 {
        assert(order[b / 2].segment != order[a / 2].segment);
    }
}

proof fn lemma_meets_one_carries(ends: Seq<Point>, order: Seq<RingStep>, e: int)
    requires
        ends.len() == 2 * order.len(),
        is_arrangement(order),
        forall|k: int| 0 <= k < ends.len() ==> #[trigger] meets_one(rearranged(ends, order), k),
        0 <= e < ends.len(),
    ensures
        meets_one(ends, e),
{
    let other = rearranged(ends, order);
    let from = end_from(order, e);
    lemma_end_from(order, e);
    assert(meets_one(other, from));
    let p = choose|p: int| #[trigger] is_partner(other, from, p);
    let partner = end_at(order, p);
    lemma_end_at(order, p);
    assert(other[p] == ends[partner]);
    assert(other[from] == ends[e]);
    assert(partner != e) by {
        if partner == e {
            lemma_end_at_is_injective(order, p, from);
        }
    }
    assert forall|q: int|
        0 <= q < ends.len() && q != e && #[trigger] ends[q] == ends[e] implies q == partner by {
        let q_from = end_from(order, q);
        lemma_end_from(order, q);
        assert(other[q_from] == ends[q]);
        assert(q_from != from);
        assert(other[q_from] == other[from]);
    }
    assert(is_partner(ends, e, partner));
}

proof fn lemma_chain_carries(ends: Seq<Point>, order: Seq<RingStep>, chain: Seq<int>) -> (r: Seq<
    int,
>)
    requires
        ends.len() == 2 * order.len(),
        is_arrangement(order),
        is_link(rearranged(ends, order), chain),
    ensures
        is_link(ends, r),
        r[0] == order[chain[0]].segment,
        r.last() == order[chain.last()].segment,
{
    let other = rearranged(ends, order);
    let r = Seq::new(chain.len(), |k: int| order[chain[k]].segment as int);
    assert forall|k: int| #![trigger r[k]] 0 <= k < r.len() implies 0 <= 2 * r[k] && 2 * r[k] + 1
        < ends.len() by {
        assert(2 * chain[k] + 1 < other.len());
        assert(order[chain[k]].segment < order.len());
    }
    assert forall|k: int| #![trigger r[k], r[k + 1]] 0 <= k < r.len() - 1 implies touching(
        ends,
        r[k],
        r[k + 1],
    ) by {
        assert(touching(other, chain[k], chain[k + 1]));
        let (a, b) = choose|a: int, b: int|
            (a == 2 * chain[k] || a == 2 * chain[k] + 1) && (b == 2 * chain[k + 1] || b == 2
                * chain[k + 1] + 1) && #[trigger] other[a] == #[trigger] other[b];
        assert(2 * chain[k] + 1 < other.len());
        assert(2 * chain[k + 1] + 1 < other.len());
        lemma_end_at(order, a);
        lemma_end_at(order, b);
        assert(a / 2 == chain[k] && b / 2 == chain[k + 1]);
        assert(other[a] == ends[end_at(order, a)]);
        assert(other[b] == ends[end_at(order, b)]);
    }
    r
}

proof fn lemma_touches_itself(ends: Seq<Point>, i: int)
    ensures
        touching(ends, i, i),
{
    let e = 2 * i;
    let point = ends[e];
    assert((e == 2 * i || e == 2 * i + 1) && ends[e] == point);
}

/// Two chains from one segment make one between their ends.
proof fn lemma_chains_join(ends: Seq<Point>, a: Seq<int>, b: Seq<int>)
    requires
        is_link(ends, a),
        is_link(ends, b),
        a[0] == b[0],
    ensures
        linked(ends, a.last(), b.last()),
{
    let c = a.reverse() + b;
    assert forall|k: int| #![trigger c[k]] 0 <= k < c.len() implies 0 <= 2 * c[k] && 2 * c[k] + 1
        < ends.len() by {
        if k < a.len() {
            assert(c[k] == a[a.len() - 1 - k]);
        } else {
            assert(c[k] == b[k - a.len()]);
        }
    }
    assert forall|k: int| #![trigger c[k], c[k + 1]] 0 <= k < c.len() - 1 implies touching(
        ends,
        c[k],
        c[k + 1],
    ) by {
        if k + 1 < a.len() {
            let m = a.len() - 2 - k;
            assert(c[k] == a[m + 1]);
            assert(c[k + 1] == a[m]);
            assert(touching(ends, a[m], a[m + 1]));
            let (x, y) = choose|x: int, y: int|
                (x == 2 * a[m] || x == 2 * a[m] + 1) && (y == 2 * a[m + 1] || y == 2 * a[m + 1] + 1)
                    && #[trigger] ends[x] == #[trigger] ends[y];
            assert(ends[y] == ends[x]);
            assert(touching(ends, a[m + 1], a[m]));
        } else if k + 1 == a.len() {
            assert(c[k] == a[0]);
            assert(c[k + 1] == b[0]);
            lemma_touches_itself(ends, a[0]);
        } else {
            let m = k - a.len();
            assert(c[k] == b[m]);
            assert(c[k + 1] == b[m + 1]);
            assert(touching(ends, b[m], b[m + 1]));
        }
    }
    assert(is_link(ends, c));
    assert(c[0] == a.last());
    assert(c.last() == b.last());
}

/// If rearranged segments form one ring, they do so as they were.
proof fn lemma_ring_carries(ends: Seq<Point>, order: Seq<RingStep>)
    requires
        ends.len() == 2 * order.len(),
        is_arrangement(order),
        forms_one_ring(rearranged(ends, order)),
    ensures
        forms_one_ring(ends),
{
    let other = rearranged(ends, order);
    assert forall|e: int| 0 <= e < ends.len() implies #[trigger] meets_one(ends, e) by {
        lemma_meets_one_carries(ends, order, e);
    }
    assert forall|j: int| 0 <= 2 * j && 2 * j + 1 < ends.len() implies #[trigger] linked(
        ends,
        0,
        j,
    ) by {
        lemma_place_of(order, 0);
        lemma_place_of(order, j);
        let i = place_of(order, 0);
        let k = place_of(order, j);
        assert(linked(other, 0, i));
        assert(linked(other, 0, k));
        let to_first = choose|chain: Seq<int>|
            #[trigger] is_link(other, chain) && chain[0] == 0 && chain.last() == i;
        let to_other = choose|chain: Seq<int>|
            #[trigger] is_link(other, chain) && chain[0] == 0 && chain.last() == k;
        let a = lemma_chain_carries(ends, order, to_first);
        let b = lemma_chain_carries(ends, order, to_other);
        lemma_chains_join(ends, a, b);
    }
}

proof fn lemma_inverse(ends: Seq<Point>, order: Seq<RingStep>)
    requires
        ends.len() == 2 * order.len(),
        is_arrangement(order),
    ensures
        is_arrangement(inverse(order)),
        rearranged(rearranged(ends, order), inverse(order)) == ends,
{
    let other = rearranged(ends, order);
    let back = inverse(order);
    assert forall|s: int| 0 <= s < order.len() implies {
        &&& 0 <= place_of(order, s) < order.len()
        &&& order[place_of(order, s)].segment == s
        &&& #[trigger] back[s].segment == place_of(order, s)
    } by {
        lemma_place_of(order, s);
        lemma_place_of(order, order.len() - 1);
    }
    assert forall|a: int, b: int| #![trigger back[a], back[b]] 0 <= a < b < back.len() implies
        back[a].segment != back[b].segment by {
        assert(order[place_of(order, a)].segment == a) by {
            lemma_place_of(order, a);
        }
        assert(order[place_of(order, b)].segment == b) by {
            lemma_place_of(order, b);
        }
    }
    assert forall|e: int| 0 <= e < ends.len() implies #[trigger] rearranged(other, back)[e]
        == ends[e] by {
        let s = e / 2;
        lemma_place_of(order, s);
        let i = place_of(order, s);
        assert(back[s].segment == i);
        let from = end_at(back, e);
        assert(from == 2 * i || from == 2 * i + 1);
        assert(from / 2 == i);
        assert(rearranged(other, back)[e] == other[from]);
        assert(other[from] == ends[end_at(order, from)]);
        assert(end_at(order, from) == e);
    }
    assert(rearranged(other, back) =~= ends);
}

/// Whether loose segments form one ring depends neither on their order nor on
/// the end from which each of them is drawn.
pub proof fn law_a_ring_stays_one_however_drawn(ends: Seq<Point>, order: Seq<RingStep>)
    requires
        ends.len() == 2 * order.len(),
        is_arrangement(order),
    ensures
        forms_one_ring(rearranged(ends, order)) <==> forms_one_ring(ends),
{
    let other = rearranged(ends, order);
    if forms_one_ring(other) {
        lemma_ring_carries(ends, order);
    }
    if forms_one_ring(ends) {
        lemma_inverse(ends, order);
        lemma_ring_carries(other, inverse(order));
    }
}

/// A walk round rearranged segments is one round the segments as they were.
proof fn lemma_walk_back(ends: Seq<Point>, order: Seq<RingStep>, ring: Seq<RingStep>)
    requires
        ends.len() == 2 * order.len(),
        is_arrangement(order),
        is_ring(rearranged(ends, order), ring),
    ensures
        is_ring(ends, walk_back(order, ring)),
        stops(rearranged(ends, order), ring) == stops(ends, walk_back(order, ring)),
{
    let other = rearranged(ends, order);
    let back = walk_back(order, ring);
    assert forall|k: int| 0 <= k < ring.len() implies {
        &&& #[trigger] back[k] == step_back(order, ring[k])
        &&& 0 <= near_end(ring[k]) < other.len()
        &&& 0 <= far_end(near_end(ring[k])) < other.len()
        &&& near_end(back[k]) == end_at(order, near_end(ring[k]))
        &&& far_end(near_end(back[k])) == end_at(order, far_end(near_end(ring[k])))
        &&& 2 * back[k].segment + 1 < ends.len()
    } by {
        assert(2 * ring[k].segment + 1 < other.len());
        let e = near_end(ring[k]);
        assert(e / 2 == ring[k].segment);
        lemma_end_at(order, e);
        assert(order[ring[k].segment as int].segment < order.len());
    }
    assert forall|a: int, b: int| #![trigger back[a], back[b]] 0 <= a < b < back.len() implies
        back[a].segment != back[b].segment by {
        assert(ring[a].segment != ring[b].segment);
        assert(2 * ring[a].segment + 1 < other.len());
        assert(2 * ring[b].segment + 1 < other.len());
        let x = ring[a].segment as int;
        let y = ring[b].segment as int;
        if x < y {
            assert(order[x].segment != order[y].segment);
        } else {
            assert(order[y].segment != order[x].segment);
        }
    }
    assert forall|k: int| #![trigger back[k], back[k + 1]] 0 <= k < back.len() - 1 implies ends[far_end(
        near_end(back[k]),
    )] == ends[near_end(back[k + 1])] by {
        let x = ring[k];
        let y = ring[k + 1];
        assert(other[far_end(near_end(x))] == other[near_end(y)]);
    }
    assert(back.last() == back[ring.len() - 1]);
    assert(ring.last() == ring[ring.len() - 1]);
    assert(back[0] == step_back(order, ring[0]));
    assert(stops(other, ring) =~= stops(ends, back)) by {
        assert forall|k: int| 0 <= k < ring.len() implies #[trigger] stops(other, ring)[k] == stops(
            ends,
            back,
        )[k] by {
            assert(back[k] == step_back(order, ring[k]));
        }
    }
}

proof fn lemma_begun_elsewhere(ends: Seq<Point>, ring: Seq<RingStep>, k: int)
    requires
        is_ring(ends, ring),
        0 <= k < ring.len(),
    ensures
        is_ring(ends, begun_at(ring, k)),
        begun_at(ring, k)[0] == ring[k],
{
    let n = ring.len() as int;
    let r = begun_at(ring, k);
    assert forall|m: int| 0 <= m < n implies #[trigger] r[m] == ring[if m < n - k {
        m + k
    } else {
        m + k - n
    }] by {
    }
    assert forall|a: int, b: int| #![trigger r[a], r[b]] 0 <= a < b < r.len() implies r[a].segment
        != r[b].segment by {
        let x = if a < n - k {
            a + k
        } else {
            a + k - n
        };
        let y = if b < n - k {
            b + k
        } else {
            b + k - n
        };
        if x < y {
            assert(ring[x].segment != ring[y].segment);
        } else {
            assert(ring[y].segment != ring[x].segment);
        }
    }
    assert forall|m: int| #![trigger r[m], r[m + 1]] 0 <= m < r.len() - 1 implies ends[far_end(
        near_end(r[m]),
    )] == ends[near_end(r[m + 1])] by {
        if m == n - k - 1 {
            assert(r[m] == ring.last());
            assert(r[m + 1] == ring[0]);
        } else {
            let x = if m < n - k {
                m + k
            } else {
                m + k - n
            };
            assert(r[m] == ring[x]);
            assert(r[m + 1] == ring[x + 1]);
        }
    }
    if k == 0 {
        assert(r.last() == ring.last());
    } else {
        assert(r.last() == ring[k - 1]);
        assert(r[0] == ring[k - 1 + 1]);
    }
}

proof fn lemma_turned_round(ends: Seq<Point>, ring: Seq<RingStep>)
    requires
        is_ring(ends, ring),
    ensures
        is_ring(ends, turned_round(ring)),
{
    let n = ring.len() as int;
    let r = turned_round(ring);
    assert forall|k: int| 0 <= k < n implies {
        &&& 2 * #[trigger] r[k].segment + 1 < ends.len()
        &&& near_end(r[k]) == far_end(near_end(ring[n - 1 - k]))
        &&& far_end(near_end(r[k])) == near_end(ring[n - 1 - k])
    } by {
        assert(2 * ring[n - 1 - k].segment + 1 < ends.len());
    }
    assert forall|a: int, b: int| #![trigger r[a], r[b]] 0 <= a < b < r.len() implies r[a].segment
        != r[b].segment by {
        assert(ring[n - 1 - b].segment != ring[n - 1 - a].segment);
    }
    assert forall|k: int| #![trigger r[k], r[k + 1]] 0 <= k < r.len() - 1 implies ends[far_end(
        near_end(r[k]),
    )] == ends[near_end(r[k + 1])] by {
        let m = n - 2 - k;
        assert(ends[far_end(near_end(ring[m]))] == ends[near_end(ring[m + 1])]);
        assert(r[k].segment == ring[m + 1].segment);
        assert(r[k + 1].segment == ring[m].segment);
    }
    assert(r.last() == r[n - 1]);
    assert(ring.last() == ring[n - 1]);
    assert(r[0].segment == ring[n - 1].segment);
    assert(r[n - 1].segment == ring[0].segment);
}

/// All walks round a ring are the same round, from whichever step and in
/// whichever direction.
pub proof fn law_a_ring_is_one_round(ends: Seq<Point>, a: Seq<RingStep>, b: Seq<RingStep>)
    requires
        forms_one_ring(ends),
        is_ring(ends, a),
        is_ring(ends, b),
    ensures
        same_round(a, b),
{
    let n = a.len() as int;
    assert forall|k: int| #![trigger a[k]] 0 <= k < a.len() implies a[k].segment < a.len() by {
        assert(2 * a[k].segment + 1 < ends.len());
    }
    lemma_full_means_all_visited(a);
    assert(2 * b[0].segment + 1 < ends.len());
    assert(visits(a, b[0].segment as int));
    let k = choose|k: int| 0 <= k < a.len() && #[trigger] a[k].segment == b[0].segment;
    if a[k].forward == b[0].forward {
        lemma_begun_elsewhere(ends, a, k);
        law_ring_is_walked_one_way(ends, begun_at(a, k), b);
        assert(b == begun_at(a, k));
    } else {
        let t = turned_round(a);
        let m = n - 1 - k;
        lemma_turned_round(ends, a);
        lemma_begun_elsewhere(ends, t, m);
        assert(t[m].segment == a[k].segment);
        law_ring_is_walked_one_way(ends, begun_at(t, m), b);
        assert(b == begun_at(t, m));
    }
}

/// The ring that loose segments form depends neither on their order nor on the
/// end from which each of them is drawn: it is the same round, up to where the
/// walk begins and its direction.
pub proof fn law_the_ring_is_the_same_however_drawn(
    ends: Seq<Point>,
    order: Seq<RingStep>,
    a: Seq<RingStep>,
    b: Seq<RingStep>,
)
    requires
        ends.len() == 2 * order.len(),
        is_arrangement(order),
        forms_one_ring(ends),
        is_ring(ends, a),
        is_ring(rearranged(ends, order), b),
    ensures
        same_round(a, walk_back(order, b)),
{
    lemma_walk_back(ends, order, b);
    law_a_ring_is_one_round(ends, a, walk_back(order, b));
}

/// A round walked otherwise passes the same joints in a loop.
proof fn lemma_same_round_same_loop(ends: Seq<Point>, a: Seq<RingStep>, b: Seq<RingStep>)
    requires
        is_ring(ends, a),
        same_round(a, b),
    ensures
        same_loop(stops(ends, a), stops(ends, b)),
{
    let n = a.len() as int;
    let p = stops(ends, a);
    let q = stops(ends, b);
    if exists|k: int| 0 <= k < a.len() && b == #[trigger] begun_at(a, k) {
        let k = choose|k: int| 0 <= k < a.len() && b == #[trigger] begun_at(a, k);
        assert(q =~= loop_from(p, k)) by {
            assert forall|m: int| 0 <= m < n implies #[trigger] q[m] == loop_from(p, k)[m] by {
                let from = if m < n - k {
                    m + k
                } else {
                    m + k - n
                };
                assert(b[m] == a[from]);
            }
        }
    } else {
        let k = choose|k: int| 0 <= k < a.len() && b == #[trigger] begun_at(turned_round(a), k);
        let t = turned_round(a);
        let r = p.reverse();
        let shift = if k == 0 {
            n - 1
        } else {
            k - 1
        };
        assert forall|m: int| 0 <= m < n implies ends[near_end(#[trigger] t[m])] == r[if m == 0 {
            n - 1
        } else {
            m - 1
        }] by {
            let step = a[n - 1 - m];
            assert(2 * step.segment + 1 < ends.len());
            assert(near_end(t[m]) == far_end(near_end(step)));
            if m == 0 {
                assert(step == a.last());
                assert(r[n - 1] == p[0]);
            } else {
                let j = n - 1 - m;
                assert(ends[far_end(near_end(a[j]))] == ends[near_end(a[j + 1])]);
                assert(r[m - 1] == p[n - m]);
            }
        }
        assert(q =~= loop_from(r, shift)) by {
            assert forall|m: int| 0 <= m < n implies #[trigger] q[m] == loop_from(r, shift)[m] by {
                let from = if m < n - k {
                    m + k
                } else {
                    m + k - n
                };
                assert(b[m] == t[from]);
            }
        }
    }
}

proof fn lemma_joints_rearranged(
    one: Drawing,
    other: Drawing,
    curves: Curves,
    order: Seq<RingStep>,
)
    requires
        curves.arcs@.len() == 0,
        is_arrangement(order),
        one.lines@.len() == order.len(),
        other.lines@ == lines_rearranged(one.lines@, order),
    ensures
        segment_joints(other, curves) == rearranged(segment_joints(one, curves), order),
{
    let ends = segment_joints(one, curves);
    assert forall|e: int| 0 <= e < ends.len() implies #[trigger] segment_joints(other, curves)[e]
        == rearranged(ends, order)[e] by {
        let step = order[e / 2];
        assert(step.segment < order.len());
        let s = step.segment as int;
        let from = end_at(order, e);
        assert(from == 2 * s || from == 2 * s + 1);
        assert(from / 2 == s);
        assert(segment_points(one, curves, s) == seq![one.lines@[s].a, one.lines@[s].b]);
        let line = other.lines@[e / 2];
        assert(segment_points(other, curves, e / 2) == seq![line.a, line.b]);
        assert(ends[from] == joint(
            if from % 2 == 0 {
                one.lines@[s].a
            } else {
                one.lines@[s].b
            },
        ));
    }
    assert(segment_joints(other, curves) =~= rearranged(ends, order));
}

/// Where the first steps over straight segments lead.
proof fn lemma_line_steps(drawing: Drawing, curves: Curves, ring: Seq<RingStep>, k: int)
    requires
        curves.arcs@.len() == 0,
        is_ring(segment_joints(drawing, curves), ring),
        1 <= k <= ring.len(),
    ensures
        steps_upto(drawing, curves, ring, k).len() == k + 1,
        joint(steps_upto(drawing, curves, ring, k)[0]) == segment_joints(
            drawing,
            curves,
        )[near_end(ring[0])],
        forall|m: int|
            1 <= m <= k ==> joint(#[trigger] steps_upto(drawing, curves, ring, k)[m])
                == segment_joints(drawing, curves)[far_end(near_end(ring[m - 1]))],
    decreases k,
{
    let ends = segment_joints(drawing, curves);
    let step = ring[k - 1];
    let s = step.segment as int;
    assert(2 * step.segment + 1 < ends.len());
    assert((2 * s) / 2 == s && (2 * s) % 2 == 0);
    assert((2 * s + 1) / 2 == s && (2 * s + 1) % 2 == 1);
    let line = drawing.lines@[s];
    let points = walked(segment_points(drawing, curves, s), step.forward);
    assert(segment_points(drawing, curves, s) == seq![line.a, line.b]);
    assert(ends[2 * s] == joint(line.a));
    assert(ends[2 * s + 1] == joint(line.b));
    assert(points.len() == 2);
    assert(joint(points[0]) == ends[near_end(step)]);
    assert(joint(points[1]) == ends[far_end(near_end(step))]);
    if k > 1 {
        lemma_line_steps(drawing, curves, ring, k - 1);
        let before = steps_upto(drawing, curves, ring, k - 1);
        let all = steps_upto(drawing, curves, ring, k);
        assert(all == before + points.skip(1));
        assert(all[k] == points[1]);
        assert(all[0] == before[0]);
        assert forall|m: int| 1 <= m <= k implies joint(#[trigger] all[m]) == ends[far_end(
            near_end(ring[m - 1]),
        )] by {
            if m < k {
                assert(all[m] == before[m]);
            }
        }
    }
}

/// The contour of straight segments has a corner at each stop of the walk.
pub(crate) proof fn lemma_line_contour(drawing: Drawing, curves: Curves)
    requires
        curves.arcs@.len() == 0,
        forms_one_ring(segment_joints(drawing, curves)),
    ensures
        is_ring(segment_joints(drawing, curves), the_ring(segment_joints(drawing, curves))),
        on_joints(ring_points(drawing, curves)) == stops(
            segment_joints(drawing, curves),
            the_ring(segment_joints(drawing, curves)),
        ),
        ring_points(drawing, curves).len() == drawing.lines@.len(),
{
    let ends = segment_joints(drawing, curves);
    assert(drawing.lines@.len() == drawing.lines.len());
    let walk = law_a_ring_can_be_walked(ends);
    let ring = the_ring(ends);
    assert(is_ring(ends, ring));
    let n = ring.len() as int;
    let points = steps_upto(drawing, curves, ring, n);
    lemma_line_steps(drawing, curves, ring, n);
    assert(ring.last() == ring[n - 1]);
    assert(points.last() == points[n]);
    assert(joint(points[n]) == ends[far_end(near_end(ring[n - 1]))]);
    let kept = ring_points(drawing, curves);
    assert(kept == points.drop_last());
    assert(on_joints(kept) =~= stops(ends, ring)) by {
        assert forall|m: int| 0 <= m < n implies #[trigger] on_joints(kept)[m] == stops(
            ends,
            ring,
        )[m] by {
            if m > 0 {
                let j = m - 1;
                assert(joint(points[m]) == ends[far_end(near_end(ring[j]))]);
                assert(ends[far_end(near_end(ring[j]))] == ends[near_end(ring[j + 1])]);
            }
        }
    }
}

/// The contour of loose lines depends neither on their order nor on the end
/// from which each of them is drawn: either way there is one or there is none,
/// and on the grid on which ends are joined it is the same closed loop, up to
/// where it begins and its direction.
pub proof fn law_a_contour_stays_the_same_however_drawn(
    one: Drawing,
    other: Drawing,
    curves: Curves,
    order: Seq<RingStep>,
)
    requires
        curves.arcs@.len() == 0,
        is_arrangement(order),
        one.lines@.len() == order.len(),
        other.lines@ == lines_rearranged(one.lines@, order),
    ensures
        ring_contour(one, curves) is Some <==> ring_contour(other, curves) is Some,
        ring_contour(one, curves) is Some ==> same_loop(
            on_joints(ring_contour(one, curves)->0),
            on_joints(ring_contour(other, curves)->0),
        ),
{
    let ends = segment_joints(one, curves);
    let other_ends = segment_joints(other, curves);
    lemma_joints_rearranged(one, other, curves, order);
    law_a_ring_stays_one_however_drawn(ends, order);
    if forms_one_ring(ends) {
        lemma_line_contour(one, curves);
        lemma_line_contour(other, curves);
        let a = the_ring(ends);
        let b = the_ring(other_ends);
        law_the_ring_is_the_same_however_drawn(ends, order, a, b);
        lemma_walk_back(ends, order, b);
        lemma_same_round_same_loop(ends, a, walk_back(order, b));
    }
}

} // verus!
