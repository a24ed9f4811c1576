//! What is read from a drawing and how its segments join: which text gives
//! which group, which groups give which entity, and which ends make a ring.

use vstd::prelude::*;

use crate::area::{contour_area, Amount};
use crate::decimal::{number_value, Spot, LIMIT};
use crate::dxf_contour::{
    drawn_arc, drawn_line, drawn_vertex, larger, ring_candidate, ring_contour, segment_joints,
    the_ring, Curves, DrawnArc, Drawing, SourceKind,
};
use crate::dxf_outline::{
    far_end, forms_one_ring, groups_in, is_partner, is_ring, last_with,
    lemma_full_means_all_visited, lemma_ring_links, meets_one, near_end, next_zero, pending_x,
    polyline_in, polylines_upto, starts, verts_in, visits, DxfArc, DxfLine, Group, RingStep, Vertex,
};
use crate::dxf_ring::{lemma_line_contour, on_joints, stops};
use crate::geom::Point;
use crate::outline_laws::is_entity;
use crate::text::{read_int, trimmed};

verus! {

/// An arc is cut into chords of no more than a sixty-fourth of a turn, as few
/// as that takes but at least two; an arc that is next to nothing into none.
pub proof fn law_chords_are_fine_enough(arc: DrawnArc)
    requires
        -LIMIT <= arc.start_deg <= LIMIT,
        -LIMIT <= arc.end_deg <= LIMIT,
    ensures
        ({
            let turn = 360_000_000_000_000_000_000int;
            let n = arc.chords();
            &&& n == 0 <==> arc.sweep() < 57_295_780
            &&& n != 0 ==> n >= 2 && n * turn >= 64 * arc.sweep()
            &&& n > 2 ==> (n - 1) * turn < 64 * arc.sweep()
        }),
{
    crate::dxf_contour::law_sweep_leads_to_the_end(arc);
}

/// Two lines of text are a group, the first its code and the second its value;
/// a line that is no code where one should stand is passed over, and a code at
/// the very end has an empty value.
pub proof fn law_two_lines_are_a_group(
    code: Seq<char>,
    value: Seq<char>,
    rest: Seq<Seq<char>>,
    n: int,
)
    requires
        read_int(trimmed(code)) == Some(n),
        i32::MIN <= n <= i32::MAX,
    ensures
        groups_in(seq![code, value] + rest) == seq![(n as i32, value)] + groups_in(rest),
        groups_in(seq![code]) == seq![(n as i32, Seq::<char>::empty())],
        groups_in(Seq::empty()) == Seq::<(i32, Seq<char>)>::empty(),
{
    let lines = seq![code, value] + rest;
    assert(lines.skip(2) =~= rest);
    assert(lines[0] == code && lines[1] == value);
}

/// A line that is no whole number is passed over.
pub proof fn law_what_is_no_code_is_passed_over(line: Seq<char>, rest: Seq<Seq<char>>)
    requires
        read_int(trimmed(line)) matches Some(n) ==> n < i32::MIN || n > i32::MAX,
    ensures
        groups_in(seq![line] + rest) == groups_in(rest),
{
    let lines = seq![line] + rest;
    assert(lines.skip(1) =~= rest);
    assert(lines[0] == line);
}

/// The numbers of an entity are those in its groups.
pub proof fn law_an_entity_has_the_numbers_in_its_groups(
    groups: Seq<Group>,
    line: DxfLine,
    arc: DxfArc,
    vertex: Vertex,
    i: int,
    v: int,
)
    requires
        0 <= i < groups.len(),
        number_value(trimmed(groups[i].value@)) == Some(v),
        i128::MIN <= v <= i128::MAX,
    ensures
        line.x1 == i ==> drawn_line(groups, line).a.x == v,
        line.y1 == i ==> drawn_line(groups, line).a.y == v,
        line.x2 == i ==> drawn_line(groups, line).b.x == v,
        line.y2 == i ==> drawn_line(groups, line).b.y == v,
        arc.cx == i ==> drawn_arc(groups, arc).center.x == v,
        arc.cy == i ==> drawn_arc(groups, arc).center.y == v,
        arc.radius == i ==> drawn_arc(groups, arc).radius == v,
        arc.start_deg == i ==> drawn_arc(groups, arc).start_deg == v,
        arc.end_deg == i ==> drawn_arc(groups, arc).end_deg == v,
        vertex.x == i ==> drawn_vertex(groups, vertex).place.x == v,
        vertex.y == i ==> drawn_vertex(groups, vertex).place.y == v,
        vertex.bulge == Some(i as usize) && i <= usize::MAX ==> drawn_vertex(groups, vertex).bulge
            == v,
        vertex.bulge is None ==> drawn_vertex(groups, vertex).bulge == 0,
{
}

/// A corner is complete with its second coordinate: without a first one that
/// is a number before it, and behind every earlier corner, it adds none.
pub proof fn law_half_a_corner_is_none(
    groups: Seq<Group>,
    numeric: Seq<bool>,
    from: int,
    to: int,
)
    requires
        0 <= from <= to < groups.len() <= usize::MAX,
        to < numeric.len(),
        groups[to].code == 20,
        !numeric[to] || forall|k: int| from <= k < to ==> (#[trigger] groups[k]).code != 10,
    ensures
        verts_in(groups, numeric, from, to + 1) == verts_in(groups, numeric, from, to),
{
    if forall|k: int| from <= k < to ==> (#[trigger] groups[k]).code != 10 {
        lemma_nothing_pending(groups, numeric, from, to);
    }
}

proof fn lemma_nothing_pending(groups: Seq<Group>, numeric: Seq<bool>, from: int, to: int)
    requires
        forall|k: int| from <= k < to ==> (#[trigger] groups[k]).code != 10,
    ensures
        pending_x(groups, numeric, from, to) is None,
    decreases to - from,
{
    if from < to {
        assert(groups[to - 1].code != 10);
        lemma_nothing_pending(groups, numeric, from, to - 1);
    }
}

/// What stands between the two coordinates of a corner makes no difference.
pub proof fn law_a_corner_may_be_interrupted(
    groups: Seq<Group>,
    numeric: Seq<bool>,
    from: int,
    at: int,
    to: int,
)
    requires
        0 <= from <= at < to < groups.len() <= usize::MAX,
        to < numeric.len(),
        groups[at].code == 10,
        numeric[at],
        groups[to].code == 20,
        numeric[to],
        forall|k: int| at < k < to ==> (#[trigger] groups[k]).code != 10 && groups[k].code != 20,
    ensures
        verts_in(groups, numeric, from, to + 1) == verts_in(groups, numeric, from, to).push(
            Vertex { x: at as usize, y: to as usize, bulge: None },
        ),
{
    lemma_still_pending(groups, numeric, from, at, to);
}

proof fn lemma_still_pending(
    groups: Seq<Group>,
    numeric: Seq<bool>,
    from: int,
    at: int,
    to: int,
)
    requires
        0 <= from <= at < to <= groups.len() <= usize::MAX,
        at < numeric.len(),
        groups[at].code == 10,
        numeric[at],
        forall|k: int| at < k < to ==> (#[trigger] groups[k]).code != 10 && groups[k].code != 20,
    ensures
        pending_x(groups, numeric, from, to) == Some(at as usize),
    decreases to,
{
    if at < to - 1 {
        assert(groups[to - 1].code != 10 && groups[to - 1].code != 20);
        lemma_still_pending(groups, numeric, from, at, to - 1);
    }
}

/// A polyline says under code 90 how many corners it has; further ones are
/// dropped. Without that, or with fewer, all are kept.
pub proof fn law_a_polyline_has_the_corners_it_says(
    groups: Seq<Group>,
    numeric: Seq<bool>,
    from: int,
    to: int,
    k: int,
    n: int,
)
    requires
        0 <= from <= to <= groups.len(),
        from <= k < to,
        groups[k].code == 90,
        forall|j: int| k < j < to ==> (#[trigger] groups[j]).code != 90,
        read_int(trimmed(groups[k].value@)) == Some(n),
        trimmed(groups[k].value@)[0] != '-',
        0 <= n <= usize::MAX,
    ensures
        ({
            let all = verts_in(groups, numeric, from, to);
            let kept = polyline_in(groups, numeric, from, to).0;
            &&& all.len() > n ==> kept.len() == n
            &&& all.len() <= n ==> kept == all
            &&& forall|i: int| 0 <= i < kept.len() ==> #[trigger] kept[i] == all[i]
        }),
{
    lemma_last_is(groups, from, to, 90, k);
}

proof fn lemma_last_is(groups: Seq<Group>, from: int, to: int, code: i32, k: int)
    requires
        from <= k < to,
        groups[k].code == code,
        forall|j: int| k < j < to ==> (#[trigger] groups[j]).code != code,
    ensures
        last_with(groups, from, to, code) == Some(k),
    decreases to - from,
{
    if k < to - 1 {
        assert(groups[to - 1].code != code);
        lemma_last_is(groups, from, to - 1, code, k);
    }
}

/// Without a count all corners are kept.
pub proof fn law_all_corners_are_kept_without_a_count(
    groups: Seq<Group>,
    numeric: Seq<bool>,
    from: int,
    to: int,
)
    requires
        forall|j: int| from <= j < to ==> (#[trigger] groups[j]).code != 90,
    ensures
        polyline_in(groups, numeric, from, to).0 == verts_in(groups, numeric, from, to),
{
    lemma_none_with(groups, from, to, 90);
}

proof fn lemma_none_with(groups: Seq<Group>, from: int, to: int, code: i32)
    requires
        forall|j: int| from <= j < to ==> (#[trigger] groups[j]).code != code,
    ensures
        last_with(groups, from, to, code) is None,
    decreases to - from,
{
    if from < to {
        assert(groups[to - 1].code != code);
        lemma_none_with(groups, from, to - 1, code);
    }
}

proof fn lemma_next_zero_is(groups: Seq<Group>, i: int, end: int)
    requires
        0 <= i <= end <= groups.len(),
        forall|k: int| i <= k < end ==> (#[trigger] groups[k]).code != 0,
        end < groups.len() ==> groups[end].code == 0,
    ensures
        next_zero(groups, i) == end,
    decreases end - i,
{
    if i < end {
        lemma_next_zero_is(groups, i + 1, end);
    }
}

/// Every polyline of a drawing that has a corner is read, with its corners and
/// whether it is closed.
pub proof fn law_every_polyline_is_read(
    groups: Seq<Group>,
    numeric: Seq<bool>,
    n: int,
    at: int,
    end: int,
)
    requires
        is_entity(groups, at, end, "LWPOLYLINE"@),
        at < n,
        polyline_in(groups, numeric, at + 1, end).0.len() > 0,
    ensures
        polylines_upto(groups, numeric, n).contains(polyline_in(groups, numeric, at + 1, end)),
    decreases n,
{
    let polyline = polyline_in(groups, numeric, at + 1, end);
    let rest = polylines_upto(groups, numeric, n - 1);
    let all = polylines_upto(groups, numeric, n);
    if at < n - 1 {
        law_every_polyline_is_read(groups, numeric, n - 1, at, end);
        let k = choose|k: int| 0 <= k < rest.len() && rest[k] == polyline;
        assert(all[k] == polyline);
    } else {
        lemma_next_zero_is(groups, n, end);
        assert(starts(groups, n - 1, "LWPOLYLINE"@));
        assert(all[rest.len() as int] == polyline);
    }
}

/// Every polyline that is read was drawn as one and has a corner.
pub proof fn law_every_polyline_was_drawn(
    groups: Seq<Group>,
    numeric: Seq<bool>,
    n: int,
    k: int,
) -> (at: int)
    requires
        0 <= k < polylines_upto(groups, numeric, n).len(),
        n <= groups.len(),
    ensures
        0 <= at < n,
        groups[at].code == 0,
        trimmed(groups[at].value@) == "LWPOLYLINE"@,
        polylines_upto(groups, numeric, n)[k].0.len() > 0,
        polylines_upto(groups, numeric, n)[k] == polyline_in(
            groups,
            numeric,
            at + 1,
            next_zero(groups, at + 1),
        ),
    decreases n,
{
    let rest = polylines_upto(groups, numeric, n - 1);
    if k < rest.len() {
        law_every_polyline_was_drawn(groups, numeric, n - 1, k)
    } else {
        n - 1
    }
}

/// An end lies where exactly one other end lies.
pub open spec fn meets_just_one(ends: Seq<Point>, e: int) -> bool {
    exists|p: int|
        0 <= p < ends.len() && p != e && #[trigger] ends[p] == ends[e] && forall|q: int|
            0 <= q < ends.len() && q != e && #[trigger] ends[q] == ends[e] ==> q == p
}

/// In a ring every end meets exactly one other: there is no loose end and no
/// branch.
pub proof fn law_a_ring_has_no_loose_end_and_no_branch(ends: Seq<Point>, e: int, p: int, q: int)
    requires
        forms_one_ring(ends),
        0 <= e < ends.len(),
    ensures
        exists|o: int| 0 <= o < ends.len() && o != e && #[trigger] ends[o] == ends[e],
        0 <= p < ends.len() && 0 <= q < ends.len() && p != e && q != e && ends[p] == ends[e]
            && ends[q] == ends[e] ==> p == q,
{
    assert(meets_one(ends, e));
    let o = choose|o: int| #[trigger] is_partner(ends, e, o);
    assert(ends[o] == ends[e]);
}

/// Segments that can be walked one after the other, from end to end and back
/// to the start, are a ring if no two joints lie in one place.
pub proof fn law_a_round_walk_is_a_ring(ends: Seq<Point>, ring: Seq<RingStep>)
    requires
        ring.len() > 0,
        ends.len() == 2 * ring.len(),
        forall|k: int| #![trigger ring[k]] 0 <= k < ring.len() ==> ring[k].segment < ring.len(),
        forall|a: int, b: int|
            #![trigger ring[a], ring[b]]
            0 <= a < b < ring.len() ==> ring[a].segment != ring[b].segment,
        forall|k: int|
            #![trigger ring[k], ring[k + 1]]
            0 <= k < ring.len() - 1 ==> ends[if ring[k].forward {
                2 * ring[k].segment + 1
            } else {
                2 * ring[k].segment as int
            }] == ends[if ring[k + 1].forward {
                2 * ring[k + 1].segment as int
            } else {
                2 * ring[k + 1].segment + 1
            }],
        ends[if ring.last().forward {
            2 * ring.last().segment + 1
        } else {
            2 * ring.last().segment as int
        }] == ends[if ring[0].forward {
            2 * ring[0].segment as int
        } else {
            2 * ring[0].segment + 1
        }],
        ring[0].segment == 0,
        forall|e: int| 0 <= e < ends.len() ==> #[trigger] meets_just_one(ends, e),
    ensures
        forms_one_ring(ends),
{
    assert(is_ring(ends, ring)) by {
        assert forall|k: int| #![trigger ring[k], ring[k + 1]] 0 <= k < ring.len() - 1 implies ends[far_end(
            near_end(ring[k]),
        )] == ends[near_end(ring[k + 1])] by {}
    }
    lemma_full_means_all_visited(ring);
    lemma_ring_links(ends, ring);
    assert forall|e: int| 0 <= e < ends.len() implies #[trigger] meets_one(ends, e) by {
        assert(meets_just_one(ends, e));
        let p = choose|p: int|
            0 <= p < ends.len() && p != e && #[trigger] ends[p] == ends[e] && forall|q: int|
                0 <= q < ends.len() && q != e && #[trigger] ends[q] == ends[e] ==> q == p;
        assert(is_partner(ends, e, p));
    }
}

/// A ring of straight lines has a corner for each line, and both ends of every
/// line are corners of it, on the grid on which ends are joined.
pub proof fn law_every_line_is_a_side_of_the_ring(drawing: Drawing, curves: Curves, s: int)
    requires
        curves.arcs@.len() == 0,
        ring_contour(drawing, curves) is Some,
        0 <= s < drawing.lines@.len(),
    ensures
        ring_contour(drawing, curves)->0.len() == drawing.lines@.len(),
        on_joints(ring_contour(drawing, curves)->0).contains(
            crate::dxf_contour::joint(drawing.lines@[s].a),
        ),
        on_joints(ring_contour(drawing, curves)->0).contains(
            crate::dxf_contour::joint(drawing.lines@[s].b),
        ),
{
    let ends = segment_joints(drawing, curves);
    let ring = the_ring(ends);
    lemma_line_contour(drawing, curves);
    let at = stops(ends, ring);
    assert(drawing.lines@.len() == drawing.lines.len());
    assert forall|k: int| #![trigger ring[k]] 0 <= k < ring.len() implies ring[k].segment
        < ring.len() by {
        assert(2 * ring[k].segment + 1 < ends.len());
    }
    lemma_full_means_all_visited(ring);
    assert(visits(ring, s));
    let m = choose|m: int| 0 <= m < ring.len() && #[trigger] ring[m].segment == s;
    let near = near_end(ring[m]);
    assert(at[m] == ends[near]);
    let next = if m + 1 < ring.len() {
        m + 1
    } else {
        0
    };
    assert(ends[far_end(near)] == ends[near_end(ring[next])]) by {
        if m + 1 < ring.len() {
            assert(ring[m] == ring[m] && ring[m + 1] == ring[m + 1]);
        } else {
            assert(ring.last() == ring[m]);
        }
    }
    assert(at[next] == ends[far_end(near)]);
    assert(ends[2 * s] == crate::dxf_contour::joint(drawing.lines@[s].a));
    assert((2 * s + 1) / 2 == s && (2 * s + 1) % 2 == 1);
    assert(ends[2 * s + 1] == crate::dxf_contour::joint(drawing.lines@[s].b));
}

/// A ring is told to be one of lines exactly if there is no arc in the drawing.
pub proof fn law_a_ring_is_told_by_what_it_is_of(drawing: Drawing, curves: Curves)
    ensures
        ring_candidate(drawing, curves) matches Some(c) ==> c.1 == if drawing.arcs@.len() == 0 {
            SourceKind::LineRing
        } else {
            SourceKind::LineArcRing
        },
        ring_candidate(drawing, curves) is Some <==> ring_contour(drawing, curves) is Some,
{
}

/// Of two contours the larger counts, and of two that are alike the later.
pub proof fn law_the_larger_of_two_counts(
    a: (Seq<Spot>, SourceKind),
    b: (Seq<Spot>, SourceKind),
    x: int,
    y: int,
)
    requires
        0 <= x,
        0 <= y,
        contour_area(a.0) == Amount::Finite(x),
        contour_area(b.0) == Amount::Finite(y),
    ensures
        x > y ==> larger(Some(a), Some(b)) == Some(a),
        x <= y ==> larger(Some(a), Some(b)) == Some(b),
        larger(Some(a), None) == Some(a),
        larger(None, Some(b)) == Some(b),
{
}

} // verus!
