//! What footprint templates are: which pads a pour joins solidly, how large a
//! body is, and what the templates that come with the program hold.

use vstd::prelude::*;

use crate::board_doc::half;
use crate::dfm::DfmViolation;
use crate::footprint::{
    all_corners, bottom_of, connection_of, corners_of, courtyard_around, hole_corners,
    hole_violations, is_builtin_library, is_dominant_center, is_legacy_library, is_row, left_of,
    names_exposed_pad, other_areas, pad_area, pad_violations, query_of, reach_from, right_of, sum_x,
    sum_y, top_of, union_of, Courtyard, FootprintTemplate, HoleTemplate, PadQuery, PadShapeKind,
    PadTemplate,
};
use crate::geom::{Point, Unit};
use crate::item::{LayerId, ZoneConnection};
use crate::text::{decimal, find_from, trimmed, uppercased};

verus! {

/// Where a text is found: the first place from which it can be read off.
pub proof fn law_a_text_is_found_where_it_stands(s: Seq<char>, part: Seq<char>, from: int)
    requires
        0 <= from,
    ensures
        match find_from(s, part, from) {
            Some(i) => {
                &&& from <= i
                &&& i + part.len() <= s.len()
                &&& s.subrange(i, i + part.len()) == part
                &&& forall|j: int| from <= j < i ==> #[trigger] s.subrange(j, j + part.len()) != part
            },
            None => forall|j: int|
                from <= j && j + part.len() <= s.len() ==> #[trigger] s.subrange(j, j + part.len())
                    != part,
        },
    decreases s.len() - from + 1,
{
    if from + part.len() <= s.len() && s.subrange(from, from + part.len()) != part {
        law_a_text_is_found_where_it_stands(s, part, from + 1);
    }
}

/// A pad is called an exposed one if its name, in capitals and without blanks
/// round it, holds the word, is one of the customary names for it, or starts
/// with EP as a word of its own.
pub proof fn law_what_an_exposed_pad_is_called(name: Seq<char>)
    ensures
        ({
            let n = uppercased(trimmed(name));
            names_exposed_pad(name) <==> {
                ||| exists|i: int|
                    0 <= i && i + 7 <= n.len() && #[trigger] n.subrange(i, i + 7) == seq![
                        'E',
                        'X',
                        'P',
                        'O',
                        'S',
                        'E',
                        'D',
                    ]
                ||| n == seq!['E', '.', 'P', '.']
                ||| n == seq!['T', 'H', 'E', 'R', 'M', 'A', 'L']
                ||| n == seq!['T', 'H', 'E', 'R', 'M', 'A', 'L', ' ', 'P', 'A', 'D']
                ||| n == seq!['T', 'H', 'E', 'R', 'M', 'A', 'L', '_', 'P', 'A', 'D']
                ||| n == seq!['P', 'A', 'D']
                ||| n == seq!['G', 'N', 'D', 'P', 'A', 'D']
                ||| n == seq!['G', 'N', 'D', '_', 'P', 'A', 'D']
                ||| n.len() >= 2 && n[0] == 'E' && n[1] == 'P' && (n.len() == 2 || !('0' <= n[2]
                    <= '9' || 'A' <= n[2] <= 'Z' || 'a' <= n[2] <= 'z'))
            }
        }),
{
    let n = uppercased(trimmed(name));
    reveal_strlit("EXPOSED");
    reveal_strlit("EP");
    reveal_strlit("E.P.");
    reveal_strlit("THERMAL");
    reveal_strlit("THERMAL PAD");
    reveal_strlit("THERMAL_PAD");
    reveal_strlit("PAD");
    reveal_strlit("GNDPAD");
    reveal_strlit("GND_PAD");
    assert("EXPOSED"@ =~= seq!['E', 'X', 'P', 'O', 'S', 'E', 'D']);
    assert("E.P."@ =~= seq!['E', '.', 'P', '.']);
    assert("THERMAL"@ =~= seq!['T', 'H', 'E', 'R', 'M', 'A', 'L']);
    assert("THERMAL PAD"@ =~= seq!['T', 'H', 'E', 'R', 'M', 'A', 'L', ' ', 'P', 'A', 'D']);
    assert("THERMAL_PAD"@ =~= seq!['T', 'H', 'E', 'R', 'M', 'A', 'L', '_', 'P', 'A', 'D']);
    assert("PAD"@ =~= seq!['P', 'A', 'D']);
    assert("GNDPAD"@ =~= seq!['G', 'N', 'D', 'P', 'A', 'D']);
    assert("GND_PAD"@ =~= seq!['G', 'N', 'D', '_', 'P', 'A', 'D']);
    law_a_text_is_found_where_it_stands(n, "EXPOSED"@, 0);
    if find_from(n, "EXPOSED"@, 0) is Some {
        let i = find_from(n, "EXPOSED"@, 0)->0;
        assert(n.subrange(i, i + 7) == seq!['E', 'X', 'P', 'O', 'S', 'E', 'D']);
    } else {
        assert forall|i: int| 0 <= i && i + 7 <= n.len() implies #[trigger] n.subrange(i, i + 7)
            != seq!['E', 'X', 'P', 'O', 'S', 'E', 'D'] by {
            assert(n.subrange(i, i + "EXPOSED"@.len()) != "EXPOSED"@);
        }
    }
    if n.len() >= 2 && n[0] == 'E' && n[1] == 'P' {
        assert("EP"@.is_prefix_of(n));
    }
    if "EP"@.is_prefix_of(n) {
        assert(n[0] == "EP"@[0] && n[1] == "EP"@[1]);
    }
    if n == "EP"@ {
        assert(n[0] == 'E' && n[1] == 'P');
    }
}

/// A pour joins a pad solidly if another pad of the part has its number, if it
/// is called an exposed pad, or if it is at least as long as asked for; a pad
/// of a part with fewer than three is joined by spokes otherwise.
pub proof fn law_which_pads_are_joined_solidly(
    pads: Seq<PadTemplate>,
    i: int,
    solid_min_side: int,
)
    requires
        0 <= i < pads.len(),
    ensures
        ({
            let shared = exists|j: int|
                0 <= j < pads.len() && j != i && (#[trigger] pads[j]).number@ == pads[i].number@;
            let label = match pads[i].pin_name {
                Some(name) => name@,
                None => pads[i].number@,
            };
            let long = match pads[i].shape {
                PadShapeKind::Circle => 2 * pads[i].radius >= solid_min_side,
                PadShapeKind::Rect { width, height } => width >= solid_min_side || height
                    >= solid_min_side,
                PadShapeKind::Oval { width, height } => width >= solid_min_side || height
                    >= solid_min_side,
            };
            let c = connection_of(pads, i, solid_min_side);
            &&& shared || long || names_exposed_pad(label) ==> c == ZoneConnection::Solid
            &&& !shared && !long && !names_exposed_pad(label) ==> (c == ZoneConnection::Solid
                <==> is_dominant_center(pads, i))
            &&& is_dominant_center(pads, i) ==> pads.len() >= 3
        }),
{
}

/// The sum of what is taken of each pad.
pub open spec fn total(pads: Seq<PadTemplate>, of: spec_fn(PadTemplate) -> int) -> int
    decreases pads.len(),
{
    if pads.len() == 0 {
        0
    } else {
        of(pads[0]) + total(pads.drop_first(), of)
    }
}

proof fn lemma_total_last(pads: Seq<PadTemplate>, of: spec_fn(PadTemplate) -> int)
    requires
        pads.len() > 0,
    ensures
        total(pads, of) == total(pads.drop_last(), of) + of(pads.last()),
    decreases pads.len(),
{
    if pads.len() > 1 {
        let tail = pads.drop_first();
        lemma_total_last(tail, of);
        assert(tail.drop_last() =~= pads.drop_last().drop_first());
        assert(pads.drop_last()[0] == pads[0]);
        assert(tail.last() == pads.last());
    } else {
        assert(pads.drop_first() =~= Seq::empty());
        assert(pads.drop_last() =~= Seq::empty());
    }
}

proof fn lemma_sums(pads: Seq<PadTemplate>)
    ensures
        sum_x(pads) == total(pads, |p: PadTemplate| p.offset.x as int),
        sum_y(pads) == total(pads, |p: PadTemplate| p.offset.y as int),
    decreases pads.len(),
{
    if pads.len() > 0 {
        lemma_sums(pads.drop_last());
        lemma_total_last(pads, |p: PadTemplate| p.offset.x as int);
        lemma_total_last(pads, |p: PadTemplate| p.offset.y as int);
    }
}

proof fn lemma_reach(pads: Seq<PadTemplate>, cx: int, cy: int, reach: int)
    requires
        reach >= 0,
        forall|j: int|
            #![trigger pads[j]]
            0 <= j < pads.len() ==> -reach <= pads[j].offset.x - cx <= reach && -reach
                <= pads[j].offset.y - cy <= reach,
    ensures
        reach_from(pads, cx, cy) <= reach,
        forall|j: int|
            #![trigger pads[j]]
            0 <= j < pads.len() ==> -reach_from(pads, cx, cy) <= pads[j].offset.x - cx
                <= reach_from(pads, cx, cy) && -reach_from(pads, cx, cy) <= pads[j].offset.y - cy
                <= reach_from(pads, cx, cy),
    decreases pads.len(),
{
    if pads.len() > 0 {
        let init = pads.drop_last();
        assert forall|j: int| #![trigger init[j]] 0 <= j < init.len() implies -reach
            <= init[j].offset.x - cx <= reach && -reach <= init[j].offset.y - cy <= reach by {
            assert(init[j] == pads[j]);
        }
        lemma_reach(init, cx, cy, reach);
        assert(pads[pads.len() - 1] == pads.last());
        assert forall|j: int| #![trigger pads[j]] 0 <= j < pads.len() implies -reach_from(
            pads,
            cx,
            cy,
        ) <= pads[j].offset.x - cx <= reach_from(pads, cx, cy) && -reach_from(pads, cx, cy)
            <= pads[j].offset.y - cy <= reach_from(pads, cx, cy) by {
            if j < init.len() {
                assert(pads[j] == init[j]);
            }
        }
    }
}

/// A pad dominates the middle of a part of three or more if it covers at least
/// four times what the pad in the middle of the others, by size, covers, and
/// lies within a fifth of the part's reach, or a tenth of a millimetre, of the
/// middle of all pads.
pub proof fn law_what_dominates_the_middle(
    pads: Seq<PadTemplate>,
    i: int,
    cx: int,
    cy: int,
    reach: int,
)
    requires
        0 <= i < pads.len(),
        pads.len() >= 3,
        total(pads, |p: PadTemplate| p.offset.x as int) == cx * pads.len(),
        total(pads, |p: PadTemplate| p.offset.y as int) == cy * pads.len(),
        forall|j: int|
            #![trigger pads[j]]
            0 <= j < pads.len() ==> -reach <= pads[j].offset.x - cx <= reach && -reach
                <= pads[j].offset.y - cy <= reach,
        exists|j: int|
            #![trigger pads[j]]
            0 <= j < pads.len() && (pads[j].offset.x - cx == reach || pads[j].offset.x - cx
                == -reach || pads[j].offset.y - cy == reach || pads[j].offset.y - cy == -reach),
    ensures
        ({
            let near = if reach / 5 > 100_000 {
                reach / 5
            } else {
                100_000
            };
            let median = other_areas(pads, i).sort()[(pads.len() - 1) / 2];
            median < 1_000_000_000_000_000_000 ==> (is_dominant_center(pads, i) <==> median > 0
                && pad_area(pads[i]) >= 4 * median && -near <= pads[i].offset.x - cx <= near
                && -near <= pads[i].offset.y - cy <= near)
        }),
{
    lemma_sums(pads);
    lemma_reach(pads, cx, cy, reach);
    let n = pads.len() as int;
    lemma_exact(cx, n);
    lemma_exact(cy, n);
    let j = choose|j: int|
        #![trigger pads[j]]
        0 <= j < pads.len() && (pads[j].offset.x - cx == reach || pads[j].offset.x - cx == -reach
            || pads[j].offset.y - cy == reach || pads[j].offset.y - cy == -reach);
    assert(pads[j] == pads[j]);
    assert(reach_from(pads, cx, cy) == reach);
    assert(other_areas(pads, i).len() == pads.len() - 1);
}

proof fn lemma_exact(c: int, n: int)
    requires
        n > 0,
    ensures
        crate::footprint::quotient(c * n, n) == c,
{
    if c * n >= 0 {
        assert(c >= 0) by (nonlinear_arith)
            requires
                c * n >= 0,
                n > 0,
        ;
        assert((c * n) / n == c) by (nonlinear_arith)
            requires
                n > 0,
        ;
    } else {
        assert(-(c * n) == (-c) * n) by (nonlinear_arith);
        assert(((-c) * n) / n == -c) by (nonlinear_arith)
            requires
                n > 0,
        ;
    }
}

/// A pad covers its width times its height; a round one the square round it.
pub proof fn law_a_pad_covers_its_box(pad: PadTemplate)
    ensures
        match pad.shape {
            PadShapeKind::Circle => 4 * (pad.radius * pad.radius) <= i64::MAX ==> pad_area(pad)
                == 4 * (pad.radius * pad.radius),
            PadShapeKind::Rect { width, height } => i64::MIN <= width * height <= i64::MAX
                ==> pad_area(pad) == width * height,
            PadShapeKind::Oval { width, height } => i64::MIN <= width * height <= i64::MAX
                ==> pad_area(pad) == width * height,
        },
{
    let r = pad.radius as int;
    assert((r * 2) * (r * 2) == 4 * (r * r)) by (nonlinear_arith);
    assert(r * r >= 0) by (nonlinear_arith);
}

/// The areas of the other pads are those of all pads but the one.
pub proof fn law_the_others_are_all_but_one(pads: Seq<PadTemplate>, i: int, j: int)
    requires
        0 <= i < pads.len(),
        0 <= j < pads.len() - 1,
    ensures
        other_areas(pads, i).len() == pads.len() - 1,
        other_areas(pads, i)[j] == pad_area(
            if j < i {
                pads[j]
            } else {
                pads[j + 1]
            },
        ),
{
}

/// The bounds of some points are reached by one of them and passed by none.
pub proof fn law_bounds_are_reached_and_never_passed(points: Seq<Point>)
    requires
        points.len() > 0,
    ensures
        forall|k: int|
            #![trigger points[k]]
            0 <= k < points.len() ==> left_of(points) <= points[k].x <= right_of(points) && top_of(
                points,
            ) <= points[k].y <= bottom_of(points),
        exists|k: int|
            #![trigger points[k]]
            0 <= k < points.len() && points[k].x == left_of(points),
        exists|k: int|
            #![trigger points[k]]
            0 <= k < points.len() && points[k].x == right_of(points),
        exists|k: int|
            #![trigger points[k]]
            0 <= k < points.len() && points[k].y == top_of(points),
        exists|k: int|
            #![trigger points[k]]
            0 <= k < points.len() && points[k].y == bottom_of(points),
    decreases points.len(),
{
    assert(points[points.len() - 1] == points.last());
    assert(points[0] == points[0]);
    if points.len() > 1 {
        let init = points.drop_last();
        law_bounds_are_reached_and_never_passed(init);
        assert forall|k: int| #![trigger points[k]] 0 <= k < points.len() implies left_of(points)
            <= points[k].x <= right_of(points) && top_of(points) <= points[k].y
            <= bottom_of(points) by {
            if k < init.len() {
                assert(init[k] == points[k]);
            }
        }
        let a = choose|k: int|
            #![trigger init[k]]
            0 <= k < init.len() && init[k].x == left_of(init);
        let b = choose|k: int|
            #![trigger init[k]]
            0 <= k < init.len() && init[k].x == right_of(init);
        let c = choose|k: int|
            #![trigger init[k]]
            0 <= k < init.len() && init[k].y == top_of(init);
        let d = choose|k: int|
            #![trigger init[k]]
            0 <= k < init.len() && init[k].y == bottom_of(init);
        assert(points[a] == init[a] && points[b] == init[b] && points[c] == init[c] && points[d]
            == init[d]);
    }
}

/// The body round some points is the smallest box that holds them: as wide and
/// high as they lie apart, and in their middle to the nanometre. Without any
/// point there is no body.
pub proof fn law_a_body_is_the_box_round_its_points(
    points: Seq<Point>,
    left: int,
    right: int,
    top: int,
    bottom: int,
)
    requires
        points.len() > 0,
        forall|k: int|
            #![trigger points[k]]
            0 <= k < points.len() ==> left <= points[k].x <= right && top <= points[k].y <= bottom,
        exists|k: int| #![trigger points[k]] 0 <= k < points.len() && points[k].x == left,
        exists|k: int| #![trigger points[k]] 0 <= k < points.len() && points[k].x == right,
        exists|k: int| #![trigger points[k]] 0 <= k < points.len() && points[k].y == top,
        exists|k: int| #![trigger points[k]] 0 <= k < points.len() && points[k].y == bottom,
        right - left <= i64::MAX,
        bottom - top <= i64::MAX,
    ensures
        courtyard_around(points).width == right - left,
        courtyard_around(points).height == bottom - top,
        -1 <= 2 * courtyard_around(points).center.x - (left + right) <= 1,
        -1 <= 2 * courtyard_around(points).center.y - (top + bottom) <= 1,
        courtyard_around(Seq::empty()).width == 0,
        courtyard_around(Seq::empty()).height == 0,
{
    law_bounds_are_reached_and_never_passed(points);
    let a = choose|k: int| #![trigger points[k]] 0 <= k < points.len() && points[k].x == left;
    let b = choose|k: int| #![trigger points[k]] 0 <= k < points.len() && points[k].x == right;
    let c = choose|k: int| #![trigger points[k]] 0 <= k < points.len() && points[k].y == top;
    let d = choose|k: int| #![trigger points[k]] 0 <= k < points.len() && points[k].y == bottom;
    let e = choose|k: int|
        #![trigger points[k]]
        0 <= k < points.len() && points[k].x == left_of(points);
    let f = choose|k: int|
        #![trigger points[k]]
        0 <= k < points.len() && points[k].x == right_of(points);
    let g = choose|k: int|
        #![trigger points[k]]
        0 <= k < points.len() && points[k].y == top_of(points);
    let h = choose|k: int|
        #![trigger points[k]]
        0 <= k < points.len() && points[k].y == bottom_of(points);
    assert(points[a].x == left && points[b].x == right && points[c].y == top && points[d].y
        == bottom);
    assert(points[e].x == left_of(points) && points[f].x == right_of(points));
    assert(points[g].y == top_of(points) && points[h].y == bottom_of(points));
}

/// The corners of a part are those of all its pads: an upright pad has one at
/// half its size from its middle either way, a turned one what was measured.
pub proof fn law_every_pad_corner_counts(
    pads: Seq<PadTemplate>,
    turned: Seq<Vec<Point>>,
    k: int,
    p: Point,
)
    requires
        0 <= k < pads.len(),
    ensures
        pads[k].shape == PadShapeKind::Circle && p.x == pads[k].offset.x - pads[k].radius && p.y
            == pads[k].offset.y - pads[k].radius ==> all_corners(pads, turned).contains(p),
        pads[k].shape == PadShapeKind::Circle && p.x == pads[k].offset.x + pads[k].radius && p.y
            == pads[k].offset.y + pads[k].radius ==> all_corners(pads, turned).contains(p),
        pads[k].rotation_deg.bits == 0 ==> match pads[k].shape {
            PadShapeKind::Circle => true,
            PadShapeKind::Rect { width, height } => {
                &&& width >= 0 && height >= 0 && p.x == pads[k].offset.x - width as int / 2 && p.y
                    == pads[k].offset.y - height as int / 2 ==> all_corners(pads, turned).contains(
                    p,
                )
                &&& width >= 0 && height >= 0 && p.x == pads[k].offset.x + width as int / 2 && p.y
                    == pads[k].offset.y + height as int / 2 ==> all_corners(pads, turned).contains(
                    p,
                )
            },
            PadShapeKind::Oval { width, height } => {
                &&& width >= 0 && height >= 0 && p.x == pads[k].offset.x - width as int / 2 && p.y
                    == pads[k].offset.y - height as int / 2 ==> all_corners(pads, turned).contains(
                    p,
                )
                &&& width >= 0 && height >= 0 && p.x == pads[k].offset.x + width as int / 2 && p.y
                    == pads[k].offset.y + height as int / 2 ==> all_corners(pads, turned).contains(
                    p,
                )
            },
        },
        pads[k].shape != PadShapeKind::Circle && pads[k].rotation_deg.bits != 0 && k < turned.len()
            && turned[k]@.contains(p) ==> all_corners(pads, turned).contains(p),
    decreases pads.len(),
{
    let init = pads.drop_last();
    let last = pads.len() - 1;
    let rest = all_corners(init, turned);
    let own = corners_of(
        pads.last(),
        if last < turned.len() {
            turned[last]@
        } else {
            Seq::empty()
        },
    );
    let all = all_corners(pads, turned);
    if k < init.len() {
        assert(init[k] == pads[k]);
        law_every_pad_corner_counts(init, turned, k, p);
        if rest.contains(p) {
            let j = choose|j: int| 0 <= j < rest.len() && rest[j] == p;
            assert(all[j] == p);
        }
    } else {
        assert(pads[k] == pads.last());
        if own.contains(p) {
            let j = choose|j: int| 0 <= j < own.len() && own[j] == p;
            assert(all[rest.len() + j] == p);
        }
        if own.len() == 4 {
            assert(own.contains(own[0]) && own.contains(own[2]));
        }
    }
}

/// A hole counts from the middle by half its drill either way.
pub proof fn law_every_hole_counts(holes: Seq<HoleTemplate>, k: int, p: Point)
    requires
        0 <= k < holes.len(),
        holes[k].drill >= 0,
        (p.x == holes[k].offset.x - holes[k].drill as int / 2 && p.y == holes[k].offset.y
            - holes[k].drill as int / 2) || (p.x == holes[k].offset.x + holes[k].drill as int / 2
            && p.y == holes[k].offset.y + holes[k].drill as int / 2),
    ensures
        hole_corners(holes).contains(p),
    decreases holes.len(),
{
    let init = holes.drop_last();
    let rest = hole_corners(init);
    let all = hole_corners(holes);
    if k < init.len() {
        assert(init[k] == holes[k]);
        law_every_hole_counts(init, k, p);
        let j = choose|j: int| 0 <= j < rest.len() && rest[j] == p;
        assert(all[j] == p);
    } else {
        assert(all[rest.len() as int] == p || all[(rest.len() + 1) as int] == p);
    }
}

/// Two bodies together are the smallest box round both, to the nanometre; a
/// body without extent adds nothing.
pub proof fn law_two_bodies_make_the_box_round_both(
    a: Courtyard,
    b: Courtyard,
    left: int,
    right: int,
    top: int,
    bottom: int,
)
    requires
        a.width > 0 || a.height > 0,
        b.width > 0 || b.height > 0,
        a.width >= 0 && a.height >= 0 && b.width >= 0 && b.height >= 0,
        a.width % 2 == 0 && a.height % 2 == 0 && b.width % 2 == 0 && b.height % 2 == 0,
        2 * left <= 2 * a.center.x - a.width,
        2 * left <= 2 * b.center.x - b.width,
        2 * left == 2 * a.center.x - a.width || 2 * left == 2 * b.center.x - b.width,
        2 * right >= 2 * a.center.x + a.width,
        2 * right >= 2 * b.center.x + b.width,
        2 * right == 2 * a.center.x + a.width || 2 * right == 2 * b.center.x + b.width,
        2 * top <= 2 * a.center.y - a.height,
        2 * top <= 2 * b.center.y - b.height,
        2 * top == 2 * a.center.y - a.height || 2 * top == 2 * b.center.y - b.height,
        2 * bottom >= 2 * a.center.y + a.height,
        2 * bottom >= 2 * b.center.y + b.height,
        2 * bottom == 2 * a.center.y + a.height || 2 * bottom == 2 * b.center.y + b.height,
        i64::MIN <= left && right <= i64::MAX && right - left <= i64::MAX,
        i64::MIN <= top && bottom <= i64::MAX && bottom - top <= i64::MAX,
    ensures
        union_of(a, b).width == right - left,
        union_of(a, b).height == bottom - top,
        -1 <= 2 * union_of(a, b).center.x - (left + right) <= 1,
        -1 <= 2 * union_of(a, b).center.y - (top + bottom) <= 1,
        forall|c: Courtyard|
            c.width == 0 && c.height == 0 ==> #[trigger] union_of(a, c) == a && union_of(c, a) == a,
{
}

/// The pins of a row stand a pitch apart on a line through the middle, as far
/// to the left as to the right of it to the nanometre, and are numbered from
/// one; all are alike.
pub proof fn law_a_row_stands_a_pitch_apart(
    t: FootprintTemplate,
    name: Seq<char>,
    prefix: Seq<char>,
    pin_count: u32,
    pitch: Unit,
    radius: Unit,
    hole: Option<Unit>,
    i: int,
)
    requires
        is_row(t, name, prefix, pin_count, pitch, radius, hole),
        0 <= pitch,
        pitch * (if pin_count == 0 {
            0int
        } else {
            pin_count - 1
        }) <= i64::MAX,
        0 <= i < t.pads@.len(),
    ensures
        t.name@ == name,
        t.reference_prefix@ == prefix,
        !t.exclude_from_bom,
        t.holes@.len() == 0,
        pin_count > 0 ==> t.pads@.len() == pin_count,
        pin_count == 0 ==> t.pads@.len() == 1,
        t.pads@[i].offset.y == 0,
        t.pads@[i].number@ == decimal((i + 1) as nat),
        t.pads@[i].shape == PadShapeKind::Circle,
        t.pads@[i].radius == radius,
        t.pads@[i].layer == LayerId::FCu,
        t.pads@[i].hole_diameter == hole,
        i > 0 ==> t.pads@[i].offset.x - t.pads@[i - 1].offset.x == pitch,
        0 <= t.pads@[0].offset.x + t.pads@[t.pads@.len() - 1].offset.x <= 1,
{
    let n = t.pads@.len() as int;
    let span = pitch * (n - 1);
    assert(t.pads@[i] == t.pads@[i] && t.pads@[0] == t.pads@[0] && t.pads@[n - 1] == t.pads@[n
        - 1]);
    assert(0 <= pitch * i <= span) by (nonlinear_arith)
        requires
            span == pitch * (n - 1),
            0 <= i <= n - 1,
            0 <= pitch,
    ;
    assert(pitch * 0 == 0);
    if i > 0 {
        assert(t.pads@[i - 1] == t.pads@[i - 1]);
        assert(0 <= pitch * (i - 1) && pitch * (i - 1) == pitch * i - pitch) by (nonlinear_arith)
            requires
                0 < i,
                0 <= pitch,
        ;
    }
}

/// What the fab is asked about a pad: its narrower side, and its drill if it
/// has one.
pub proof fn law_what_the_fab_is_asked(pad: PadTemplate)
    ensures
        ({
            let side = match pad.shape {
                PadShapeKind::Circle => 2 * pad.radius,
                PadShapeKind::Rect { width, height } => if width < height {
                    width as int
                } else {
                    height as int
                },
                PadShapeKind::Oval { width, height } => if width < height {
                    width as int
                } else {
                    height as int
                },
            };
            i64::MIN <= side <= i64::MAX ==> match query_of(pad) {
                PadQuery::Smd { side: s } => pad.hole_diameter is None && s == side,
                PadQuery::Pth { side: s, drill } => pad.hole_diameter == Some(drill) && s == side,
            }
        }),
{
}

/// A rule that a pad or a hole breaks is told with its number.
pub proof fn law_a_violation_names_its_pad(
    pads: Seq<PadTemplate>,
    verdicts: Seq<Option<DfmViolation>>,
    label: Seq<char>,
    v: DfmViolation,
)
    ensures
        pad_violations(pads, verdicts).contains((label, v)) <==> exists|i: int|
            0 <= i < pads.len() && i < verdicts.len() && verdicts[i] == Some(v) && label
                == seq!['p', 'a', 'd', ' '] + (#[trigger] pads[i]).number@,
    decreases pads.len(),
{
    reveal_strlit("pad ");
    assert("pad "@ =~= seq!['p', 'a', 'd', ' ']);
    if pads.len() > 0 {
        let init = pads.drop_last();
        law_a_violation_names_its_pad(init, verdicts, label, v);
        let rest = pad_violations(init, verdicts);
        let all = pad_violations(pads, verdicts);
        let last = pads.len() - 1;
        assert(pads[last] == pads.last());
        assert forall|i: int| 0 <= i < init.len() implies #[trigger] pads[i] == init[i] by {}
        if rest.contains((label, v)) {
            let k = choose|k: int| 0 <= k < rest.len() && rest[k] == (label, v);
            assert(all[k] == (label, v));
            let i = choose|i: int|
                0 <= i < init.len() && i < verdicts.len() && verdicts[i] == Some(v) && label
                    == seq!['p', 'a', 'd', ' '] + (#[trigger] init[i]).number@;
            assert(pads[i] == init[i]);
        }
        if all.contains((label, v)) && !rest.contains((label, v)) {
            let k = choose|k: int| 0 <= k < all.len() && all[k] == (label, v);
            if k < rest.len() {
                assert(rest[k] == (label, v));
            }
        }
        if exists|i: int|
            0 <= i < pads.len() && i < verdicts.len() && verdicts[i] == Some(v) && label == seq![
                'p',
                'a',
                'd',
                ' ',
            ] + (#[trigger] pads[i]).number@ {
            let i = choose|i: int|
                0 <= i < pads.len() && i < verdicts.len() && verdicts[i] == Some(v) && label
                    == seq!['p', 'a', 'd', ' '] + (#[trigger] pads[i]).number@;
            if i < init.len() {
                assert(init[i] == pads[i]);
            } else {
                assert(all[rest.len() as int] == (label, v));
            }
        }
    }
}

/// A rule that a hole breaks is told with the hole's number, from one.
pub proof fn law_a_violation_names_its_hole(
    n: nat,
    verdicts: Seq<Option<DfmViolation>>,
    label: Seq<char>,
    v: DfmViolation,
)
    ensures
        hole_violations(n, verdicts).contains((label, v)) <==> exists|i: int|
            0 <= i < n && i < verdicts.len() && #[trigger] verdicts[i] == Some(v) && label == seq![
                'h',
                'o',
                'l',
                'e',
                ' ',
            ] + decimal((i + 1) as nat),
    decreases n,
{
    reveal_strlit("hole ");
    assert("hole "@ =~= seq!['h', 'o', 'l', 'e', ' ']);
    if n > 0 {
        let m = (n - 1) as nat;
        law_a_violation_names_its_hole(m, verdicts, label, v);
        let rest = hole_violations(m, verdicts);
        let all = hole_violations(n, verdicts);
        if rest.contains((label, v)) {
            let k = choose|k: int| 0 <= k < rest.len() && rest[k] == (label, v);
            assert(all[k] == (label, v));
        }
        if all.contains((label, v)) && !rest.contains((label, v)) {
            let k = choose|k: int| 0 <= k < all.len() && all[k] == (label, v);
            if k < rest.len() {
                assert(rest[k] == (label, v));
            }
            assert(verdicts[m as int] == Some(v));
        }
        if exists|i: int|
            0 <= i < n && i < verdicts.len() && #[trigger] verdicts[i] == Some(v) && label == seq![
                'h',
                'o',
                'l',
                'e',
                ' ',
            ] + decimal((i + 1) as nat) {
            let i = choose|i: int|
                0 <= i < n && i < verdicts.len() && #[trigger] verdicts[i] == Some(v) && label
                    == seq!['h', 'o', 'l', 'e', ' '] + decimal((i + 1) as nat);
            if i == m {
                assert(all[rest.len() as int] == (label, v));
            }
        }
    }
}

/// What comes with the program: a solder pad for either side, three pads for
/// wires with a hole smaller than the pad, and three mounting holes that let
/// their screw through. None of them is bought.
pub proof fn law_what_comes_with_the_program(ts: Seq<FootprintTemplate>, i: int)
    requires
        is_builtin_library(ts),
        0 <= i < ts.len(),
    ensures
        ts.len() == 8,
        ts[i].exclude_from_bom,
        ts[i].pads@.len() + ts[i].holes@.len() == 1,
        i < 2 ==> ts[i].pads@[0].hole_diameter is None && ts[i].pads@[0].radius == 750_000,
        ts[0].pads@[0].layer == LayerId::FCu,
        ts[1].pads@[0].layer == LayerId::BCu,
        2 <= i < 5 ==> (ts[i].pads@[0].hole_diameter matches Some(d) && 0 < d < 2
            * ts[i].pads@[0].radius),
        ts[2].pads@[0].hole_diameter == Some(1_000_000i64),
        ts[3].pads@[0].hole_diameter == Some(1_500_000i64),
        ts[4].pads@[0].hole_diameter == Some(2_000_000i64),
        ts[4].pads@[0].zone_connection == ZoneConnection::Solid,
        ts[2].pads@[0].zone_connection == ZoneConnection::Thermal,
        ts[3].pads@[0].zone_connection == ZoneConnection::Thermal,
        5 <= i ==> ts[i].holes@[0].offset.x == 0 && ts[i].holes@[0].offset.y == 0,
        ts[5].holes@[0].drill == 2_200_000,
        ts[6].holes@[0].drill == 2_700_000,
        ts[7].holes@[0].drill == 3_200_000,
{
}

/// The parts of former boards: two and four pins in a row, a tenth of an inch
/// apart round the middle, and eight pins in two columns, the second counted
/// upward, a twentieth of an inch apart.
pub proof fn law_what_former_boards_used(ts: Seq<FootprintTemplate>, i: int)
    requires
        is_legacy_library(ts),
    ensures
        ts.len() == 3,
        ts[0].pads@.len() == 2,
        ts[1].pads@.len() == 4,
        ts[2].pads@.len() == 8,
        forall|t: int, k: int|
            #![trigger ts[t].pads@[k]]
            0 <= t < 3 && 0 <= k < ts[t].pads@.len() ==> ts[t].pads@[k].number@ == decimal(
                (k + 1) as nat,
            ) && ts[t].pads@[k].layer == LayerId::FCu && ts[t].pads@[k].hole_diameter is None
                && ts[t].pads@[k].shape == PadShapeKind::Circle,
        0 <= i < 2 ==> ts[0].pads@[i].offset.y == 0 && ts[0].pads@[i].radius == 450_000
            && ts[0].pads@[i].offset.x == 2_540_000 * i - 1_270_000,
        0 <= i < 4 ==> ts[1].pads@[i].offset.y == 0 && ts[1].pads@[i].radius == 450_000
            && ts[1].pads@[i].offset.x == 2_540_000 * i - 3_810_000,
        0 <= i < 4 ==> ts[2].pads@[i].offset.x == -2_650_000 && ts[2].pads@[i].offset.y
            == 1_270_000 * i - 1_905_000 && ts[2].pads@[i].radius == 300_000,
        4 <= i < 8 ==> ts[2].pads@[i].offset.x == 2_650_000 && ts[2].pads@[i].offset.y == ts[2].pads@[7
            - i].offset.y && ts[2].pads@[i].radius == 300_000,
        !ts[0].exclude_from_bom && !ts[1].exclude_from_bom && !ts[2].exclude_from_bom,
{
    assert forall|t: int, k: int|
        #![trigger ts[t].pads@[k]]
        0 <= t < 3 && 0 <= k < ts[t].pads@.len() implies ts[t].pads@[k].number@ == decimal(
        (k + 1) as nat,
    ) && ts[t].pads@[k].layer == LayerId::FCu && ts[t].pads@[k].hole_diameter is None
        && ts[t].pads@[k].shape == PadShapeKind::Circle by {
        assert(t == 0 || t == 1 || t == 2);
    }
    if 4 <= i < 8 {
        let a = ts[2].pads@[i];
        let b = ts[2].pads@[7 - i];
        assert(a == a && b == b);
    }
}

} // verus!
