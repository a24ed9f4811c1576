//! From the entities of a drawing to the board outline: closed contours of
//! polylines, the ring of loose segments, the largest of them, and its place
//! on the board's grid.
//!
//! Coordinates are exact decimals, in steps of 10^-18 mm, or one of the words
//! for what is infinite or no number. The points along arcs and bulges are
//! traced by the caller.

use vstd::prelude::*;

use crate::area::{contour_area, exceeds, is_infinite, measure_contour};
use crate::decimal::{
    difference_of, greatest_of, grid, grid_unit, highest, least_of, lowest, measured, minus,
    number_value, plus, read_number, sum_of, Spot, LIMIT, NAN,
};
use crate::dxf_outline::{
    arcs_upto, collect_entities, far_end, forms_one_ring, is_ring, join_ring, lines_upto, meets_one, near_end, outline_from_contour, polyline_models,
    polylines_upto, sound_corners, Contour, DxfArc, DxfLine, DxfOutlineError, Group, LwPolyline,
    RingStep, Vertex,
};
use crate::geom::{Point, Polygon, Unit};
use crate::text::{chars_of, trim_chars, trimmed};

verus! {

/// Two ends closer than this on either axis are one.
pub const SAME_PLACE: i128 = 1_000_000_000;

/// A bulge no larger than this is a straight leg.
pub const FLAT_BULGE: i128 = 1_000_000;

/// A contour no wider than this is flat.
pub const FLAT_CONTOUR: i128 = 1_000_000_000_000;

/// The number that the value of a group stands for.
pub open spec fn value_of(group: Group) -> Option<int> {
    number_value(trimmed(group.value@))
}

/// Which values are numbers.
pub open spec fn numeric_in(groups: Seq<Group>) -> Seq<bool> {
    groups.map_values(|g: Group| value_of(g) is Some)
}

/// Which values are positive numbers.
pub open spec fn positive_in(groups: Seq<Group>) -> Seq<bool> {
    groups.map_values(|g: Group| value_of(g) is Some && value_of(g)->0 > 0)
}

/// The number at a place, zero where there is none.
pub open spec fn number_at(groups: Seq<Group>, i: int) -> int {
    if 0 <= i < groups.len() && value_of(groups[i]) is Some {
        value_of(groups[i])->0
    } else {
        0
    }
}

/// The place with these coordinates.
pub open spec fn spot_at(groups: Seq<Group>, x: int, y: int) -> Spot {
    Spot { x: number_at(groups, x) as i128, y: number_at(groups, y) as i128 }
}

/// A straight segment.
#[derive(Debug, Clone, Copy, PartialEq, Eq, Structural)]
pub struct DrawnLine {
    pub a: Spot,
    pub b: Spot,
}

/// A circular arc, its angles in degrees.
#[derive(Debug, Clone, Copy, PartialEq, Eq, Structural)]
pub struct DrawnArc {
    pub center: Spot,
    pub radius: i128,
    pub start_deg: i128,
    pub end_deg: i128,
}

/// A full turn, in the steps of an angle.
pub const FULL_TURN: i128 = 360_000_000_000_000_000_000;

/// An arc that spans less than this is a point.
pub const POINT_ARC: i128 = 57_295_780;

/// How many chords a full turn is broken into.
pub const CHORDS_PER_TURN: i128 = 64;

impl DrawnArc {
    /// Whether the arc runs from a finite angle to a finite angle, or from or
    /// to one that is no number.
    pub open spec fn angles_within(self) -> bool {
        &&& measured(self.start_deg as int, 1)
        &&& measured(self.end_deg as int, 1)
        &&& !is_infinite(minus(self.end_deg as int, self.start_deg as int))
    }

    /// How far the arc runs counterclockwise: more than nothing, up to a full
    /// turn; no number if its angles are none.
    pub open spec fn sweep(self) -> int {
        let turn = minus(self.end_deg as int, self.start_deg as int);
        if turn == NAN {
            turn
        } else {
            (turn - 1) % (FULL_TURN as int) + 1
        }
    }

    /// How many chords the arc is broken into: none if it is a point, else at
    /// least two.
    pub open spec fn chords(self) -> int {
        let n = (CHORDS_PER_TURN * self.sweep() + FULL_TURN - 1) / (FULL_TURN as int);
        if self.sweep() == NAN {
            2
        } else if self.sweep() < POINT_ARC {
            0
        } else if n < 2 {
            2
        } else {
            n
        }
    }

    /// How far the arc runs counterclockwise, in the steps of an angle.
    pub fn sweep_deg(&self) -> (r: i128)
        requires
            self.angles_within(),
        ensures
            r == self.sweep(),
            r == NAN || 0 < r <= FULL_TURN,
    {
        let turn: i128 = difference_of(self.end_deg, self.start_deg, Ghost(1), Ghost(1));
        if turn == NAN {
            turn
        } else if turn > 0 {
            (turn - 1) % FULL_TURN + 1
        } else {
            let back: i128 = (-turn) % FULL_TURN;
            proof {
                let t = FULL_TURN as int;
                let k = (-turn) / t;
                assert(-turn == k * t + back) by {
                    vstd::arithmetic::div_mod::lemma_fundamental_div_mod(-turn as int, t);
                    assert(t * k == k * t) by (nonlinear_arith);
                }
                assert((turn - 1) % t == t - back - 1) by {
                    let q = -k - 1;
                    assert(turn - 1 == q * t + (t - back - 1)) by (nonlinear_arith)
                        requires
                            -turn == k * t + back,
                            q == -k - 1,
                    ;
                    vstd::arithmetic::div_mod::lemma_fundamental_div_mod_converse(
                        turn - 1,
                        t,
                        q,
                        t - back - 1,
                    );
                }
            }
            FULL_TURN - back
        }
    }

    /// How many chords the arc is broken into.
    pub fn chord_count(&self) -> (r: usize)
        requires
            self.angles_within(),
        ensures
            r == self.chords(),
    {
        let sweep: i128 = self.sweep_deg();
        if sweep == NAN {
            return 2;
        }
        if sweep < POINT_ARC {
            return 0;
        }
        let n: i128 = (CHORDS_PER_TURN * sweep + FULL_TURN - 1) / FULL_TURN;
        if n < 2 {
            2
        } else {
            n as usize
        }
    }
}

/// An arc runs as far as its ends say, give or take full turns.
pub proof fn law_sweep_leads_to_the_end(arc: DrawnArc)
    requires
        -LIMIT <= arc.start_deg <= LIMIT,
        -LIMIT <= arc.end_deg <= LIMIT,
    ensures
        0 < arc.sweep() <= FULL_TURN,
        (arc.start_deg + arc.sweep() - arc.end_deg) % (FULL_TURN as int) == 0,
        arc.sweep() >= POINT_ARC ==> 2 <= arc.chords() <= CHORDS_PER_TURN,
{
    let t = FULL_TURN as int;
    let d = arc.end_deg - arc.start_deg - 1;
    vstd::arithmetic::div_mod::lemma_fundamental_div_mod(d, t);
    assert(arc.start_deg + arc.sweep() - arc.end_deg == (-(d / t)) * t) by (nonlinear_arith)
        requires
            d == t * (d / t) + d % t,
            arc.start_deg + arc.sweep() - arc.end_deg == d % t - d,
    ;
    vstd::arithmetic::div_mod::lemma_mod_multiples_basic(-(d / t), t);
}

/// A vertex of a polyline, with the bulge of the leg that starts there.
#[derive(Debug, Clone, Copy, PartialEq, Eq, Structural)]
pub struct DrawnVertex {
    pub place: Spot,
    pub bulge: i128,
}

/// A polyline; `closed` is its flag.
#[derive(Debug, Clone)]
pub struct DrawnPolyline {
    pub verts: Vec<DrawnVertex>,
    pub closed: bool,
}

/// The entities of a drawing that can bound a board.
#[derive(Debug, Clone)]
pub struct Drawing {
    pub polylines: Vec<DrawnPolyline>,
    pub lines: Vec<DrawnLine>,
    pub arcs: Vec<DrawnArc>,
}

/// A straight segment with its numbers.
pub open spec fn drawn_line(groups: Seq<Group>, line: DxfLine) -> DrawnLine {
    DrawnLine {
        a: spot_at(groups, line.x1 as int, line.y1 as int),
        b: spot_at(groups, line.x2 as int, line.y2 as int),
    }
}

/// An arc with its numbers.
pub open spec fn drawn_arc(groups: Seq<Group>, arc: DxfArc) -> DrawnArc {
    DrawnArc {
        center: spot_at(groups, arc.cx as int, arc.cy as int),
        radius: number_at(groups, arc.radius as int) as i128,
        start_deg: number_at(groups, arc.start_deg as int) as i128,
        end_deg: number_at(groups, arc.end_deg as int) as i128,
    }
}

/// A vertex with its numbers.
pub open spec fn drawn_vertex(groups: Seq<Group>, vertex: Vertex) -> DrawnVertex {
    DrawnVertex {
        place: spot_at(groups, vertex.x as int, vertex.y as int),
        bulge: match vertex.bulge {
            Some(i) => number_at(groups, i as int) as i128,
            None => 0,
        },
    }
}

/// What a list of drawn polylines holds.
pub open spec fn drawn_models(polylines: Seq<DrawnPolyline>) -> Seq<(Seq<DrawnVertex>, bool)> {
    polylines.map_values(|p: DrawnPolyline| (p.verts@, p.closed))
}

/// Polylines with their numbers.
pub open spec fn drawn_polylines(groups: Seq<Group>, models: Seq<(Seq<Vertex>, bool)>) -> Seq<
    (Seq<DrawnVertex>, bool),
> {
    models.map_values(
        |m: (Seq<Vertex>, bool)| (m.0.map_values(|v: Vertex| drawn_vertex(groups, v)), m.1),
    )
}

/// The numbers that the values of some groups stand for.
fn values_of(groups: &[Group]) -> (r: Vec<Option<i128>>)
    ensures
        r@.len() == groups@.len(),
        forall|i: int|
            #![trigger r@[i]]
            0 <= i < groups@.len() ==> match r@[i] {
                Some(v) => value_of(groups@[i]) == Some(v as int) && measured(v as int, 1),
                None => value_of(groups@[i]) is None,
            },
{
    let mut r: Vec<Option<i128>> = Vec::new();
    let mut i: usize = 0;
    while i < groups.len()
        invariant
            i <= groups@.len(),
            r@.len() == i,
            forall|k: int|
                #![trigger r@[k]]
                0 <= k < i ==> match r@[k] {
                    Some(v) => value_of(groups@[k]) == Some(v as int) && measured(v as int, 1),
                    None => value_of(groups@[k]) is None,
                },
        decreases groups@.len() - i,
    {
        r.push(read_number(&trim_chars(&chars_of(&groups[i].value))));
        i += 1;
    }
    r
}

/// Whether `values` are the numbers of the groups.
spec fn values_match(groups: Seq<Group>, values: Seq<Option<i128>>) -> bool {
    &&& values.len() == groups.len()
    &&& forall|i: int|
        #![trigger values[i]]
        0 <= i < groups.len() ==> match values[i] {
            Some(v) => value_of(groups[i]) == Some(v as int) && measured(v as int, 1),
            None => value_of(groups[i]) is None,
        }
}

fn get_number(values: &[Option<i128>], i: usize, Ghost(groups): Ghost<Seq<Group>>) -> (r: i128)
    requires
        values_match(groups, values@),
    ensures
        r == number_at(groups, i as int),
        measured(r as int, 1),
{
    if i < values.len() {
        match values[i] {
            Some(v) => v,
            None => 0,
        }
    } else {
        0
    }
}

fn get_spot(values: &[Option<i128>], x: usize, y: usize, Ghost(groups): Ghost<Seq<Group>>) -> (r: Spot)
    requires
        values_match(groups, values@),
    ensures
        r == spot_at(groups, x as int, y as int),
        r.within(1),
{
    Spot { x: get_number(values, x, Ghost(groups)), y: get_number(values, y, Ghost(groups)) }
}

/// Whether every place of a drawing lies within the limit of a number.
pub open spec fn drawing_within(drawing: Drawing) -> bool {
    &&& forall|i: int, k: int|
        #![trigger drawing.polylines@[i].verts@[k]]
        0 <= i < drawing.polylines@.len() && 0 <= k < drawing.polylines@[i].verts@.len()
            ==> drawing.polylines@[i].verts@[k].place.within(1)
    &&& forall|i: int|
        #![trigger drawing.lines@[i]]
        0 <= i < drawing.lines@.len() ==> drawing.lines@[i].a.within(1)
            && drawing.lines@[i].b.within(1)
}

/// Reads the entities of a drawing.
pub fn read_drawing(groups: &[Group]) -> (r: Drawing)
    ensures
        drawn_models(r.polylines@) == drawn_polylines(
            groups@,
            polylines_upto(groups@, numeric_in(groups@), groups@.len() as int),
        ),
        r.lines@ == lines_upto(groups@, numeric_in(groups@), groups@.len() as int).map_values(
            |l: DxfLine| drawn_line(groups@, l),
        ),
        r.arcs@ == arcs_upto(
            groups@,
            numeric_in(groups@),
            positive_in(groups@),
            groups@.len() as int,
        ).map_values(|a: DxfArc| drawn_arc(groups@, a)),
        drawing_within(r),
        forall|i: int|
            #![trigger r.arcs@[i]]
            0 <= i < r.arcs@.len() ==> measured(r.arcs@[i].start_deg as int, 1) && measured(
                r.arcs@[i].end_deg as int,
                1,
            ),
{
    let values: Vec<Option<i128>> = values_of(groups);
    let mut numeric: Vec<bool> = Vec::new();
    let mut positive: Vec<bool> = Vec::new();
    let mut i: usize = 0;
    while i < values.len()
        invariant
            i <= values@.len(),
            values_match(groups@, values@),
            numeric@.len() == i,
            positive@.len() == i,
            forall|k: int| 0 <= k < i ==> #[trigger] numeric@[k] == (value_of(groups@[k]) is Some),
            forall|k: int|
                0 <= k < i ==> #[trigger] positive@[k] == (value_of(groups@[k]) is Some && value_of(
                    groups@[k],
                )->0 > 0),
        decreases values@.len() - i,
    {
        match values[i] {
            Some(v) => {
                numeric.push(true);
                positive.push(v > 0);
            },
            None => {
                numeric.push(false);
                positive.push(false);
            },
        }
        i += 1;
    }
    assert(numeric@ =~= numeric_in(groups@));
    assert(positive@ =~= positive_in(groups@));
    let found = collect_entities(groups, &numeric, &positive);
    let polylines: Vec<DrawnPolyline> = draw_polylines(&found.polylines, &values, Ghost(groups@));
    let mut lines: Vec<DrawnLine> = Vec::new();
    let mut l: usize = 0;
    while l < found.lines.len()
        invariant
            l <= found.lines@.len(),
            values_match(groups@, values@),
            lines@.len() == l,
            forall|k: int|
                #![trigger lines@[k]]
                0 <= k < l ==> lines@[k] == drawn_line(groups@, found.lines@[k])
                    && lines@[k].a.within(1) && lines@[k].b.within(1),
        decreases found.lines@.len() - l,
    {
        let line = found.lines[l];
        lines.push(
            DrawnLine {
                a: get_spot(&values, line.x1, line.y1, Ghost(groups@)),
                b: get_spot(&values, line.x2, line.y2, Ghost(groups@)),
            },
        );
        l += 1;
    }
    assert(lines@ =~= found.lines@.map_values(|l: DxfLine| drawn_line(groups@, l)));
    let mut arcs: Vec<DrawnArc> = Vec::new();
    let mut a: usize = 0;
    while a < found.arcs.len()
        invariant
            a <= found.arcs@.len(),
            values_match(groups@, values@),
            arcs@.len() == a,
            forall|k: int|
                #![trigger arcs@[k]]
                0 <= k < a ==> arcs@[k] == drawn_arc(groups@, found.arcs@[k]) && measured(
                    arcs@[k].start_deg as int,
                    1,
                ) && measured(arcs@[k].end_deg as int, 1),
        decreases found.arcs@.len() - a,
    {
        let arc = found.arcs[a];
        arcs.push(
            DrawnArc {
                center: get_spot(&values, arc.cx, arc.cy, Ghost(groups@)),
                radius: get_number(&values, arc.radius, Ghost(groups@)),
                start_deg: get_number(&values, arc.start_deg, Ghost(groups@)),
                end_deg: get_number(&values, arc.end_deg, Ghost(groups@)),
            },
        );
        a += 1;
    }
    assert(arcs@ =~= found.arcs@.map_values(|a: DxfArc| drawn_arc(groups@, a)));
    Drawing { polylines, lines, arcs }
}

/// Polylines with their numbers.
fn draw_polylines(
    polylines: &[LwPolyline],
    values: &[Option<i128>],
    Ghost(groups): Ghost<Seq<Group>>,
) -> (r: Vec<DrawnPolyline>)
    requires
        values_match(groups, values@),
    ensures
        drawn_models(r@) == drawn_polylines(groups, polyline_models(polylines@)),
        forall|i: int, k: int|
            #![trigger r@[i].verts@[k]]
            0 <= i < r@.len() && 0 <= k < r@[i].verts@.len() ==> r@[i].verts@[k].place.within(1),
{
    let ghost models = polyline_models(polylines@);
    let mut r: Vec<DrawnPolyline> = Vec::new();
    let mut i: usize = 0;
    while i < polylines.len()
        invariant
            i <= polylines@.len(),
            values_match(groups, values@),
            models == polyline_models(polylines@),
            r@.len() == i,
            forall|p: int|
                #![trigger r@[p]]
                0 <= p < i ==> (r@[p].verts@, r@[p].closed) == drawn_polylines(groups, models)[p],
            forall|p: int, k: int|
                #![trigger r@[p].verts@[k]]
                0 <= p < r@.len() && 0 <= k < r@[p].verts@.len() ==> r@[p].verts@[k].place.within(1),
        decreases polylines@.len() - i,
    {
        let mut verts: Vec<DrawnVertex> = Vec::new();
        let mut v: usize = 0;
        while v < polylines[i].verts.len()
            invariant
                i < polylines@.len(),
                v <= polylines@[i as int].verts@.len(),
                values_match(groups, values@),
                verts@.len() == v,
                forall|k: int|
                    #![trigger verts@[k]]
                    0 <= k < v ==> verts@[k] == drawn_vertex(
                        groups,
                        polylines@[i as int].verts@[k],
                    ) && verts@[k].place.within(1),
            decreases polylines@[i as int].verts@.len() - v,
        {
            let vertex = polylines[i].verts[v];
            verts.push(
                DrawnVertex {
                    place: get_spot(values, vertex.x, vertex.y, Ghost(groups)),
                    bulge: match vertex.bulge {
                        Some(b) => get_number(values, b, Ghost(groups)),
                        None => 0,
                    },
                },
            );
            v += 1;
        }
        proof {
            assert(models[i as int] == (
                polylines@[i as int].verts@,
                polylines@[i as int].closed,
            ));
            assert(verts@ =~= polylines@[i as int].verts@.map_values(
                |v: Vertex| drawn_vertex(groups, v),
            ));
        }
        r.push(DrawnPolyline { verts, closed: polylines[i].closed });
        i += 1;
    }
    assert(drawn_models(r@) =~= drawn_polylines(groups, models));
    r
}

/// The points along the curves of a drawing: `arcs[k]` from one end of arc `k`
/// to the other, `bows[p][i]` strictly between vertex `i` of polyline `p` and
/// the next one.
#[derive(Debug, Clone)]
pub struct Curves {
    pub arcs: Vec<Vec<Spot>>,
    pub bows: Vec<Vec<Vec<Spot>>>,
}

/// Whether every place lies within the limit of a number.
pub open spec fn places_within(places: Seq<Spot>) -> bool {
    forall|i: int| 0 <= i < places.len() ==> (#[trigger] places[i]).within(1)
}

/// Whether the curves belong to the drawing: every arc is traced, and every
/// place lies within the limit of a number.
pub open spec fn curves_fit(drawing: Drawing, curves: Curves) -> bool {
    &&& curves.arcs@.len() == drawing.arcs@.len()
    &&& forall|k: int|
        #![trigger curves.arcs@[k]]
        0 <= k < curves.arcs@.len() ==> curves.arcs@[k]@.len() > 0 && places_within(
            curves.arcs@[k]@,
        )
    &&& forall|p: int, i: int|
        #![trigger curves.bows@[p]@[i]]
        0 <= p < curves.bows@.len() && 0 <= i < curves.bows@[p]@.len() ==> places_within(
            curves.bows@[p]@[i]@,
        )
}

/// Whether two coordinates count as one.
pub open spec fn same_coordinate(a: int, b: int) -> bool {
    -SAME_PLACE < minus(a, b) < SAME_PLACE
}

/// Whether two places count as one.
pub open spec fn same_place(a: Spot, b: Spot) -> bool {
    same_coordinate(a.x as int, b.x as int) && same_coordinate(a.y as int, b.y as int)
}

fn is_same_place(a: Spot, b: Spot) -> (r: bool)
    requires
        a.within(1),
        b.within(1),
    ensures
        r == same_place(a, b),
{
    let dx: i128 = difference_of(a.x, b.x, Ghost(1), Ghost(1));
    let dy: i128 = difference_of(a.y, b.y, Ghost(1), Ghost(1));
    -SAME_PLACE < dx && dx < SAME_PLACE && -SAME_PLACE < dy && dy < SAME_PLACE
}

/// Whether the last vertex lies on the first.
pub open spec fn ends_meet(verts: Seq<DrawnVertex>) -> bool {
    verts.len() >= 2 && same_place(verts[0].place, verts.last().place)
}

/// How many corners a polyline has.
pub open spec fn corners_of(verts: Seq<DrawnVertex>) -> int {
    if ends_meet(verts) {
        verts.len() - 1
    } else {
        verts.len() as int
    }
}

/// The points along the leg that starts at a vertex, without its ends.
pub open spec fn bow_at(verts: Seq<DrawnVertex>, bows: Seq<Vec<Spot>>, i: int) -> Seq<Spot> {
    if -FLAT_BULGE <= verts[i].bulge <= FLAT_BULGE || verts[i].bulge == NAN || i >= bows.len() {
        Seq::empty()
    } else {
        bows[i]@
    }
}

/// The points of the first `n` legs of a polyline.
pub open spec fn legs_upto(verts: Seq<DrawnVertex>, bows: Seq<Vec<Spot>>, n: int) -> Seq<Spot>
    decreases n,
{
    if n <= 0 {
        Seq::empty()
    } else {
        legs_upto(verts, bows, n - 1).push(verts[n - 1].place) + bow_at(verts, bows, n - 1)
    }
}

/// The contour of a polyline, if it is closed, by its flag or because its ends
/// meet, and has at least three corners.
pub open spec fn polyline_contour(verts: Seq<DrawnVertex>, closed: bool, bows: Seq<Vec<Spot>>) -> Option<
    Seq<Spot>,
> {
    if (closed || ends_meet(verts)) && corners_of(verts) >= 3 {
        Some(legs_upto(verts, bows, corners_of(verts)))
    } else {
        None
    }
}

/// Puts some places behind others.
fn extend(places: &mut Vec<Spot>, more: &[Spot], from: usize)
    requires
        from <= more@.len(),
        places_within(old(places)@),
        places_within(more@),
    ensures
        final(places)@ == old(places)@ + more@.skip(from as int),
        places_within(final(places)@),
{
    let ghost before = places@;
    let mut i: usize = from;
    assert(before + more@.subrange(from as int, from as int) =~= before);
    while i < more.len()
        invariant
            from <= i <= more@.len(),
            places_within(more@),
            places_within(places@),
            places@ == before + more@.subrange(from as int, i as int),
        decreases more@.len() - i,
    {
        places.push(more[i]);
        i += 1;
        assert(places@ =~= before + more@.subrange(from as int, i as int));
    }
    assert(more@.subrange(from as int, i as int) =~= more@.skip(from as int));
}

/// Traces the contour of a polyline.
fn trace_polyline(polyline: &DrawnPolyline, bows: &[Vec<Spot>]) -> (r: Option<Vec<Spot>>)
    requires
        forall|k: int|
            #![trigger polyline.verts@[k]]
            0 <= k < polyline.verts@.len() ==> polyline.verts@[k].place.within(1),
        forall|i: int| #![trigger bows@[i]] 0 <= i < bows@.len() ==> places_within(bows@[i]@),
    ensures
        match r {
            Some(points) => polyline_contour(polyline.verts@, polyline.closed, bows@) == Some(
                points@,
            ) && places_within(points@) && points@.len() >= 3,
            None => polyline_contour(polyline.verts@, polyline.closed, bows@) is None,
        },
{
    let n: usize = polyline.verts.len();
    let meet: bool = n >= 2 && is_same_place(polyline.verts[0].place, polyline.verts[n - 1].place);
    if !(polyline.closed || meet) || n < 3 {
        return None;
    }
    let corners: usize = if meet {
        n - 1
    } else {
        n
    };
    if corners < 3 {
        return None;
    }
    let ghost verts = polyline.verts@;
    let mut points: Vec<Spot> = Vec::new();
    let mut i: usize = 0;
    while i < corners
        invariant
            i <= corners <= polyline.verts@.len(),
            verts == polyline.verts@,
            forall|k: int|
                #![trigger verts[k]]
                0 <= k < verts.len() ==> verts[k].place.within(1),
            forall|i: int| #![trigger bows@[i]] 0 <= i < bows@.len() ==> places_within(bows@[i]@),
            points@ == legs_upto(verts, bows@, i as int),
            points@.len() >= i,
            places_within(points@),
        decreases corners - i,
    {
        let vertex = polyline.verts[i];
        points.push(vertex.place);
        let straight: bool = vertex.bulge == NAN || (-FLAT_BULGE <= vertex.bulge && vertex.bulge
            <= FLAT_BULGE);
        if !straight && i < bows.len() {
            extend(&mut points, &bows[i], 0);
            assert(bows@[i as int]@.skip(0) =~= bows@[i as int]@);
        } else {
            assert(points@ + Seq::<Spot>::empty() =~= points@);
        }
        i += 1;
    }
    Some(points)
}

/// A place on the grid of hundredths of a millimetre, on which ends are
/// joined.
pub open spec fn joint(p: Spot) -> Point {
    Point {
        x: grid(p.x as int, 10_000_000_000_000_000) as i64,
        y: grid(p.y as int, 10_000_000_000_000_000) as i64,
    }
}

fn joint_of(p: Spot) -> (r: Point)
    ensures
        r == joint(p),
{
    Point::new(grid_unit(p.x, 10_000_000_000_000_000), grid_unit(p.y, 10_000_000_000_000_000))
}

/// The points of a loose segment, a straight one or an arc.
pub open spec fn segment_points(drawing: Drawing, curves: Curves, s: int) -> Seq<Spot> {
    if s < drawing.lines@.len() {
        seq![drawing.lines@[s].a, drawing.lines@[s].b]
    } else {
        curves.arcs@[s - drawing.lines@.len()]@
    }
}

/// How many loose segments there are.
pub open spec fn segment_count(drawing: Drawing, curves: Curves) -> nat {
    drawing.lines@.len() + curves.arcs@.len()
}

/// The joints of the ends of all loose segments.
pub open spec fn segment_joints(drawing: Drawing, curves: Curves) -> Seq<Point> {
    Seq::new(
        2 * segment_count(drawing, curves),
        |e: int|
            if e % 2 == 0 {
                joint(segment_points(drawing, curves, e / 2)[0])
            } else {
                joint(segment_points(drawing, curves, e / 2).last())
            },
    )
}

/// The walk round the ring, from the first end of the first segment.
pub open spec fn the_ring(ends: Seq<Point>) -> Seq<RingStep> {
    choose|ring: Seq<RingStep>|
        is_ring(ends, ring) && ring[0] == (RingStep { segment: 0, forward: true })
}

/// There is one way round a ring: two walks that begin alike are the same.
pub proof fn law_ring_is_walked_one_way(ends: Seq<Point>, a: Seq<RingStep>, b: Seq<RingStep>)
    requires
        forms_one_ring(ends),
        is_ring(ends, a),
        is_ring(ends, b),
        a[0] == b[0],
    ensures
        a == b,
{
    assert forall|k: int| 0 <= k < a.len() implies a[k] == b[k] by {
        lemma_same_steps(ends, a, b, k);
    }
    assert(a =~= b);
}

proof fn lemma_same_steps(ends: Seq<Point>, a: Seq<RingStep>, b: Seq<RingStep>, k: int)
    requires
        forms_one_ring(ends),
        is_ring(ends, a),
        is_ring(ends, b),
        a[0] == b[0],
        0 <= k < a.len(),
    ensures
        a[k] == b[k],
    decreases k,
{
    if k > 0 {
        lemma_same_steps(ends, a, b, k - 1);
        let tip = far_end(near_end(a[k - 1]));
        let p = near_end(a[k]);
        let q = near_end(b[k]);
        assert(ends[far_end(near_end(a[k - 1]))] == ends[near_end(a[k - 1 + 1])]);
        assert(ends[far_end(near_end(b[k - 1]))] == ends[near_end(b[k - 1 + 1])]);
        assert(a[k - 1].segment != a[k].segment);
        assert(b[k - 1].segment != b[k].segment);
        assert(2 * a[k].segment + 1 < ends.len());
        assert(2 * b[k].segment + 1 < ends.len());
        assert(meets_one(ends, tip));
        assert(p != tip && q != tip);
        assert(p == q);
    }
}

/// The points of a segment in the direction in which it is walked.
pub open spec fn walked(points: Seq<Spot>, forward: bool) -> Seq<Spot> {
    if forward {
        points
    } else {
        points.reverse()
    }
}

/// The points of the first `n` steps round the ring, where each segment but
/// the first begins on the end of the one before.
pub open spec fn steps_upto(drawing: Drawing, curves: Curves, ring: Seq<RingStep>, n: int) -> Seq<Spot>
    decreases n,
{
    if n <= 0 {
        Seq::empty()
    } else {
        let points = walked(
            segment_points(drawing, curves, ring[n - 1].segment as int),
            ring[n - 1].forward,
        );
        if n == 1 {
            points
        } else {
            steps_upto(drawing, curves, ring, n - 1) + points.skip(1)
        }
    }
}

/// The points round the ring, without a last one that closes it.
pub open spec fn ring_points(drawing: Drawing, curves: Curves) -> Seq<Spot> {
    let ring = the_ring(segment_joints(drawing, curves));
    let points = steps_upto(drawing, curves, ring, ring.len() as int);
    if points.len() >= 2 && joint(points[0]) == joint(points.last()) {
        points.drop_last()
    } else {
        points
    }
}

/// The contour of the loose segments, if they form one ring.
pub open spec fn ring_contour(drawing: Drawing, curves: Curves) -> Option<Seq<Spot>> {
    if forms_one_ring(segment_joints(drawing, curves)) && ring_points(drawing, curves).len() >= 3 {
        Some(ring_points(drawing, curves))
    } else {
        None
    }
}

/// The points of a loose segment.
fn points_of_segment(drawing: &Drawing, curves: &Curves, s: usize) -> (r: Vec<Spot>)
    requires
        drawing_within(*drawing),
        curves_fit(*drawing, *curves),
        s < segment_count(*drawing, *curves),
    ensures
        r@ == segment_points(*drawing, *curves, s as int),
        r@.len() > 0,
        places_within(r@),
{
    let mut r: Vec<Spot> = Vec::new();
    if s < drawing.lines.len() {
        let line = drawing.lines[s];
        r.push(line.a);
        r.push(line.b);
        assert(r@ =~= seq![line.a, line.b]);
    } else {
        let k: usize = s - drawing.lines.len();
        assert(curves.arcs@[k as int]@.len() > 0);
        extend(&mut r, &curves.arcs[k], 0);
        assert(r@ =~= curves.arcs@[k as int]@);
    }
    r
}

/// Some places back to front.
fn reversed_places(places: &[Spot]) -> (r: Vec<Spot>)
    requires
        places_within(places@),
    ensures
        r@ == places@.reverse(),
        places_within(r@),
{
    let mut r: Vec<Spot> = Vec::new();
    let mut i: usize = places.len();
    while i > 0
        invariant
            i <= places@.len(),
            places_within(places@),
            places_within(r@),
            r@ == places@.skip(i as int).reverse(),
        decreases i,
    {
        i -= 1;
        r.push(places[i]);
        assert(r@ =~= places@.skip(i as int).reverse());
    }
    assert(places@.skip(0) =~= places@);
    r
}

/// The joints of the ends of all loose segments.
fn joints_of(drawing: &Drawing, curves: &Curves) -> (r: Vec<Point>)
    requires
        drawing_within(*drawing),
        curves_fit(*drawing, *curves),
        segment_count(*drawing, *curves) <= usize::MAX,
    ensures
        r@ == segment_joints(*drawing, *curves),
{
    let total: usize = drawing.lines.len() + curves.arcs.len();
    let mut r: Vec<Point> = Vec::new();
    let mut s: usize = 0;
    while s < total
        invariant
            drawing_within(*drawing),
            curves_fit(*drawing, *curves),
            total == segment_count(*drawing, *curves),
            s <= total,
            r@.len() == 2 * s,
            r@ == segment_joints(*drawing, *curves).take(2 * s as int),
        decreases total - s,
    {
        let points: Vec<Spot> = points_of_segment(drawing, curves, s);
        r.push(joint_of(points[0]));
        r.push(joint_of(points[points.len() - 1]));
        proof {
            let all = segment_joints(*drawing, *curves);
            assert((2 * s) as int / 2 == s && (2 * s) as int % 2 == 0);
            assert((2 * s + 1) as int / 2 == s && (2 * s + 1) as int % 2 == 1);
            assert(all[2 * s as int] == joint(points@[0]));
            assert(all[2 * s as int + 1] == joint(points@.last()));
            assert(r@ =~= all.take(2 * s as int + 2));
        }
        s += 1;
    }
    assert(r@ =~= segment_joints(*drawing, *curves));
    r
}

/// Traces the contour of the loose segments.
fn trace_ring(drawing: &Drawing, curves: &Curves) -> (r: Option<Vec<Spot>>)
    requires
        drawing_within(*drawing),
        curves_fit(*drawing, *curves),
        segment_count(*drawing, *curves) <= usize::MAX,
    ensures
        match r {
            Some(points) => ring_contour(*drawing, *curves) == Some(points@) && places_within(
                points@,
            ) && points@.len() >= 3,
            None => ring_contour(*drawing, *curves) is None,
        },
{
    let ends: Vec<Point> = joints_of(drawing, curves);
    let ghost keys = segment_joints(*drawing, *curves);
    let ring: Vec<RingStep> = match join_ring(&ends) {
        Some(ring) => ring,
        None => {
            return None;
        },
    };
    proof {
        let chosen = the_ring(keys);
        assert(is_ring(keys, ring@) && ring@[0] == (RingStep { segment: 0, forward: true }));
        assert(is_ring(keys, chosen) && chosen[0] == (RingStep { segment: 0, forward: true }));
        law_ring_is_walked_one_way(keys, ring@, chosen);
    }
    let mut points: Vec<Spot> = Vec::new();
    let mut k: usize = 0;
    while k < ring.len()
        invariant
            drawing_within(*drawing),
            curves_fit(*drawing, *curves),
            keys == segment_joints(*drawing, *curves),
            is_ring(keys, ring@),
            k <= ring@.len(),
            places_within(points@),
            points@ == steps_upto(*drawing, *curves, ring@, k as int),
        decreases ring@.len() - k,
    {
        let step = ring[k];
        assert(2 * ring@[k as int].segment + 1 < keys.len());
        let along: Vec<Spot> = points_of_segment(drawing, curves, step.segment);
        let along: Vec<Spot> = if step.forward {
            along
        } else {
            reversed_places(&along)
        };
        let from: usize = if k == 0 {
            0
        } else {
            1
        };
        extend(&mut points, &along, from);
        proof {
            if k == 0 {
                assert(points@ =~= along@);
            }
        }
        k += 1;
    }
    if points.len() >= 2 && joint_of(points[0]) == joint_of(points[points.len() - 1]) {
        let ghost before = points@;
        let last = points.pop();
        assert(points@ =~= before.drop_last());
        assert(forall|i: int| 0 <= i < points@.len() ==> #[trigger] points@[i] == before[i]);
    }
    if points.len() < 3 {
        return None;
    }
    Some(points)
}

/// What a contour was drawn with.
#[derive(Debug, Clone, Copy, PartialEq, Eq, Structural)]
pub enum SourceKind {
    LwPolyline,
    LineRing,
    LineArcRing,
}

impl SourceKind {
    pub open spec fn text(self) -> Seq<char> {
        match self {
            SourceKind::LwPolyline => "LWPOLYLINE"@,
            SourceKind::LineRing => "LINE ring"@,
            SourceKind::LineArcRing => "LINE/ARC ring"@,
        }
    }

    /// The kind as it is shown.
    pub fn label(self) -> (s: String)
        ensures
            s@ == self.text(),
    {
        match self {
            SourceKind::LwPolyline => "LWPOLYLINE".to_owned(),
            SourceKind::LineRing => "LINE ring".to_owned(),
            SourceKind::LineArcRing => "LINE/ARC ring".to_owned(),
        }
    }
}

/// The bows of a polyline.
pub open spec fn bows_of(curves: Curves, p: int) -> Seq<Vec<Spot>> {
    if p < curves.bows@.len() {
        curves.bows@[p]@
    } else {
        Seq::empty()
    }
}

/// The larger of two contours; the second unless the first covers more.
pub open spec fn larger(best: Option<(Seq<Spot>, SourceKind)>, next: Option<(Seq<Spot>, SourceKind)>) -> Option<
    (Seq<Spot>, SourceKind),
> {
    match (best, next) {
        (Some(a), Some(b)) => if exceeds(contour_area(a.0), contour_area(b.0)) {
            best
        } else {
            next
        },
        (None, _) => next,
        (_, None) => best,
    }
}

/// The contour of a polyline, with its kind.
pub open spec fn polyline_candidate(drawing: Drawing, curves: Curves, p: int) -> Option<
    (Seq<Spot>, SourceKind),
> {
    match polyline_contour(
        drawing.polylines@[p].verts@,
        drawing.polylines@[p].closed,
        bows_of(curves, p),
    ) {
        Some(points) => Some((points, SourceKind::LwPolyline)),
        None => None,
    }
}

/// The largest contour among the first `n` polylines.
pub open spec fn largest_polyline(drawing: Drawing, curves: Curves, n: int) -> Option<
    (Seq<Spot>, SourceKind),
>
    decreases n,
{
    if n <= 0 {
        None
    } else {
        larger(
            largest_polyline(drawing, curves, n - 1),
            polyline_candidate(drawing, curves, n - 1),
        )
    }
}

/// The contour of the loose segments, with its kind.
pub open spec fn ring_candidate(drawing: Drawing, curves: Curves) -> Option<(Seq<Spot>, SourceKind)> {
    match ring_contour(drawing, curves) {
        Some(points) => Some(
            (
                points,
                if drawing.arcs@.len() == 0 {
                    SourceKind::LineRing
                } else {
                    SourceKind::LineArcRing
                },
            ),
        ),
        None => None,
    }
}

/// The largest contour of a drawing.
pub open spec fn largest_contour(drawing: Drawing, curves: Curves) -> Option<(Seq<Spot>, SourceKind)> {
    larger(
        largest_polyline(drawing, curves, drawing.polylines@.len() as int),
        ring_candidate(drawing, curves),
    )
}

/// What an optional traced contour is.
spec fn traced(contour: Option<(Vec<Spot>, SourceKind)>) -> Option<(Seq<Spot>, SourceKind)> {
    match contour {
        Some(c) => Some((c.0@, c.1)),
        None => None,
    }
}

/// Whether an optional traced contour has three places within the limit.
spec fn traced_within(contour: Option<(Vec<Spot>, SourceKind)>) -> bool {
    contour matches Some(c) ==> places_within(c.0@) && c.0@.len() >= 3
}

fn larger_of(
    best: Option<(Vec<Spot>, SourceKind)>,
    next: Option<(Vec<Spot>, SourceKind)>,
) -> (r: Option<(Vec<Spot>, SourceKind)>)
    requires
        traced_within(best),
        traced_within(next),
    ensures
        traced(r) == larger(traced(best), traced(next)),
        traced_within(r),
{
    match (best, next) {
        (Some(a), Some(b)) => if measure_contour(&a.0).exceeds(measure_contour(&b.0)) {
            Some(a)
        } else {
            Some(b)
        },
        (None, next) => next,
        (best, None) => best,
    }
}

/// Traces the largest contour of a drawing.
fn pick_largest_contour(drawing: &Drawing, curves: &Curves) -> (r: Option<(Vec<Spot>, SourceKind)>)
    requires
        drawing_within(*drawing),
        curves_fit(*drawing, *curves),
        segment_count(*drawing, *curves) <= usize::MAX,
    ensures
        traced(r) == largest_contour(*drawing, *curves),
        traced_within(r),
{
    let mut best: Option<(Vec<Spot>, SourceKind)> = None;
    let none: Vec<Vec<Spot>> = Vec::new();
    let mut p: usize = 0;
    while p < drawing.polylines.len()
        invariant
            drawing_within(*drawing),
            curves_fit(*drawing, *curves),
            none@.len() == 0,
            p <= drawing.polylines@.len(),
            traced(best) == largest_polyline(*drawing, *curves, p as int),
            traced_within(best),
        decreases drawing.polylines@.len() - p,
    {
        let bows: &Vec<Vec<Spot>> = if p < curves.bows.len() {
            &curves.bows[p]
        } else {
            &none
        };
        proof {
            assert(bows@ =~= bows_of(*curves, p as int));
            assert forall|k: int|
                #![trigger drawing.polylines@[p as int].verts@[k]]
                0 <= k < drawing.polylines@[p as int].verts@.len() implies drawing.polylines@[p as int].verts@[k].place.within(
            1) by {
            }
            assert forall|i: int| #![trigger bows@[i]] 0 <= i < bows@.len() implies places_within(
                bows@[i]@,
            ) by {
                assert(places_within(curves.bows@[p as int]@[i]@));
            }
        }
        let next: Option<(Vec<Spot>, SourceKind)> = match trace_polyline(&drawing.polylines[p], bows) {
            Some(points) => Some((points, SourceKind::LwPolyline)),
            None => None,
        };
        best = larger_of(best, next);
        p += 1;
    }
    let ring: Option<(Vec<Spot>, SourceKind)> = match trace_ring(drawing, curves) {
        Some(points) => Some(
            (
                points,
                if drawing.arcs.len() == 0 {
                    SourceKind::LineRing
                } else {
                    SourceKind::LineArcRing
                },
            ),
        ),
        None => None,
    };
    larger_of(best, ring)
}

/// A board outline that was read from a drawing, with its size on the board's
/// grid and what it was drawn with.
#[derive(Debug, Clone)]
pub struct DxfOutline {
    pub polygon: Polygon,
    pub width: Unit,
    pub height: Unit,
    pub vertex_count: usize,
    pub source_kind: SourceKind,
}

/// The places without a last one on top of the first.
pub open spec fn without_closer(places: Seq<Spot>) -> Seq<Spot> {
    if places.len() >= 2 && same_place(places[0], places.last()) {
        places.drop_last()
    } else {
        places
    }
}

/// The horizontal coordinates of some places.
pub open spec fn across(places: Seq<Spot>) -> Seq<int> {
    places.map_values(|p: Spot| p.x as int)
}

/// The vertical coordinates of some places.
pub open spec fn upward(places: Seq<Spot>) -> Seq<int> {
    places.map_values(|p: Spot| p.y as int)
}

/// How wide some values spread.
pub open spec fn spread(values: Seq<int>) -> int {
    minus(highest(values), lowest(values))
}

/// Twice the middle of some values.
pub open spec fn doubled_middle(values: Seq<int>) -> int {
    plus(lowest(values), highest(values))
}

/// Whether some values lie too close together for an outline; so do those of
/// which none is a number of any size.
pub open spec fn is_flat(values: Seq<int>) -> bool {
    lowest(values) == NAN || (spread(values) != NAN && spread(values) <= FLAT_CONTOUR)
}

/// The places of a contour on the board: its middle on the origin, and upward
/// in the drawing is downward in the coordinates of the board.
pub open spec fn on_board(places: Seq<Spot>) -> Seq<Point> {
    places.map_values(
        |p: Spot|
            Point {
                x: grid(
                    minus(plus(p.x as int, p.x as int), doubled_middle(across(places))),
                    2_000_000_000_000,
                ) as i64,
                y: grid(
                    minus(doubled_middle(upward(places)), plus(p.y as int, p.y as int)),
                    2_000_000_000_000,
                ) as i64,
            },
    )
}

/// The corners of the outline that the largest contour of a drawing gives.
pub open spec fn drawing_corners(drawing: Drawing, curves: Curves) -> Result<
    Seq<Point>,
    DxfOutlineError,
> {
    match largest_contour(drawing, curves) {
        None => Err(DxfOutlineError::NoContour),
        Some(c) => {
            let places = without_closer(c.0);
            sound_corners(
                places.len() as int,
                is_flat(across(places)) || is_flat(upward(places)),
                on_board(places),
            )
        },
    }
}

/// The least and the greatest of the coordinates of some places.
struct Extent {
    low: Spot,
    high: Spot,
}

fn extent_of(places: &[Spot]) -> (r: Extent)
    requires
        places_within(places@),
    ensures
        r.low.x == lowest(across(places@)),
        r.low.y == lowest(upward(places@)),
        r.high.x == highest(across(places@)),
        r.high.y == highest(upward(places@)),
        r.low.within(1),
        r.high.within(1),
{
    let ghost xs = across(places@);
    let ghost ys = upward(places@);
    let mut low: Spot = Spot { x: NAN, y: NAN };
    let mut high: Spot = Spot { x: NAN, y: NAN };
    let mut i: usize = 0;
    while i < places.len()
        invariant
            i <= places@.len(),
            places_within(places@),
            xs == across(places@),
            ys == upward(places@),
            low.x == lowest(xs.take(i as int)),
            low.y == lowest(ys.take(i as int)),
            high.x == highest(xs.take(i as int)),
            high.y == highest(ys.take(i as int)),
            low.within(1),
            high.within(1),
        decreases places@.len() - i,
    {
        let p = places[i];
        proof {
            assert(places@[i as int].within(1));
            assert(xs.take(i + 1).drop_last() =~= xs.take(i as int));
            assert(ys.take(i + 1).drop_last() =~= ys.take(i as int));
            assert(xs.take(i + 1).last() == p.x);
            assert(ys.take(i + 1).last() == p.y);
        }
        low = Spot { x: least_of(low.x, p.x), y: least_of(low.y, p.y) };
        high = Spot { x: greatest_of(high.x, p.x), y: greatest_of(high.y, p.y) };
        i += 1;
    }
    assert(xs.take(i as int) =~= xs);
    assert(ys.take(i as int) =~= ys);
    Extent { low, high }
}

/// Whether values from `low` up to `high` lie too close together.
fn is_flat_between(low: i128, high: i128, wide: i128) -> (r: bool)
    requires
        wide == minus(high as int, low as int),
    ensures
        r == (low == NAN || (wide != NAN && wide <= FLAT_CONTOUR)),
{
    low == NAN || (wide != NAN && wide <= FLAT_CONTOUR)
}

/// Reads the board outline out of a drawing: its largest contour, around the
/// origin of the board.
pub fn parse_dxf_outline(drawing: &Drawing, curves: &Curves) -> (r: Result<
    DxfOutline,
    DxfOutlineError,
>)
    requires
        drawing_within(*drawing),
        curves_fit(*drawing, *curves),
        segment_count(*drawing, *curves) <= usize::MAX,
    ensures
        match r {
            Ok(outline) => {
                &&& drawing_corners(*drawing, *curves) == Ok::<Seq<Point>, DxfOutlineError>(
                    outline.polygon.points@,
                )
                &&& outline.vertex_count == outline.polygon.points@.len()
                &&& ({
                    let c = largest_contour(*drawing, *curves)->0;
                    let places = without_closer(c.0);
                    &&& outline.width == grid(spread(across(places)), 1_000_000_000_000)
                    &&& outline.height == grid(spread(upward(places)), 1_000_000_000_000)
                    &&& outline.source_kind == c.1
                })
            },
            Err(e) => drawing_corners(*drawing, *curves) == Err::<Seq<Point>, DxfOutlineError>(e),
        },
{
    let (mut places, source_kind) = match pick_largest_contour(drawing, curves) {
        Some(contour) => contour,
        None => {
            return Err(DxfOutlineError::NoContour);
        },
    };
    if is_same_place(places[0], places[places.len() - 1]) {
        let ghost before = places@;
        let last = places.pop();
        assert(places@ =~= before.drop_last());
        assert(forall|i: int| 0 <= i < places@.len() ==> #[trigger] places@[i] == before[i]);
    }
    assert(places@ == without_closer((largest_contour(*drawing, *curves)->0).0));
    let extent = extent_of(&places);
    let (low, high) = (extent.low, extent.high);
    let wide: i128 = difference_of(high.x, low.x, Ghost(1), Ghost(1));
    let tall: i128 = difference_of(high.y, low.y, Ghost(1), Ghost(1));
    let middle_x: i128 = sum_of(low.x, high.x, Ghost(1), Ghost(1));
    let middle_y: i128 = sum_of(low.y, high.y, Ghost(1), Ghost(1));
    let mut points: Vec<Point> = Vec::new();
    let mut i: usize = 0;
    while i < places.len()
        invariant
            i <= places@.len(),
            places_within(places@),
            measured(middle_x as int, 2),
            measured(middle_y as int, 2),
            middle_x == doubled_middle(across(places@)),
            middle_y == doubled_middle(upward(places@)),
            points@.len() == i,
            forall|k: int| #![trigger points@[k]] 0 <= k < i ==> points@[k] == on_board(places@)[k],
        decreases places@.len() - i,
    {
        let p = places[i];
        assert(places@[i as int].within(1));
        let x: i128 = sum_of(p.x, p.x, Ghost(1), Ghost(1));
        let y: i128 = sum_of(p.y, p.y, Ghost(1), Ghost(1));
        points.push(
            Point::new(
                grid_unit(difference_of(x, middle_x, Ghost(2), Ghost(2)), 2_000_000_000_000),
                grid_unit(difference_of(middle_y, y, Ghost(2), Ghost(2)), 2_000_000_000_000),
            ),
        );
        i += 1;
    }
    assert(points@ =~= on_board(places@));
    let contour = Contour {
        vertex_count: places.len(),
        flat: is_flat_between(low.x, high.x, wide) || is_flat_between(low.y, high.y, tall),
        points,
    };
    match outline_from_contour(Some(contour)) {
        Ok(polygon) => Ok(
            DxfOutline {
                vertex_count: polygon.points.len(),
                polygon,
                width: grid_unit(wide, 1_000_000_000_000),
                height: grid_unit(tall, 1_000_000_000_000),
                source_kind,
            },
        ),
        Err(e) => Err(e),
    }
}

} // verus!
