//! The shape lines of an EasyEDA footprint: pads, and the body outline that
//! is drawn on the top silkscreen.
//!
//! One EasyEDA unit is 254000 nm. Coordinates are read as exact decimals, or as
//! one of the words for what is infinite or no number.

use vstd::prelude::*;

use crate::decimal::{
    clamped, difference_of, greatest, greatest_of, grid_unit, highest,
    law_bounds_depend_on_the_numbers_alone, least, least_of, lowest, measured, minus, number_value,
    plus, read_number, rounded, sum_of, Spot, NAN,
};
use crate::footprint::{Courtyard, PadShapeKind, PadTemplate};
use crate::geom::{Angle, Point, Unit};
use crate::item::{LayerId, ZoneConnection};
use crate::text::{
    chars_of, fields_in, fields_of, parse_i32, read_int, spells, string_of, strings_in,
    texts_of, words_in, words_of,
};

verus! {

/// The layer number of the top silkscreen.
pub const TOP_SILK_LAYER: i32 = 3;

/// Twice a length in EasyEDA units, as the length in nanometres.
pub open spec fn half_nm(twice: int) -> int {
    if twice == NAN {
        0
    } else {
        clamped(rounded(twice * 127, 1_000_000_000_000_000))
    }
}

/// A length in EasyEDA units, in nanometres.
pub open spec fn nm(value: int) -> int {
    half_nm(plus(value, value))
}

/// A number beyond which every length is out of range.
const FAR: i128 = 1_000_000_000_000_000_000_000_000_000_000_000;

/// What lies that far away is out of the range of a length.
proof fn lemma_far(size: int)
    requires
        size > FAR,
    ensures
        (2 * (size * 127) + 1_000_000_000_000_000) / 2_000_000_000_000_000
            > 0x8000_0000_0000_0000,
{
    let n = size * 127;
    assert((2 * n + 1_000_000_000_000_000) / 2_000_000_000_000_000 > 0x8000_0000_0000_0000)
        by (nonlinear_arith)
        requires
            n > 127_000_000_000_000_000_000_000_000_000_000_000,
    ;
}

/// Half of a length in EasyEDA units, in nanometres.
fn half_units_to_nm(twice: i128) -> (r: Unit)
    ensures
        r == half_nm(twice as int),
{
    if twice == NAN {
        0
    } else if twice > FAR {
        proof {
            lemma_far(twice as int);
        }
        0x7fff_ffff_ffff_ffff
    } else if twice < -FAR {
        proof {
            lemma_far(-twice as int);
        }
        -0x8000_0000_0000_0000
    } else {
        grid_unit(twice * 127, 1_000_000_000_000_000)
    }
}

/// A length in EasyEDA units, in nanometres.
pub fn easyeda_unit_to_nm(value: i128) -> (r: Unit)
    requires
        measured(value as int, 8),
    ensures
        r == nm(value as int),
{
    half_units_to_nm(sum_of(value, value, Ghost(8), Ghost(8)))
}

/// The numbers among some words, in order.
pub open spec fn numbers_in(words: Seq<Seq<char>>) -> Seq<int>
    decreases words.len(),
{
    if words.len() == 0 {
        Seq::empty()
    } else {
        match number_value(words.last()) {
            Some(v) => numbers_in(words.drop_last()).push(v),
            None => numbers_in(words.drop_last()),
        }
    }
}

/// What each of some numbers is.
pub open spec fn ints(values: Seq<i128>) -> Seq<int> {
    values.map_values(|v: i128| v as int)
}

/// The numbers in a text, in order; words that are none are passed over.
fn numbers_of(text: &[char]) -> (r: Vec<i128>)
    ensures
        ints(r@) == numbers_in(words_in(text@)),
        forall|i: int| 0 <= i < r@.len() ==> measured(#[trigger] r@[i] as int, 1),
{
    let words: Vec<Vec<char>> = words_of(text);
    let ghost all = words_in(text@);
    let mut r: Vec<i128> = Vec::new();
    let mut i: usize = 0;
    assert(ints(r@) =~= numbers_in(all.take(0)));
    while i < words.len()
        invariant
            i <= words@.len(),
            texts_of(words@) == all,
            ints(r@) == numbers_in(all.take(i as int)),
            forall|i: int| 0 <= i < r@.len() ==> measured(#[trigger] r@[i] as int, 1),
        decreases words@.len() - i,
    {
        let ghost before = r@;
        assert(all[i as int] == words@[i as int]@);
        assert(all.take(i + 1).drop_last() =~= all.take(i as int));
        assert(all.take(i + 1).last() == all[i as int]);
        match read_number(&words[i]) {
            Some(v) => {
                r.push(v);
                assert(ints(r@) =~= ints(before).push(v as int));
            },
            None => {},
        }
        i += 1;
    }
    assert(all.take(i as int) =~= all);
    r
}

/// Every second value, from `from` on.
pub open spec fn every_other(values: Seq<int>, from: int) -> Seq<int> {
    Seq::new(((values.len() - from + 1) / 2) as nat, |k: int| values[from + 2 * k])
}

/// How far some numbers spread, in nanometres; as little as a length can be if
/// none of them has a size.
pub open spec fn spread_nm(values: Seq<int>) -> int {
    if highest(values) == NAN {
        i64::MIN as int
    } else {
        nm(minus(highest(values), lowest(values)))
    }
}

/// How far every second value spreads, in nanometres.
fn spread_of(values: &[i128], from: usize) -> (r: Unit)
    requires
        from < values@.len(),
        from <= 1,
        forall|i: int| 0 <= i < values@.len() ==> measured(#[trigger] values@[i] as int, 1),
    ensures
        r == spread_nm(every_other(ints(values@), from as int)),
{
    let ghost all = every_other(ints(values@), from as int);
    let rest: usize = values.len() - from;
    let count: usize = rest / 2 + rest % 2;
    let mut low: i128 = NAN;
    let mut high: i128 = NAN;
    let mut k: usize = 0;
    assert(all.take(0).len() == 0);
    while k < count
        invariant
            k <= count,
            count == all.len(),
            from <= 1,
            values@.len() <= usize::MAX,
            rest == values@.len() - from,
            count == rest / 2 + rest % 2,
            all == every_other(ints(values@), from as int),
            low == lowest(all.take(k as int)),
            high == highest(all.take(k as int)),
            measured(low as int, 1),
            measured(high as int, 1),
            forall|i: int| 0 <= i < values@.len() ==> measured(#[trigger] values@[i] as int, 1),
        decreases count - k,
    {
        let v: i128 = values[from + 2 * k];
        proof {
            assert(measured(values@[from + 2 * k] as int, 1));
            assert(all.take(k + 1).drop_last() =~= all.take(k as int));
            assert(all.take(k + 1).last() == v);
        }
        low = least_of(low, v);
        high = greatest_of(high, v);
        k += 1;
    }
    assert(all.take(k as int) =~= all);
    if high == NAN {
        return -0x8000_0000_0000_0000;
    }
    easyeda_unit_to_nm(difference_of(high, low, Ghost(1), Ghost(1)))
}

/// Width and height of the box round a point list, in nanometres; none for
/// fewer than two points.
pub open spec fn polygon_size(points: Seq<char>) -> Option<(int, int)> {
    let n = numbers_in(words_in(points));
    if n.len() < 4 {
        None
    } else {
        Some((spread_nm(every_other(n, 0)), spread_nm(every_other(n, 1))))
    }
}

/// Width and height of the box round a point list.
fn poly_bbox_nm(points: &[char]) -> (r: Option<(Unit, Unit)>)
    ensures
        match r {
            Some(size) => polygon_size(points@) == Some((size.0 as int, size.1 as int)),
            None => polygon_size(points@) is None,
        },
{
    let n: Vec<i128> = numbers_of(points);
    if n.len() < 4 {
        return None;
    }
    Some((spread_of(&n, 0), spread_of(&n, 1)))
}

/// The layer that a field names.
pub open spec fn layer_number(field: Seq<char>) -> Option<int> {
    match read_int(field) {
        Some(n) => if i32::MIN <= n <= i32::MAX {
            Some(n)
        } else {
            None
        },
        None => None,
    }
}

/// Whether a shape line is a readable pad:
/// `PAD~shape~x~y~width~height~layer~net~number~hole~points~rotation~...`
pub open spec fn is_pad_line(line: Seq<char>) -> bool {
    let f = fields_in(line, '~');
    &&& f.len() >= 12
    &&& f[0] == "PAD"@
    &&& number_value(f[2]) is Some
    &&& number_value(f[3]) is Some
    &&& number_value(f[4]) is Some
    &&& number_value(f[5]) is Some
    &&& layer_number(f[6]) is Some
}

/// The number in a field, zero where there is none.
pub open spec fn number_or_zero(field: Seq<char>) -> int {
    match number_value(field) {
        Some(v) => v,
        None => 0,
    }
}

/// The box round the points of a polygon pad.
pub open spec fn pad_polygon(line: Seq<char>) -> Option<(int, int)> {
    let f = fields_in(line, '~');
    if f[1] == "POLYGON"@ {
        polygon_size(f[10])
    } else {
        None
    }
}

/// Width and height of a pad in nanometres.
pub open spec fn pad_size(line: Seq<char>) -> (int, int) {
    let f = fields_in(line, '~');
    match pad_polygon(line) {
        Some(size) => size,
        None => (nm(number_value(f[4])->0), nm(number_value(f[5])->0)),
    }
}

/// The shape of a pad. A polygon becomes the box round its points.
pub open spec fn pad_shape(line: Seq<char>) -> PadShapeKind {
    let name = fields_in(line, '~')[1];
    let (w, h) = pad_size(line);
    if name == "RECT"@ || pad_polygon(line) is Some {
        PadShapeKind::Rect { width: w as i64, height: h as i64 }
    } else if (name == "OVAL"@ || name == "ELLIPSE"@) && w != h {
        PadShapeKind::Oval { width: w as i64, height: h as i64 }
    } else {
        PadShapeKind::Circle
    }
}

/// The layer a pad lies on: the back for a surface pad of layer 2, else the
/// front. A drilled pad counts as a front pad.
pub open spec fn pad_layer(line: Seq<char>) -> LayerId {
    let f = fields_in(line, '~');
    if number_or_zero(f[9]) <= 0 && layer_number(f[6]) == Some(2int) {
        LayerId::BCu
    } else {
        LayerId::FCu
    }
}

/// Half of the shorter side, at least one.
pub open spec fn inscribed_radius(w: int, h: int) -> int {
    let side = if w < h {
        w
    } else {
        h
    };
    if side >= 2 {
        side / 2
    } else {
        1
    }
}

/// The drill of a pad with a hole, at least one.
pub open spec fn pad_drill(line: Seq<char>) -> Option<i64> {
    let hole = number_or_zero(fields_in(line, '~')[9]);
    if hole <= 0 {
        None
    } else if nm(hole) < 1 {
        Some(1i64)
    } else {
        Some(nm(hole) as i64)
    }
}

/// Whether `pad` is what a pad line says, measured from the origin; its
/// rotation is still zero.
pub open spec fn reads_pad(pad: PadTemplate, line: Seq<char>, origin: Spot) -> bool {
    let f = fields_in(line, '~');
    let (w, h) = pad_size(line);
    &&& pad.offset.x == nm(minus(number_value(f[2])->0, origin.x as int))
    &&& pad.offset.y == nm(minus(number_value(f[3])->0, origin.y as int))
    &&& pad.radius == inscribed_radius(w, h)
    &&& pad.layer == pad_layer(line)
    &&& pad.number@ == f[8]
    &&& pad.shape == pad_shape(line)
    &&& pad.rotation_deg == (Angle { bits: 0 })
    &&& pad.hole_diameter == pad_drill(line)
    &&& pad.pin_name is None
    &&& pad.zone_connection == ZoneConnection::Thermal
}

/// The rotation field of a pad line.
pub open spec fn pad_rotation(line: Seq<char>) -> Seq<char> {
    fields_in(line, '~')[11]
}

/// Reads a pad line; the second value is the text of its rotation field. None
/// for any other shape line.
pub fn parse_pad_line(line: &str, origin: Spot) -> (r: Option<(PadTemplate, String)>)
    requires
        origin.within(1),
    ensures
        match r {
            Some(read) => is_pad_line(line@) && reads_pad(read.0, line@, origin) && read.1@
                == pad_rotation(line@),
            None => !is_pad_line(line@),
        },
{
    let chars: Vec<char> = chars_of(line);
    let f: Vec<Vec<char>> = fields_of(&chars, '~');
    let ghost texts = fields_in(line@, '~');
    assert(texts == texts_of(f@));
    if f.len() < 12 {
        return None;
    }
    assert(forall|i: int| 0 <= i < f@.len() ==> #[trigger] texts[i] == f@[i]@);
    if !spells(&f[0], "PAD") {
        return None;
    }
    let x: i128 = match read_number(&f[2]) {
        Some(v) => v,
        None => {
            return None;
        },
    };
    let y: i128 = match read_number(&f[3]) {
        Some(v) => v,
        None => {
            return None;
        },
    };
    let width: i128 = match read_number(&f[4]) {
        Some(v) => v,
        None => {
            return None;
        },
    };
    let height: i128 = match read_number(&f[5]) {
        Some(v) => v,
        None => {
            return None;
        },
    };
    let layer: i32 = match parse_i32(&f[6]) {
        Some(v) => v,
        None => {
            return None;
        },
    };
    let hole: i128 = match read_number(&f[9]) {
        Some(v) => v,
        None => 0,
    };
    let polygon: Option<(Unit, Unit)> = if spells(&f[1], "POLYGON") {
        poly_bbox_nm(&f[10])
    } else {
        None
    };
    let (w, h): (Unit, Unit) = match polygon {
        Some(size) => size,
        None => (easyeda_unit_to_nm(width), easyeda_unit_to_nm(height)),
    };
    let shape: PadShapeKind = if spells(&f[1], "RECT") || polygon.is_some() {
        PadShapeKind::Rect { width: w, height: h }
    } else if (spells(&f[1], "OVAL") || spells(&f[1], "ELLIPSE")) && w != h {
        PadShapeKind::Oval { width: w, height: h }
    } else {
        PadShapeKind::Circle
    };
    let side: Unit = if w < h {
        w
    } else {
        h
    };
    let pad = PadTemplate {
        offset: Point::new(
            easyeda_unit_to_nm(difference_of(x, origin.x, Ghost(1), Ghost(1))),
            easyeda_unit_to_nm(difference_of(y, origin.y, Ghost(1), Ghost(1))),
        ),
        radius: if side >= 2 {
            side / 2
        } else {
            1
        },
        layer: if hole <= 0 && layer == 2 {
            LayerId::BCu
        } else {
            LayerId::FCu
        },
        number: string_of(&f[8]),
        shape,
        rotation_deg: Angle { bits: 0 },
        hole_diameter: if hole <= 0 {
            None
        } else {
            let drill: Unit = easyeda_unit_to_nm(hole);
            Some(if drill < 1 {
                1
            } else {
                drill
            })
        },
        pin_name: None,
        zone_connection: ZoneConnection::Thermal,
    };
    Some((pad, string_of(&f[11])))
}

/// The coordinate pairs of a number list; a number left over is dropped.
pub open spec fn pairs_in(numbers: Seq<int>) -> Seq<(int, int)> {
    Seq::new((numbers.len() / 2) as nat, |k: int| (numbers[2 * k], numbers[2 * k + 1]))
}

/// The places that a path of moves, lines and arcs reaches, from word `i` on.
/// An arc counts with both of its ends, each widened by the arc's radii in
/// every direction.
pub open spec fn path_spots(words: Seq<Seq<char>>, i: int, last: Option<(int, int)>) -> Seq<(int, int)>
    decreases words.len() - i,
{
    if i < 0 || i >= words.len() {
        Seq::empty()
    } else if (words[i] == "M"@ || words[i] == "L"@) && i + 2 < words.len() {
        match (number_value(words[i + 1]), number_value(words[i + 2])) {
            (Some(x), Some(y)) => seq![(x, y)] + path_spots(words, i + 3, Some((x, y))),
            _ => path_spots(words, i + 3, last),
        }
    } else if words[i] == "A"@ && i + 7 < words.len() {
        match (
            number_value(words[i + 1]),
            number_value(words[i + 2]),
            number_value(words[i + 6]),
            number_value(words[i + 7]),
        ) {
            (Some(rx), Some(ry), Some(x), Some(y)) => arc_spots(last, rx, ry, x, y) + path_spots(
                words,
                i + 8,
                Some((x, y)),
            ),
            _ => path_spots(words, i + 8, last),
        }
    } else {
        path_spots(words, i + 1, last)
    }
}

/// The corners of the boxes round the two ends of an arc.
pub open spec fn arc_spots(start: Option<(int, int)>, rx: int, ry: int, x: int, y: int) -> Seq<
    (int, int),
> {
    let end = seq![(minus(x, rx), minus(y, ry)), (plus(x, rx), plus(y, ry))];
    match start {
        Some(s) => seq![(minus(s.0, rx), minus(s.1, ry)), (plus(s.0, rx), plus(s.1, ry))] + end,
        None => end,
    }
}

/// The places that a shape line reaches on the top silkscreen: those of
/// `TRACK~width~layer~net~points`, `RECT~x~y~width~height~layer` and
/// `ARC~width~layer~net~path` lines of that layer.
pub open spec fn line_spots(line: Seq<char>) -> Seq<(int, int)> {
    let f = fields_in(line, '~');
    if f[0] == "TRACK"@ && f.len() >= 5 {
        if layer_number(f[2]) == Some(TOP_SILK_LAYER as int) {
            pairs_in(numbers_in(words_in(f[4])))
        } else {
            Seq::empty()
        }
    } else if f[0] == "RECT"@ && f.len() >= 6 {
        if layer_number(f[5]) == Some(TOP_SILK_LAYER as int) {
            match (number_value(f[1]), number_value(f[2]), number_value(f[3]), number_value(f[4])) {
                (Some(x), Some(y), Some(w), Some(h)) => seq![(x, y), (plus(x, w), plus(y, h))],
                _ => Seq::empty(),
            }
        } else {
            Seq::empty()
        }
    } else if f[0] == "ARC"@ && f.len() >= 5 {
        if layer_number(f[2]) == Some(TOP_SILK_LAYER as int) {
            path_spots(words_in(f[4]), 0, None)
        } else {
            Seq::empty()
        }
    } else {
        Seq::empty()
    }
}

/// The places that the shape lines reach on the top silkscreen, in order.
pub open spec fn silk_spots(lines: Seq<Seq<char>>) -> Seq<(int, int)>
    decreases lines.len(),
{
    if lines.len() == 0 {
        Seq::empty()
    } else {
        silk_spots(lines.drop_last()) + line_spots(lines.last())
    }
}

/// The horizontal coordinates of some places.
pub open spec fn xs(spots: Seq<(int, int)>) -> Seq<int> {
    spots.map_values(|p: (int, int)| p.0)
}

/// The vertical coordinates of some places.
pub open spec fn ys(spots: Seq<(int, int)>) -> Seq<int> {
    spots.map_values(|p: (int, int)| p.1)
}

/// The body that the top silkscreen draws: the box round every place that the
/// shape lines reach there, measured from the origin.
pub open spec fn silk_courtyard(lines: Seq<Seq<char>>, origin: Spot) -> Option<Courtyard> {
    let spots = silk_spots(lines);
    if spots.len() == 0 {
        None
    } else {
        let (x0, x1) = (lowest(xs(spots)), highest(xs(spots)));
        let (y0, y1) = (lowest(ys(spots)), highest(ys(spots)));
        Some(
            Courtyard {
                center: Point {
                    x: half_nm(minus(plus(x0, x1), plus(origin.x as int, origin.x as int))) as i64,
                    y: half_nm(minus(plus(y0, y1), plus(origin.y as int, origin.y as int))) as i64,
                },
                width: nm(minus(x1, x0)) as i64,
                height: nm(minus(y1, y0)) as i64,
            },
        )
    }
}

/// The box round some places.
#[derive(Debug, Clone, Copy, PartialEq, Eq, Structural)]
struct Bounds {
    low: Spot,
    high: Spot,
}

/// Whether `bbox` is the box round the places.
spec fn bounds_are(bbox: Option<Bounds>, spots: Seq<(int, int)>) -> bool {
    match bbox {
        Some(b) => {
            &&& spots.len() > 0
            &&& b.low.x == lowest(xs(spots))
            &&& b.low.y == lowest(ys(spots))
            &&& b.high.x == highest(xs(spots))
            &&& b.high.y == highest(ys(spots))
            &&& b.low.within(2)
            &&& b.high.within(2)
        },
        None => spots.len() == 0,
    }
}

/// Widens a box by one place.
fn extend_bbox(bbox: Option<Bounds>, spot: Spot, Ghost(spots): Ghost<Seq<(int, int)>>) -> (r: Option<
    Bounds,
>)
    requires
        bounds_are(bbox, spots),
        spot.within(2),
    ensures
        bounds_are(r, spots.push((spot.x as int, spot.y as int))),
{
    let ghost more = spots.push((spot.x as int, spot.y as int));
    proof {
        assert(xs(more).drop_last() =~= xs(spots));
        assert(ys(more).drop_last() =~= ys(spots));
        assert(xs(more).last() == spot.x);
        assert(ys(more).last() == spot.y);
        assert(lowest(xs(more)) == least(lowest(xs(spots)), spot.x as int));
        assert(lowest(ys(more)) == least(lowest(ys(spots)), spot.y as int));
        assert(highest(xs(more)) == greatest(highest(xs(spots)), spot.x as int));
        assert(highest(ys(more)) == greatest(highest(ys(spots)), spot.y as int));
        if spots.len() == 0 {
            assert(xs(spots) =~= Seq::<int>::empty());
            assert(ys(spots) =~= Seq::<int>::empty());
        }
    }
    match bbox {
        Some(b) => Some(
            Bounds {
                low: Spot { x: least_of(b.low.x, spot.x), y: least_of(b.low.y, spot.y) },
                high: Spot { x: greatest_of(b.high.x, spot.x), y: greatest_of(b.high.y, spot.y) },
            },
        ),
        None => Some(Bounds { low: spot, high: spot }),
    }
}

/// A place moved by some radii, back or forth.
fn moved_by(p: Spot, by: Spot, back: bool) -> (r: Spot)
    requires
        p.within(1),
        by.within(1),
    ensures
        r.within(2),
        back ==> r.x == minus(p.x as int, by.x as int) && r.y == minus(p.y as int, by.y as int),
        !back ==> r.x == plus(p.x as int, by.x as int) && r.y == plus(p.y as int, by.y as int),
{
    if back {
        Spot {
            x: difference_of(p.x, by.x, Ghost(1), Ghost(1)),
            y: difference_of(p.y, by.y, Ghost(1), Ghost(1)),
        }
    } else {
        Spot {
            x: sum_of(p.x, by.x, Ghost(1), Ghost(1)),
            y: sum_of(p.y, by.y, Ghost(1), Ghost(1)),
        }
    }
}

/// What each of some places is.
pub open spec fn spots_in(spots: Seq<Spot>) -> Seq<(int, int)> {
    spots.map_values(|p: Spot| (p.x as int, p.y as int))
}

/// Whether every place lies within twice the limit of a number.
pub open spec fn all_within(spots: Seq<Spot>) -> bool {
    forall|i: int| 0 <= i < spots.len() ==> (#[trigger] spots[i]).within(2)
}

proof fn lemma_spots_push(spots: Seq<Spot>, spot: Spot)
    ensures
        spots_in(spots.push(spot)) == spots_in(spots).push((spot.x as int, spot.y as int)),
{
    assert(spots_in(spots.push(spot)) =~= spots_in(spots).push((spot.x as int, spot.y as int)));
}

/// The coordinate pairs in a point list.
fn parse_coordinate_pairs(points: &[char]) -> (r: Vec<Spot>)
    ensures
        spots_in(r@) == pairs_in(numbers_in(words_in(points@))),
        all_within(r@),
{
    let n: Vec<i128> = numbers_of(points);
    let ghost all = pairs_in(ints(n@));
    let mut r: Vec<Spot> = Vec::new();
    let mut i: usize = 0;
    while n.len() - i >= 2
        invariant
            i <= n@.len(),
            i == 2 * r@.len(),
            all == pairs_in(ints(n@)),
            spots_in(r@) == all.take(r@.len() as int),
            all_within(r@),
            forall|i: int| 0 <= i < n@.len() ==> measured(#[trigger] n@[i] as int, 1),
        decreases n@.len() - i,
    {
        let spot = Spot { x: n[i], y: n[i + 1] };
        proof {
            lemma_spots_push(r@, spot);
            assert(all[r@.len() as int] == (spot.x as int, spot.y as int));
        }
        r.push(spot);
        assert(spots_in(r@) =~= all.take(r@.len() as int));
        i += 2;
    }
    assert(all.take(r@.len() as int) =~= all);
    r
}

/// The place that an optional place is.
spec fn last_spot(last: Option<Spot>) -> Option<(int, int)> {
    match last {
        Some(p) => Some((p.x as int, p.y as int)),
        None => None,
    }
}

/// The numbers that describe an arc: its radii and its end.
fn read_arc(words: &[Vec<char>], i: usize) -> (r: Option<(Spot, Spot)>)
    requires
        i + 7 < words@.len(),
    ensures
        match r {
            Some(arc) => {
                &&& number_value(words@[i + 1]@) == Some(arc.0.x as int)
                &&& number_value(words@[i + 2]@) == Some(arc.0.y as int)
                &&& number_value(words@[i + 6]@) == Some(arc.1.x as int)
                &&& number_value(words@[i + 7]@) == Some(arc.1.y as int)
                &&& arc.0.within(1)
                &&& arc.1.within(1)
            },
            None => number_value(words@[i + 1]@) is None || number_value(words@[i + 2]@) is None
                || number_value(words@[i + 6]@) is None || number_value(words@[i + 7]@) is None,
        },
{
    assert(words.len() == words@.len());
    match (
        read_number(&words[i + 1]),
        read_number(&words[i + 2]),
        read_number(&words[i + 6]),
        read_number(&words[i + 7]),
    ) {
        (Some(rx), Some(ry), Some(x), Some(y)) => Some((Spot { x: rx, y: ry }, Spot { x, y })),
        _ => None,
    }
}

/// The places that a path reaches.
fn path_spots_of(path: &[char]) -> (r: Vec<Spot>)
    ensures
        spots_in(r@) == path_spots(words_in(path@), 0, None),
        all_within(r@),
{
    let words: Vec<Vec<char>> = words_of(path);
    let ghost all = words_in(path@);
    let mut r: Vec<Spot> = Vec::new();
    let mut last: Option<Spot> = None;
    let mut i: usize = 0;
    assert(spots_in(r@) + path_spots(all, 0, None) =~= path_spots(all, 0, None));
    while i < words.len()
        invariant
            i <= words@.len(),
            all == texts_of(words@),
            spots_in(r@) + path_spots(all, i as int, last_spot(last)) == path_spots(all, 0, None),
            all_within(r@),
            last matches Some(p) ==> p.within(1),
        decreases words@.len() - i,
    {
        let ghost before = r@;
        let ghost was = last_spot(last);
        let ghost at = i as int;
        assert(forall|k: int| 0 <= k < all.len() ==> #[trigger] all[k] == words@[k]@);
        let left: usize = words.len() - i;
        if (spells(&words[i], "M") || spells(&words[i], "L")) && left > 2 {
            match (read_number(&words[i + 1]), read_number(&words[i + 2])) {
                (Some(x), Some(y)) => {
                    let spot = Spot { x, y };
                    proof {
                        lemma_spots_push(r@, spot);
                    }
                    r.push(spot);
                    last = Some(spot);
                    assert(spots_in(r@) + path_spots(all, at + 3, last_spot(last)) =~= spots_in(
                        before,
                    ) + (seq![(x as int, y as int)] + path_spots(all, at + 3, last_spot(last))));
                },
                _ => {},
            }
            i += 3;
        } else if spells(&words[i], "A") && left > 7 {
            match read_arc(&words, i) {
                Some((radii, end)) => {
                    match last {
                        Some(start) => {
                            let a = moved_by(start, radii, true);
                            let b = moved_by(start, radii, false);
                            proof {
                                lemma_spots_push(r@, a);
                                lemma_spots_push(r@.push(a), b);
                            }
                            r.push(a);
                            r.push(b);
                        },
                        None => {},
                    }
                    let a = moved_by(end, radii, true);
                    let b = moved_by(end, radii, false);
                    proof {
                        lemma_spots_push(r@, a);
                        lemma_spots_push(r@.push(a), b);
                    }
                    r.push(a);
                    r.push(b);
                    last = Some(end);
                    proof {
                        let corners = arc_spots(
                            was,
                            radii.x as int,
                            radii.y as int,
                            end.x as int,
                            end.y as int,
                        );
                        assert(spots_in(r@) =~= spots_in(before) + corners);
                        assert(spots_in(r@) + path_spots(all, at + 8, last_spot(last)) =~= spots_in(
                            before,
                        ) + (corners + path_spots(all, at + 8, last_spot(last))));
                    }
                },
                None => {},
            }
            i += 8;
        } else {
            i += 1;
        }
    }
    assert(spots_in(r@) + path_spots(all, i as int, last_spot(last)) =~= spots_in(r@));
    r
}

/// The places that a shape line reaches on the top silkscreen.
fn line_spots_of(line: &str) -> (r: Vec<Spot>)
    ensures
        spots_in(r@) == line_spots(line@),
        all_within(r@),
{
    let chars: Vec<char> = chars_of(line);
    let f: Vec<Vec<char>> = fields_of(&chars, '~');
    let ghost texts = fields_in(line@, '~');
    assert(texts == texts_of(f@));
    assert(texts.len() > 0) by {
        reveal_with_fuel(fields_in, 1);
    }
    assert(forall|i: int| 0 <= i < f@.len() ==> #[trigger] texts[i] == f@[i]@);
    let none: Vec<Spot> = Vec::new();
    assert(spots_in(none@) =~= Seq::<(int, int)>::empty());
    if spells(&f[0], "TRACK") && f.len() >= 5 {
        if parse_i32(&f[2]) != Some(TOP_SILK_LAYER) {
            return none;
        }
        parse_coordinate_pairs(&f[4])
    } else if spells(&f[0], "RECT") && f.len() >= 6 {
        if parse_i32(&f[5]) != Some(TOP_SILK_LAYER) {
            return none;
        }
        match (read_number(&f[1]), read_number(&f[2]), read_number(&f[3]), read_number(&f[4])) {
            (Some(x), Some(y), Some(width), Some(height)) => {
                let corner = Spot { x, y };
                let r = vec![corner, moved_by(corner, Spot { x: width, y: height }, false)];
                assert(spots_in(r@) =~= line_spots(line@));
                r
            },
            _ => none,
        }
    } else if spells(&f[0], "ARC") && f.len() >= 5 {
        if parse_i32(&f[2]) != Some(TOP_SILK_LAYER) {
            return none;
        }
        path_spots_of(&f[4])
    } else {
        none
    }
}

/// The middle between two coordinates, measured from an origin, in nanometres.
fn middle_nm(low: i128, high: i128, origin: i128) -> (r: Unit)
    requires
        measured(low as int, 2),
        measured(high as int, 2),
        measured(origin as int, 1),
    ensures
        r == half_nm(
            minus(plus(low as int, high as int), plus(origin as int, origin as int)),
        ),
{
    let twice: i128 = sum_of(low, high, Ghost(2), Ghost(2));
    let from: i128 = sum_of(origin, origin, Ghost(1), Ghost(1));
    half_units_to_nm(difference_of(twice, from, Ghost(4), Ghost(2)))
}

/// The body that the top silkscreen of a footprint draws.
pub fn parse_silk_courtyard(shapes: &[String], origin: Spot) -> (r: Option<Courtyard>)
    requires
        origin.within(1),
    ensures
        r == silk_courtyard(strings_in(shapes@), origin),
{
    let ghost lines = strings_in(shapes@);
    let mut bbox: Option<Bounds> = None;
    let mut i: usize = 0;
    while i < shapes.len()
        invariant
            i <= shapes@.len(),
            lines == strings_in(shapes@),
            bounds_are(bbox, silk_spots(lines.take(i as int))),
        decreases shapes@.len() - i,
    {
        let found: Vec<Spot> = line_spots_of(&shapes[i]);
        let ghost done = silk_spots(lines.take(i as int));
        proof {
            assert(lines.take(i + 1).drop_last() =~= lines.take(i as int));
            assert(lines.take(i + 1).last() == lines[i as int]);
            assert(done + spots_in(found@).take(0) =~= done);
        }
        let mut k: usize = 0;
        while k < found.len()
            invariant
                k <= found@.len(),
                all_within(found@),
                bounds_are(bbox, done + spots_in(found@).take(k as int)),
            decreases found@.len() - k,
        {
            bbox = extend_bbox(bbox, found[k], Ghost(done + spots_in(found@).take(k as int)));
            proof {
                let p = (found@[k as int].x as int, found@[k as int].y as int);
                assert((done + spots_in(found@).take(k as int)).push(p) =~= done + spots_in(
                    found@,
                ).take(k + 1));
            }
            k += 1;
        }
        assert(spots_in(found@).take(k as int) =~= spots_in(found@));
        i += 1;
    }
    assert(lines.take(i as int) =~= lines);
    match bbox {
        Some(b) => Some(
            Courtyard {
                center: Point::new(
                    middle_nm(b.low.x, b.high.x, origin.x),
                    middle_nm(b.low.y, b.high.y, origin.y),
                ),
                width: easyeda_unit_to_nm(difference_of(b.high.x, b.low.x, Ghost(2), Ghost(2))),
                height: easyeda_unit_to_nm(difference_of(b.high.y, b.low.y, Ghost(2), Ghost(2))),
            },
        ),
        None => None,
    }
}

/// Whether a shape line draws on the top silkscreen what counts for the body.
pub open spec fn draws_on_top_silk(line: Seq<char>) -> bool {
    let f = fields_in(line, '~');
    ||| f[0] == "TRACK"@ && f.len() >= 5 && layer_number(f[2]) == Some(TOP_SILK_LAYER as int)
    ||| f[0] == "RECT"@ && f.len() >= 6 && layer_number(f[5]) == Some(TOP_SILK_LAYER as int)
    ||| f[0] == "ARC"@ && f.len() >= 5 && layer_number(f[2]) == Some(TOP_SILK_LAYER as int)
}

/// A place is reached by the lines if one of them reaches it.
proof fn lemma_spots_come_from_lines(lines: Seq<Seq<char>>, p: (int, int))
    ensures
        silk_spots(lines).contains(p) <==> exists|line: Seq<char>|
            lines.contains(line) && #[trigger] line_spots(line).contains(p),
    decreases lines.len(),
{
    if lines.len() == 0 {
        assert(forall|line: Seq<char>| !lines.contains(line));
    } else {
        let init = lines.drop_last();
        let last = lines.last();
        lemma_spots_come_from_lines(init, p);
        assert(lines[lines.len() - 1] == last);
        let a = silk_spots(init);
        let b = line_spots(last);
        let all = a + b;
        if all.contains(p) {
            let k = choose|k: int| 0 <= k < all.len() && all[k] == p;
            if k < a.len() {
                assert(a[k] == p);
                let line = choose|line: Seq<char>|
                    init.contains(line) && #[trigger] line_spots(line).contains(p);
                let i = choose|i: int| 0 <= i < init.len() && init[i] == line;
                assert(lines[i] == line);
                assert(lines.contains(line) && line_spots(line).contains(p));
            } else {
                assert(b[k - a.len()] == p);
                assert(lines.contains(last) && line_spots(last).contains(p));
            }
        }
        if exists|line: Seq<char>| lines.contains(line) && #[trigger] line_spots(line).contains(p) {
            let line = choose|line: Seq<char>|
                lines.contains(line) && #[trigger] line_spots(line).contains(p);
            let i = choose|i: int| 0 <= i < lines.len() && lines[i] == line;
            if i < init.len() {
                assert(init[i] == line);
                assert(init.contains(line) && line_spots(line).contains(p));
                let k = choose|k: int| 0 <= k < a.len() && a[k] == p;
                assert(all[k] == p);
            } else {
                let k = choose|k: int| 0 <= k < b.len() && b[k] == p;
                assert(all[a.len() + k] == p);
            }
        }
    }
}

/// Bodies drawn round the same places are the same.
proof fn lemma_same_spots_same_body(a: Seq<Seq<char>>, b: Seq<Seq<char>>, origin: Spot)
    requires
        forall|p: (int, int)| #[trigger]
            silk_spots(a).contains(p) <==> silk_spots(b).contains(p),
    ensures
        silk_courtyard(a, origin) == silk_courtyard(b, origin),
{
    let s = silk_spots(a);
    let t = silk_spots(b);
    if s.len() > 0 {
        assert(s.contains(s[0]));
        assert(t.contains(s[0]));
    }
    if t.len() > 0 {
        assert(t.contains(t[0]));
        assert(s.contains(t[0]));
    }
    assert forall|v: int| xs(s).contains(v) <==> #[trigger] xs(t).contains(v) by {
        if xs(s).contains(v) {
            let k = choose|k: int| 0 <= k < xs(s).len() && xs(s)[k] == v;
            assert(s.contains(s[k]));
            let m = choose|m: int| 0 <= m < t.len() && t[m] == s[k];
            assert(xs(t)[m] == v);
        }
        if xs(t).contains(v) {
            let k = choose|k: int| 0 <= k < xs(t).len() && xs(t)[k] == v;
            assert(t.contains(t[k]));
            assert(s.contains(t[k]));
            let m = choose|m: int| 0 <= m < s.len() && s[m] == t[k];
            assert(xs(s)[m] == v);
        }
    }
    assert forall|v: int| ys(s).contains(v) <==> #[trigger] ys(t).contains(v) by {
        if ys(s).contains(v) {
            let k = choose|k: int| 0 <= k < ys(s).len() && ys(s)[k] == v;
            assert(s.contains(s[k]));
            let m = choose|m: int| 0 <= m < t.len() && t[m] == s[k];
            assert(ys(t)[m] == v);
        }
        if ys(t).contains(v) {
            let k = choose|k: int| 0 <= k < ys(t).len() && ys(t)[k] == v;
            assert(t.contains(t[k]));
            assert(s.contains(t[k]));
            let m = choose|m: int| 0 <= m < s.len() && s[m] == t[k];
            assert(ys(s)[m] == v);
        }
    }
    law_bounds_depend_on_the_numbers_alone(xs(s), xs(t));
    law_bounds_depend_on_the_numbers_alone(ys(s), ys(t));
}

/// The body does not depend on the order of the shape lines.
pub proof fn law_the_body_does_not_depend_on_the_order(
    a: Seq<Seq<char>>,
    b: Seq<Seq<char>>,
    origin: Spot,
)
    requires
        a.to_multiset() == b.to_multiset(),
    ensures
        silk_courtyard(a, origin) == silk_courtyard(b, origin),
{
    a.to_multiset_ensures();
    b.to_multiset_ensures();
    assert forall|line: Seq<char>| #[trigger] a.contains(line) <==> b.contains(line) by {
        assert(a.contains(line) <==> a.to_multiset().count(line) > 0);
        assert(b.contains(line) <==> b.to_multiset().count(line) > 0);
    }
    assert forall|p: (int, int)| #[trigger]
        silk_spots(a).contains(p) <==> silk_spots(b).contains(p) by {
        lemma_spots_come_from_lines(a, p);
        lemma_spots_come_from_lines(b, p);
        if silk_spots(a).contains(p) {
            let line = choose|line: Seq<char>|
                a.contains(line) && #[trigger] line_spots(line).contains(p);
            assert(b.contains(line) && line_spots(line).contains(p));
        }
        if silk_spots(b).contains(p) {
            let line = choose|line: Seq<char>|
                b.contains(line) && #[trigger] line_spots(line).contains(p);
            assert(a.contains(line) && line_spots(line).contains(p));
        }
    }
    lemma_same_spots_same_body(a, b, origin);
}

/// A line that draws nothing on the top silkscreen, or what does not count for
/// the body there, leaves the body as it is; without any line there is none.
pub proof fn law_the_body_ignores_what_is_not_drawn_there(
    lines: Seq<Seq<char>>,
    extra: Seq<char>,
    origin: Spot,
)
    requires
        !draws_on_top_silk(extra),
    ensures
        silk_courtyard(lines.push(extra), origin) == silk_courtyard(lines, origin),
        silk_courtyard(Seq::empty(), origin) is None,
{
    let more = lines.push(extra);
    assert(more.drop_last() =~= lines);
    reveal_strlit("TRACK");
    reveal_strlit("RECT");
    reveal_strlit("ARC");
    assert(line_spots(extra) =~= Seq::empty());
    assert(silk_spots(more) =~= silk_spots(lines));
}

/// Circles, filled regions and pads draw nothing that counts for the body.
pub proof fn law_markers_are_no_body(line: Seq<char>)
    requires
        ({
            let kind = fields_in(line, '~')[0];
            kind == "CIRCLE"@ || kind == "SOLIDREGION"@ || kind == "PAD"@
        }),
    ensures
        !draws_on_top_silk(line),
{
    reveal_strlit("TRACK");
    reveal_strlit("RECT");
    reveal_strlit("ARC");
    reveal_strlit("CIRCLE");
    reveal_strlit("SOLIDREGION");
    reveal_strlit("PAD");
    assert("CIRCLE"@.len() == 6 && "SOLIDREGION"@.len() == 11);
    assert("PAD"@[0] == 'P' && "ARC"@[0] == 'A');
}

} // verus!
