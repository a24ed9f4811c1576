//! What a downloaded part keeps of the lines and fields it is read from.

use vstd::prelude::*;

use crate::decimal::{
    clamped, highest, law_bounds_hold_every_value, lowest, number_value, rounded, Spot, LIMIT, NAN,
};
use crate::easyeda::{
    every_other, is_pad_line, layer_number, line_spots, nm, numbers_in, pad_rotation, reads_pad,
    silk_courtyard, silk_spots, spread_nm, xs, ys,
};
use crate::footprint::{PadShapeKind, PadTemplate};
use crate::item::LayerId;
use crate::json::{member, member_items, member_text, JsonShape};
use crate::lcsc::{
    attr_in, name_for, named_pad, pad_lines, prefix_of, reads_part, response_problem, shape_lines,
    texts_among, without_marks, FetchProblem, FetchedPart,
};
use crate::outline_laws::lemma_rounded;
use crate::text::{fields_in, find_from, words_in};

verus! {

/// `length` nanometres are `value` EasyEDA units, each of which is 254000 of
/// them, to within half a nanometre; `value` is in steps of 10^-18.
pub open spec fn is_length(length: int, value: int) -> bool {
    -1_000_000_000_000_000 <= 2 * (length * 1_000_000_000_000_000 - 254 * value)
        <= 1_000_000_000_000_000
}

/// A number of EasyEDA units that is a length on any board: ten million
/// million at most.
pub open spec fn is_ordinary(value: int) -> bool {
    -10_000_000_000_000_000_000_000_000_000_000 <= value
        <= 10_000_000_000_000_000_000_000_000_000_000
}

proof fn lemma_nm(value: int)
    requires
        is_ordinary(value),
    ensures
        is_length(nm(value), value),
        i64::MIN < nm(value) < i64::MAX,
{
    lemma_rounded(2 * value * 127, 1_000_000_000_000_000);
    assert(nm(value) == clamped(rounded(2 * value * 127, 1_000_000_000_000_000)));
}

/// A length in EasyEDA units is taken over in nanometres.
pub proof fn law_units_are_taken_over_in_nanometres(value: int)
    requires
        is_ordinary(value),
    ensures
        is_length(nm(value), value),
{
    lemma_nm(value);
}

/// A pad line gives a pad of the shape that its second field names, with the
/// sides of fields 4 and 5: a rectangle for `RECT`, and for `OVAL` and
/// `ELLIPSE` an oval, or a circle if the sides are equal. Any other name but
/// `POLYGON` gives a circle.
pub proof fn law_a_pad_has_the_shape_its_line_names(
    line: Seq<char>,
    origin: Spot,
    pad: PadTemplate,
)
    requires
        is_pad_line(line),
        reads_pad(pad, line, origin),
        is_ordinary(number_value(fields_in(line, '~')[4])->0),
        is_ordinary(number_value(fields_in(line, '~')[5])->0),
    ensures
        ({
            let f = fields_in(line, '~');
            let wide = number_value(f[4])->0;
            let high = number_value(f[5])->0;
            &&& f[1] == "RECT"@ ==> (pad.shape matches PadShapeKind::Rect { width, height }
                && is_length(width as int, wide) && is_length(height as int, high))
            &&& f[1] == "OVAL"@ || f[1] == "ELLIPSE"@ ==> match pad.shape {
                PadShapeKind::Oval { width, height } => width != height && is_length(
                    width as int,
                    wide,
                ) && is_length(height as int, high),
                PadShapeKind::Circle => exists|side: int|
                    #![trigger is_length(side, wide)]
                    is_length(side, wide) && is_length(side, high),
                PadShapeKind::Rect { .. } => false,
            }
            &&& (f[1] == "OVAL"@ || f[1] == "ELLIPSE"@) && wide == high ==> pad.shape
                == PadShapeKind::Circle
            &&& (f[1] == "OVAL"@ || f[1] == "ELLIPSE"@) && (wide - high
                >= 10_000_000_000_000 || high - wide >= 10_000_000_000_000) ==> pad.shape is Oval
            &&& f[1] != "RECT"@ && f[1] != "OVAL"@ && f[1] != "ELLIPSE"@ && f[1] != "POLYGON"@
                ==> pad.shape == PadShapeKind::Circle
        }),
{
    reveal_strlit("RECT");
    reveal_strlit("OVAL");
    reveal_strlit("ELLIPSE");
    reveal_strlit("POLYGON");
    let f = fields_in(line, '~');
    let wide = number_value(f[4])->0;
    let high = number_value(f[5])->0;
    lemma_nm(wide);
    lemma_nm(high);
    assert("RECT"@ != "POLYGON"@ && "OVAL"@ != "POLYGON"@ && "ELLIPSE"@ != "POLYGON"@) by {
        assert("RECT"@.len() == 4 && "OVAL"@.len() == 4 && "POLYGON"@.len() == 7);
        assert("ELLIPSE"@[0] == 'E' && "POLYGON"@[0] == 'P');
    }
    assert("RECT"@ != "OVAL"@ && "RECT"@ != "ELLIPSE"@) by {
        assert("RECT"@[0] == 'R' && "OVAL"@[0] == 'O');
    }
    if f[1] == "OVAL"@ || f[1] == "ELLIPSE"@ {
        assert(nm(wide) == nm(high) ==> is_length(nm(wide), wide) && is_length(nm(wide), high));
        if wide - high >= 10_000_000_000_000 || high - wide >= 10_000_000_000_000 {
            assert(nm(wide) != nm(high));
        }
    }
}

/// A pad stands where its line says, seen from the part's origin, with no axis
/// turned round; its number is field 8 as it is written; its collision radius
/// is half the shorter side of its shape.
pub proof fn law_a_pad_stands_where_its_line_says(
    line: Seq<char>,
    origin: Spot,
    pad: PadTemplate,
)
    requires
        is_pad_line(line),
        reads_pad(pad, line, origin),
        is_ordinary(number_value(fields_in(line, '~')[2])->0),
        is_ordinary(number_value(fields_in(line, '~')[3])->0),
        is_ordinary(origin.x as int),
        is_ordinary(origin.y as int),
        is_ordinary(number_value(fields_in(line, '~')[2])->0 - origin.x),
        is_ordinary(number_value(fields_in(line, '~')[3])->0 - origin.y),
    ensures
        is_length(pad.offset.x as int, number_value(fields_in(line, '~')[2])->0 - origin.x),
        is_length(pad.offset.y as int, number_value(fields_in(line, '~')[3])->0 - origin.y),
        pad.number@ == fields_in(line, '~')[8],
        pad.pin_name is None,
        pad.shape matches PadShapeKind::Rect { width, height } ==> width >= 2 && height >= 2 ==> 2
            * pad.radius <= width && 2 * pad.radius <= height && (2 * pad.radius >= width - 1 || 2
            * pad.radius >= height - 1),
        pad.shape matches PadShapeKind::Oval { width, height } ==> width >= 2 && height >= 2 ==> 2
            * pad.radius <= width && 2 * pad.radius <= height && (2 * pad.radius >= width - 1 || 2
            * pad.radius >= height - 1),
        pad.radius >= 1,
{
    let f = fields_in(line, '~');
    lemma_nm(number_value(f[2])->0 - origin.x);
    lemma_nm(number_value(f[3])->0 - origin.y);
}

/// A pad is drilled if field 9 is a number above nought, to that diameter; a
/// drilled pad counts as one on the front, and so does any other that is not
/// on layer 2.
pub proof fn law_a_pad_is_drilled_as_its_line_says(
    line: Seq<char>,
    origin: Spot,
    pad: PadTemplate,
)
    requires
        is_pad_line(line),
        reads_pad(pad, line, origin),
        number_value(fields_in(line, '~')[9]) matches Some(v) ==> is_ordinary(v),
    ensures
        ({
            let f = fields_in(line, '~');
            &&& number_value(f[9]) is None ==> pad.hole_diameter is None
            &&& number_value(f[9]) matches Some(v) ==> {
                &&& v <= 0 ==> pad.hole_diameter is None
                &&& v > 10_000_000_000_000 ==> (pad.hole_diameter matches Some(d) && is_length(
                    d as int,
                    v,
                ))
                &&& v > 0 ==> (pad.hole_diameter matches Some(d) && d >= 1)
            }
            &&& pad.layer == LayerId::BCu <==> pad.hole_diameter is None && layer_number(f[6])
                == Some(2int)
        }),
{
    let f = fields_in(line, '~');
    if number_value(f[9]) is Some {
        lemma_nm(number_value(f[9])->0);
    }
}

/// A pad given as a polygon is the rectangle round its points: the numbers are
/// across and upward by turns.
pub proof fn law_a_polygon_pad_is_the_box_round_it(
    line: Seq<char>,
    origin: Spot,
    pad: PadTemplate,
    left: int,
    right: int,
    low: int,
    high: int,
)
    requires
        is_pad_line(line),
        reads_pad(pad, line, origin),
        fields_in(line, '~')[1] == "POLYGON"@,
        ({
            let n = numbers_in(words_in(fields_in(line, '~')[10]));
            &&& n.len() >= 4
            &&& forall|k: int| 0 <= k < n.len() ==> is_ordinary(#[trigger] n[k])
            &&& forall|k: int|
                #![trigger n[2 * k]]
                0 <= 2 * k < n.len() ==> left <= n[2 * k] <= right
            &&& exists|k: int| #![trigger n[2 * k]] 0 <= 2 * k < n.len() && n[2 * k] == left
            &&& exists|k: int| #![trigger n[2 * k]] 0 <= 2 * k < n.len() && n[2 * k] == right
            &&& forall|k: int|
                #![trigger n[1 + 2 * k]]
                0 <= k && 1 + 2 * k < n.len() ==> low <= n[1 + 2 * k] <= high
            &&& exists|k: int|
                #![trigger n[1 + 2 * k]]
                0 <= k && 1 + 2 * k < n.len() && n[1 + 2 * k] == low
            &&& exists|k: int|
                #![trigger n[1 + 2 * k]]
                0 <= k && 1 + 2 * k < n.len() && n[1 + 2 * k] == high
            &&& is_ordinary(right - left)
            &&& is_ordinary(high - low)
        }),
    ensures
        pad.shape matches PadShapeKind::Rect { width, height } && is_length(
            width as int,
            right - left,
        ) && is_length(height as int, high - low),
{
    let f = fields_in(line, '~');
    reveal_strlit("RECT");
    reveal_strlit("POLYGON");
    assert("RECT"@.len() == 4 && "POLYGON"@.len() == 7);
    let n = numbers_in(words_in(f[10]));
    let a = choose|k: int| #![trigger n[2 * k]] 0 <= 2 * k < n.len() && n[2 * k] == left;
    let b = choose|k: int| #![trigger n[2 * k]] 0 <= 2 * k < n.len() && n[2 * k] == right;
    assert(n[0 + 2 * a] == left && n[0 + 2 * b] == right);
    assert forall|k: int| #![trigger n[0 + 2 * k]] 0 <= k && 0 + 2 * k < n.len() implies left <= n[0
        + 2 * k] <= right by {
        assert(n[2 * k] == n[0 + 2 * k]);
    }
    lemma_spread(n, 0, left, right);
    lemma_spread(n, 1, low, high);
}

proof fn lemma_spread(n: Seq<int>, from: int, low: int, high: int)
    requires
        from == 0 || from == 1,
        n.len() >= 4,
        forall|k: int| 0 <= k < n.len() ==> is_ordinary(#[trigger] n[k]),
        forall|k: int|
            #![trigger n[from + 2 * k]]
            0 <= k && from + 2 * k < n.len() ==> low <= n[from + 2 * k] <= high,
        exists|k: int|
            #![trigger n[from + 2 * k]]
            0 <= k && from + 2 * k < n.len() && n[from + 2 * k] == low,
        exists|k: int|
            #![trigger n[from + 2 * k]]
            0 <= k && from + 2 * k < n.len() && n[from + 2 * k] == high,
        is_ordinary(high - low),
    ensures
        is_length(spread_nm(every_other(n, from)), high - low),
        i64::MIN < spread_nm(every_other(n, from)) < i64::MAX,
{
    let v = every_other(n, from);
    assert forall|k: int| 0 <= k < v.len() implies low <= #[trigger] v[k] <= high && v[k] != NAN by {
        assert(v[k] == n[from + 2 * k]);
    }
    let a = choose|k: int|
        #![trigger n[from + 2 * k]]
        0 <= k && from + 2 * k < n.len() && n[from + 2 * k] == low;
    let b = choose|k: int|
        #![trigger n[from + 2 * k]]
        0 <= k && from + 2 * k < n.len() && n[from + 2 * k] == high;
    assert(v[a] == low && v[b] == high);
    law_bounds_hold_every_value(v, a);
    law_bounds_hold_every_value(v, b);
    let la = choose|k: int| 0 <= k < v.len() && v[k] == lowest(v);
    let lb = choose|k: int| 0 <= k < v.len() && v[k] == highest(v);
    assert(lowest(v) == low && highest(v) == high);
    lemma_nm(high - low);
    assert(is_ordinary(n[from + 2 * a]) && is_ordinary(n[from + 2 * b]));
}

/// A line is a pad's exactly if it has twelve fields, the first of them `PAD`,
/// its place and its sides are numbers, and its layer is a whole number.
pub proof fn law_what_a_pad_line_is(line: Seq<char>)
    ensures
        ({
            let f = fields_in(line, '~');
            is_pad_line(line) <==> f.len() >= 12 && f[0] == "PAD"@ && layer_number(f[6]) is Some
                && forall|k: int| 2 <= k <= 5 ==> number_value(#[trigger] f[k]) is Some
        }),
{
    let f = fields_in(line, '~');
    if is_pad_line(line) {
        assert forall|k: int| 2 <= k <= 5 implies number_value(#[trigger] f[k]) is Some by {
            assert(k == 2 || k == 3 || k == 4 || k == 5);
        }
    }
    if forall|k: int| 2 <= k <= 5 ==> number_value(#[trigger] f[k]) is Some {
        assert(number_value(f[2]) is Some && number_value(f[3]) is Some && number_value(f[4])
            is Some && number_value(f[5]) is Some);
    }
}

/// Every pad line of a footprint gives a pad, in the order of the lines, and
/// no other line does.
pub proof fn law_every_pad_line_is_kept(lines: Seq<Seq<char>>, i: int)
    requires
        0 <= i < lines.len(),
        is_pad_line(lines[i]),
    ensures
        ({
            let pads = pad_lines(lines);
            let before = pad_lines(lines.take(i));
            &&& before.len() < pads.len()
            &&& pads[before.len() as int] == lines[i]
            &&& pads.take(before.len() as int) == before
            &&& forall|k: int| 0 <= k < pads.len() ==> is_pad_line(#[trigger] pads[k])
        }),
    decreases lines.len(),
{
    lemma_only_pads(lines);
    let init = lines.drop_last();
    let pads = pad_lines(lines);
    let rest = pad_lines(init);
    let before = pad_lines(lines.take(i));
    if i < init.len() {
        assert(init[i] == lines[i]);
        law_every_pad_line_is_kept(init, i);
        assert(init.take(i) =~= lines.take(i));
        assert(pads.take(before.len() as int) =~= rest.take(before.len() as int));
        assert(pads[before.len() as int] == rest[before.len() as int]);
    } else {
        assert(lines.take(i) =~= init);
        assert(pads =~= rest.push(lines[i]));
        assert(pads.take(before.len() as int) =~= before);
    }
}

proof fn lemma_only_pads(lines: Seq<Seq<char>>)
    ensures
        forall|k: int|
            0 <= k < pad_lines(lines).len() ==> is_pad_line(#[trigger] pad_lines(lines)[k]),
    decreases lines.len(),
{
    if lines.len() > 0 {
        lemma_only_pads(lines.drop_last());
        let rest = pad_lines(lines.drop_last());
        let all = pad_lines(lines);
        assert forall|k: int| 0 <= k < all.len() implies is_pad_line(#[trigger] all[k]) by {
            if k < rest.len() {
                assert(rest[k] == all[k]);
            }
        }
    }
}

/// What is drawn on the top silkscreen lies within the body: the corners of a
/// track and of a rectangle are among the points that the body holds.
pub proof fn law_the_body_holds_what_is_drawn(lines: Seq<Seq<char>>, i: int, k: int)
    requires
        0 <= i < lines.len(),
    ensures
        ({
            let f = fields_in(lines[i], '~');
            let n = numbers_in(words_in(f[4]));
            &&& f[0] == "TRACK"@ && f.len() >= 5 && layer_number(f[2]) == Some(3int) && 0 <= 2 * k
                && 2 * k + 1 < n.len() ==> silk_spots(lines).contains((n[2 * k], n[2 * k + 1]))
            &&& f[0] == "RECT"@ && f.len() >= 6 && layer_number(f[5]) == Some(3int) ==> match (
                number_value(f[1]),
                number_value(f[2]),
                number_value(f[3]),
                number_value(f[4]),
            ) {
                (Some(x), Some(y), Some(w), Some(h)) => silk_spots(lines).contains((x, y)) && (
                -LIMIT <= x <= LIMIT && -LIMIT <= y <= LIMIT && -LIMIT <= w <= LIMIT && -LIMIT <= h
                    <= LIMIT ==> silk_spots(lines).contains((x + w, y + h))),
                _ => true,
            }
        }),
{
    reveal_strlit("TRACK");
    reveal_strlit("RECT");
    assert("TRACK"@.len() == 5 && "RECT"@.len() == 4);
    let f = fields_in(lines[i], '~');
    let n = numbers_in(words_in(f[4]));
    let own = line_spots(lines[i]);
    if f[0] == "TRACK"@ && f.len() >= 5 && layer_number(f[2]) == Some(3int) && 0 <= 2 * k && 2 * k
        + 1 < n.len() {
        assert(own[k] == (n[2 * k], n[2 * k + 1]));
        lemma_spots_stay(lines, i, own[k]);
    }
    if f[0] == "RECT"@ && f.len() >= 6 && layer_number(f[5]) == Some(3int) {
        match (
            number_value(f[1]),
            number_value(f[2]),
            number_value(f[3]),
            number_value(f[4]),
        ) {
            (Some(x), Some(y), Some(w), Some(h)) => {
                assert(own[0] == (x, y));
                lemma_spots_stay(lines, i, own[0]);
                lemma_spots_stay(lines, i, own[1]);
                if -LIMIT <= x <= LIMIT && -LIMIT <= y <= LIMIT && -LIMIT <= w <= LIMIT && -LIMIT
                    <= h <= LIMIT {
                    assert(own[1] == (x + w, y + h));
                }
            },
            _ => {},
        }
    }
}

proof fn lemma_spots_stay(lines: Seq<Seq<char>>, i: int, spot: (int, int))
    requires
        0 <= i < lines.len(),
        line_spots(lines[i]).contains(spot),
    ensures
        silk_spots(lines).contains(spot),
    decreases lines.len(),
{
    let init = lines.drop_last();
    let rest = silk_spots(init);
    let own = line_spots(lines.last());
    if i < init.len() {
        assert(init[i] == lines[i]);
        lemma_spots_stay(init, i, spot);
        let k = choose|k: int| 0 <= k < rest.len() && rest[k] == spot;
        assert((rest + own)[k] == spot);
    } else {
        let k = choose|k: int| 0 <= k < own.len() && own[k] == spot;
        assert((rest + own)[rest.len() + k] == spot);
    }
}

/// The body is the smallest box round the points that are drawn: as wide as
/// they are apart, and centred on them, seen from the part's origin.
pub proof fn law_the_body_is_the_box_round_its_points(
    lines: Seq<Seq<char>>,
    origin: Spot,
    left: int,
    right: int,
    low: int,
    high: int,
)
    requires
        silk_spots(lines).len() > 0,
        forall|k: int|
            #![trigger silk_spots(lines)[k]]
            0 <= k < silk_spots(lines).len() ==> left <= silk_spots(lines)[k].0 <= right && low
                <= silk_spots(lines)[k].1 <= high,
        exists|k: int|
            #![trigger silk_spots(lines)[k]]
            0 <= k < silk_spots(lines).len() && silk_spots(lines)[k].0 == left,
        exists|k: int|
            #![trigger silk_spots(lines)[k]]
            0 <= k < silk_spots(lines).len() && silk_spots(lines)[k].0 == right,
        exists|k: int|
            #![trigger silk_spots(lines)[k]]
            0 <= k < silk_spots(lines).len() && silk_spots(lines)[k].1 == low,
        exists|k: int|
            #![trigger silk_spots(lines)[k]]
            0 <= k < silk_spots(lines).len() && silk_spots(lines)[k].1 == high,
        is_ordinary(8 * left),
        is_ordinary(8 * right),
        is_ordinary(8 * low),
        is_ordinary(8 * high),
        is_ordinary(8 * origin.x),
        is_ordinary(8 * origin.y),
    ensures
        silk_courtyard(lines, origin) matches Some(body) && {
            &&& is_length(body.width as int, right - left)
            &&& is_length(body.height as int, high - low)
            &&& -1_000_000_000_000_000 <= body.center.x * 1_000_000_000_000_000 * 2 - 254 * (left
                + right - 2 * origin.x) <= 1_000_000_000_000_000
            &&& -1_000_000_000_000_000 <= body.center.y * 1_000_000_000_000_000 * 2 - 254 * (low
                + high - 2 * origin.y) <= 1_000_000_000_000_000
        },
{
    let spots = silk_spots(lines);
    let (vx, vy) = (xs(spots), ys(spots));
    assert forall|k: int| 0 <= k < spots.len() implies vx[k] == spots[k].0 && vy[k] == spots[k].1 by {}
    let a = choose|k: int| #![trigger silk_spots(lines)[k]] 0 <= k < spots.len() && silk_spots(lines)[k].0 == left;
    let b = choose|k: int| #![trigger silk_spots(lines)[k]] 0 <= k < spots.len() && silk_spots(lines)[k].0 == right;
    let c = choose|k: int| #![trigger silk_spots(lines)[k]] 0 <= k < spots.len() && silk_spots(lines)[k].1 == low;
    let d = choose|k: int| #![trigger silk_spots(lines)[k]] 0 <= k < spots.len() && silk_spots(lines)[k].1 == high;
    assert(vx[a] == left && vx[b] == right && vy[c] == low && vy[d] == high);
    lemma_box(vx, left, right);
    lemma_box(vy, low, high);
    lemma_nm(right - left);
    lemma_nm(high - low);
    lemma_rounded((left + right - 2 * origin.x) * 127, 1_000_000_000_000_000);
    lemma_rounded((low + high - 2 * origin.y) * 127, 1_000_000_000_000_000);
}

proof fn lemma_box(values: Seq<int>, low: int, high: int)
    requires
        values.contains(low),
        values.contains(high),
        low != NAN,
        high != NAN,
        forall|k: int| 0 <= k < values.len() ==> low <= #[trigger] values[k] <= high,
    ensures
        lowest(values) == low,
        highest(values) == high,
{
    let a = choose|k: int| 0 <= k < values.len() && values[k] == low;
    let b = choose|k: int| 0 <= k < values.len() && values[k] == high;
    law_bounds_hold_every_value(values, a);
    law_bounds_hold_every_value(values, b);
    let la = choose|k: int| 0 <= k < values.len() && values[k] == lowest(values);
    let lb = choose|k: int| 0 <= k < values.len() && values[k] == highest(values);
    assert(low <= values[la] && values[lb] <= high);
}

/// A pin goes by the last name that is given for its number, and a pad without
/// a name given keeps what it had.
pub proof fn law_the_last_name_counts(
    names: Seq<(Seq<char>, Seq<char>)>,
    number: Seq<char>,
    i: int,
)
    ensures
        0 <= i < names.len() && names[i].0 == number && (forall|k: int|
            i < k < names.len() ==> (#[trigger] names[k]).0 != number) ==> name_for(names, number)
            == Some(names[i].1),
        (forall|k: int| 0 <= k < names.len() ==> (#[trigger] names[k]).0 != number) ==> name_for(
            names,
            number,
        ) is None,
    decreases names.len(),
{
    if names.len() > 0 {
        let init = names.drop_last();
        assert(names[names.len() - 1] == names.last());
        assert forall|k: int| 0 <= k < init.len() implies init[k] == names[k] by {}
        law_the_last_name_counts(init, number, i);
    }
}

/// Naming the pads of a part changes nothing but the names, and gives each pad
/// the last name given for its number.
pub proof fn law_naming_changes_only_the_name(
    pad: PadTemplate,
    was: PadTemplate,
    names: Seq<(Seq<char>, Seq<char>)>,
    i: int,
)
    requires
        named_pad(pad, was, names),
    ensures
        pad.offset == was.offset,
        pad.radius == was.radius,
        pad.layer == was.layer,
        pad.number == was.number,
        pad.shape == was.shape,
        pad.rotation_deg == was.rotation_deg,
        pad.hole_diameter == was.hole_diameter,
        pad.zone_connection == was.zone_connection,
        0 <= i < names.len() && names[i].0 == was.number@ && (forall|k: int|
            i < k < names.len() ==> (#[trigger] names[k]).0 != was.number@) ==> (pad.pin_name
            matches Some(name) && name@ == names[i].1),
        (forall|k: int| 0 <= k < names.len() ==> (#[trigger] names[k]).0 != was.number@)
            ==> pad.pin_name == was.pin_name,
{
    law_the_last_name_counts(names, was.number@, i);
}

/// A prefix is what stands before the trailing question marks, and `U` where
/// nothing does or none is given.
pub proof fn law_a_prefix_has_no_question_marks(base: Seq<char>, marks: nat)
    requires
        base.len() > 0 ==> base.last() != '?',
    ensures
        without_marks(base + Seq::new(marks, |i: int| '?')) == base,
    decreases marks,
{
    let s = base + Seq::new(marks, |i: int| '?');
    if marks > 0 {
        assert(s.last() == '?');
        assert(s.drop_last() =~= base + Seq::new((marks - 1) as nat, |i: int| '?'));
        law_a_prefix_has_no_question_marks(base, (marks - 1) as nat);
    } else {
        assert(s =~= base);
    }
}

/// What the part is called, prefixed and described as: its title, or else its
/// code; the prefix of its symbol, or else `U`; and its package and
/// description with a dash between them, or the one of them that there is.
pub proof fn law_a_part_is_called_by_its_title(
    part: FetchedPart,
    code: Seq<char>,
    result: JsonShape,
    data: JsonShape,
)
    requires
        reads_part(part, code, result, data),
    ensures
        part.lcsc_code@ == code,
        member_text(result, "title"@) matches Some(t) ==> part.name@ == if t.len() > 0 {
            t
        } else {
            code
        },
        member_text(result, "title"@) is None ==> part.name@ == code,
        part.reference_prefix@.len() > 0,
        ({
            let head = member(data, "head"@)->0;
            let parameters = member(head, "c_para"@);
            let package = match parameters {
                Some(p) => member_text(p, "package"@),
                None => None,
            };
            let described = member_text(result, "description"@);
            &&& parameters is None ==> part.reference_prefix@ == "U"@
            &&& parameters matches Some(p) ==> (member_text(p, "pre"@) matches Some(pre)
                ==> pre.len() > 0 && pre.last() != '?' ==> part.reference_prefix@ == pre)
            &&& package is None ==> part.description@ == (match described {
                Some(d) => d,
                None => Seq::empty(),
            })
            &&& described is None ==> part.description@ == (match package {
                Some(d) => d,
                None => Seq::empty(),
            })
            &&& (package matches Some(p) && described matches Some(d) && p.len() > 0 && d.len() > 0
                && part.description@ == p + " \u{2014} "@ + d) || package is None || described is None
                || package->0.len() == 0 || described->0.len() == 0
        }),
{
    reveal_strlit("U");
    assert("U"@.len() == 1);
    let head = member(data, "head"@)->0;
    assert(part.reference_prefix@ == prefix_of(head));
}

/// A part whose reply says so has every pad of its footprint and the body that
/// is drawn round it.
pub proof fn law_a_part_has_every_pad(
    part: FetchedPart,
    code: Seq<char>,
    result: JsonShape,
    data: JsonShape,
    i: int,
)
    requires
        reads_part(part, code, result, data),
        0 <= i < shape_lines(data).len(),
        is_pad_line(shape_lines(data)[i]),
    ensures
        ({
            let k = pad_lines(shape_lines(data).take(i)).len() as int;
            &&& 0 <= k < part.pads@.len()
            &&& part.pads@[k].number@ == fields_in(shape_lines(data)[i], '~')[8]
            &&& part.pad_rotations@[k]@ == fields_in(shape_lines(data)[i], '~')[11]
        }),
{
    law_every_pad_line_is_kept(shape_lines(data), i);
    let pads = pad_lines(shape_lines(data));
    let k = pad_lines(shape_lines(data).take(i)).len() as int;
    assert(reads_pad(
        part.pads@[k],
        pads[k],
        crate::lcsc::head_origin(member(data, "head"@)->0),
    ));
    let turned = pads.map_values(|line: Seq<char>| pad_rotation(line));
    assert(crate::text::strings_in(part.pad_rotations@).len() == turned.len());
    assert(crate::text::strings_in(part.pad_rotations@)[k] == turned[k]);
    assert(turned[k] == pad_rotation(pads[k]));
}

/// The texts among some items are all of them that are texts, in order.
pub proof fn law_every_text_is_kept(items: Seq<JsonShape>, i: int)
    requires
        0 <= i < items.len(),
    ensures
        items[i] matches JsonShape::Text(t) ==> {
            let n = texts_among(items.take(i)).len() as int;
            n < texts_among(items).len() && texts_among(items)[n] == t
        },
        texts_among(items).len() <= items.len(),
    decreases items.len(),
{
    let init = items.drop_last();
    if i < init.len() {
        assert(init[i] == items[i]);
        law_every_text_is_kept(init, i);
        assert(init.take(i) =~= items.take(i));
    } else {
        assert(items.take(i) =~= init);
        lemma_few_texts(init);
    }
}

proof fn lemma_few_texts(items: Seq<JsonShape>)
    ensures
        texts_among(items).len() <= items.len(),
    decreases items.len(),
{
    if items.len() > 0 {
        lemma_few_texts(items.drop_last());
    }
}

/// A reply gives a part exactly if it reports success, holds a result with a
/// footprint, and the footprint has a head, a list of shapes and a pad among
/// them.
pub proof fn law_which_replies_give_a_part(code: Seq<char>, body: JsonShape, data: JsonShape)
    requires
        member(body, "success"@) == Some(JsonShape::Bool(true)),
        member(body, "result"@) matches Some(result) && member(result, "packageDetail"@) matches Some(
            package,
        ) && member(package, "dataStr"@) == Some(data),
        !(data is Text),
    ensures
        response_problem(code, body) is None <==> member(data, "head"@) is Some && (member_items(
            data,
            "shape"@,
        ) matches Some(items) && exists|k: int|
            0 <= k < texts_among(items).len() && is_pad_line(#[trigger] texts_among(items)[k])),
{
    match member_items(data, "shape"@) {
        Some(items) => {
            let lines = texts_among(items);
            if pad_lines(lines).len() > 0 {
                lemma_pads_are_lines(lines);
                let p = pad_lines(lines)[0];
                assert(lines.contains(p));
                let k = choose|k: int| 0 <= k < lines.len() && lines[k] == p;
                assert(is_pad_line(lines[k]));
            }
            if exists|k: int| 0 <= k < lines.len() && is_pad_line(#[trigger] lines[k]) {
                let k = choose|k: int| 0 <= k < lines.len() && is_pad_line(#[trigger] lines[k]);
                law_every_pad_line_is_kept(lines, k);
            }
        },
        None => {},
    }
}

proof fn lemma_pads_are_lines(lines: Seq<Seq<char>>)
    ensures
        forall|k: int|
            0 <= k < pad_lines(lines).len() ==> lines.contains(#[trigger] pad_lines(lines)[k])
                && is_pad_line(pad_lines(lines)[k]),
    decreases lines.len(),
{
    if lines.len() > 0 {
        let init = lines.drop_last();
        lemma_pads_are_lines(init);
        let all = pad_lines(lines);
        let rest = pad_lines(init);
        assert forall|k: int| 0 <= k < all.len() implies lines.contains(#[trigger] all[k])
            && is_pad_line(all[k]) by {
            if k < rest.len() {
                assert(rest[k] == all[k]);
                let j = choose|j: int| 0 <= j < init.len() && init[j] == rest[k];
                assert(lines[j] == all[k]);
            } else {
                assert(lines[lines.len() - 1] == all[k]);
            }
        }
    }
}

/// A reply that does not report success is that of a part that was not found,
/// and one without a footprint that of a part without one.
pub proof fn law_a_missing_part_is_told(code: Seq<char>, body: JsonShape)
    ensures
        member(body, "success"@) != Some(JsonShape::Bool(true)) ==> response_problem(code, body)
            == Some(FetchProblem::NotFound(code)),
        member(body, "success"@) == Some(JsonShape::Bool(true)) ==> (member(body, "result"@)
            matches Some(result) ==> member(result, "packageDetail"@) is None ==> response_problem(
            code,
            body,
        ) == Some(FetchProblem::NoFootprint(code))),
        response_problem(code, body) matches Some(p) ==> !(p is Network),
{
}

/// A pin's number is read from between the quotes behind its mark.
pub proof fn law_an_attribute_is_what_is_quoted(
    before: Seq<char>,
    marker: Seq<char>,
    value: Seq<char>,
    after: Seq<char>,
)
    requires
        marker.len() > 0,
        find_from(before + marker + value + seq!['"'] + after, marker, 0) == Some(
            before.len() as int,
        ),
        !value.contains('"'),
    ensures
        attr_in(before + marker + value + seq!['"'] + after, marker) == Some(value),
{
    let s = before + marker + value + seq!['"'] + after;
    let start = (before.len() + marker.len()) as int;
    let end = start + value.len();
    lemma_first_char(s, '"', start, end);
    assert(s.subrange(start, end) =~= value);
}

pub proof fn lemma_first_char(s: Seq<char>, c: char, from: int, at: int)
    requires
        0 <= from <= at < s.len(),
        s[at] == c,
        forall|k: int| from <= k < at ==> #[trigger] s[k] != c,
    ensures
        find_from(s, seq![c], from) == Some(at),
    decreases at - from,
{
    assert(s.subrange(from, from + 1)[0] == s[from]);
    if from < at {
        assert(s.subrange(from, from + 1) != seq![c]);
        lemma_first_char(s, c, from + 1, at);
    } else {
        assert(s.subrange(from, from + 1) =~= seq![c]);
    }
}

/// A line's fields are what stands between its separators: one field in front
/// of a line adds that field and changes no other.
pub proof fn law_fields_are_split_at_every_separator(
    field: Seq<char>,
    rest: Seq<char>,
    separator: char,
)
    requires
        !field.contains(separator),
    ensures
        fields_in(field + seq![separator] + rest, separator) == seq![field] + fields_in(
            rest,
            separator,
        ),
        fields_in(field, separator) == seq![field],
{
    let s = field + seq![separator] + rest;
    let at = field.len() as int;
    assert forall|k: int| 0 <= k < at implies #[trigger] s[k] != separator by {
        assert(field[k] == s[k]);
    }
    lemma_first_char(s, separator, 0, at);
    assert(s.take(at) =~= field);
    assert(s.skip(at + 1) =~= rest);
    lemma_no_char(field, separator, 0);
}

proof fn lemma_no_char(s: Seq<char>, c: char, from: int)
    requires
        0 <= from <= s.len(),
        !s.contains(c),
    ensures
        find_from(s, seq![c], from) is None,
    decreases s.len() - from,
{
    if from < s.len() {
        assert(s.subrange(from, from + 1)[0] == s[from]);
        assert(s.contains(s[from]));
        assert(s.subrange(from, from + 1) != seq![c]);
        lemma_no_char(s, c, from + 1);
    }
}

} // verus!
