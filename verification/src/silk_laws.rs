//! What may be printed on the board, told by the measurements alone.

use vstd::prelude::*;

use crate::board_doc::{
    dot_disc, marker_disc, PlacedFootprint, BoardDoc, FootprintId, SilkDot, SilkDotId, SilkText,
    SilkTextId,
};
use crate::dfm::FabRules;
use crate::footprint::PadTemplate;
use crate::geom::{Angle, Circle, Point, Unit};
use crate::item::{Item, LayerId};
use crate::parts::pad_numbered;
use crate::placement::flag;
use crate::placement_laws::{is_set, pad_is_near, radius_of, too_close};
use crate::silk::{
    disc_of, dot_place, dot_under, dot_verdict, first_spot, marker_sweep, new_text_verdict, pin1_of,
    printable, text_place, text_verdict, MarkerCandidate, SilkDotError, SilkDotProbe, SilkTextError,
    SilkTextProbe,
};
use crate::text::trimmed;

verus! {

/// No pad on that side was measured to be too close.
pub open spec fn off_pads(doc: BoardDoc, layer: LayerId, near: Seq<bool>) -> bool {
    forall|i: int|
        #![trigger doc.node.entries@[i]]
        0 <= i < doc.node.entries@.len() ==> (doc.node.entries@[i].item matches Item::Pad {
            layer: l,
            ..
        } ==> l == layer ==> !is_set(near, i))
}

/// Nothing on the front is under a part's body; the back has no bodies.
pub open spec fn off_bodies(doc: BoardDoc, layer: LayerId, under: Seq<bool>) -> bool {
    layer == LayerId::FCu ==> forall|f: int|
        0 <= f < doc.footprints@.len() ==> !#[trigger] is_set(under, f)
}

/// No text on that side but the one that is to be ignored was hit.
pub open spec fn off_texts(
    doc: BoardDoc,
    layer: LayerId,
    ignore: Option<SilkTextId>,
    hit: Seq<bool>,
) -> bool {
    forall|t: int|
        0 <= t < doc.silk_texts@.len() && (#[trigger] doc.silk_texts@[t]).layer == layer && ignore
            != Some(doc.silk_texts@[t].id) ==> !is_set(hit, t)
}

/// No dot on that side was hit, and on the front no pin-1 marker.
pub open spec fn off_dots(
    doc: BoardDoc,
    layer: LayerId,
    dots: Seq<bool>,
    markers: Seq<bool>,
) -> bool {
    &&& forall|d: int|
        0 <= d < doc.silk_dots@.len() && (#[trigger] doc.silk_dots@[d]).layer == layer ==> !is_set(
            dots,
            d,
        )
    &&& layer == LayerId::FCu ==> forall|f: int|
        0 <= f < doc.footprints@.len() && (#[trigger] doc.footprints@[f]).pin1_marker is Some
            ==> !is_set(markers, f)
}

/// A text may be printed exactly if it lies on the board and keeps off the
/// pads, bodies, texts, dots and markers of its own side; a refusal tells the
/// first of them, in that order, that it does not keep off.
pub proof fn law_which_texts_may_be_printed(
    doc: BoardDoc,
    layer: LayerId,
    ignore: Option<SilkTextId>,
    probe: SilkTextProbe,
)
    ensures
        ({
            let r = text_verdict(doc, layer, ignore, probe);
            let pads = off_pads(doc, layer, probe.pads@);
            let bodies = off_bodies(doc, layer, probe.bodies@);
            let texts = off_texts(doc, layer, ignore, probe.texts@);
            let dots = off_dots(doc, layer, probe.dots@, probe.markers@);
            &&& r is Ok <==> probe.on_board && pads && bodies && texts && dots
            &&& r == Err::<(), SilkTextError>(SilkTextError::OffBoard) <==> !probe.on_board
            &&& r == Err::<(), SilkTextError>(SilkTextError::TooCloseToPad) <==> probe.on_board
                && !pads
            &&& r == Err::<(), SilkTextError>(SilkTextError::UnderComponentBody) <==> probe.on_board
                && pads && !bodies
            &&& r == Err::<(), SilkTextError>(SilkTextError::OverlapsAnotherText)
                <==> probe.on_board && pads && bodies && !texts
            &&& r == Err::<(), SilkTextError>(SilkTextError::OverlapsDot) <==> probe.on_board && pads
                && bodies && texts && !dots
        }),
{
    assert(crate::silk::hits_body(doc.footprints@, probe.bodies@) == !(forall|f: int|
        0 <= f < doc.footprints@.len() ==> !#[trigger] is_set(probe.bodies@, f))) by {
        if crate::silk::hits_body(doc.footprints@, probe.bodies@) {
            let f = choose|f: int|
                0 <= f < doc.footprints@.len() && #[trigger] flag(probe.bodies@, f);
            assert(is_set(probe.bodies@, f));
        }
        if exists|f: int| 0 <= f < doc.footprints@.len() && #[trigger] is_set(probe.bodies@, f) {
            let f = choose|f: int|
                0 <= f < doc.footprints@.len() && #[trigger] is_set(probe.bodies@, f);
            assert(flag(probe.bodies@, f));
        }
    }
}

/// A text of nothing but white space is never printed, and any other is judged
/// by where it lands, with no text left out.
pub proof fn law_blank_text_is_not_printed(
    doc: BoardDoc,
    text: Seq<char>,
    layer: LayerId,
    probe: SilkTextProbe,
)
    ensures
        trimmed(text).len() == 0 ==> new_text_verdict(doc, text, layer, probe) == Err::<
            (),
            SilkTextError,
        >(SilkTextError::EmptyText),
        trimmed(text).len() > 0 ==> new_text_verdict(doc, text, layer, probe) == text_verdict(
            doc,
            layer,
            None,
            probe,
        ),
{
}

/// No pad on that side is nearer to a disc than the clearance.
pub open spec fn disc_off_pads(
    doc: BoardDoc,
    circle: Circle,
    layer: LayerId,
    clearance: int,
    measured: Seq<bool>,
) -> bool {
    forall|i: int|
        #![trigger doc.node.entries@[i]]
        0 <= i < doc.node.entries@.len() ==> (doc.node.entries@[i].item matches Item::Pad {
            shape,
            layer: l,
            ..
        } ==> l == layer ==> !pad_is_near(
            shape,
            circle.center,
            circle.radius as int,
            clearance,
            is_set(measured, i),
        ))
}

/// A disc overlaps no dot on that side, and on the front no pin-1 marker, but
/// those that are to be ignored.
pub open spec fn disc_off_dots(
    doc: BoardDoc,
    circle: Circle,
    layer: LayerId,
    ignore_dot: Option<SilkDotId>,
    ignore_marker_of: Option<FootprintId>,
) -> bool {
    &&& forall|d: int|
        0 <= d < doc.silk_dots@.len() && (#[trigger] doc.silk_dots@[d]).layer == layer && ignore_dot
            != Some(doc.silk_dots@[d].id) ==> !too_close(
            circle.center,
            circle.radius as int,
            doc.silk_dots@[d].position,
            radius_of(doc.silk_dots@[d].diameter as int),
            0,
        )
    &&& layer == LayerId::FCu ==> forall|f: int|
        0 <= f < doc.footprints@.len() && (#[trigger] doc.footprints@[f]).pin1_marker is Some
            && ignore_marker_of != Some(doc.footprints@[f].id) ==> !too_close(
            circle.center,
            circle.radius as int,
            doc.footprints@[f].pin1_marker->0.center,
            200_000,
            0,
        )
}

/// A dot may be printed exactly if it lies on the board and keeps off the pads,
/// bodies, texts, dots and markers of its own side; a refusal tells the first
/// of them that it does not keep off.
pub proof fn law_which_dots_may_be_printed(
    doc: BoardDoc,
    circle: Circle,
    layer: LayerId,
    ignore_dot: Option<SilkDotId>,
    ignore_marker_of: Option<FootprintId>,
    probe: SilkDotProbe,
    rules: FabRules,
)
    ensures
        ({
            let r = dot_verdict(doc, circle, layer, ignore_dot, ignore_marker_of, probe, rules);
            let pads = disc_off_pads(doc, circle, layer, rules.silk_to_pad as int, probe.pads@);
            let bodies = off_bodies(doc, layer, probe.bodies@);
            let texts = off_texts(doc, layer, None, probe.texts@);
            let dots = disc_off_dots(doc, circle, layer, ignore_dot, ignore_marker_of);
            &&& r is Ok <==> probe.on_board && pads && bodies && texts && dots
            &&& r == Err::<(), SilkDotError>(SilkDotError::OffBoard) <==> !probe.on_board
            &&& r == Err::<(), SilkDotError>(SilkDotError::TooCloseToPad) <==> probe.on_board
                && !pads
            &&& r == Err::<(), SilkDotError>(SilkDotError::UnderComponentBody) <==> probe.on_board
                && pads && !bodies
            &&& r == Err::<(), SilkDotError>(SilkDotError::OverlapsSilk) <==> probe.on_board && pads
                && bodies && !(texts && dots)
        }),
{
    assert(crate::silk::hits_body(doc.footprints@, probe.bodies@) == !(forall|f: int|
        0 <= f < doc.footprints@.len() ==> !#[trigger] is_set(probe.bodies@, f))) by {
        if crate::silk::hits_body(doc.footprints@, probe.bodies@) {
            let f = choose|f: int|
                0 <= f < doc.footprints@.len() && #[trigger] flag(probe.bodies@, f);
            assert(is_set(probe.bodies@, f));
        }
        if exists|f: int| 0 <= f < doc.footprints@.len() && #[trigger] is_set(probe.bodies@, f) {
            let f = choose|f: int|
                0 <= f < doc.footprints@.len() && #[trigger] is_set(probe.bodies@, f);
            assert(flag(probe.bodies@, f));
        }
    }
    let near = crate::silk::dot_near_pad(
        doc.node.entries@,
        circle,
        layer,
        rules.silk_to_pad as int,
        probe.pads@,
    );
    assert(near == !disc_off_pads(doc, circle, layer, rules.silk_to_pad as int, probe.pads@));
    assert(crate::silk::dot_near_dot(doc, circle, layer, ignore_dot, ignore_marker_of)
        == !disc_off_dots(doc, circle, layer, ignore_dot, ignore_marker_of));
}

/// A text is found by its id, and one that is not there is not found.
pub proof fn law_print_is_found_by_its_id(texts: Seq<SilkText>, id: SilkTextId)
    ensures
        match text_place(texts, id) {
            Some(k) => 0 <= k < texts.len() && texts[k].id == id && forall|m: int|
                0 <= m < k ==> (#[trigger] texts[m]).id != id,
            None => forall|m: int| 0 <= m < texts.len() ==> (#[trigger] texts[m]).id != id,
        },
    decreases texts.len(),
{
    if texts.len() > 0 && texts[0].id != id {
        let rest = texts.drop_first();
        law_print_is_found_by_its_id(rest, id);
        match text_place(rest, id) {
            Some(k) => {
                assert(texts[k + 1] == rest[k]);
                assert forall|m: int| 0 <= m < k + 1 implies (#[trigger] texts[m]).id != id by {
                    if m > 0 {
                        assert(rest[m - 1] == texts[m]);
                    }
                }
            },
            None => {
                assert forall|m: int| 0 <= m < texts.len() implies (#[trigger] texts[m]).id != id by {
                    if m > 0 {
                        assert(rest[m - 1] == texts[m]);
                    }
                }
            },
        }
    }
}

/// A dot is found by its id, and a dot that is not there is not found.
pub proof fn law_a_dot_is_found_by_its_id(dots: Seq<SilkDot>, id: SilkDotId)
    ensures
        match dot_place(dots, id) {
            Some(k) => 0 <= k < dots.len() && dots[k].id == id && forall|m: int|
                0 <= m < k ==> (#[trigger] dots[m]).id != id,
            None => forall|m: int| 0 <= m < dots.len() ==> (#[trigger] dots[m]).id != id,
        },
    decreases dots.len(),
{
    if dots.len() > 0 && dots[0].id != id {
        let rest = dots.drop_first();
        law_a_dot_is_found_by_its_id(rest, id);
        match dot_place(rest, id) {
            Some(k) => {
                assert(dots[k + 1] == rest[k]);
                assert forall|m: int| 0 <= m < k + 1 implies (#[trigger] dots[m]).id != id by {
                    if m > 0 {
                        assert(rest[m - 1] == dots[m]);
                    }
                }
            },
            None => {
                assert forall|m: int| 0 <= m < dots.len() implies (#[trigger] dots[m]).id != id by {
                    if m > 0 {
                        assert(rest[m - 1] == dots[m]);
                    }
                }
            },
        }
    }
}

/// A dot is never printed thinner than the thinnest line that can be, and
/// otherwise as it was asked for; and it is printed as a disc of that diameter
/// at its place.
pub proof fn law_a_dot_is_as_large_as_asked(position: Point, diameter: Unit, rules: FabRules)
    ensures
        printable(diameter, rules) >= diameter,
        printable(diameter, rules) >= rules.min_silk_line_width,
        printable(diameter, rules) == diameter || printable(diameter, rules)
            == rules.min_silk_line_width,
        disc_of(position, diameter).center == position,
        diameter >= 0 ==> disc_of(position, diameter).radius == diameter / 2,
{
}

/// A dot is picked by a point less than its radius away from its middle, or
/// less than a quarter of a millimetre.
pub proof fn law_a_dot_is_picked_near_its_middle(dot: SilkDot, point: Point)
    requires
        dot.diameter >= 0,
    ensures
        ({
            let dx = dot.position.x - point.x;
            let dy = dot.position.y - point.y;
            let r = dot.diameter / 2;
            dot_under(dot, point) <==> dx * dx + dy * dy < r * r || dx * dx + dy * dy < 250_000
                * 250_000
        }),
{
    let r = dot.diameter / 2;
    assert(r <= 250_000 ==> r * r <= 250_000 * 250_000) by (nonlinear_arith)
        requires
            r >= 0,
    ;
    assert(r >= 250_000 ==> r * r >= 250_000 * 250_000) by (nonlinear_arith);
}

/// A pin-1 marker goes to the first of the spots offered where a dot may be
/// printed on the front, its own marker not counted; there is room exactly if
/// there is such a spot.
pub proof fn law_a_marker_takes_the_first_free_spot(
    doc: BoardDoc,
    id: FootprintId,
    candidates: Seq<MarkerCandidate>,
    rules: FabRules,
)
    ensures
        match first_spot(doc, id, candidates, rules) {
            Some(k) => {
                &&& 0 <= k < candidates.len()
                &&& dot_verdict(
                    doc,
                    Circle { center: candidates[k].center, radius: 200_000 },
                    LayerId::FCu,
                    None,
                    Some(id),
                    candidates[k].probe,
                    rules,
                ) is Ok
                &&& forall|m: int|
                    #![trigger candidates[m]]
                    0 <= m < k ==> dot_verdict(
                        doc,
                        Circle { center: candidates[m].center, radius: 200_000 },
                        LayerId::FCu,
                        None,
                        Some(id),
                        candidates[m].probe,
                        rules,
                    ) is Err
            },
            None => forall|m: int|
                #![trigger candidates[m]]
                0 <= m < candidates.len() ==> dot_verdict(
                    doc,
                    Circle { center: candidates[m].center, radius: 200_000 },
                    LayerId::FCu,
                    None,
                    Some(id),
                    candidates[m].probe,
                    rules,
                ) is Err,
        },
    decreases candidates.len(),
{
    if candidates.len() > 0 {
        let rest = candidates.drop_first();
        law_a_marker_takes_the_first_free_spot(doc, id, rest, rules);
        assert forall|m: int| #![trigger candidates[m]] 0 < m < candidates.len() implies rest[m - 1]
            == candidates[m] by {}
        match first_spot(doc, id, rest, rules) {
            Some(k) => {
                assert(candidates[k + 1] == rest[k]);
            },
            None => {},
        }
    }
}

/// The marker belongs to the pad numbered `1`, or to the first pad where there
/// is none.
pub proof fn law_pin_one_is_the_pad_with_that_number(pads: Seq<PadTemplate>, k: int)
    requires
        0 <= k < pads.len(),
    ensures
        pads[k].number@ == "1"@ && (forall|m: int| 0 <= m < k ==> (#[trigger] pads[m]).number@ != "1"@)
            ==> pin1_of(pads) == Some(k),
        (forall|m: int| 0 <= m < pads.len() ==> (#[trigger] pads[m]).number@ != "1"@) ==> pin1_of(
            pads,
        ) == Some(0int),
{
    lemma_numbered(pads, "1"@, k);
}

pub proof fn lemma_numbered(pads: Seq<PadTemplate>, number: Seq<char>, k: int)
    ensures
        0 <= k < pads.len() && pads[k].number@ == number && (forall|m: int|
            0 <= m < k ==> (#[trigger] pads[m]).number@ != number) ==> pad_numbered(pads, number)
            == Some(k),
        (forall|m: int| 0 <= m < pads.len() ==> (#[trigger] pads[m]).number@ != number)
            ==> pad_numbered(pads, number) is None,
    decreases pads.len(),
{
    if pads.len() > 0 {
        let rest = pads.drop_first();
        lemma_numbered(rest, number, k - 1);
        assert forall|m: int| 0 <= m < rest.len() implies rest[m] == pads[m + 1] by {}
        if k > 0 {
            assert(k < pads.len() ==> rest[k - 1] == pads[k]);
        }
        if forall|m: int| 0 <= m < pads.len() ==> (#[trigger] pads[m]).number@ != number {
            assert forall|m: int| 0 <= m < rest.len() implies (#[trigger] rest[m]).number@ != number by {
                assert(rest[m] == pads[m + 1]);
            }
        }
        if 0 < k < pads.len() && (forall|m: int|
            0 <= m < k ==> (#[trigger] pads[m]).number@ != number) {
            assert forall|m: int| 0 <= m < k - 1 implies (#[trigger] rest[m]).number@ != number by {
                assert(rest[m] == pads[m + 1]);
            }
            assert(pads[0].number@ != number);
        }
    }
}

/// The spots for a marker lie all round the pad, every thirty degrees, each
/// direction once, the first one given and then those nearest to it.
pub proof fn law_a_marker_is_tried_all_round(first: int, i: int)
    requires
        0 <= i < 12,
    ensures
        marker_sweep(first).len() == 12,
        marker_sweep(first)[0] == first,
        (marker_sweep(first)[i] - first) % 30 == 0,
        -180 < marker_sweep(first)[i] - first <= 180,
        forall|j: int|
            0 <= j < 12 && j != i ==> #[trigger] marker_sweep(first)[j] != marker_sweep(first)[i],
        i > 0 ==> {
            let here = marker_sweep(first)[i] - first;
            let last = marker_sweep(first)[i - 1] - first;
            (if here < 0 {
                -here
            } else {
                here
            }) >= (if last < 0 {
                -last
            } else {
                last
            })
        },
{
}

/// A new text is printed as asked for, in lines of a fifth of a millimetre,
/// and nothing else on the board changes.
pub proof fn law_a_new_text_is_printed_as_asked(
    before: BoardDoc,
    after: BoardDoc,
    text: Seq<char>,
    position: Point,
    rotation_deg: Angle,
    layer: LayerId,
    height: Unit,
    t: int,
)
    requires
        after.has_new_text(&before, text, position, rotation_deg, layer, height),
    ensures
        after.silk_texts@.len() == before.silk_texts@.len() + 1,
        after.silk_texts@.last().text@ == text,
        after.silk_texts@.last().position == position,
        after.silk_texts@.last().rotation_deg == rotation_deg,
        after.silk_texts@.last().layer == layer,
        after.silk_texts@.last().height == height,
        after.silk_texts@.last().line_width == 200_000,
        0 <= t < before.silk_texts@.len() ==> after.silk_texts@[t] == before.silk_texts@[t],
        after.silk_dots == before.silk_dots,
        after.footprints == before.footprints,
        after.node == before.node,
        after.nets == before.nets,
        after.zones == before.zones,
        after.outline == before.outline,
{
    if 0 <= t < before.silk_texts@.len() {
        assert(after.silk_texts@.drop_last()[t] == after.silk_texts@[t]);
    }
}

/// A text that is moved or changed is judged where it would be, on its own
/// side, as if it were not there yet; one that is not there cannot be.
pub proof fn law_a_changed_text_is_judged_without_itself(
    doc: BoardDoc,
    k: int,
    probe: SilkTextProbe,
    id: SilkTextId,
)
    requires
        0 <= k < doc.silk_texts@.len(),
        forall|j: int| 0 <= j < k ==> (#[trigger] doc.silk_texts@[j]).id != doc.silk_texts@[k].id,
        forall|j: int| 0 <= j < doc.silk_texts@.len() ==> (#[trigger] doc.silk_texts@[j]).id != id,
    ensures
        doc.text_change_verdict(doc.silk_texts@[k].id, probe) == text_verdict(
            doc,
            doc.silk_texts@[k].layer,
            Some(doc.silk_texts@[k].id),
            probe,
        ),
        doc.text_change_verdict(id, probe) == Err::<(), SilkTextError>(SilkTextError::NotFound),
{
    law_print_is_found_by_its_id(doc.silk_texts@, doc.silk_texts@[k].id);
    law_print_is_found_by_its_id(doc.silk_texts@, id);
    let p = text_place(doc.silk_texts@, doc.silk_texts@[k].id)->0;
    if p < k {
        assert(doc.silk_texts@[p].id != doc.silk_texts@[k].id);
    }
    if k < p {
        assert(doc.silk_texts@[k].id != doc.silk_texts@[k].id);
    }
}

/// A dot is a disc of its diameter at its place, and a pin-1 marker one of four
/// tenths of a millimetre at its own; a part without a marker has none.
pub proof fn law_what_round_ink_covers(dot: SilkDot, fp: PlacedFootprint)
    requires
        dot.diameter >= 0,
    ensures
        dot_disc(dot).center == dot.position,
        dot_disc(dot).radius == dot.diameter as int / 2,
        fp.pin1_marker matches Some(marker) ==> marker_disc(fp) == Some(
            Circle { center: marker.center, radius: 200_000 },
        ),
        fp.pin1_marker is None ==> marker_disc(fp) is None,
{
}

} // verus!
