//! What a verdict on a pose means, told by the measurements alone: which poses
//! are accepted, and what a refused one has run into.

use vstd::prelude::*;

use crate::board_doc::{BoardDoc, FootprintId};
use crate::dfm::FabRules;
use crate::footprint::FootprintTemplate;
use crate::geom::{Circle, Point};
use crate::item::{Item, ItemId, LayerId, PadShape};
use crate::placement::{
    collisions, flag2, free_hits, is_excluded, is_lead, pad_near_disc, InkProbe, ItemProbe,
    PlacedShape, PlacementError, PlacementProbe,
};

verus! {

/// Something was measured at place `i`, and it is a hit.
pub open spec fn is_set(flags: Seq<bool>, i: int) -> bool {
    0 <= i < flags.len() && flags[i]
}

/// Something was measured at row `i`, column `j`, and it is a hit.
pub open spec fn is_set_at(rows: Seq<Vec<bool>>, i: int, j: int) -> bool {
    0 <= i < rows.len() && 0 <= j < rows[i]@.len() && rows[i]@[j]
}

/// Two discs of these radii are less than `clearance` apart.
pub open spec fn too_close(p: Point, r: int, q: Point, s: int, clearance: int) -> bool {
    let dx = p.x - q.x;
    let dy = p.y - q.y;
    let reach = r + s + clearance;
    reach > 0 && dx * dx + dy * dy < reach * reach
}

/// A pad is less than `clearance` away from a disc.
pub open spec fn pad_is_near(
    shape: PadShape,
    center: Point,
    radius: int,
    clearance: int,
    measured: bool,
) -> bool {
    match shape {
        PadShape::Circle(c) => too_close(
            center,
            radius,
            c.center,
            c.radius as int,
            clearance,
        ),
        PadShape::Polygon { .. } => measured,
    }
}

/// A radius: half of a diameter, rounded towards zero.
pub open spec fn radius_of(diameter: int) -> int {
    if diameter < 0 {
        -((-diameter) / 2)
    } else {
        diameter / 2
    }
}

/// Part `f` is on the board, and not lifted off it for the check.
pub open spec fn counts(doc: BoardDoc, excluding: Seq<FootprintId>, f: int) -> bool {
    0 <= f < doc.footprints@.len() && !excluding.contains(doc.footprints@[f].id)
}

/// Item `i` of a candidate keeps off everything printed on its side.
pub open spec fn item_keeps_off_print(
    doc: BoardDoc,
    item: Item,
    ink: InkProbe,
    excluding: Seq<FootprintId>,
    clearance: int,
) -> bool {
    match item {
        Item::Pad { shape, layer, .. } => {
            &&& forall|t: int|
                0 <= t < doc.silk_texts@.len() && (#[trigger] doc.silk_texts@[t]).layer == layer
                    ==> !is_set(ink.texts@, t)
            &&& forall|d: int|
                0 <= d < doc.silk_dots@.len() && (#[trigger] doc.silk_dots@[d]).layer == layer
                    ==> !pad_is_near(
                    shape,
                    doc.silk_dots@[d].position,
                    radius_of(doc.silk_dots@[d].diameter as int),
                    clearance,
                    is_set(ink.dots@, d),
                )
            &&& layer == LayerId::FCu ==> forall|f: int|
                #![trigger doc.footprints@[f]]
                counts(doc, excluding, f) && doc.footprints@[f].pin1_marker is Some ==> !pad_is_near(
                    shape,
                    doc.footprints@[f].pin1_marker->0.center,
                    200_000,
                    clearance,
                    is_set(ink.markers@, f),
                )
        },
        _ => true,
    }
}

/// The body covers nothing that is printed on the front; what is printed on
/// the back is none of its concern.
pub open spec fn body_keeps_off_print(
    doc: BoardDoc,
    ink: InkProbe,
    excluding: Seq<FootprintId>,
) -> bool {
    &&& forall|t: int|
        0 <= t < doc.silk_texts@.len() && (#[trigger] doc.silk_texts@[t]).layer == LayerId::FCu
            ==> !is_set(ink.texts@, t)
    &&& forall|d: int|
        0 <= d < doc.silk_dots@.len() && (#[trigger] doc.silk_dots@[d]).layer == LayerId::FCu
            ==> !is_set(ink.dots@, d)
    &&& forall|f: int|
        #![trigger doc.footprints@[f]]
        counts(doc, excluding, f) && doc.footprints@[f].pin1_marker is Some ==> !is_set(
            ink.markers@,
            f,
        )
}

/// No surface-mount pad of the candidate is near a drill of part `f`.
pub open spec fn leads_keep_off_drills(
    doc: BoardDoc,
    f: int,
    template: FootprintTemplate,
    shape: PlacedShape,
    probe: PlacementProbe,
    clearance: int,
) -> bool {
    let drills = doc.footprints@[f].assembly_drills@;
    forall|d: int, s: int|
        #![trigger drills[d], shape.items@[s]]
        0 <= d < drills.len() && 0 <= s < shape.items@.len() && s < template.pads@.len()
            && template.pads@[s].hole_diameter is None ==> (shape.items@[s] matches Item::Pad {
            shape: pad,
            ..
        } ==> !pad_is_near(
            pad,
            drills[d].center,
            drills[d].radius as int,
            clearance,
            f < probe.leads@.len() && is_set_at(probe.leads@[f].drills@, d, s),
        ))
}

/// No drill of the candidate is near a surface-mount pad of part `f`: a pad
/// without a drill of its own at its centre.
pub open spec fn drills_keep_off_leads(
    doc: BoardDoc,
    f: int,
    shape: PlacedShape,
    probe: PlacementProbe,
    clearance: int,
) -> bool {
    let fp = doc.footprints@[f];
    forall|d: int, p: int|
        #![trigger shape.drills@[d], fp.pad_item_ids@[p]]
        0 <= d < shape.drills@.len() && 0 <= p < fp.pad_item_ids@.len() ==> (doc.node.item(
            fp.pad_item_ids@[p],
        ) matches Some(Item::Pad { shape: pad, .. }) ==> {
            let center = match pad {
                PadShape::Circle(c) => c.center,
                PadShape::Polygon { center, .. } => center,
            };
            ||| exists|e: int|
                0 <= e < fp.assembly_drills@.len() && (#[trigger] fp.assembly_drills@[e]).center
                    == center
            ||| !pad_is_near(
                pad,
                shape.drills@[d].center,
                shape.drills@[d].radius as int,
                clearance,
                f < probe.leads@.len() && is_set_at(probe.leads@[f].pads@, d, p),
            )
        })
}

/// A hit belongs to a part that is lifted off the board for the check.
pub open spec fn is_lifted(doc: BoardDoc, excluding: Seq<FootprintId>, id: ItemId) -> bool {
    exists|f: int|
        0 <= f < doc.footprints@.len() && excluding.contains((#[trigger] doc.footprints@[f]).id) && (
        doc.footprints@[f].pad_item_ids@.contains(id)
            || doc.footprints@[f].hole_item_ids@.contains(id))
}

proof fn lemma_near(shape: PadShape, disc: Circle, clearance: int, measured: bool)
    ensures
        pad_near_disc(shape, disc, clearance, measured) == pad_is_near(
            shape,
            disc.center,
            disc.radius as int,
            clearance,
            measured,
        ),
{
}

proof fn lemma_no_free_hits(doc: BoardDoc, excluding: Seq<FootprintId>, hits: Seq<ItemId>)
    ensures
        free_hits(doc.footprints@, excluding, hits) == 0 <==> forall|h: int|
            0 <= h < hits.len() ==> is_lifted(doc, excluding, #[trigger] hits[h]),
    decreases hits.len(),
{
    if hits.len() > 0 {
        let init = hits.drop_last();
        lemma_no_free_hits(doc, excluding, init);
        assert(hits[hits.len() - 1] == hits.last());
        assert(is_excluded(doc.footprints@, excluding, hits.last()) == is_lifted(
            doc,
            excluding,
            hits.last(),
        ));
        if free_hits(doc.footprints@, excluding, hits) == 0 {
            assert forall|h: int| 0 <= h < hits.len() implies is_lifted(
                doc,
                excluding,
                #[trigger] hits[h],
            ) by {
                if h < init.len() {
                    assert(init[h] == hits[h]);
                }
            }
        }
        if forall|h: int| 0 <= h < hits.len() ==> is_lifted(doc, excluding, #[trigger] hits[h]) {
            assert forall|h: int| 0 <= h < init.len() implies is_lifted(
                doc,
                excluding,
                #[trigger] init[h],
            ) by {
                assert(init[h] == hits[h]);
            }
        }
    }
}

proof fn lemma_no_collisions(doc: BoardDoc, excluding: Seq<FootprintId>, items: Seq<ItemProbe>)
    ensures
        collisions(doc.footprints@, excluding, items) == 0 <==> forall|i: int, h: int|
            0 <= i < items.len() && 0 <= h < items[i].hits@.len() ==> is_lifted(
                doc,
                excluding,
                #[trigger] items[i].hits@[h],
            ),
    decreases items.len(),
{
    if items.len() > 0 {
        let init = items.drop_last();
        let n = items.len() - 1;
        lemma_no_collisions(doc, excluding, init);
        lemma_no_free_hits(doc, excluding, items.last().hits@);
        assert(items[n] == items.last());
        if collisions(doc.footprints@, excluding, items) == 0 {
            assert forall|i: int, h: int|
                0 <= i < items.len() && 0 <= h < items[i].hits@.len() implies is_lifted(
                doc,
                excluding,
                #[trigger] items[i].hits@[h],
            ) by {
                if i < n {
                    assert(init[i].hits@[h] == items[i].hits@[h]);
                }
            }
        }
        if forall|i: int, h: int|
            0 <= i < items.len() && 0 <= h < items[i].hits@.len() ==> is_lifted(
                doc,
                excluding,
                #[trigger] items[i].hits@[h],
            ) {
            assert forall|i: int, h: int|
                0 <= i < init.len() && 0 <= h < init[i].hits@.len() implies is_lifted(
                doc,
                excluding,
                #[trigger] init[i].hits@[h],
            ) by {
                assert(init[i].hits@[h] == items[i].hits@[h]);
            }
            assert forall|h: int| 0 <= h < items.last().hits@.len() implies is_lifted(
                doc,
                excluding,
                #[trigger] items.last().hits@[h],
            ) by {
                assert(items[n].hits@[h] == items.last().hits@[h]);
            }
        }
    }
}

proof fn lemma_item_print(
    doc: BoardDoc,
    item: Item,
    ink: InkProbe,
    rules: FabRules,
    excluding: Seq<FootprintId>,
)
    ensures
        doc.ink_error(item, ink, rules, excluding) is None <==> item_keeps_off_print(
            doc,
            item,
            ink,
            excluding,
            rules.silk_to_pad as int,
        ),
{
    let c = rules.silk_to_pad as int;
    match item {
        Item::Pad { shape, layer, .. } => {
            if doc.ink_error(item, ink, rules, excluding) is None {
                assert forall|f: int|
                    #![trigger doc.footprints@[f]]
                    counts(doc, excluding, f) && doc.footprints@[f].pin1_marker is Some && layer
                        == LayerId::FCu implies !pad_is_near(
                    shape,
                    doc.footprints@[f].pin1_marker->0.center,
                    200_000,
                    c,
                    is_set(ink.markers@, f),
                ) by {}
            }
        },
        _ => {},
    }
}

proof fn lemma_items_print(
    doc: BoardDoc,
    items: Seq<Item>,
    probes: Seq<ItemProbe>,
    rules: FabRules,
    excluding: Seq<FootprintId>,
    n: nat,
)
    requires
        n <= items.len(),
        items.len() == probes.len(),
    ensures
        doc.first_ink_error(items, probes, rules, excluding, n) is None <==> forall|i: int|
            0 <= i < n ==> item_keeps_off_print(
                doc,
                #[trigger] items[i],
                probes[i].ink,
                excluding,
                rules.silk_to_pad as int,
            ),
    decreases n,
{
    if n > 0 {
        lemma_items_print(doc, items, probes, rules, excluding, (n - 1) as nat);
        lemma_item_print(doc, items[n - 1], probes[n - 1].ink, rules, excluding);
    }
}

proof fn lemma_leads(
    doc: BoardDoc,
    f: int,
    template: FootprintTemplate,
    shape: PlacedShape,
    probe: PlacementProbe,
    rules: FabRules,
)
    requires
        0 <= f < doc.footprints@.len(),
    ensures
        doc.lead_trouble_with(f, template, shape, probe.leads@, rules) <==> !(
        leads_keep_off_drills(doc, f, template, shape, probe, rules.lead_to_hole as int)
            && drills_keep_off_leads(doc, f, shape, probe, rules.lead_to_hole as int)),
{
    let fp = doc.footprints@[f];
    let c = rules.lead_to_hole as int;
    let md = if f < probe.leads@.len() {
        probe.leads@[f].drills@
    } else {
        Seq::empty()
    };
    let mp = if f < probe.leads@.len() {
        probe.leads@[f].pads@
    } else {
        Seq::empty()
    };
    if doc.lead_near_drill_of(fp, template, shape.items@, md, c) {
        let (d, s) = choose|d: int, s: int|
            0 <= d < fp.assembly_drills@.len() && #[trigger] is_lead(template, shape.items@, s)
                && pad_near_disc(
                crate::placement::pad_shape(shape.items@[s]),
                #[trigger] fp.assembly_drills@[d],
                c,
                flag2(md, d, s),
            );
        lemma_near(crate::placement::pad_shape(shape.items@[s]), fp.assembly_drills@[d], c, flag2(md, d, s));
        assert(!leads_keep_off_drills(doc, f, template, shape, probe, c)) by {
            let drills = doc.footprints@[f].assembly_drills@;
            assert(drills[d] == fp.assembly_drills@[d] && shape.items@[s] is Pad);
        }
    }
    if !leads_keep_off_drills(doc, f, template, shape, probe, c) {
        let drills = fp.assembly_drills@;
        let (d, s) = choose|d: int, s: int|
            #![trigger drills[d], shape.items@[s]]
            !(0 <= d < drills.len() && 0 <= s < shape.items@.len() && s < template.pads@.len()
                && template.pads@[s].hole_diameter is None ==> (shape.items@[s] matches Item::Pad {
                shape: pad,
                ..
            } ==> !pad_is_near(
                pad,
                drills[d].center,
                drills[d].radius as int,
                c,
                f < probe.leads@.len() && is_set_at(probe.leads@[f].drills@, d, s),
            )));
        assert(is_lead(template, shape.items@, s));
        lemma_near(crate::placement::pad_shape(shape.items@[s]), drills[d], c, flag2(md, d, s));
        assert(doc.lead_near_drill_of(fp, template, shape.items@, md, c));
    }
    if doc.drill_near_lead_of(fp, shape.drills@, mp, c) {
        let (d, p) = choose|d: int, p: int|
            0 <= d < shape.drills@.len() && #[trigger] doc.is_lead_of(fp, p) && pad_near_disc(
                crate::placement::pad_shape(doc.node.item(fp.pad_item_ids@[p])->0),
                #[trigger] shape.drills@[d],
                c,
                flag2(mp, d, p),
            );
        lemma_near(
            crate::placement::pad_shape(doc.node.item(fp.pad_item_ids@[p])->0),
            shape.drills@[d],
            c,
            flag2(mp, d, p),
        );
        assert(!drills_keep_off_leads(doc, f, shape, probe, c)) by {
            assert(shape.drills@[d] == shape.drills@[d] && fp.pad_item_ids@[p]
                == doc.footprints@[f].pad_item_ids@[p]);
        }
    }
    if !drills_keep_off_leads(doc, f, shape, probe, c) {
        let (d, p) = choose|d: int, p: int|
            #![trigger shape.drills@[d], fp.pad_item_ids@[p]]
            !(0 <= d < shape.drills@.len() && 0 <= p < fp.pad_item_ids@.len() ==> (doc.node.item(
                fp.pad_item_ids@[p],
            ) matches Some(Item::Pad { shape: pad, .. }) ==> {
                let center = match pad {
                    PadShape::Circle(c) => c.center,
                    PadShape::Polygon { center, .. } => center,
                };
                ||| exists|e: int|
                    0 <= e < fp.assembly_drills@.len() && (#[trigger] fp.assembly_drills@[e]).center
                        == center
                ||| !pad_is_near(
                    pad,
                    shape.drills@[d].center,
                    shape.drills@[d].radius as int,
                    c,
                    f < probe.leads@.len() && is_set_at(probe.leads@[f].pads@, d, p),
                )
            }));
        assert(doc.is_lead_of(fp, p));
        lemma_near(
            crate::placement::pad_shape(doc.node.item(fp.pad_item_ids@[p])->0),
            shape.drills@[d],
            c,
            flag2(mp, d, p),
        );
        assert(doc.drill_near_lead_of(fp, shape.drills@, mp, c));
    }
}

/// An accepted pose hides no front label: no text on the front is under the
/// body, and no text is under a pad on its own side.
pub proof fn law_an_accepted_pose_hides_no_label(
    doc: BoardDoc,
    template: FootprintTemplate,
    shape: PlacedShape,
    probe: PlacementProbe,
    rules: FabRules,
    excluding: Seq<FootprintId>,
    t: int,
)
    requires
        probe.items@.len() == shape.items@.len(),
        doc.placement_verdict(template, shape, probe, rules, excluding) is Ok,
        0 <= t < doc.silk_texts@.len(),
    ensures
        doc.silk_texts@[t].layer == LayerId::FCu && t < probe.body_ink.texts@.len()
            ==> !probe.body_ink.texts@[t],
        forall|i: int|
            #![trigger shape.items@[i]]
            0 <= i < shape.items@.len() ==> (shape.items@[i] matches Item::Pad { layer, .. }
                ==> doc.silk_texts@[t].layer == layer && t < probe.items@[i].ink.texts@.len()
                ==> !probe.items@[i].ink.texts@[t]),
{
    lemma_items_print(doc, shape.items@, probe.items@, rules, excluding, shape.items@.len());
    assert(doc.silk_texts@[t].layer == LayerId::FCu || doc.silk_texts@[t].layer == LayerId::BCu);
    assert forall|i: int| #![trigger shape.items@[i]] 0 <= i < shape.items@.len() implies (
    shape.items@[i] matches Item::Pad { layer, .. } ==> doc.silk_texts@[t].layer == layer && t
        < probe.items@[i].ink.texts@.len() ==> !probe.items@[i].ink.texts@[t]) by {
        assert(item_keeps_off_print(
            doc,
            shape.items@[i],
            probe.items@[i].ink,
            excluding,
            rules.silk_to_pad as int,
        ));
    }
}

/// What is measured of print on the back under the body, and of bodies and
/// markers of parts that are lifted off the board, makes no difference.
pub proof fn law_print_on_the_back_is_not_in_the_way(
    doc: BoardDoc,
    template: FootprintTemplate,
    shape: PlacedShape,
    probe: PlacementProbe,
    other: PlacementProbe,
    rules: FabRules,
    excluding: Seq<FootprintId>,
)
    requires
        probe.items == other.items,
        probe.leads == other.leads,
        probe.body_on_board == other.body_on_board,
        forall|t: int|
            0 <= t < doc.silk_texts@.len() && (#[trigger] doc.silk_texts@[t]).layer != LayerId::BCu
                ==> is_set(probe.body_ink.texts@, t) == is_set(other.body_ink.texts@, t),
        forall|d: int|
            0 <= d < doc.silk_dots@.len() && (#[trigger] doc.silk_dots@[d]).layer != LayerId::BCu
                ==> is_set(probe.body_ink.dots@, d) == is_set(other.body_ink.dots@, d),
        forall|f: int|
            #![trigger doc.footprints@[f]]
            counts(doc, excluding, f) ==> {
                &&& is_set(probe.bodies@, f) == is_set(other.bodies@, f)
                &&& is_set(probe.body_ink.markers@, f) == is_set(other.body_ink.markers@, f)
            },
    ensures
        doc.placement_verdict(template, shape, probe, rules, excluding) == doc.placement_verdict(
            template,
            shape,
            other,
            rules,
            excluding,
        ),
{
    assert(doc.hits_text(LayerId::FCu, probe.body_ink) == doc.hits_text(
        LayerId::FCu,
        other.body_ink,
    )) by {
        assert forall|t: int|
            0 <= t < doc.silk_texts@.len() && (#[trigger] doc.silk_texts@[t]).layer
                == LayerId::FCu implies is_set(probe.body_ink.texts@, t) == is_set(
            other.body_ink.texts@,
            t,
        ) by {}
    }
    assert(doc.body_over_dot(probe.body_ink, excluding) == doc.body_over_dot(
        other.body_ink,
        excluding,
    )) by {
        assert forall|f: int| #![trigger doc.footprints@[f]] counts(doc, excluding, f) implies is_set(
            probe.body_ink.markers@,
            f,
        ) == is_set(other.body_ink.markers@, f) by {}
    }
    assert(doc.body_overlap(probe.bodies@, excluding) == doc.body_overlap(
        other.bodies@,
        excluding,
    )) by {
        assert forall|f: int| #![trigger doc.footprints@[f]] counts(doc, excluding, f) implies is_set(
            probe.bodies@,
            f,
        ) == is_set(other.bodies@, f) by {}
    }
}

/// An accepted pose lies on the board, pads, holes and body, and hits nothing
/// but what is lifted off the board.
pub proof fn law_an_accepted_pose_is_free(
    doc: BoardDoc,
    template: FootprintTemplate,
    shape: PlacedShape,
    probe: PlacementProbe,
    rules: FabRules,
    excluding: Seq<FootprintId>,
)
    requires
        doc.placement_verdict(template, shape, probe, rules, excluding) is Ok,
    ensures
        probe.body_on_board,
        forall|i: int| 0 <= i < probe.items@.len() ==> (#[trigger] probe.items@[i]).on_board,
        forall|i: int, h: int|
            0 <= i < probe.items@.len() && 0 <= h < probe.items@[i].hits@.len() ==> is_lifted(
                doc,
                excluding,
                #[trigger] probe.items@[i].hits@[h],
            ),
        forall|f: int|
            #![trigger doc.footprints@[f]]
            counts(doc, excluding, f) ==> !is_set(probe.bodies@, f),
{
    lemma_no_collisions(doc, excluding, probe.items@);
    assert forall|f: int| #![trigger doc.footprints@[f]] counts(doc, excluding, f) implies !is_set(
        probe.bodies@,
        f,
    ) by {
        assert(!doc.body_overlap(probe.bodies@, excluding));
    }
}

/// At an accepted pose neither the body nor a pad lands on anything printed on
/// its side.
pub proof fn law_an_accepted_pose_keeps_off_print(
    doc: BoardDoc,
    template: FootprintTemplate,
    shape: PlacedShape,
    probe: PlacementProbe,
    rules: FabRules,
    excluding: Seq<FootprintId>,
)
    requires
        probe.items@.len() == shape.items@.len(),
        doc.placement_verdict(template, shape, probe, rules, excluding) is Ok,
    ensures
        body_keeps_off_print(doc, probe.body_ink, excluding),
        forall|i: int|
            0 <= i < shape.items@.len() ==> item_keeps_off_print(
                doc,
                #[trigger] shape.items@[i],
                probe.items@[i].ink,
                excluding,
                rules.silk_to_pad as int,
            ),
{
    lemma_items_print(doc, shape.items@, probe.items@, rules, excluding, shape.items@.len());
    assert(!doc.body_over_dot(probe.body_ink, excluding));
    assert(!doc.hits_text(LayerId::FCu, probe.body_ink));
    assert forall|f: int|
        #![trigger doc.footprints@[f]]
        counts(doc, excluding, f) && doc.footprints@[f].pin1_marker is Some implies !is_set(
        probe.body_ink.markers@,
        f,
    ) by {}
}

/// At an accepted pose no lead comes near a drill of another part, neither the
/// candidate's near a placed part's nor the other way round.
pub proof fn law_an_accepted_pose_keeps_leads_off_drills(
    doc: BoardDoc,
    template: FootprintTemplate,
    shape: PlacedShape,
    probe: PlacementProbe,
    rules: FabRules,
    excluding: Seq<FootprintId>,
    f: int,
)
    requires
        doc.placement_verdict(template, shape, probe, rules, excluding) is Ok,
        counts(doc, excluding, f),
    ensures
        leads_keep_off_drills(doc, f, template, shape, probe, rules.lead_to_hole as int),
        drills_keep_off_leads(doc, f, shape, probe, rules.lead_to_hole as int),
{
    lemma_leads(doc, f, template, shape, probe, rules);
    assert(!doc.lead_to_hole(template, shape, probe.leads@, rules, excluding));
}

/// A pose is accepted if nothing is in its way: it lies on the board, hits
/// nothing that counts, keeps off the print, and keeps its body and its leads
/// apart from those of the other parts.
pub proof fn law_a_clear_pose_is_accepted(
    doc: BoardDoc,
    template: FootprintTemplate,
    shape: PlacedShape,
    probe: PlacementProbe,
    rules: FabRules,
    excluding: Seq<FootprintId>,
)
    requires
        probe.items@.len() == shape.items@.len(),
        probe.body_on_board,
        forall|i: int| 0 <= i < probe.items@.len() ==> (#[trigger] probe.items@[i]).on_board,
        forall|i: int, h: int|
            0 <= i < probe.items@.len() && 0 <= h < probe.items@[i].hits@.len() ==> is_lifted(
                doc,
                excluding,
                #[trigger] probe.items@[i].hits@[h],
            ),
        forall|i: int|
            0 <= i < shape.items@.len() ==> item_keeps_off_print(
                doc,
                #[trigger] shape.items@[i],
                probe.items@[i].ink,
                excluding,
                rules.silk_to_pad as int,
            ),
        body_keeps_off_print(doc, probe.body_ink, excluding),
        forall|f: int|
            #![trigger doc.footprints@[f]]
            counts(doc, excluding, f) ==> {
                &&& !is_set(probe.bodies@, f)
                &&& leads_keep_off_drills(
                    doc,
                    f,
                    template,
                    shape,
                    probe,
                    rules.lead_to_hole as int,
                )
                &&& drills_keep_off_leads(doc, f, shape, probe, rules.lead_to_hole as int)
            },
    ensures
        doc.placement_verdict(template, shape, probe, rules, excluding) == Ok::<(), PlacementError>(
            (),
        ),
{
    lemma_no_collisions(doc, excluding, probe.items@);
    lemma_items_print(doc, shape.items@, probe.items@, rules, excluding, shape.items@.len());
    if doc.lead_to_hole(template, shape, probe.leads@, rules, excluding) {
        let f = choose|f: int|
            0 <= f < doc.footprints@.len() && !excluding.contains(
                (#[trigger] doc.footprints@[f]).id,
            ) && doc.lead_trouble_with(f, template, shape, probe.leads@, rules);
        assert(counts(doc, excluding, f));
        lemma_leads(doc, f, template, shape, probe, rules);
    }
    if doc.body_overlap(probe.bodies@, excluding) {
        let f = choose|f: int|
            0 <= f < doc.footprints@.len() && !excluding.contains(
                (#[trigger] doc.footprints@[f]).id,
            ) && crate::placement::flag(probe.bodies@, f);
        assert(counts(doc, excluding, f));
    }
    if doc.body_over_dot(probe.body_ink, excluding) {
        assert forall|f: int| #![trigger doc.footprints@[f]] counts(doc, excluding, f)
            && doc.footprints@[f].pin1_marker is Some implies !is_set(
            probe.body_ink.markers@,
            f,
        ) by {}
        assert(!doc.body_over_dot(probe.body_ink, excluding));
    }
}

/// A refusal tells what is wrong, the board's edge first, then collisions,
/// print under a pad, leads, bodies, print under the body, and the body's
/// distance from the edge last.
pub proof fn law_a_refusal_tells_its_reason(
    doc: BoardDoc,
    template: FootprintTemplate,
    shape: PlacedShape,
    probe: PlacementProbe,
    rules: FabRules,
    excluding: Seq<FootprintId>,
    e: PlacementError,
)
    requires
        probe.items@.len() == shape.items@.len(),
        doc.placement_verdict(template, shape, probe, rules, excluding) == Err::<
            (),
            PlacementError,
        >(e),
    ensures
        e == PlacementError::OffBoard <==> exists|i: int|
            0 <= i < probe.items@.len() && !(#[trigger] probe.items@[i]).on_board,
        e != PlacementError::OffBoard ==> (e is Collision <==> exists|i: int, h: int|
            0 <= i < probe.items@.len() && 0 <= h < probe.items@[i].hits@.len() && !is_lifted(
                doc,
                excluding,
                #[trigger] probe.items@[i].hits@[h],
            )),
        e == PlacementError::OverSilkText || e == PlacementError::OverSilkDot ==> !(
        body_keeps_off_print(doc, probe.body_ink, excluding) && forall|i: int|
            0 <= i < shape.items@.len() ==> item_keeps_off_print(
                doc,
                #[trigger] shape.items@[i],
                probe.items@[i].ink,
                excluding,
                rules.silk_to_pad as int,
            )),
        e == PlacementError::LeadToHole ==> exists|f: int|
            #![trigger doc.footprints@[f]]
            counts(doc, excluding, f) && !(leads_keep_off_drills(
                doc,
                f,
                template,
                shape,
                probe,
                rules.lead_to_hole as int,
            ) && drills_keep_off_leads(doc, f, shape, probe, rules.lead_to_hole as int)),
        e == PlacementError::BodyOverlap ==> exists|f: int|
            #![trigger doc.footprints@[f]]
            counts(doc, excluding, f) && is_set(probe.bodies@, f),
        e == PlacementError::BodyOffBoard ==> !probe.body_on_board && body_keeps_off_print(
            doc,
            probe.body_ink,
            excluding,
        ),
        !(e is Dfm),
{
    lemma_no_collisions(doc, excluding, probe.items@);
    lemma_items_print(doc, shape.items@, probe.items@, rules, excluding, shape.items@.len());
    lemma_ink_kinds(doc, shape.items@, probe.items@, rules, excluding, shape.items@.len());
    if doc.lead_to_hole(template, shape, probe.leads@, rules, excluding) {
        let f = choose|f: int|
            0 <= f < doc.footprints@.len() && !excluding.contains(
                (#[trigger] doc.footprints@[f]).id,
            ) && doc.lead_trouble_with(f, template, shape, probe.leads@, rules);
        assert(counts(doc, excluding, f));
        lemma_leads(doc, f, template, shape, probe, rules);
    }
    if doc.body_overlap(probe.bodies@, excluding) {
        let f = choose|f: int|
            0 <= f < doc.footprints@.len() && !excluding.contains(
                (#[trigger] doc.footprints@[f]).id,
            ) && crate::placement::flag(probe.bodies@, f);
        assert(counts(doc, excluding, f));
    }
    if e == PlacementError::OverSilkText || e == PlacementError::OverSilkDot {
        if doc.first_ink_error(
            shape.items@,
            probe.items@,
            rules,
            excluding,
            shape.items@.len(),
        ) is None {
            if doc.hits_text(LayerId::FCu, probe.body_ink) {
                assert(!body_keeps_off_print(doc, probe.body_ink, excluding));
            } else {
                assert(doc.body_over_dot(probe.body_ink, excluding));
                assert(!body_keeps_off_print(doc, probe.body_ink, excluding)) by {
                    if exists|f: int|
                        0 <= f < doc.footprints@.len() && !excluding.contains(
                            (#[trigger] doc.footprints@[f]).id,
                        ) && doc.footprints@[f].pin1_marker is Some && crate::placement::flag(
                            probe.body_ink.markers@,
                            f,
                        ) {
                        let f = choose|f: int|
                            0 <= f < doc.footprints@.len() && !excluding.contains(
                                (#[trigger] doc.footprints@[f]).id,
                            ) && doc.footprints@[f].pin1_marker is Some && crate::placement::flag(
                                probe.body_ink.markers@,
                                f,
                            );
                        assert(counts(doc, excluding, f));
                    }
                }
            }
        }
    }
    if e == PlacementError::BodyOffBoard {
        assert(!doc.body_over_dot(probe.body_ink, excluding));
        assert(!doc.hits_text(LayerId::FCu, probe.body_ink));
        assert forall|f: int|
            #![trigger doc.footprints@[f]]
            counts(doc, excluding, f) && doc.footprints@[f].pin1_marker is Some implies !is_set(
            probe.body_ink.markers@,
            f,
        ) by {}
    }
}

proof fn lemma_ink_kinds(
    doc: BoardDoc,
    items: Seq<Item>,
    probes: Seq<ItemProbe>,
    rules: FabRules,
    excluding: Seq<FootprintId>,
    n: nat,
)
    ensures
        doc.first_ink_error(items, probes, rules, excluding, n) matches Some(e) ==> e
            == PlacementError::OverSilkText || e == PlacementError::OverSilkDot,
    decreases n,
{
    if n > 0 {
        lemma_ink_kinds(doc, items, probes, rules, excluding, (n - 1) as nat);
    }
}

/// Of the collisions that are reported, each hit counts once unless it belongs
/// to a part that is lifted off the board: with one hit more, one more.
pub proof fn law_every_hit_counts_once(
    doc: BoardDoc,
    excluding: Seq<FootprintId>,
    items: Seq<ItemProbe>,
    last: ItemProbe,
    longer: ItemProbe,
    id: ItemId,
)
    requires
        longer.hits@ == last.hits@.push(id),
    ensures
        collisions(doc.footprints@, excluding, items.push(longer)) == collisions(
            doc.footprints@,
            excluding,
            items.push(last),
        ) + (if is_lifted(doc, excluding, id) {
            0int
        } else {
            1
        }),
        collisions(doc.footprints@, excluding, Seq::empty()) == 0,
        last.hits@.len() == 0 ==> collisions(doc.footprints@, excluding, items.push(last))
            == collisions(doc.footprints@, excluding, items),
{
    assert(items.push(longer).drop_last() =~= items);
    assert(items.push(last).drop_last() =~= items);
    assert(longer.hits@.drop_last() =~= last.hits@);
    assert(is_excluded(doc.footprints@, excluding, id) == is_lifted(doc, excluding, id));
}

} // verus!
