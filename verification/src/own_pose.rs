//! A part that was just placed may stand where it stands.

use vstd::prelude::*;

use crate::board_doc::{dot_disc, marker_disc, BoardDoc, FootprintId, PlacedFootprint};
use crate::dfm::FabRules;
use crate::footprint::FootprintTemplate;
use crate::geom::{Angle, Point};
use crate::item::{lemma_concat_item, Entry, Item, ItemId, LayerId};
use crate::parts::TemplateVerdicts;
use crate::placement::{
    collisions, flag, flag2, free_hits, is_excluded, is_lead, law_a_part_never_collides_with_itself,
    lifted, pad_near_disc, pad_shape, InkProbe, ItemProbe, PlacedShape, PlacementProbe,
};

verus! {

/// The same ink was hit, as far as texts, dots and the markers of the first
/// `n` footprints go.
pub open spec fn same_ink(one: InkProbe, other: InkProbe, n: int) -> bool {
    &&& one.texts@ == other.texts@
    &&& one.dots@ == other.dots@
    &&& forall|f: int|
        0 <= f < n ==> #[trigger] flag(one.markers@, f) == flag(other.markers@, f)
}

/// `id` is a pad or a hole of the footprint.
pub open spec fn is_own_item(fp: PlacedFootprint, id: ItemId) -> bool {
    fp.pad_item_ids@.contains(id) || fp.hole_item_ids@.contains(id)
}

/// What measuring the same shape in the same place gives once the part `own`
/// stands there, after the `n` parts that were on the board before: the same
/// as before, except that its own pads and holes may be among the hits.
pub open spec fn measured_again(
    before: PlacementProbe,
    after: PlacementProbe,
    own: PlacedFootprint,
    n: int,
) -> bool {
    &&& after.items@.len() == before.items@.len()
    &&& forall|i: int|
        0 <= i < after.items@.len() ==> {
            &&& (#[trigger] after.items@[i]).on_board == before.items@[i].on_board
            &&& same_ink(before.items@[i].ink, after.items@[i].ink, n)
            &&& forall|h: int|
                0 <= h < after.items@[i].hits@.len() ==> before.items@[i].hits@.contains(
                    #[trigger] after.items@[i].hits@[h],
                ) || is_own_item(own, after.items@[i].hits@[h])
        }
    &&& forall|f: int|
        #![trigger after.leads@[f]]
        #![trigger before.leads@[f]]
        0 <= f < n ==> (f < after.leads@.len() <==> f < before.leads@.len()) && (f
            < after.leads@.len() ==> after.leads@[f] == before.leads@[f])
    &&& forall|f: int|
        0 <= f < n ==> #[trigger] flag(after.bodies@, f) == flag(before.bodies@, f)
    &&& same_ink(before.body_ink, after.body_ink, n)
    &&& after.body_on_board == before.body_on_board
}

proof fn lemma_nothing_excluded(fps: Seq<PlacedFootprint>, hits: Seq<ItemId>)
    ensures
        free_hits(fps, Seq::empty(), hits) == hits.len(),
    decreases hits.len(),
{
    if hits.len() > 0 {
        lemma_nothing_excluded(fps, hits.drop_last());
        assert(!is_excluded(fps, Seq::empty(), hits.last()));
    }
}

/// Without anything excluded, no collision means no hit.
proof fn lemma_no_hits(fps: Seq<PlacedFootprint>, items: Seq<ItemProbe>)
    requires
        collisions(fps, Seq::empty(), items) == 0,
    ensures
        forall|i: int| 0 <= i < items.len() ==> (#[trigger] items[i]).hits@.len() == 0,
    decreases items.len(),
{
    if items.len() > 0 {
        lemma_nothing_excluded(fps, items.last().hits@);
        lemma_no_hits(fps, items.drop_last());
        assert forall|i: int| 0 <= i < items.len() implies (#[trigger] items[i]).hits@.len()
            == 0 by {
            if i < items.len() - 1 {
                assert(items.drop_last()[i] == items[i]);
            }
        }
    }
}

/// Hits on a part's own items alone are no collisions while it is lifted.
proof fn lemma_own_hits_are_free(fps: Seq<PlacedFootprint>, f: int, items: Seq<ItemProbe>)
    requires
        0 <= f < fps.len(),
        forall|i: int, h: int|
            #![trigger items[i].hits@[h]]
            0 <= i < items.len() && 0 <= h < items[i].hits@.len() ==> is_own_item(
                fps[f],
                items[i].hits@[h],
            ),
    ensures
        collisions(fps, seq![fps[f].id], items) == 0,
    decreases items.len(),
{
    if items.len() > 0 {
        let init = items.drop_last();
        assert forall|i: int, h: int|
            #![trigger init[i].hits@[h]]
            0 <= i < init.len() && 0 <= h < init[i].hits@.len() implies is_own_item(
            fps[f],
            init[i].hits@[h],
        ) by {
            assert(init[i] == items[i]);
            assert(is_own_item(fps[f], items[i].hits@[h]));
        }
        lemma_own_hits_are_free(fps, f, init);
        let last = items.last().hits@;
        assert forall|h: int| 0 <= h < last.len() implies fps[f].pad_item_ids@.contains(
            #[trigger] last[h],
        ) || fps[f].hole_item_ids@.contains(last[h]) by {
            assert(is_own_item(fps[f], items[items.len() - 1].hits@[h]));
        }
        law_a_part_never_collides_with_itself(fps, f, last);
    }
}

/// What a board and the same board with one more part, that carries no marker
/// and is lifted, have in common.
spec fn one_more_part(before: BoardDoc, after: BoardDoc) -> bool {
    let n = before.footprints@.len() as int;
    &&& before.wf()
    &&& after.silk_texts@ == before.silk_texts@
    &&& after.silk_dots@ == before.silk_dots@
    &&& after.footprints@.len() == n + 1
    &&& forall|f: int| 0 <= f < n ==> (#[trigger] after.footprints@[f]) == before.footprints@[f]
    &&& forall|id: ItemId|
        before.node.item(id) is Some ==> #[trigger] after.node.item(id) == before.node.item(id)
}

proof fn lemma_ink_again(
    before: BoardDoc,
    after: BoardDoc,
    items: Seq<Item>,
    old_probes: Seq<ItemProbe>,
    new_probes: Seq<ItemProbe>,
    rules: FabRules,
    m: nat,
)
    requires
        one_more_part(before, after),
        m <= items.len(),
        old_probes.len() == items.len(),
        new_probes.len() == items.len(),
        forall|i: int|
            0 <= i < items.len() ==> same_ink(
                old_probes[i].ink,
                (#[trigger] new_probes[i]).ink,
                before.footprints@.len() as int,
            ),
        before.first_ink_error(items, old_probes, rules, Seq::empty(), m) is None,
    ensures
        after.first_ink_error(
            items,
            new_probes,
            rules,
            seq![after.footprints@[before.footprints@.len() as int].id],
            m,
        ) is None,
    decreases m,
{
    if m > 0 {
        lemma_ink_again(
            before,
            after,
            items,
            old_probes,
            new_probes,
            rules,
            (m - 1) as nat,
        );
        let n = before.footprints@.len() as int;
        let own = after.footprints@[n].id;
        let one = old_probes[m - 1].ink;
        let other = new_probes[m - 1].ink;
        assert(same_ink(one, other, n));
        if items[m - 1] is Pad {
            let shape = items[m - 1]->Pad_shape;
            let layer = items[m - 1]->Pad_layer;
            assert(!before.hits_text(layer, one));
            assert(!after.hits_text(layer, other)) by {
                assert forall|t: int|
                    0 <= t < after.silk_texts@.len() && (#[trigger] after.silk_texts@[t]).layer
                        == layer implies !flag(other.texts@, t) by {
                    assert(before.silk_texts@[t].layer == layer);
                }
            }
            let clearance = rules.silk_to_pad as int;
            assert(!before.pad_over_dot(shape, layer, one, Seq::empty(), clearance));
            assert(seq![own][0] == own);
            assert(!after.pad_over_dot(shape, layer, other, seq![own], clearance)) by {
                if after.pad_over_dot(shape, layer, other, seq![own], clearance) {
                    assert forall|d: int|
                        0 <= d < after.silk_dots@.len() && (#[trigger] after.silk_dots@[d]).layer
                            == layer implies !pad_near_disc(
                        shape,
                        dot_disc(after.silk_dots@[d]),
                        clearance,
                        flag(other.dots@, d),
                    ) by {
                        assert(before.silk_dots@[d].layer == layer);
                    }
                    let f = choose|f: int|
                        0 <= f < after.footprints@.len() && !seq![own].contains(
                            (#[trigger] after.footprints@[f]).id,
                        ) && (marker_disc(after.footprints@[f]) matches Some(disc)
                            && pad_near_disc(shape, disc, clearance, flag(other.markers@, f)));
                    assert(seq![own].contains(own));
                    assert(f < n);
                    assert(flag(one.markers@, f) == flag(other.markers@, f));
                    assert(!Seq::<FootprintId>::empty().contains(before.footprints@[f].id));
                }
            }
        }
    }
}

proof fn lemma_leads_again(
    before: BoardDoc,
    after: BoardDoc,
    template: FootprintTemplate,
    shape: PlacedShape,
    old_probe: PlacementProbe,
    new_probe: PlacementProbe,
    rules: FabRules,
)
    requires
        one_more_part(before, after),
        measured_again(
            old_probe,
            new_probe,
            after.footprints@[before.footprints@.len() as int],
            before.footprints@.len() as int,
        ),
        !before.lead_to_hole(template, shape, old_probe.leads@, rules, Seq::empty()),
    ensures
        !after.lead_to_hole(
            template,
            shape,
            new_probe.leads@,
            rules,
            seq![after.footprints@[before.footprints@.len() as int].id],
        ),
{
    let n = before.footprints@.len() as int;
    let own = after.footprints@[n].id;
    if after.lead_to_hole(template, shape, new_probe.leads@, rules, seq![own]) {
        let f = choose|f: int|
            0 <= f < after.footprints@.len() && !seq![own].contains(
                (#[trigger] after.footprints@[f]).id,
            ) && after.lead_trouble_with(f, template, shape, new_probe.leads@, rules);
        assert(seq![own][0] == own);
        assert(seq![own].contains(own));
        assert(f < n);
        let fp = before.footprints@[f];
        assert(after.footprints@[f] == fp);
        assert(!Seq::<FootprintId>::empty().contains(fp.id));
        assert(!before.lead_trouble_with(f, template, shape, old_probe.leads@, rules));
        let clearance = rules.lead_to_hole as int;
        let measured_drills = if f < new_probe.leads@.len() {
            new_probe.leads@[f].drills@
        } else {
            Seq::empty()
        };
        let measured_pads = if f < new_probe.leads@.len() {
            new_probe.leads@[f].pads@
        } else {
            Seq::empty()
        };
        assert(f < new_probe.leads@.len() ==> new_probe.leads@[f] == old_probe.leads@[f]);
        assert(!before.lead_near_drill_of(fp, template, shape.items@, measured_drills, clearance));
        assert(!before.drill_near_lead_of(fp, shape.drills@, measured_pads, clearance));
        if after.lead_near_drill_of(fp, template, shape.items@, measured_drills, clearance) {
            let (d, s) = choose|d: int, s: int|
                0 <= d < fp.assembly_drills@.len() && #[trigger] is_lead(template, shape.items@, s)
                    && pad_near_disc(
                    pad_shape(shape.items@[s]),
                    #[trigger] fp.assembly_drills@[d],
                    clearance,
                    flag2(measured_drills, d, s),
                );
            assert(is_lead(template, shape.items@, s) && pad_near_disc(
                pad_shape(shape.items@[s]),
                fp.assembly_drills@[d],
                clearance,
                flag2(measured_drills, d, s),
            ));
        } else {
            let (d, p) = choose|d: int, p: int|
                0 <= d < shape.drills@.len() && #[trigger] after.is_lead_of(fp, p)
                    && pad_near_disc(
                    pad_shape(after.node.item(fp.pad_item_ids@[p])->0),
                    #[trigger] shape.drills@[d],
                    clearance,
                    flag2(measured_pads, d, p),
                );
            let id = before.footprints@[f].pad_item_ids@[p];
            assert(before.node.item(id) is Some);
            assert(after.node.item(id) == before.node.item(id));
            assert(before.is_lead_of(fp, p));
            assert(pad_near_disc(
                pad_shape(before.node.item(fp.pad_item_ids@[p])->0),
                shape.drills@[d],
                clearance,
                flag2(measured_pads, d, p),
            ));
        }
    }
}

proof fn lemma_body_again(
    before: BoardDoc,
    after: BoardDoc,
    old_probe: PlacementProbe,
    new_probe: PlacementProbe,
)
    requires
        one_more_part(before, after),
        measured_again(
            old_probe,
            new_probe,
            after.footprints@[before.footprints@.len() as int],
            before.footprints@.len() as int,
        ),
        !before.body_overlap(old_probe.bodies@, Seq::empty()),
        !before.body_over_dot(old_probe.body_ink, Seq::empty()),
    ensures
        !after.body_overlap(
            new_probe.bodies@,
            seq![after.footprints@[before.footprints@.len() as int].id],
        ),
        !after.body_over_dot(
            new_probe.body_ink,
            seq![after.footprints@[before.footprints@.len() as int].id],
        ),
{
    let n = before.footprints@.len() as int;
    let own = after.footprints@[n].id;
    assert(seq![own][0] == own);
    assert(seq![own].contains(own));
    if after.body_overlap(new_probe.bodies@, seq![own]) {
        let f = choose|f: int|
            0 <= f < after.footprints@.len() && !seq![own].contains(
                (#[trigger] after.footprints@[f]).id,
            ) && flag(new_probe.bodies@, f);
        assert(f < n);
        assert(!Seq::<FootprintId>::empty().contains(before.footprints@[f].id));
        assert(flag(old_probe.bodies@, f));
    }
    if after.body_over_dot(new_probe.body_ink, seq![own]) {
        let ink = old_probe.body_ink;
        assert forall|d: int|
            0 <= d < after.silk_dots@.len() && (#[trigger] after.silk_dots@[d]).layer
                == LayerId::FCu implies !flag(new_probe.body_ink.dots@, d) by {
            assert(before.silk_dots@[d].layer == LayerId::FCu);
        }
        let f = choose|f: int|
            0 <= f < after.footprints@.len() && !seq![own].contains(
                (#[trigger] after.footprints@[f]).id,
            ) && after.footprints@[f].pin1_marker is Some && flag(new_probe.body_ink.markers@, f);
        assert(f < n);
        assert(!Seq::<FootprintId>::empty().contains(before.footprints@[f].id));
        assert(flag(ink.markers@, f));
    }
}

/// A part that was just placed may stand where it stands: once it is on the
/// board, checking a move of it to its own pose passes. The check takes the
/// part for lifted, so it does not stand in its own way.
pub proof fn law_a_placed_part_may_stand_where_it_stands(
    before: BoardDoc,
    after: BoardDoc,
    template: FootprintTemplate,
    reference: Seq<char>,
    position: Point,
    rotation_deg: Angle,
    shape: PlacedShape,
    probe: PlacementProbe,
    verdicts: TemplateVerdicts,
    rules: FabRules,
    again: PlacementProbe,
)
    requires
        before.wf(),
        BoardDoc::probe_fits(shape, probe),
        before.place_verdict(template, shape, probe, verdicts, rules) is Ok,
        after.has_new_part(
            &before,
            template.name@,
            reference,
            position,
            rotation_deg,
            shape.items@,
            shape.courtyard,
            shape.drills,
        ),
        measured_again(
            probe,
            again,
            after.footprints@.last(),
            before.footprints@.len() as int,
        ),
    ensures
        after.placement_verdict(
            template,
            shape,
            again,
            rules,
            lifted(Some(after.footprints@.last().id)),
        ) is Ok,
{
    let n = before.footprints@.len() as int;
    let fp = after.footprints@.last();
    let excluding = seq![fp.id];
    assert(after.footprints@[n] == fp);
    assert(lifted(Some(fp.id)) == excluding);
    assert(one_more_part(before, after)) by {
        assert forall|f: int| 0 <= f < n implies (#[trigger] after.footprints@[f])
            == before.footprints@[f] by {
            assert(after.footprints@.drop_last()[f] == after.footprints@[f]);
        }
        assert forall|id: ItemId| before.node.item(id) is Some implies #[trigger] after.node.item(id)
            == before.node.item(id) by {
            lemma_concat_item(
                before.node.entries@,
                Seq::new(
                    shape.items@.len(),
                    |i: int|
                        Entry {
                            id: ItemId((before.node.next as int + i) as u64),
                            item: shape.items@[i],
                        },
                ),
                id,
            );
        }
    }
    lemma_no_hits(before.footprints@, probe.items@);
    assert forall|i: int, h: int|
        #![trigger again.items@[i].hits@[h]]
        0 <= i < again.items@.len() && 0 <= h < again.items@[i].hits@.len() implies is_own_item(
        fp,
        again.items@[i].hits@[h],
    ) by {
        assert(probe.items@[i].hits@.len() == 0);
        assert(again.items@[i].on_board == probe.items@[i].on_board);
    }
    lemma_own_hits_are_free(after.footprints@, n, again.items@);
    assert forall|i: int| 0 <= i < again.items@.len() implies (#[trigger] again.items@[i]).on_board by {
        assert(probe.items@[i].on_board);
    }
    lemma_ink_again(
        before,
        after,
        shape.items@,
        probe.items@,
        again.items@,
        rules,
        shape.items@.len(),
    );
    lemma_leads_again(before, after, template, shape, probe, again, rules);
    lemma_body_again(before, after, probe, again);
    assert(!after.hits_text(LayerId::FCu, again.body_ink)) by {
        assert(!before.hits_text(LayerId::FCu, probe.body_ink));
        assert forall|t: int|
            0 <= t < after.silk_texts@.len() && (#[trigger] after.silk_texts@[t]).layer
                == LayerId::FCu implies !flag(again.body_ink.texts@, t) by {
            assert(before.silk_texts@[t].layer == LayerId::FCu);
        }
    }
}

} // verus!
