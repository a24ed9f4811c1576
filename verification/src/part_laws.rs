//! What placing, moving and removing a part does to the board, and how parts,
//! pads and holes are found, told by what stands on the board before and after.

use vstd::prelude::*;

use crate::board_doc::{BoardDoc, FootprintId, PlacedFootprint};
use crate::dfm::{DfmViolation, FabRules};
use crate::footprint::{
    hard_only, hole_violations, is_hard, law_hard_violations_are_reported, pad_violations,
    FootprintTemplate, HoleTemplate, PadShapeKind, PadTemplate,
};
use crate::geom::{Angle, Circle, Point, Polygon, Unit};
use crate::item::{
    extended, item_of, lemma_concat_item, lemma_item_of_absent, lemma_item_of_index,
    lemma_without_item, Entry, Item, ItemId, NetId, PadShape,
};
use crate::nets::nets_in_use;
use crate::parts::{
    first_hole_at, first_pad_at, ids_of_kind, law_move_leaves_the_rest_alone,
    law_moved_pads_keep_their_nets, owned_ids, owner_of_hole, owner_of_pad, pad_numbered, part_at,
    part_named, pads_in, template_named, with_pad_nets, TemplateVerdicts,
};
use crate::placement::{PlacedShape, PlacementError, PlacementProbe};
use crate::vias::{crowds_a_drill, drilled, drills_crowd};
use crate::wires::wires_at_pads;
use crate::world::{are_world_items, hole_drills, outline_of, pad_drills, PadPose};

verus! {

/// A new part stands where it was put, with the name, body and drills asked
/// for and no marker; every other part stays as it is, and nothing else about
/// the board changes.
pub proof fn law_a_new_part_stands_where_it_was_put(
    before: BoardDoc,
    after: BoardDoc,
    name: Seq<char>,
    reference: Seq<char>,
    position: Point,
    rotation_deg: Angle,
    items: Seq<Item>,
    courtyard: Polygon,
    drills: Vec<Circle>,
)
    requires
        after.has_new_part(
            &before,
            name,
            reference,
            position,
            rotation_deg,
            items,
            courtyard,
            drills,
        ),
    ensures
        after.footprints@.len() == before.footprints@.len() + 1,
        after.footprints@.last().position == position,
        after.footprints@.last().rotation_deg == rotation_deg,
        after.footprints@.last().reference@ == reference,
        after.footprints@.last().template_name@ == name,
        after.footprints@.last().courtyard == courtyard,
        after.footprints@.last().assembly_drills == drills,
        after.footprints@.last().pin1_marker is None,
        forall|f: int|
            0 <= f < before.footprints@.len() ==> #[trigger] after.footprints@[f]
                == before.footprints@[f],
        after.outline@ == before.outline@,
        after.layer_count == before.layer_count,
        after.copper_weight == before.copper_weight,
        after.nets@ == before.nets@,
        after.zones@ == before.zones@,
        after.silk_texts@ == before.silk_texts@,
        after.silk_dots@ == before.silk_dots@,
        after.node.revision == before.node.revision + items.len(),
{
    assert forall|f: int| 0 <= f < before.footprints@.len() implies #[trigger] after.footprints@[f]
        == before.footprints@[f] by {
        assert(after.footprints@.drop_last()[f] == after.footprints@[f]);
    }
}

/// A new part owns what was put on the board for it: each of its items is on
/// the board, pads among its pads and holes among its holes, and nothing that
/// was there before is lost.
pub proof fn law_a_new_part_owns_its_items(
    before: BoardDoc,
    after: BoardDoc,
    name: Seq<char>,
    reference: Seq<char>,
    position: Point,
    rotation_deg: Angle,
    items: Seq<Item>,
    courtyard: Polygon,
    drills: Vec<Circle>,
    k: int,
    old_id: ItemId,
)
    requires
        before.wf(),
        before.node.next + items.len() <= u64::MAX,
        after.has_new_part(
            &before,
            name,
            reference,
            position,
            rotation_deg,
            items,
            courtyard,
            drills,
        ),
        0 <= k < items.len(),
        old_id.0 < before.node.next,
    ensures
        item_of(after.node.entries@, ItemId((before.node.next + k) as u64)) == Some(items[k]),
        items[k] is Hole <==> after.footprints@.last().hole_item_ids@.contains(
            ItemId((before.node.next + k) as u64),
        ),
        !(items[k] is Hole) <==> after.footprints@.last().pad_item_ids@.contains(
            ItemId((before.node.next + k) as u64),
        ),
        item_of(after.node.entries@, old_id) == item_of(before.node.entries@, old_id),
{
    let first = before.node.next as int;
    let entries = before.node.entries@;
    let fresh = Seq::new(
        items.len(),
        |i: int| Entry { id: ItemId((first + i) as u64), item: items[i] },
    );
    assert(extended(entries, items, first) == entries + fresh);
    assert(crate::item::ids_are_unique(fresh));
    lemma_item_of_index(fresh, k);
    lemma_item_of_absent(entries, ItemId((first + k) as u64));
    lemma_concat_item(entries, fresh, ItemId((first + k) as u64));
    lemma_item_of_absent(fresh, old_id);
    lemma_concat_item(entries, fresh, old_id);
    lemma_kind_of_id(items, first, true, k);
    lemma_kind_of_id(items, first, false, k);
}

proof fn lemma_kind_of_id(items: Seq<Item>, first: int, holes: bool, k: int)
    requires
        0 <= first,
        first + items.len() <= u64::MAX,
        0 <= k < items.len(),
    ensures
        (items[k] is Hole) == holes <==> ids_of_kind(items, first, holes).contains(
            ItemId((first + k) as u64),
        ),
    decreases items.len(),
{
    let init = items.drop_last();
    let rest = ids_of_kind(init, first, holes);
    let all = ids_of_kind(items, first, holes);
    let id = ItemId((first + k) as u64);
    let last = ItemId((first + items.len() - 1) as u64);
    lemma_kind_is_low(init, first, holes);
    if k < init.len() {
        lemma_kind_of_id(init, first, holes, k);
        assert(init[k] == items[k]);
        if rest.contains(id) {
            let j = choose|j: int| 0 <= j < rest.len() && rest[j] == id;
            assert(all[j] == id);
        }
        if all.contains(id) {
            let j = choose|j: int| 0 <= j < all.len() && all[j] == id;
            if j < rest.len() {
                assert(rest[j] == id);
            } else {
                assert(all[j] == last);
            }
        }
    } else {
        assert(id == last);
        if (items.last() is Hole) == holes {
            assert(all[rest.len() as int] == id);
        } else if all.contains(id) {
            let j = choose|j: int| 0 <= j < all.len() && all[j] == id;
            assert(rest[j] == id);
        }
    }
}

proof fn lemma_kind_is_low(items: Seq<Item>, first: int, holes: bool)
    requires
        0 <= first,
        first + items.len() <= u64::MAX,
    ensures
        forall|j: int|
            0 <= j < ids_of_kind(items, first, holes).len() ==> (#[trigger] ids_of_kind(
                items,
                first,
                holes,
            )[j]).0 < first + items.len(),
    decreases items.len(),
{
    if items.len() > 0 {
        lemma_kind_is_low(items.drop_last(), first, holes);
        let rest = ids_of_kind(items.drop_last(), first, holes);
        let all = ids_of_kind(items, first, holes);
        assert forall|j: int| 0 <= j < all.len() implies (#[trigger] all[j]).0 < first
            + items.len() by {
            if j < rest.len() {
                assert(all[j] == rest[j]);
            }
        }
    }
}

/// The pads of an imported part are put on the nets given for them, the first
/// pad on the first: a pad with only pads before it is on the net at its own
/// place, or on none past the end of the list. Holes are left as they are.
pub proof fn law_each_pad_gets_its_own_net(items: Seq<Item>, nets: Seq<Option<NetId>>, i: int)
    requires
        0 <= i < items.len(),
        forall|j: int| 0 <= j < i ==> #[trigger] items[j] is Pad,
    ensures
        with_pad_nets(items, nets).len() == items.len(),
        match items[i] {
            Item::Pad { shape, net, layer, zone_connection, hole_diameter } => with_pad_nets(
                items,
                nets,
            )[i] == (Item::Pad {
                shape,
                net: if i < nets.len() {
                    nets[i]
                } else {
                    None
                },
                layer,
                zone_connection,
                hole_diameter,
            }),
            other => with_pad_nets(items, nets)[i] == other,
        },
{
    lemma_all_pads(items.take(i));
}

proof fn lemma_all_pads(items: Seq<Item>)
    requires
        forall|j: int| 0 <= j < items.len() ==> #[trigger] items[j] is Pad,
    ensures
        pads_in(items) == items.len(),
    decreases items.len(),
{
    if items.len() > 0 {
        assert(items[items.len() - 1] is Pad);
        lemma_all_pads(items.drop_last());
    }
}

/// A part that breaks a hard rule of the fab is refused for it; a thin ring
/// round a drilled pad and a small surface-mount pad are not hard.
pub proof fn law_a_part_the_fab_cannot_make_is_refused(
    doc: BoardDoc,
    template: FootprintTemplate,
    shape: PlacedShape,
    probe: PlacementProbe,
    verdicts: TemplateVerdicts,
    rules: FabRules,
)
    ensures
        ({
            let r = doc.place_verdict(template, shape, probe, verdicts, rules);
            let bad_pad = exists|i: int|
                0 <= i < template.pads@.len() && i < verdicts.pads@.len() && (
                #[trigger] verdicts.pads@[i] matches Some(v) && v
                    != DfmViolation::PthAnnularRingBelowMin && v != DfmViolation::SmdPadBelowMin);
            let bad_hole = exists|i: int|
                0 <= i < template.holes@.len() && i < verdicts.holes@.len() && (
                #[trigger] verdicts.holes@[i] matches Some(v) && v
                    != DfmViolation::PthAnnularRingBelowMin && v != DfmViolation::SmdPadBelowMin);
            let crowded = exists|i: int, j: int|
                #![trigger shape.items@[i], doc.node.entries@[j]]
                0 <= i < shape.items@.len() && 0 <= j < doc.node.entries@.len() && (
                shape.items@[i] matches Item::Hole { position, drill } && match drilled(
                    doc.node.entries@[j].item,
                ) {
                    Some(other) => drills_crowd(rules, position, drill, None, other),
                    None => false,
                });
            &&& bad_pad || bad_hole ==> (r matches Err(PlacementError::Dfm(v)) && v
                != DfmViolation::PthAnnularRingBelowMin && v != DfmViolation::SmdPadBelowMin)
            &&& !bad_pad && !bad_hole && crowded ==> r == Err::<(), PlacementError>(
                PlacementError::Dfm(DfmViolation::HoleToHoleBelowMin),
            )
            &&& !bad_pad && !bad_hole && !crowded ==> r == doc.placement_verdict(
                template,
                shape,
                probe,
                rules,
                Seq::empty(),
            )
        }),
{
    let pads = pad_violations(template.pads@, verdicts.pads@);
    let holes = hole_violations(template.holes@.len(), verdicts.holes@);
    let all = pads + holes;
    let hard = hard_only(all);
    law_hard_violations_are_reported(all);
    lemma_pad_violations(template.pads@, verdicts.pads@);
    lemma_hole_violations(template.holes@.len(), verdicts.holes@);
    if hard.len() > 0 {
        assert(hard.contains(hard[0]));
        let k = choose|k: int| 0 <= k < all.len() && all[k] == hard[0];
        if k < pads.len() {
            assert(pads[k] == hard[0]);
        } else {
            assert(holes[k - pads.len()] == hard[0]);
        }
    } else {
        assert forall|i: int|
            0 <= i < template.pads@.len() && i < verdicts.pads@.len() implies !(
        #[trigger] verdicts.pads@[i] matches Some(v) && is_hard(v)) by {
            if verdicts.pads@[i] matches Some(v) && is_hard(v) {
                let k = choose|k: int| 0 <= k < pads.len() && (#[trigger] pads[k]).1 == verdicts.pads@[i]->0;
                assert(all[k] == pads[k]);
                assert(all.contains(pads[k]));
                assert(hard.contains(pads[k]));
            }
        }
        assert forall|i: int|
            0 <= i < template.holes@.len() && i < verdicts.holes@.len() implies !(
        #[trigger] verdicts.holes@[i] matches Some(v) && is_hard(v)) by {
            if verdicts.holes@[i] matches Some(v) && is_hard(v) {
                let k = choose|k: int| 0 <= k < holes.len() && (#[trigger] holes[k]).1 == verdicts.holes@[i]->0;
                assert(all[pads.len() + k] == holes[k]);
                assert(all.contains(holes[k]));
                assert(hard.contains(holes[k]));
            }
        }
    }
    if crate::parts::hole_crowds(doc.node.entries@, rules, shape.items@) {
        let i = choose|i: int|
            0 <= i < shape.items@.len() && (#[trigger] shape.items@[i] matches Item::Hole {
                position,
                drill,
            } && crowds_a_drill(doc.node.entries@, rules, position, drill, None));
        if let Item::Hole { position, drill } = shape.items@[i] {
            let j = choose|j: int|
                0 <= j < doc.node.entries@.len() && (drilled(
                    (#[trigger] doc.node.entries@[j]).item,
                ) matches Some(other) && drills_crowd(rules, position, drill, None, other));
            assert(shape.items@[i] == shape.items@[i] && doc.node.entries@[j]
                == doc.node.entries@[j]);
        }
    } else {
        assert forall|i: int, j: int|
            #![trigger shape.items@[i], doc.node.entries@[j]]
            0 <= i < shape.items@.len() && 0 <= j < doc.node.entries@.len() implies !(
        shape.items@[i] matches Item::Hole { position, drill } && match drilled(
            doc.node.entries@[j].item,
        ) {
            Some(other) => drills_crowd(rules, position, drill, None, other),
            None => false,
        }) by {
            if let Item::Hole { position, drill } = shape.items@[i] {
                assert(!crowds_a_drill(doc.node.entries@, rules, position, drill, None));
            }
        }
    }
}

proof fn lemma_pad_violations(pads: Seq<PadTemplate>, verdicts: Seq<Option<DfmViolation>>)
    ensures
        forall|k: int|
            0 <= k < pad_violations(pads, verdicts).len() ==> exists|i: int|
                0 <= i < pads.len() && i < verdicts.len() && #[trigger] verdicts[i] == Some(
                    (#[trigger] pad_violations(pads, verdicts)[k]).1,
                ),
        forall|i: int|
            0 <= i < pads.len() && i < verdicts.len() ==> (#[trigger] verdicts[i] matches Some(v)
                ==> exists|k: int|
                0 <= k < pad_violations(pads, verdicts).len() && (#[trigger] pad_violations(
                    pads,
                    verdicts,
                )[k]).1 == v),
    decreases pads.len(),
{
    if pads.len() > 0 {
        let init = pads.drop_last();
        lemma_pad_violations(init, verdicts);
        let rest = pad_violations(init, verdicts);
        let all = pad_violations(pads, verdicts);
        assert forall|k: int| 0 <= k < all.len() implies exists|i: int|
            0 <= i < pads.len() && i < verdicts.len() && #[trigger] verdicts[i] == Some(
                (#[trigger] all[k]).1,
            ) by {
            if k < rest.len() {
                assert(all[k] == rest[k]);
            } else {
                assert(verdicts[pads.len() - 1] == Some(all[k].1));
            }
        }
        assert forall|i: int|
            0 <= i < pads.len() && i < verdicts.len() implies (#[trigger] verdicts[i] matches Some(v)
            ==> exists|k: int| 0 <= k < all.len() && (#[trigger] all[k]).1 == v) by {
            if let Some(v) = verdicts[i] {
                if i < init.len() {
                    let k = choose|k: int| 0 <= k < rest.len() && (#[trigger] rest[k]).1 == v;
                    assert(all[k] == rest[k]);
                } else {
                    assert(all[rest.len() as int].1 == v);
                }
            }
        }
    }
}

proof fn lemma_hole_violations(n: nat, verdicts: Seq<Option<DfmViolation>>)
    ensures
        forall|k: int|
            0 <= k < hole_violations(n, verdicts).len() ==> exists|i: int|
                0 <= i < n && i < verdicts.len() && #[trigger] verdicts[i] == Some(
                    (#[trigger] hole_violations(n, verdicts)[k]).1,
                ),
        forall|i: int|
            0 <= i < n && i < verdicts.len() ==> (#[trigger] verdicts[i] matches Some(v)
                ==> exists|k: int|
                0 <= k < hole_violations(n, verdicts).len() && (#[trigger] hole_violations(
                    n,
                    verdicts,
                )[k]).1 == v),
    decreases n,
{
    if n > 0 {
        let m = (n - 1) as nat;
        lemma_hole_violations(m, verdicts);
        let rest = hole_violations(m, verdicts);
        let all = hole_violations(n, verdicts);
        assert forall|k: int| 0 <= k < all.len() implies exists|i: int|
            0 <= i < n && i < verdicts.len() && #[trigger] verdicts[i] == Some(
                (#[trigger] all[k]).1,
            ) by {
            if k < rest.len() {
                assert(all[k] == rest[k]);
            } else {
                assert(verdicts[n - 1] == Some(all[k].1));
            }
        }
        assert forall|i: int| 0 <= i < n && i < verdicts.len() implies (
        #[trigger] verdicts[i] matches Some(v) ==> exists|k: int|
            0 <= k < all.len() && (#[trigger] all[k]).1 == v) by {
            if let Some(v) = verdicts[i] {
                if i < m {
                    let k = choose|k: int| 0 <= k < rest.len() && (#[trigger] rest[k]).1 == v;
                    assert(all[k] == rest[k]);
                } else {
                    assert(all[rest.len() as int].1 == v);
                }
            }
        }
    }
}

/// A moved part stands at its new pose with its marker carried along, under
/// the same name and id and with the same items; no other part is touched.
pub proof fn law_a_moved_part_stands_at_its_new_pose(
    before: BoardDoc,
    after: BoardDoc,
    f: int,
    position: Point,
    rotation_deg: Angle,
    shape: PlacedShape,
)
    requires
        before.wf(),
        0 <= f < before.footprints@.len(),
        after.has_moved_part(&before, before.footprints@[f].id, position, rotation_deg, shape),
    ensures
        after.footprints@.len() == before.footprints@.len(),
        after.footprints@[f].position == position,
        after.footprints@[f].rotation_deg == rotation_deg,
        after.footprints@[f].courtyard == shape.courtyard,
        after.footprints@[f].assembly_drills == shape.drills,
        after.footprints@[f].id == before.footprints@[f].id,
        after.footprints@[f].reference == before.footprints@[f].reference,
        after.footprints@[f].template_name == before.footprints@[f].template_name,
        after.footprints@[f].pad_item_ids == before.footprints@[f].pad_item_ids,
        after.footprints@[f].hole_item_ids == before.footprints@[f].hole_item_ids,
        before.footprints@[f].pin1_marker is None ==> after.footprints@[f].pin1_marker is None,
        before.footprints@[f].pin1_marker matches Some(marker) ==> (
        after.footprints@[f].pin1_marker matches Some(carried) && carried.offset == marker.offset
            && (shape.marker matches Some(p) ==> carried.center == p)),
        forall|g: int|
            0 <= g < before.footprints@.len() && g != f ==> #[trigger] after.footprints@[g]
                == before.footprints@[g],
        after.nets@ == before.nets@,
        after.zones@ == before.zones@,
        after.silk_texts@ == before.silk_texts@,
        after.silk_dots@ == before.silk_dots@,
        after.outline@ == before.outline@,
{
    law_a_part_is_found_by_its_id(before.footprints@, before.footprints@[f].id);
}

/// A moved pad lies where the new pose puts it, on the net it was on; what
/// neither belongs to the part nor hangs on it stays.
pub proof fn law_a_moved_part_keeps_its_nets(
    before: BoardDoc,
    after: BoardDoc,
    f: int,
    position: Point,
    rotation_deg: Angle,
    shape: PlacedShape,
    k: int,
    other: ItemId,
)
    requires
        before.wf(),
        0 <= f < before.footprints@.len(),
        after.has_moved_part(&before, before.footprints@[f].id, position, rotation_deg, shape),
        0 <= k < before.footprints@[f].pad_item_ids@.len(),
        k < shape.items@.len(),
        !before.footprints@[f].pad_item_ids@.contains(other),
        !before.footprints@[f].hole_item_ids@.contains(other),
        !wires_at_pads(before.node.entries@, before.footprints@[f].pad_item_ids@).contains(other),
    ensures
        shape.items@[k] matches Item::Pad { shape: s, layer, zone_connection, hole_diameter, .. }
            ==> item_of(before.node.entries@, before.footprints@[f].pad_item_ids@[k]) matches Some(
            Item::Pad { net, .. },
        ) && item_of(after.node.entries@, before.footprints@[f].pad_item_ids@[k]) == Some(
            Item::Pad { shape: s, net, layer, zone_connection, hole_diameter },
        ),
        item_of(after.node.entries@, other) == item_of(before.node.entries@, other),
{
    let fp = before.footprints@[f];
    law_a_part_is_found_by_its_id(before.footprints@, fp.id);
    assert(owned_ids(fp)[k] == before.footprints@[f].pad_item_ids@[k]);
    law_moved_pads_keep_their_nets(before, f, shape, k);
    assert(!owned_ids(fp).contains(other)) by {
        if owned_ids(fp).contains(other) {
            let j = choose|j: int| 0 <= j < owned_ids(fp).len() && owned_ids(fp)[j] == other;
            if j < fp.pad_item_ids@.len() {
                assert(fp.pad_item_ids@[j] == other);
            } else {
                assert(fp.hole_item_ids@[j - fp.pad_item_ids@.len()] == other);
            }
        }
    }
    law_move_leaves_the_rest_alone(before, f, shape, other);
}

/// A removed part takes its pads, its holes and the wires that end on it off
/// the board, and nothing else; the other parts stay, in their order.
pub proof fn law_a_removed_part_leaves_nothing_behind(
    before: BoardDoc,
    after: BoardDoc,
    f: int,
    id: ItemId,
)
    requires
        before.wf(),
        0 <= f < before.footprints@.len(),
        after.has_lost_part(&before, before.footprints@[f].id),
    ensures
        item_of(after.node.entries@, id) == if before.footprints@[f].pad_item_ids@.contains(id)
            || before.footprints@[f].hole_item_ids@.contains(id) || wires_at_pads(
            before.node.entries@,
            before.footprints@[f].pad_item_ids@,
        ).contains(id) {
            None
        } else {
            item_of(before.node.entries@, id)
        },
        after.footprints@.len() == before.footprints@.len() - 1,
        forall|g: int| 0 <= g < f ==> #[trigger] after.footprints@[g] == before.footprints@[g],
        forall|g: int|
            f <= g < after.footprints@.len() ==> #[trigger] after.footprints@[g]
                == before.footprints@[g + 1],
        after.zones@ == before.zones@,
        after.silk_texts@ == before.silk_texts@,
        after.silk_dots@ == before.silk_dots@,
        after.outline@ == before.outline@,
        after.nets@ == nets_in_use(before.nets@, after.node.entries@),
{
    let fp = before.footprints@[f];
    let entries = before.node.entries@;
    let wires = wires_at_pads(entries, fp.pad_item_ids@);
    law_a_part_is_found_by_its_id(before.footprints@, fp.id);
    crate::item::lemma_without_unique(entries, wires);
    lemma_without_item(entries, wires, id);
    lemma_without_item(crate::item::without(entries, wires), owned_ids(fp).to_set(), id);
    if fp.pad_item_ids@.contains(id) {
        let k = choose|k: int| 0 <= k < fp.pad_item_ids@.len() && fp.pad_item_ids@[k] == id;
        assert(owned_ids(fp)[k] == id);
    }
    if fp.hole_item_ids@.contains(id) {
        let k = choose|k: int| 0 <= k < fp.hole_item_ids@.len() && fp.hole_item_ids@[k] == id;
        assert(owned_ids(fp)[fp.pad_item_ids@.len() + k] == id);
    }
    if owned_ids(fp).contains(id) {
        let j = choose|j: int| 0 <= j < owned_ids(fp).len() && owned_ids(fp)[j] == id;
        if j < fp.pad_item_ids@.len() {
            assert(fp.pad_item_ids@[j] == id);
        } else {
            assert(fp.hole_item_ids@[j - fp.pad_item_ids@.len()] == id);
        }
    }
}

/// A part is found by its id: the first with that id, if there is one.
pub proof fn law_a_part_is_found_by_its_id(fps: Seq<PlacedFootprint>, id: FootprintId)
    ensures
        match part_at(fps, id) {
            Some(k) => 0 <= k < fps.len() && fps[k].id == id && forall|j: int|
                0 <= j < k ==> (#[trigger] fps[j]).id != id,
            None => forall|j: int| 0 <= j < fps.len() ==> (#[trigger] fps[j]).id != id,
        },
    decreases fps.len(),
{
    if fps.len() > 0 {
        law_a_part_is_found_by_its_id(fps.drop_first(), id);
        assert forall|j: int| 0 < j < fps.len() implies #[trigger] fps[j] == fps.drop_first()[j
            - 1] by {}
    }
}

/// A part is found by its reference: the first that is called so.
pub proof fn law_a_part_is_found_by_its_reference(fps: Seq<PlacedFootprint>, reference: Seq<char>)
    ensures
        match part_named(fps, reference) {
            Some(k) => 0 <= k < fps.len() && fps[k].reference@ == reference && forall|j: int|
                0 <= j < k ==> (#[trigger] fps[j]).reference@ != reference,
            None => forall|j: int| 0 <= j < fps.len() ==> (#[trigger] fps[j]).reference@ != reference,
        },
    decreases fps.len(),
{
    if fps.len() > 0 {
        law_a_part_is_found_by_its_reference(fps.drop_first(), reference);
        assert forall|j: int| 0 < j < fps.len() implies #[trigger] fps[j] == fps.drop_first()[j
            - 1] by {}
    }
}

/// A template is found by its name: the first that is called so.
pub proof fn law_a_template_is_found_by_its_name(
    templates: Seq<FootprintTemplate>,
    name: Seq<char>,
)
    ensures
        match template_named(templates, name) {
            Some(k) => 0 <= k < templates.len() && templates[k].name@ == name && forall|j: int|
                0 <= j < k ==> (#[trigger] templates[j]).name@ != name,
            None => forall|j: int| 0 <= j < templates.len() ==> (#[trigger] templates[j]).name@ != name,
        },
    decreases templates.len(),
{
    if templates.len() > 0 {
        law_a_template_is_found_by_its_name(templates.drop_first(), name);
        assert forall|j: int| 0 < j < templates.len() implies #[trigger] templates[j]
            == templates.drop_first()[j - 1] by {}
    }
}

/// A pad of a template is found by its number: the first that has it.
pub proof fn law_a_pad_is_found_by_its_number(pads: Seq<PadTemplate>, number: Seq<char>)
    ensures
        match pad_numbered(pads, number) {
            Some(k) => 0 <= k < pads.len() && pads[k].number@ == number && forall|j: int|
                0 <= j < k ==> (#[trigger] pads[j]).number@ != number,
            None => forall|j: int| 0 <= j < pads.len() ==> (#[trigger] pads[j]).number@ != number,
        },
    decreases pads.len(),
{
    if pads.len() > 0 {
        law_a_pad_is_found_by_its_number(pads.drop_first(), number);
        assert forall|j: int| 0 < j < pads.len() implies #[trigger] pads[j] == pads.drop_first()[j
            - 1] by {}
    }
}

/// A pin named by reference and number is the pad of the first part with that
/// reference that stands where the first such number stands in its template.
pub proof fn law_a_named_pin_is_the_pad_at_its_place(
    doc: BoardDoc,
    templates: Seq<FootprintTemplate>,
    f: int,
    t: int,
    k: int,
)
    requires
        0 <= f < doc.footprints@.len(),
        forall|j: int|
            0 <= j < f ==> (#[trigger] doc.footprints@[j]).reference@
                != doc.footprints@[f].reference@,
        0 <= t < templates.len(),
        templates[t].name@ == doc.footprints@[f].template_name@,
        forall|j: int| 0 <= j < t ==> (#[trigger] templates[j]).name@ != templates[t].name@,
        0 <= k < templates[t].pads@.len(),
        forall|j: int|
            0 <= j < k ==> (#[trigger] templates[t].pads@[j]).number@
                != templates[t].pads@[k].number@,
    ensures
        doc.pad_of(templates, doc.footprints@[f].reference@, templates[t].pads@[k].number@)
            == if k < doc.footprints@[f].pad_item_ids@.len() {
            Some(doc.footprints@[f].pad_item_ids@[k])
        } else {
            None
        },
{
    law_a_part_is_found_by_its_reference(doc.footprints@, doc.footprints@[f].reference@);
    law_a_template_is_found_by_its_name(templates, templates[t].name@);
    law_a_pad_is_found_by_its_number(templates[t].pads@, templates[t].pads@[k].number@);
    let g = part_named(doc.footprints@, doc.footprints@[f].reference@)->0;
    assert(g == f) by {
        if g < f {
            assert(doc.footprints@[g].reference@ != doc.footprints@[f].reference@);
        }
        if f < g {
            assert(doc.footprints@[f].reference@ != doc.footprints@[f].reference@);
        }
    }
    let u = template_named(templates, templates[t].name@)->0;
    assert(u == t) by {
        if u < t {
            assert(templates[u].name@ != templates[t].name@);
        }
        if t < u {
            assert(templates[t].name@ != templates[t].name@);
        }
    }
    let m = pad_numbered(templates[t].pads@, templates[t].pads@[k].number@)->0;
    assert(m == k) by {
        if m < k {
            assert(templates[t].pads@[m].number@ != templates[t].pads@[k].number@);
        }
        if k < m {
            assert(templates[t].pads@[k].number@ != templates[t].pads@[k].number@);
        }
    }
}

/// The pad at a point is one that the point lies on: a round pad by the
/// distance from its middle, another by what was measured. Where none is
/// found, the point lies on no pad.
pub proof fn law_the_pad_at_a_point_is_under_it(
    entries: Seq<Entry>,
    point: Point,
    inside: Seq<bool>,
    from: int,
)
    requires
        0 <= from,
    ensures
        ({
            let under = |i: int|
                match entries[i].item {
                    Item::Pad { shape: PadShape::Circle(c), .. } => c.radius >= 0 && (c.center.x
                        - point.x) * (c.center.x - point.x) + (c.center.y - point.y) * (c.center.y
                        - point.y) <= c.radius * c.radius,
                    Item::Pad { .. } => i < inside.len() && inside[i],
                    _ => false,
                };
            match first_pad_at(entries, point, inside, from) {
                Some(id) => exists|i: int|
                    from <= i < entries.len() && (#[trigger] entries[i]).id == id && under(i)
                        && forall|j: int| from <= j < i ==> !#[trigger] under(j),
                None => forall|i: int| from <= i < entries.len() ==> !#[trigger] under(i),
            }
        }),
    decreases entries.len() - from,
{
    if from < entries.len() {
        law_the_pad_at_a_point_is_under_it(entries, point, inside, from + 1);
        assert(entries[from] == entries[from]);
    }
}

/// The hole at a point is the first that the point lies in.
pub proof fn law_the_hole_at_a_point_is_under_it(entries: Seq<Entry>, point: Point, from: int)
    requires
        0 <= from,
    ensures
        ({
            let under = |i: int|
                match entries[i].item {
                    Item::Hole { position, drill } => drill >= 0 && 4 * ((position.x - point.x) * (
                    position.x - point.x) + (position.y - point.y) * (position.y - point.y))
                        <= drill * drill,
                    _ => false,
                };
            match first_hole_at(entries, point, from) {
                Some(id) => exists|i: int|
                    from <= i < entries.len() && (#[trigger] entries[i]).id == id && under(i)
                        && forall|j: int| from <= j < i ==> !#[trigger] under(j),
                None => forall|i: int| from <= i < entries.len() ==> !#[trigger] under(i),
            }
        }),
    decreases entries.len() - from,
{
    if from < entries.len() {
        law_the_hole_at_a_point_is_under_it(entries, point, from + 1);
        assert(entries[from] == entries[from]);
    }
}

/// The owner of a pad is the part that has it, and that of a hole likewise.
pub proof fn law_a_pad_belongs_to_the_part_that_has_it(fps: Seq<PlacedFootprint>, id: ItemId)
    ensures
        match owner_of_pad(fps, id) {
            Some(owner) => exists|f: int|
                0 <= f < fps.len() && (#[trigger] fps[f]).id == owner
                    && fps[f].pad_item_ids@.contains(id),
            None => forall|f: int|
                0 <= f < fps.len() ==> !(#[trigger] fps[f]).pad_item_ids@.contains(id),
        },
        match owner_of_hole(fps, id) {
            Some(owner) => exists|f: int|
                0 <= f < fps.len() && (#[trigger] fps[f]).id == owner
                    && fps[f].hole_item_ids@.contains(id),
            None => forall|f: int|
                0 <= f < fps.len() ==> !(#[trigger] fps[f]).hole_item_ids@.contains(id),
        },
    decreases fps.len(),
{
    if fps.len() > 0 {
        let rest = fps.drop_first();
        law_a_pad_belongs_to_the_part_that_has_it(rest, id);
        assert forall|f: int| 0 < f < fps.len() implies #[trigger] fps[f] == rest[f - 1] by {}
        if !fps[0].pad_item_ids@.contains(id) && owner_of_pad(rest, id) is Some {
            let owner = owner_of_pad(rest, id)->0;
            let f = choose|f: int|
                0 <= f < rest.len() && (#[trigger] rest[f]).id == owner
                    && rest[f].pad_item_ids@.contains(id);
            assert(fps[f + 1] == rest[f]);
        }
        if !fps[0].hole_item_ids@.contains(id) && owner_of_hole(rest, id) is Some {
            let owner = owner_of_hole(rest, id)->0;
            let f = choose|f: int|
                0 <= f < rest.len() && (#[trigger] rest[f]).id == owner
                    && rest[f].hole_item_ids@.contains(id);
            assert(fps[f + 1] == rest[f]);
        }
    }
}

/// A posed pad is a disc of its radius at its pose if it is round, else the
/// outline it was posed with; it is on no net yet and otherwise as the
/// template has it. Holes follow the pads.
pub proof fn law_a_posed_part_is_as_its_template(
    items: Seq<Item>,
    pads: Seq<PadTemplate>,
    holes: Seq<HoleTemplate>,
    poses: Seq<PadPose>,
    centers: Seq<Point>,
    k: int,
)
    requires
        are_world_items(items, pads, holes, poses, centers),
    ensures
        items.len() == pads.len() + holes.len(),
        0 <= k < pads.len() ==> (items[k] matches Item::Pad {
            shape,
            net,
            layer,
            zone_connection,
            hole_diameter,
        } && net is None && layer == pads[k].layer && zone_connection == pads[k].zone_connection
            && hole_diameter == pads[k].hole_diameter && match pads[k].shape {
            PadShapeKind::Circle => shape == PadShape::Circle(
                Circle { center: poses[k].center, radius: pads[k].radius },
            ),
            _ => shape matches PadShape::Polygon { outline, center } && center == poses[k].center
                && outline.points@ == poses[k].outline.points@,
        }),
        0 <= k < holes.len() ==> items[pads.len() + k] == (Item::Hole {
            position: centers[k],
            drill: holes[k].drill,
        }),
{
    if 0 <= k < pads.len() {
        assert(pads[k] == pads[k]);
    }
    if 0 <= k < holes.len() {
        assert(holes[k] == holes[k]);
    }
}

/// Every drilled pad and every hole has a drill of half its diameter at its
/// pose, and there is no other drill.
pub proof fn law_every_drill_is_counted(
    pads: Seq<PadTemplate>,
    holes: Seq<HoleTemplate>,
    poses: Seq<PadPose>,
    centers: Seq<Point>,
    k: int,
)
    ensures
        0 <= k < pads.len() ==> (pads[k].hole_diameter matches Some(d) ==> d > 0 ==> pad_drills(
            pads,
            poses,
        ).contains(Circle { center: poses[k].center, radius: (d as int / 2) as Unit })),
        forall|c: Circle| #[trigger]
            pad_drills(pads, poses).contains(c) ==> exists|i: int|
                0 <= i < pads.len() && ((#[trigger] pads[i]).hole_diameter matches Some(d) && d > 0
                    && c == (Circle { center: poses[i].center, radius: (d as int / 2) as Unit })),
        hole_drills(holes, centers).len() == holes.len(),
        0 <= k < holes.len() && holes[k].drill >= 0 ==> hole_drills(holes, centers)[k] == (Circle {
            center: centers[k],
            radius: (holes[k].drill as int / 2) as Unit,
        }),
    decreases pads.len(),
{
    if pads.len() > 0 {
        let init = pads.drop_last();
        law_every_drill_is_counted(init, holes, poses, centers, k);
        let rest = pad_drills(init, poses);
        let all = pad_drills(pads, poses);
        let last = pads.len() - 1;
        if 0 <= k < pads.len() && (pads[k].hole_diameter matches Some(d) && d > 0) {
            let c = Circle {
                center: poses[k].center,
                radius: (pads[k].hole_diameter->0 as int / 2) as Unit,
            };
            if k < init.len() {
                assert(init[k] == pads[k]);
                let j = choose|j: int| 0 <= j < rest.len() && rest[j] == c;
                assert(all[j] == c);
            } else {
                assert(all[rest.len() as int] == c);
            }
        }
        assert forall|c: Circle| #[trigger] all.contains(c) implies exists|i: int|
            0 <= i < pads.len() && ((#[trigger] pads[i]).hole_diameter matches Some(d) && d > 0
                && c == (Circle { center: poses[i].center, radius: (d as int / 2) as Unit })) by {
            let j = choose|j: int| 0 <= j < all.len() && all[j] == c;
            if j < rest.len() {
                assert(rest[j] == c);
                assert(rest.contains(c));
                let i = choose|i: int|
                    0 <= i < init.len() && ((#[trigger] init[i]).hole_diameter matches Some(d) && d
                        > 0 && c == (Circle {
                        center: poses[i].center,
                        radius: (d as int / 2) as Unit,
                    }));
                assert(pads[i] == init[i]);
            } else {
                assert(pads[last] == pads.last());
            }
        }
    }
}

/// A rectangular pad has its own size and sharp corners, a round one no
/// outline, and an oval is two per cent larger either way, to the nearest
/// nanometre, with its short ends rounded off.
pub proof fn law_an_oval_is_two_per_cent_larger(width: Unit, height: Unit)
    requires
        0 <= width <= 1_000_000_000_000,
        0 <= height <= 1_000_000_000_000,
    ensures
        outline_of(PadShapeKind::Circle) is None,
        outline_of(PadShapeKind::Rect { width, height }) matches Some(o) && o.width == width
            && o.height == height && o.corner_radius == 0,
        outline_of(PadShapeKind::Oval { width, height }) matches Some(o) && {
            &&& -50 <= 100 * o.width - 102 * width <= 50
            &&& -50 <= 100 * o.height - 102 * height <= 50
            &&& 2 * o.corner_radius <= o.width && 2 * o.corner_radius <= o.height
            &&& 2 * o.corner_radius + 1 >= o.width || 2 * o.corner_radius + 1 >= o.height
        },
{
}

} // verus!
