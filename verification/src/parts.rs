//! Footprints on the board: placing, moving and removing them, finding them
//! by reference or by a click, and matrix placement.

use vstd::prelude::*;

use crate::board_doc::{
    footprint_ids_ok, footprint_items_distinct, footprint_items_live, keeps_kinds,
    lemma_records_carry, zone_items_ok, BoardDoc, FootprintId, Pin1Marker, PlacedFootprint,
};
use crate::dfm::{DfmViolation, FabRules};
use crate::footprint::{
    hard_only, hole_violations, pad_violations, template_dfm_hard_violations, FootprintTemplate,
    PadTemplate,
};
use crate::geom::{is_within, is_within_half, within, within_half, Angle, Circle, Point, Polygon};
use crate::item::{
    extended, ids_are_unique, is_wire, item_net, item_of, lemma_concat_item, lemma_item_of_index,
    lemma_item_of_some, lemma_replaced_item, lemma_without_contains, lemma_without_item,
    obstacle_count, obstacles_in, replaced, with_net, without, Entry, Item, ItemId, NetId, PadShape,
};
use crate::nets::nets_in_use;
use crate::placement::{PlacedShape, PlacementError, PlacementProbe};
use crate::text::{decimal, decimal_string, joined, law_decimal_is_injective, same_text};
use crate::vias::crowds_a_drill;
use crate::wires::{
    contains_id, ends_on_pads, law_wire_holds_its_start, lemma_ids_are_few,
    lemma_wire_is_made_of_wires, same_wire, wires_among, wires_at_pads,
};

verus! {

/// Only pads and mechanical holes: what a template consists of.
pub open spec fn parts_only(items: Seq<Item>) -> bool {
    forall|i: int| #![trigger items[i]] 0 <= i < items.len() ==> items[i] is Pad || items[i] is Hole
}

/// The ids that the holes (or the pads) among `items` get, counted from
/// `first`.
pub open spec fn ids_of_kind(items: Seq<Item>, first: int, holes: bool) -> Seq<ItemId>
    decreases items.len(),
{
    if items.len() == 0 {
        Seq::empty()
    } else {
        let rest = ids_of_kind(items.drop_last(), first, holes);
        if (items.last() is Hole) == holes {
            rest.push(ItemId((first + items.len() - 1) as u64))
        } else {
            rest
        }
    }
}

/// The number of pads among `items`.
pub open spec fn pads_in(items: Seq<Item>) -> nat
    decreases items.len(),
{
    if items.len() == 0 {
        0
    } else {
        pads_in(items.drop_last()) + if items.last() is Pad {
            1nat
        } else {
            0
        }
    }
}

/// The net at place `k`; none past the end.
pub open spec fn net_at(nets: Seq<Option<NetId>>, k: int) -> Option<NetId> {
    if 0 <= k < nets.len() {
        nets[k]
    } else {
        None
    }
}

/// `items` with the k-th pad on the k-th of `nets`.
pub open spec fn with_pad_nets(items: Seq<Item>, nets: Seq<Option<NetId>>) -> Seq<Item> {
    Seq::new(items.len(), |i: int| with_net(items[i], net_at(nets, pads_in(items.take(i)) as int)))
}

/// Where the template with this name stands first.
pub open spec fn template_named(templates: Seq<FootprintTemplate>, name: Seq<char>) -> Option<int>
    decreases templates.len(),
{
    if templates.len() == 0 {
        None
    } else if templates[0].name@ == name {
        Some(0)
    } else {
        match template_named(templates.drop_first(), name) {
            Some(k) => Some(k + 1),
            None => None,
        }
    }
}

/// Where the footprint with this reference stands first.
pub open spec fn part_named(fps: Seq<PlacedFootprint>, reference: Seq<char>) -> Option<int>
    decreases fps.len(),
{
    if fps.len() == 0 {
        None
    } else if fps[0].reference@ == reference {
        Some(0)
    } else {
        match part_named(fps.drop_first(), reference) {
            Some(k) => Some(k + 1),
            None => None,
        }
    }
}

/// Where the pad with this number stands first.
pub open spec fn pad_numbered(pads: Seq<PadTemplate>, number: Seq<char>) -> Option<int>
    decreases pads.len(),
{
    if pads.len() == 0 {
        None
    } else if pads[0].number@ == number {
        Some(0)
    } else {
        match pad_numbered(pads.drop_first(), number) {
            Some(k) => Some(k + 1),
            None => None,
        }
    }
}

/// Where the footprint with this id stands first.
pub open spec fn part_at(fps: Seq<PlacedFootprint>, id: FootprintId) -> Option<int>
    decreases fps.len(),
{
    if fps.len() == 0 {
        None
    } else if fps[0].id == id {
        Some(0)
    } else {
        match part_at(fps.drop_first(), id) {
            Some(k) => Some(k + 1),
            None => None,
        }
    }
}

/// The template with this name.
pub fn find_template(templates: &[FootprintTemplate], name: &str) -> (r: Option<usize>)
    ensures
        match r {
            Some(k) => k < templates@.len() && template_named(templates@, name@) == Some(k as int)
                && templates@[k as int].name@ == name@,
            None => template_named(templates@, name@) is None,
        },
{
    let mut i: usize = 0;
    assert(templates@.skip(0) =~= templates@);
    while i < templates.len()
        invariant
            i <= templates@.len(),
            template_named(templates@, name@) == (match template_named(
                templates@.skip(i as int),
                name@,
            ) {
                Some(k) => Some(k + i),
                None => None,
            }),
        decreases templates@.len() - i,
    {
        assert(templates@.skip(i as int)[0] == templates@[i as int]);
        assert(templates@.skip(i as int).drop_first() =~= templates@.skip(i + 1));
        if same_text(&templates[i].name, name) {
            return Some(i);
        }
        i += 1;
    }
    None
}

pub fn find_pad_number(pads: &[PadTemplate], number: &str) -> (r: Option<usize>)
    ensures
        match r {
            Some(k) => k < pads@.len() && pad_numbered(pads@, number@) == Some(k as int),
            None => pad_numbered(pads@, number@) is None,
        },
{
    let mut i: usize = 0;
    assert(pads@.skip(0) =~= pads@);
    while i < pads.len()
        invariant
            i <= pads@.len(),
            pad_numbered(pads@, number@) == (match pad_numbered(pads@.skip(i as int), number@) {
                Some(k) => Some(k + i),
                None => None,
            }),
        decreases pads@.len() - i,
    {
        assert(pads@.skip(i as int)[0] == pads@[i as int]);
        assert(pads@.skip(i as int).drop_first() =~= pads@.skip(i + 1));
        if same_text(&pads[i].number, number) {
            return Some(i);
        }
        i += 1;
    }
    None
}

/// What the scalar fabrication rules say to each pad and each hole of a
/// template.
#[derive(Debug, Clone)]
pub struct TemplateVerdicts {
    pub pads: Vec<Option<DfmViolation>>,
    pub holes: Vec<Option<DfmViolation>>,
}

/// The first violation that refuses a template.
pub open spec fn first_hard(template: FootprintTemplate, v: TemplateVerdicts) -> Option<DfmViolation> {
    let hard = hard_only(
        pad_violations(template.pads@, v.pads@) + hole_violations(template.holes@.len(), v.holes@),
    );
    if hard.len() > 0 {
        Some(hard[0].1)
    } else {
        None
    }
}

/// One of the holes stands too close to a drill on the board.
pub open spec fn hole_crowds(entries: Seq<Entry>, rules: FabRules, items: Seq<Item>) -> bool {
    exists|i: int|
        0 <= i < items.len() && (#[trigger] items[i] matches Item::Hole { position, drill }
            && crowds_a_drill(entries, rules, position, drill, None))
}

impl BoardDoc {
    /// The verdict on placing a new part: its template's own geometry, the
    /// spacing of its holes, and then the pose.
    pub open spec fn place_verdict(
        &self,
        template: FootprintTemplate,
        shape: PlacedShape,
        probe: PlacementProbe,
        verdicts: TemplateVerdicts,
        rules: FabRules,
    ) -> Result<(), PlacementError> {
        match first_hard(template, verdicts) {
            Some(v) => Err(PlacementError::Dfm(v)),
            None => if hole_crowds(self.node.entries@, rules, shape.items@) {
                Err(PlacementError::Dfm(DfmViolation::HoleToHoleBelowMin))
            } else {
                self.placement_verdict(template, shape, probe, rules, Seq::empty())
            },
        }
    }

    /// Everything but the item world and the footprints is as in `other`.
    pub open spec fn same_but_parts(&self, other: &BoardDoc) -> bool {
        &&& self.same_but_parts_and_nets(other)
        &&& self.nets@ == other.nets@
        &&& self.next_net_serial == other.next_net_serial
    }

    /// Everything but the item world, the footprints and the nets is as in
    /// `other`.
    pub open spec fn same_but_parts_and_nets(&self, other: &BoardDoc) -> bool {
        &&& self.outline@ == other.outline@
        &&& self.layer_count == other.layer_count
        &&& self.copper_weight == other.copper_weight
        &&& self.zones@ == other.zones@
        &&& self.next_zone_serial == other.next_zone_serial
        &&& self.silk_texts@ == other.silk_texts@
        &&& self.next_silk_text_serial == other.next_silk_text_serial
        &&& self.silk_dots@ == other.silk_dots@
        &&& self.next_silk_dot_serial == other.next_silk_dot_serial
    }

    /// The same board, by everything it holds.
    pub open spec fn same_board(&self, other: &BoardDoc) -> bool {
        &&& self.same_but_parts(other)
        &&& self.node.entries@ == other.node.entries@
        &&& self.node.next == other.node.next
        &&& self.node.revision == other.node.revision
        &&& self.footprints@ == other.footprints@
        &&& self.next_footprint_serial == other.next_footprint_serial
    }

    /// `self` is `before` with one more part: its pads and holes under fresh
    /// ids, and its record under the next serial.
    pub open spec fn has_new_part(
        &self,
        before: &BoardDoc,
        name: Seq<char>,
        reference: Seq<char>,
        position: Point,
        rotation_deg: Angle,
        items: Seq<Item>,
        courtyard: Polygon,
        drills: Vec<Circle>,
    ) -> bool {
        let fp = self.footprints@.last();
        let first = before.node.next as int;
        &&& self.same_but_parts(before)
        &&& self.node.entries@ == extended(before.node.entries@, items, first)
        &&& self.node.next == first + items.len()
        &&& self.node.revision == before.node.revision + items.len()
        &&& self.next_footprint_serial == before.next_footprint_serial + 1
        &&& self.footprints@.len() == before.footprints@.len() + 1
        &&& self.footprints@.drop_last() == before.footprints@
        &&& fp.id == FootprintId((before.next_footprint_serial + 1) as usize)
        &&& fp.reference@ == reference
        &&& fp.template_name@ == name
        &&& fp.position == position
        &&& fp.rotation_deg == rotation_deg
        &&& fp.pad_item_ids@ == ids_of_kind(items, first, false)
        &&& fp.hole_item_ids@ == ids_of_kind(items, first, true)
        &&& fp.courtyard == courtyard
        &&& fp.assembly_drills == drills
        &&& fp.pin1_marker is None
    }

    /// Puts a part on the board without asking whether it may stand there.
    fn insert_part(
        &mut self,
        name: String,
        reference: String,
        position: Point,
        rotation_deg: Angle,
        shape: PlacedShape,
    ) -> (id: FootprintId)
        requires
            old(self).wf(),
            parts_only(shape.items@),
            old(self).node.has_room_for(shape.items@.len() as int),
            old(self).next_footprint_serial < usize::MAX,
        ensures
            final(self).wf(),
            id == FootprintId((old(self).next_footprint_serial + 1) as usize),
            final(self).has_new_part(
                old(self),
                name@,
                reference@,
                position,
                rotation_deg,
                shape.items@,
                shape.courtyard,
                shape.drills,
            ),
    {
        let ghost before = *self;
        let ghost items = shape.items@;
        let first: u64 = self.node.next;
        let mut pad_item_ids: Vec<ItemId> = Vec::new();
        let mut hole_item_ids: Vec<ItemId> = Vec::new();
        let mut k: usize = 0;
        while k < shape.items.len()
            invariant
                k <= shape.items@.len(),
                items == shape.items@,
                first + items.len() <= u64::MAX,
                pad_item_ids@ == ids_of_kind(items.take(k as int), first as int, false),
                hole_item_ids@ == ids_of_kind(items.take(k as int), first as int, true),
            decreases shape.items@.len() - k,
        {
            assert(items.take(k + 1).drop_last() =~= items.take(k as int));
            assert(items.take(k + 1).last() == items[k as int]);
            if shape.items[k].is_hole() {
                hole_item_ids.push(ItemId(first + k as u64));
            } else {
                pad_item_ids.push(ItemId(first + k as u64));
            }
            k += 1;
        }
        assert(items.take(k as int) =~= items);
        let added = self.node.add_all(shape.items);
        let serial: usize = self.next_footprint_serial + 1;
        self.next_footprint_serial = serial;
        let id = FootprintId(serial);
        let fp = PlacedFootprint {
            id,
            reference,
            template_name: name,
            position,
            rotation_deg,
            pad_item_ids,
            hole_item_ids,
            courtyard: shape.courtyard,
            assembly_drills: shape.drills,
            pin1_marker: None,
        };
        self.footprints.push(fp);
        proof {
            lemma_no_zones(items);
            assert(self.footprints@.drop_last() =~= before.footprints@);
            lemma_new_part_keeps_order(before, *self, items);
        }
        id
    }

    /// Places a new part, under a reference that is never used again; nothing
    /// changes if it is refused.
    pub fn try_place_footprint(
        &mut self,
        template: &FootprintTemplate,
        position: Point,
        rotation_deg: Angle,
        shape: PlacedShape,
        probe: &PlacementProbe,
        verdicts: &TemplateVerdicts,
        rules: &FabRules,
    ) -> (r: Result<FootprintId, PlacementError>)
        requires
            old(self).wf(),
            parts_only(shape.items@),
            BoardDoc::probe_fits(shape, *probe),
            old(self).node.has_room_for(shape.items@.len() as int),
            old(self).next_footprint_serial < usize::MAX,
        ensures
            final(self).wf(),
            match old(self).place_verdict(*template, shape, *probe, *verdicts, *rules) {
                Ok(_) => {
                    let serial = (old(self).next_footprint_serial + 1) as usize;
                    &&& r == Ok::<FootprintId, PlacementError>(FootprintId(serial))
                    &&& final(self).has_new_part(
                        old(self),
                        template.name@,
                        template.reference_prefix@ + decimal(serial as nat),
                        position,
                        rotation_deg,
                        shape.items@,
                        shape.courtyard,
                        shape.drills,
                    )
                },
                Err(e) => r == Err::<FootprintId, PlacementError>(e) && *final(self) == *old(self),
            },
    {
        match self.check_new_part(template, &shape, probe, verdicts, rules) {
            Ok(_) => {},
            Err(e) => {
                return Err(e);
            },
        }
        let number = decimal_string(self.next_footprint_serial as u64 + 1);
        let reference = joined(&template.reference_prefix, &number);
        Ok(self.insert_part(template.name.clone(), reference, position, rotation_deg, shape))
    }

    /// Whether a new part may be placed.
    pub fn check_new_part(
        &self,
        template: &FootprintTemplate,
        shape: &PlacedShape,
        probe: &PlacementProbe,
        verdicts: &TemplateVerdicts,
        rules: &FabRules,
    ) -> (r: Result<(), PlacementError>)
        requires
            BoardDoc::probe_fits(*shape, *probe),
        ensures
            r == self.place_verdict(*template, *shape, *probe, *verdicts, *rules),
    {
        let hard: Vec<(String, DfmViolation)> = template_dfm_hard_violations(
            &template.pads,
            &template.holes,
            &verdicts.pads,
            &verdicts.holes,
        );
        if hard.len() > 0 {
            return Err(PlacementError::Dfm(hard[0].1));
        }
        let mut i: usize = 0;
        while i < shape.items.len()
            invariant
                i <= shape.items@.len(),
                first_hard(*template, *verdicts) is None,
                forall|k: int|
                    0 <= k < i ==> !(#[trigger] shape.items@[k] matches Item::Hole { position, drill }
                        && crowds_a_drill(self.node.entries@, *rules, position, drill, None)),
            decreases shape.items@.len() - i,
        {
            let crowded = match &shape.items[i] {
                Item::Hole { position, drill } => self.violates_hole_to_hole(
                    *position,
                    *drill,
                    None,
                    rules,
                ),
                _ => false,
            };
            if crowded {
                assert(hole_crowds(self.node.entries@, *rules, shape.items@)) by {
                    let k = i as int;
                    assert(shape.items@[k] matches Item::Hole { position, drill } && crowds_a_drill(
                        self.node.entries@,
                        *rules,
                        position,
                        drill,
                        None,
                    ));
                }
                return Err(PlacementError::Dfm(DfmViolation::HoleToHoleBelowMin));
            }
            i += 1;
        }
        self.check_placement(template, shape, probe, rules, None)
    }

    /// Puts a part on the board as it is, without any gate: pads take the
    /// given nets in order, and the reference is kept as given.
    pub fn insert_footprint_unchecked(
        &mut self,
        template: &FootprintTemplate,
        reference: String,
        position: Point,
        rotation_deg: Angle,
        shape: PlacedShape,
        pad_nets: &[Option<NetId>],
    ) -> (id: FootprintId)
        requires
            old(self).wf(),
            parts_only(shape.items@),
            old(self).node.has_room_for(shape.items@.len() as int),
            old(self).next_footprint_serial < usize::MAX,
        ensures
            final(self).wf(),
            id == FootprintId((old(self).next_footprint_serial + 1) as usize),
            final(self).has_new_part(
                old(self),
                template.name@,
                reference@,
                position,
                rotation_deg,
                with_pad_nets(shape.items@, pad_nets@),
                shape.courtyard,
                shape.drills,
            ),
    {
        let PlacedShape { items, courtyard, drills, marker } = shape;
        let wired = assign_pad_nets(items, pad_nets);
        proof {
            assert forall|i: int| #![trigger wired@[i]] 0 <= i < wired@.len() implies wired@[i] is Pad
                || wired@[i] is Hole by {
                assert(items@[i] is Pad || items@[i] is Hole);
            }
        }
        self.insert_part(
            template.name.clone(),
            reference,
            position,
            rotation_deg,
            PlacedShape { items: wired, courtyard, drills, marker },
        )
    }
}

/// Puts the k-th pad among `items` on the k-th of `nets`.
pub fn assign_pad_nets(items: Vec<Item>, nets: &[Option<NetId>]) -> (r: Vec<Item>)
    ensures
        r@ == with_pad_nets(items@, nets@),
{
    let ghost all = items@;
    let mut items = items;
    let mut pads: usize = 0;
    let mut i: usize = 0;
    while i < items.len()
        invariant
            i <= all.len(),
            items@.len() == all.len(),
            pads == pads_in(all.take(i as int)),
            pads <= i,
            forall|k: int|
                #![trigger items@[k]]
                0 <= k < all.len() ==> items@[k] == if k < i {
                    with_pad_nets(all, nets@)[k]
                } else {
                    all[k]
                },
        decreases all.len() - i,
    {
        assert(all.take(i + 1).drop_last() =~= all.take(i as int));
        assert(all.take(i + 1).last() == all[i as int]);
        assert(items@[i as int] == all[i as int]);
        let is_pad = items[i].is_pad();
        if is_pad {
            let new_net = if pads < nets.len() {
                nets[pads]
            } else {
                None
            };
            match &mut items[i] {
                Item::Pad { net, .. } => {
                    *net = new_net;
                },
                _ => {},
            }
            pads += 1;
        }
        i += 1;
    }
    assert(items@ =~= with_pad_nets(all, nets@));
    items
}

proof fn lemma_no_zones(items: Seq<Item>)
    requires
        parts_only(items),
    ensures
        obstacles_in(items) == items.len(),
    decreases items.len(),
{
    if items.len() > 0 {
        assert(items.last() == items[items.len() - 1]);
        assert forall|i: int| #![trigger items.drop_last()[i]] 0 <= i < items.drop_last().len() implies
            items.drop_last()[i] is Pad || items.drop_last()[i] is Hole by {
            assert(items.drop_last()[i] == items[i]);
        }
        lemma_no_zones(items.drop_last());
    }
}

/// Which ids the pads (or holes) get: one for each, in order.
proof fn lemma_ids_of_kind(items: Seq<Item>, first: int, holes: bool)
    requires
        0 <= first,
        first + items.len() <= u64::MAX + 1,
    ensures
        ids_of_kind(items, first, holes).no_duplicates(),
        forall|k: int|
            #![trigger ids_of_kind(items, first, holes)[k]]
            0 <= k < ids_of_kind(items, first, holes).len() ==> {
                let id = ids_of_kind(items, first, holes)[k];
                &&& first <= id.0 < first + items.len()
                &&& (items[id.0 - first] is Hole) == holes
            },
    decreases items.len(),
{
    if items.len() > 0 {
        let init = items.drop_last();
        lemma_ids_of_kind(init, first, holes);
        let rest = ids_of_kind(init, first, holes);
        let all = ids_of_kind(items, first, holes);
        assert forall|k: int| #![trigger all[k]] 0 <= k < all.len() implies first <= all[k].0 < first
            + items.len() && (items[all[k].0 - first] is Hole) == holes by {
            if k < rest.len() {
                assert(all[k] == rest[k]);
                assert(init[rest[k].0 - first] == items[rest[k].0 - first]);
            } else {
                assert(all[k].0 == first + items.len() - 1);
                assert(items[items.len() - 1] == items.last());
            }
        }
        assert(all.no_duplicates()) by {
            assert forall|a: int, b: int|
                0 <= a < all.len() && 0 <= b < all.len() && a != b implies all[a] != all[b] by {
                if a < rest.len() {
                    assert(all[a] == rest[a]);
                }
                if b < rest.len() {
                    assert(all[b] == rest[b]);
                }
            }
        }
    }
}

/// A new part leaves the board in order.
proof fn lemma_new_part_keeps_order(before: BoardDoc, after: BoardDoc, items: Seq<Item>)
    requires
        before.wf(),
        parts_only(items),
        after.node.wf(),
        before.node.next + items.len() <= u64::MAX,
        after.node.entries@ == extended(before.node.entries@, items, before.node.next as int),
        after.footprints@.len() == before.footprints@.len() + 1,
        after.footprints@.drop_last() == before.footprints@,
        after.footprints@.last().id.0 == before.next_footprint_serial + 1,
        after.footprints@.last().pad_item_ids@ == ids_of_kind(
            items,
            before.node.next as int,
            false,
        ),
        after.footprints@.last().hole_item_ids@ == ids_of_kind(
            items,
            before.node.next as int,
            true,
        ),
        after.next_footprint_serial == before.next_footprint_serial + 1,
        after.nets == before.nets,
        after.next_net_serial == before.next_net_serial,
        after.zones == before.zones,
        after.next_zone_serial == before.next_zone_serial,
        after.silk_texts == before.silk_texts,
        after.next_silk_text_serial == before.next_silk_text_serial,
        after.silk_dots == before.silk_dots,
        after.next_silk_dot_serial == before.next_silk_dot_serial,
    ensures
        after.wf(),
{
    let old_entries = before.node.entries@;
    let entries = after.node.entries@;
    let first = before.node.next as int;
    let fps = after.footprints@;
    let n = before.footprints@.len();
    let last = fps.last();
    assert(fps[n as int] == last);
    assert forall|i: int| 0 <= i < n implies #[trigger] fps[i] == before.footprints@[i] by {
        assert(fps.drop_last()[i] == fps[i]);
    }
    assert(keeps_kinds(old_entries, entries)) by {
        assert forall|id: ItemId| #[trigger] item_of(old_entries, id) is Some implies item_of(
            entries,
            id,
        ) == item_of(old_entries, id) by {
            lemma_concat_item(
                old_entries,
                Seq::new(
                    items.len(),
                    |i: int| Entry { id: ItemId((first + i) as u64), item: items[i] },
                ),
                id,
            );
        }
    }
    lemma_records_carry(before.footprints@, before.zones@, old_entries, entries);
    lemma_ids_of_kind(items, first, false);
    lemma_ids_of_kind(items, first, true);
    assert(footprint_items_live(fps, entries)) by {
        assert forall|i: int, k: int|
            #![trigger fps[i].pad_item_ids@[k]]
            0 <= i < fps.len() && 0 <= k < fps[i].pad_item_ids@.len() implies (item_of(
            entries,
            fps[i].pad_item_ids@[k],
        ) matches Some(item) && item is Pad) by {
            if i < n {
                assert(before.footprints@[i].pad_item_ids@[k] == fps[i].pad_item_ids@[k]);
            } else {
                let id = ids_of_kind(items, first, false)[k];
                let m = id.0 - first;
                lemma_new_item(old_entries, items, first, m);
                assert(items[m] is Pad || items[m] is Hole);
            }
        }
        assert forall|i: int, k: int|
            #![trigger fps[i].hole_item_ids@[k]]
            0 <= i < fps.len() && 0 <= k < fps[i].hole_item_ids@.len() implies (item_of(
            entries,
            fps[i].hole_item_ids@[k],
        ) matches Some(item) && item is Hole) by {
            if i < n {
                assert(before.footprints@[i].hole_item_ids@[k] == fps[i].hole_item_ids@[k]);
            } else {
                let id = ids_of_kind(items, first, true)[k];
                let m = id.0 - first;
                lemma_new_item(old_entries, items, first, m);
            }
        }
    }
    assert(footprint_items_distinct(fps)) by {
        assert forall|i: int, k: int, j: int, l: int|
            #![trigger fps[i].pad_item_ids@[k], fps[j].pad_item_ids@[l]]
            0 <= i < fps.len() && 0 <= k < fps[i].pad_item_ids@.len() && 0 <= j < fps.len() && 0 <= l
                < fps[j].pad_item_ids@.len() && (i != j || k != l) implies fps[i].pad_item_ids@[k]
            != fps[j].pad_item_ids@[l] by {
            lemma_old_ids_are_low(before, i, k, true);
            lemma_old_ids_are_low(before, j, l, true);
            if i < n && j < n {
                assert(before.footprints@[i].pad_item_ids@[k]
                    != before.footprints@[j].pad_item_ids@[l]);
            } else if i == n {
                assert(first <= ids_of_kind(items, first, false)[k].0);
                if j == n {
                    assert(first <= ids_of_kind(items, first, false)[l].0);
                }
            } else {
                assert(first <= ids_of_kind(items, first, false)[l].0);
            }
        }
        assert forall|i: int, k: int, j: int, l: int|
            #![trigger fps[i].hole_item_ids@[k], fps[j].hole_item_ids@[l]]
            0 <= i < fps.len() && 0 <= k < fps[i].hole_item_ids@.len() && 0 <= j < fps.len() && 0 <= l
                < fps[j].hole_item_ids@.len() && (i != j || k != l) implies fps[i].hole_item_ids@[k]
            != fps[j].hole_item_ids@[l] by {
            lemma_old_ids_are_low(before, i, k, false);
            lemma_old_ids_are_low(before, j, l, false);
            if i < n && j < n {
                assert(before.footprints@[i].hole_item_ids@[k]
                    != before.footprints@[j].hole_item_ids@[l]);
            } else if i == n {
                assert(first <= ids_of_kind(items, first, true)[k].0);
                if j == n {
                    assert(first <= ids_of_kind(items, first, true)[l].0);
                }
            } else {
                assert(first <= ids_of_kind(items, first, true)[l].0);
            }
        }
    }
    assert(footprint_ids_ok(fps, after.next_footprint_serial as int)) by {
        assert forall|i: int, j: int|
            #![trigger fps[i], fps[j]]
            0 <= i < j < fps.len() implies fps[i].id != fps[j].id by {
            assert(fps[i] == before.footprints@[i]);
            if j < n {
                assert(fps[j] == before.footprints@[j]);
            }
        }
        assert forall|i: int| #![trigger fps[i]] 0 <= i < fps.len() implies fps[i].id.0
            <= after.next_footprint_serial by {
            if i < n {
                assert(fps[i] == before.footprints@[i]);
            }
        }
    }
}

/// The item under a fresh id.
proof fn lemma_new_item(entries: Seq<Entry>, items: Seq<Item>, first: int, k: int)
    requires
        ids_are_unique(extended(entries, items, first)),
        0 <= k < items.len(),
    ensures
        item_of(extended(entries, items, first), ItemId((first + k) as u64)) == Some(items[k]),
{
    lemma_item_of_index(extended(entries, items, first), entries.len() + k);
}

/// The ids a footprint already has are below the next one.
proof fn lemma_old_ids_are_low(board: BoardDoc, i: int, k: int, pads: bool)
    requires
        board.wf(),
    ensures
        0 <= i < board.footprints@.len() && pads && 0 <= k
            < board.footprints@[i].pad_item_ids@.len() ==> board.footprints@[i].pad_item_ids@[k].0
            < board.node.next,
        0 <= i < board.footprints@.len() && !pads && 0 <= k
            < board.footprints@[i].hole_item_ids@.len() ==> board.footprints@[i].hole_item_ids@[k].0
            < board.node.next,
{
    let entries = board.node.entries@;
    if 0 <= i < board.footprints@.len() {
        if pads && 0 <= k < board.footprints@[i].pad_item_ids@.len() {
            let m = lemma_item_of_some(
                entries,
                board.footprints@[i].pad_item_ids@[k],
            );
            assert(entries[m].id.0 < board.node.next);
        }
        if !pads && 0 <= k < board.footprints@[i].hole_item_ids@.len() {
            let m = lemma_item_of_some(
                entries,
                board.footprints@[i].hole_item_ids@[k],
            );
            assert(entries[m].id.0 < board.node.next);
        }
    }
}

/// `item` on the net of what `id` names.
pub open spec fn carried(entries: Seq<Entry>, id: ItemId, item: Item) -> Item {
    with_net(
        item,
        match item_of(entries, id) {
            Some(was) => item_net(was),
            None => None,
        },
    )
}

/// `entries` with the items under the first `n` of `ids` replaced, in order,
/// by the first `n` of `items`, each pad keeping its net.
pub open spec fn reposed(
    entries: Seq<Entry>,
    ids: Seq<ItemId>,
    items: Seq<Item>,
    n: int,
) -> Seq<Entry>
    decreases n,
{
    if n <= 0 {
        entries
    } else {
        let rest = reposed(entries, ids, items, n - 1);
        replaced(rest, ids[n - 1], carried(rest, ids[n - 1], items[n - 1]))
    }
}

/// The pads and then the holes of a part.
pub open spec fn owned_ids(fp: PlacedFootprint) -> Seq<ItemId> {
    fp.pad_item_ids@ + fp.hole_item_ids@
}

/// How many of a part's items a pose provides for.
pub open spec fn posed_count(fp: PlacedFootprint, items: Seq<Item>) -> int {
    if items.len() < owned_ids(fp).len() {
        items.len() as int
    } else {
        owned_ids(fp).len() as int
    }
}

/// A pose of this very part: pads where it has pads, holes where it has
/// holes, and a place for its marker if it has one.
pub open spec fn pose_fits(fp: PlacedFootprint, shape: PlacedShape) -> bool {
    &&& forall|k: int|
        #![trigger shape.items@[k]]
        0 <= k < posed_count(fp, shape.items@) ==> if k < fp.pad_item_ids@.len() {
            shape.items@[k] is Pad
        } else {
            shape.items@[k] is Hole
        }
    &&& fp.pin1_marker is Some ==> shape.marker is Some
}

/// `after` is the part `before` at another pose.
pub open spec fn is_moved_part(
    before: PlacedFootprint,
    after: PlacedFootprint,
    position: Point,
    rotation_deg: Angle,
    shape: PlacedShape,
) -> bool {
    &&& after.id == before.id
    &&& after.reference == before.reference
    &&& after.template_name == before.template_name
    &&& after.pad_item_ids == before.pad_item_ids
    &&& after.hole_item_ids == before.hole_item_ids
    &&& after.position == position
    &&& after.rotation_deg == rotation_deg
    &&& after.courtyard == shape.courtyard
    &&& after.assembly_drills == shape.drills
    &&& after.pin1_marker == match before.pin1_marker {
        Some(marker) => Some(Pin1Marker { offset: marker.offset, center: shape.marker->0 }),
        None => None,
    }
}

impl BoardDoc {
    /// Where the footprint with this id stands in the list.
    pub fn footprint_index(&self, id: FootprintId) -> (r: Option<usize>)
        ensures
            match r {
                Some(k) => k < self.footprints@.len() && part_at(self.footprints@, id) == Some(
                    k as int,
                ) && self.footprints@[k as int].id == id,
                None => part_at(self.footprints@, id) is None,
            },
    {
        let mut i: usize = 0;
        assert(self.footprints@.skip(0) =~= self.footprints@);
        while i < self.footprints.len()
            invariant
                i <= self.footprints@.len(),
                part_at(self.footprints@, id) == (match part_at(self.footprints@.skip(i as int), id) {
                    Some(k) => Some(k + i),
                    None => None,
                }),
            decreases self.footprints@.len() - i,
        {
            assert(self.footprints@.skip(i as int)[0] == self.footprints@[i as int]);
            assert(self.footprints@.skip(i as int).drop_first() =~= self.footprints@.skip(i + 1));
            if self.footprints[i].id == id {
                return Some(i);
            }
            i += 1;
        }
        None
    }

    /// Where the footprint with this reference stands in the list.
    pub fn reference_index(&self, reference: &str) -> (r: Option<usize>)
        ensures
            match r {
                Some(k) => k < self.footprints@.len() && part_named(self.footprints@, reference@)
                    == Some(k as int) && self.footprints@[k as int].reference@ == reference@,
                None => part_named(self.footprints@, reference@) is None,
            },
    {
        let mut i: usize = 0;
        assert(self.footprints@.skip(0) =~= self.footprints@);
        while i < self.footprints.len()
            invariant
                i <= self.footprints@.len(),
                part_named(self.footprints@, reference@) == (match part_named(
                    self.footprints@.skip(i as int),
                    reference@,
                ) {
                    Some(k) => Some(k + i),
                    None => None,
                }),
            decreases self.footprints@.len() - i,
        {
            assert(self.footprints@.skip(i as int)[0] == self.footprints@[i as int]);
            assert(self.footprints@.skip(i as int).drop_first() =~= self.footprints@.skip(i + 1));
            if same_text(&self.footprints[i].reference, reference) {
                return Some(i);
            }
            i += 1;
        }
        None
    }

    /// The nets of the pads of the part that is being moved, by place; a new
    /// part has none. A candidate pose is measured with its pads on these, so
    /// that a pad never collides with copper of its own net.
    pub fn candidate_pad_nets(&self, moving: Option<FootprintId>) -> (r: Vec<Option<NetId>>)
        ensures
            match moving {
                Some(id) => match part_at(self.footprints@, id) {
                    Some(f) => r@ == self.footprints@[f].pad_item_ids@.map_values(
                        |pad: ItemId|
                            match self.node.item(pad) {
                                Some(item) => item_net(item),
                                None => None,
                            },
                    ),
                    None => r@.len() == 0,
                },
                None => r@.len() == 0,
            },
    {
        let mut r: Vec<Option<NetId>> = Vec::new();
        let index: Option<usize> = match moving {
            Some(id) => self.footprint_index(id),
            None => None,
        };
        match index {
            Some(f) => {
                let pads: &Vec<ItemId> = &self.footprints[f].pad_item_ids;
                let ghost net_of = |pad: ItemId|
                    match self.node.item(pad) {
                        Some(item) => item_net(item),
                        None => None,
                    };
                let mut k: usize = 0;
                while k < pads.len()
                    invariant
                        k <= pads@.len(),
                        net_of == (|pad: ItemId|
                            match self.node.item(pad) {
                                Some(item) => item_net(item),
                                None => None,
                            }),
                        r@ == pads@.take(k as int).map_values(net_of),
                    decreases pads@.len() - k,
                {
                    let net = match self.node.get(pads[k]) {
                        Some(item) => item.net(),
                        None => None,
                    };
                    r.push(net);
                    k += 1;
                    assert(r@ =~= pads@.take(k as int).map_values(net_of));
                }
                assert(pads@.take(k as int) =~= pads@);
            },
            None => {},
        }
        r
    }

    /// Moves a part without asking whether it may stand there. Every wire
    /// that ends on one of its pads is deleted, every pad keeps its id and its
    /// net, and the marker rides along.
    pub fn commit_move_footprint(
        &mut self,
        id: FootprintId,
        new_position: Point,
        new_rotation_deg: Angle,
        shape: PlacedShape,
    )
        requires
            old(self).wf(),
            part_at(old(self).footprints@, id) matches Some(f) && pose_fits(
                old(self).footprints@[f],
                shape,
            ),
            old(self).node.has_room_for(
                (old(self).node.entries@.len() + shape.items@.len()) as int,
            ),
        ensures
            final(self).wf(),
            final(self).has_moved_part(old(self), id, new_position, new_rotation_deg, shape),
    {
        let index: usize = match self.footprint_index(id) {
            Some(k) => k,
            None => {
                return ;
            },
        };
        let ghost before = *self;
        let ghost fp = self.footprints@[index as int];
        let wires: Vec<ItemId> = self.wires_touching_pads(&self.footprints[index].pad_item_ids);
        proof {
            lemma_pad_wires(before.node.entries@, fp.pad_item_ids@, wires@);
        }
        self.remove_items(&wires);
        let ghost cleared = self.node.entries@;
        let ghost cleared_board = *self;
        let mut ids: Vec<ItemId> = Vec::new();
        append_ids(&mut ids, &self.footprints[index].pad_item_ids);
        append_ids(&mut ids, &self.footprints[index].hole_item_ids);
        assert(ids@ =~= owned_ids(fp));
        let PlacedShape { items, courtyard, drills, marker } = shape;
        let mut items = items;
        let ghost all = items@;
        let ghost n = posed_count(fp, all);
        items.truncate(ids.len());
        let ghost posed = items@;
        proof {
            assert(posed =~= all.take(n));
            assert forall|k: int| #![trigger ids@[k]] 0 <= k < n implies item_of(cleared, ids@[k]) matches Some(was)
                && ((was is Pad && all[k] is Pad) || (was is Hole && all[k] is Hole)) by {
                if k < fp.pad_item_ids@.len() {
                    assert(ids@[k] == before.footprints@[index as int].pad_item_ids@[k]);
                    assert(cleared_board.footprints@[index as int].pad_item_ids@[k] == ids@[k]);
                } else {
                    let m = k - fp.pad_item_ids@.len();
                    assert(ids@[k] == before.footprints@[index as int].hole_item_ids@[m]);
                    assert(cleared_board.footprints@[index as int].hole_item_ids@[m] == ids@[k]);
                }
                assert(all[k] is Pad || all[k] is Hole);
            }
        }
        let mut k: usize = 0;
        for item in it: items
            invariant
                it.seq() == posed,
                posed.len() == n,
                n <= ids@.len(),
                n <= all.len(),
                posed == all.take(n),
                k == it.index(),
                self.node.wf(),
                self.same_but_node(&cleared_board),
                self.node.entries@ == reposed(cleared, ids@, all, k as int),
                self.node.next == before.node.next,
                self.node.revision == cleared_board.node.revision + k,
                cleared_board.node.revision <= before.node.revision + before.node.entries@.len(),
                before.node.has_room_for((before.node.entries@.len() + all.len()) as int),
                forall|k: int|
                    #![trigger ids@[k]]
                    0 <= k < n ==> (item_of(cleared, ids@[k]) matches Some(was) && ((was is Pad
                        && all[k] is Pad) || (was is Hole && all[k] is Hole))),
        {
            let ghost now = self.node.entries@;
            let mut item = item;
            let id_k = ids[k];
            let net_now = match self.node.get(id_k) {
                Some(was) => was.net(),
                None => None,
            };
            match &mut item {
                Item::Pad { net, .. } => {
                    *net = net_now;
                },
                _ => {},
            }
            proof {
                lemma_reposed_kinds(cleared, ids@, all, k as int);
                assert(item == carried(now, id_k, all[k as int]));
                assert(item_of(cleared, ids@[k as int]) is Some);
            }
            self.node.replace(id_k, item);
            k += 1;
        }
        let new_marker = match self.footprints[index].pin1_marker {
            Some(old_marker) => match marker {
                Some(center) => Some(Pin1Marker { offset: old_marker.offset, center }),
                None => None,
            },
            None => None,
        };
        self.footprints[index].position = new_position;
        self.footprints[index].rotation_deg = new_rotation_deg;
        self.footprints[index].courtyard = courtyard;
        self.footprints[index].assembly_drills = drills;
        self.footprints[index].pin1_marker = new_marker;
        proof {
            lemma_reposed_kinds(cleared, ids@, all, n);
            lemma_records_carry(
                cleared_board.footprints@,
                cleared_board.zones@,
                cleared,
                self.node.entries@,
            );
            lemma_same_owners(cleared_board.footprints@, self.footprints@, self.node.entries@);
            lemma_same_ids(
                cleared_board.footprints@,
                self.footprints@,
                self.next_footprint_serial as int,
            );
            lemma_reposed_len(cleared, ids@, all, n);
            assert(self.footprints@ =~= before.footprints@.update(
                index as int,
                self.footprints@[index as int],
            ));
        }
    }

    /// `self` is `before` with one part moved.
    pub open spec fn has_moved_part(
        &self,
        before: &BoardDoc,
        id: FootprintId,
        position: Point,
        rotation_deg: Angle,
        shape: PlacedShape,
    ) -> bool {
        let f = part_at(before.footprints@, id)->0;
        let fp = before.footprints@[f];
        let n = posed_count(fp, shape.items@);
        &&& self.same_but_parts(before)
        &&& self.next_footprint_serial == before.next_footprint_serial
        &&& self.footprints@ == before.footprints@.update(f, self.footprints@[f])
        &&& is_moved_part(fp, self.footprints@[f], position, rotation_deg, shape)
        &&& self.node.entries@ == reposed(
            without(
                before.node.entries@,
                wires_at_pads(before.node.entries@, fp.pad_item_ids@),
            ),
            owned_ids(fp),
            shape.items@,
            n,
        )
        &&& self.node.next == before.node.next
        &&& self.node.revision == before.node.revision + before.node.entries@.len()
            - self.node.entries@.len() + n
    }

    /// Moves a part to a pose where it may stand; nothing changes if it may
    /// not.
    pub fn try_move_footprint(
        &mut self,
        id: FootprintId,
        template: &FootprintTemplate,
        new_position: Point,
        new_rotation_deg: Angle,
        shape: PlacedShape,
        probe: &PlacementProbe,
        rules: &FabRules,
    ) -> (r: Result<(), PlacementError>)
        requires
            old(self).wf(),
            part_at(old(self).footprints@, id) matches Some(f) && pose_fits(
                old(self).footprints@[f],
                shape,
            ),
            BoardDoc::probe_fits(shape, *probe),
            old(self).node.has_room_for(
                (old(self).node.entries@.len() + shape.items@.len()) as int,
            ),
        ensures
            final(self).wf(),
            r == old(self).placement_verdict(*template, shape, *probe, *rules, seq![id]),
            r is Err ==> *final(self) == *old(self),
            r is Ok ==> final(self).has_moved_part(
                old(self),
                id,
                new_position,
                new_rotation_deg,
                shape,
            ),
    {
        match self.check_placement(template, &shape, probe, rules, Some(id)) {
            Ok(_) => {},
            Err(e) => {
                return Err(e);
            },
        }
        self.commit_move_footprint(id, new_position, new_rotation_deg, shape);
        Ok(())
    }

    /// `self` is `before` without one part, without its wires, and without the
    /// nets that nothing is on any more.
    pub open spec fn has_lost_part(&self, before: &BoardDoc, id: FootprintId) -> bool {
        let f = part_at(before.footprints@, id)->0;
        let fp = before.footprints@[f];
        let entries = before.node.entries@;
        &&& self.same_but_parts_and_nets(before)
        &&& self.next_footprint_serial == before.next_footprint_serial
        &&& self.next_net_serial == before.next_net_serial
        &&& self.footprints@ == before.footprints@.remove(f)
        &&& self.node.entries@ == without(
            without(entries, wires_at_pads(entries, fp.pad_item_ids@)),
            owned_ids(fp).to_set(),
        )
        &&& self.nets@ == nets_in_use(before.nets@, self.node.entries@)
        &&& self.node.next == before.node.next
        &&& self.node.revision == before.node.revision + entries.len() - self.node.entries@.len()
    }

    /// Takes a part off the board with its pads, its holes and every wire that
    /// ends on its pads; nets that nothing is on any more are forgotten.
    /// Nothing happens if there is no such part.
    pub fn remove_footprint(&mut self, id: FootprintId)
        requires
            old(self).wf(),
            part_at(old(self).footprints@, id) matches Some(f) ==> old(self).node.has_room_for(
                (old(self).node.entries@.len() + owned_ids(old(self).footprints@[f]).len()) as int,
            ),
        ensures
            final(self).wf(),
            match part_at(old(self).footprints@, id) {
                Some(_) => final(self).has_lost_part(old(self), id),
                None => *final(self) == *old(self),
            },
    {
        let index: usize = match self.footprint_index(id) {
            Some(k) => k,
            None => {
                return ;
            },
        };
        let ghost before = *self;
        let ghost fp = self.footprints@[index as int];
        let wires: Vec<ItemId> = self.wires_touching_pads(&self.footprints[index].pad_item_ids);
        proof {
            lemma_pad_wires(before.node.entries@, fp.pad_item_ids@, wires@);
        }
        self.remove_items(&wires);
        let ghost cleared_board = *self;
        let footprint = self.footprints.remove(index);
        let mut ids: Vec<ItemId> = Vec::new();
        append_ids(&mut ids, &footprint.pad_item_ids);
        append_ids(&mut ids, &footprint.hole_item_ids);
        assert(ids@ =~= owned_ids(fp));
        self.node.remove_all(&ids);
        proof {
            lemma_removed_part_keeps_order(cleared_board, *self, index as int);
            let cleared = cleared_board.node.entries@;
            assert forall|i: int| 0 <= i < cleared.len() && owned_ids(fp).to_set().contains(
                (#[trigger] cleared[i]).id,
            ) implies !(cleared[i].item is Zone) by {
                lemma_item_of_index(cleared, i);
                let k = choose|k: int|
                    0 <= k < owned_ids(fp).len() && owned_ids(fp)[k] == cleared[i].id;
                let part = cleared_board.footprints@[index as int];
                if k < fp.pad_item_ids@.len() {
                    assert(part.pad_item_ids@[k] == cleared[i].id);
                } else {
                    assert(part.hole_item_ids@[k - fp.pad_item_ids@.len()] == cleared[i].id);
                }
            }
            lemma_obstacles_leave(cleared, owned_ids(fp).to_set());
        }
        self.prune_empty_nets();
    }

    /// Recomputes every part's body and drills; `poses[i]` is the pose of part
    /// `i`. A part whose template is not known keeps what it has.
    pub fn sync_courtyards(&mut self, templates: &[FootprintTemplate], poses: &[BodyPose])
        requires
            old(self).wf(),
            poses@.len() == old(self).footprints@.len(),
        ensures
            final(self).wf(),
            final(self).same_but_parts(old(self)),
            final(self).node == old(self).node,
            final(self).next_footprint_serial == old(self).next_footprint_serial,
            final(self).footprints@.len() == old(self).footprints@.len(),
            forall|i: int|
                #![trigger final(self).footprints@[i]]
                0 <= i < final(self).footprints@.len() ==> is_synced(
                    old(self).footprints@[i],
                    final(self).footprints@[i],
                    templates@,
                    poses@[i],
                ),
    {
        let ghost before = *self;
        let mut i: usize = 0;
        while i < self.footprints.len()
            invariant
                before == *old(self),
                before.wf(),
                i <= before.footprints@.len(),
                poses@.len() == before.footprints@.len(),
                self.footprints@.len() == before.footprints@.len(),
                self.node == before.node,
                self.next_footprint_serial == before.next_footprint_serial,
                self.nets == before.nets,
                self.next_net_serial == before.next_net_serial,
                self.zones == before.zones,
                self.next_zone_serial == before.next_zone_serial,
                self.silk_texts == before.silk_texts,
                self.next_silk_text_serial == before.next_silk_text_serial,
                self.silk_dots == before.silk_dots,
                self.next_silk_dot_serial == before.next_silk_dot_serial,
                self.outline == before.outline,
                self.layer_count == before.layer_count,
                self.copper_weight == before.copper_weight,
                forall|k: int|
                    #![trigger self.footprints@[k]]
                    0 <= k < before.footprints@.len() ==> if k < i {
                        is_synced(
                            before.footprints@[k],
                            self.footprints@[k],
                            templates@,
                            poses@[k],
                        )
                    } else {
                        self.footprints@[k] == before.footprints@[k]
                    },
            decreases before.footprints@.len() - i,
        {
            let ghost now = self.footprints@;
            assert(now[i as int] == before.footprints@[i as int]);
            if find_template(templates, &self.footprints[i].template_name).is_some() {
                let courtyard = copy_polygon(&poses[i].courtyard);
                let drills = copy_circles(&poses[i].drills);
                self.footprints[i].courtyard = courtyard;
                self.footprints[i].assembly_drills = drills;
            }
            assert forall|k: int|
                #![trigger self.footprints@[k]]
                0 <= k < before.footprints@.len() && k != i implies self.footprints@[k] == now[k] by {
            }
            i += 1;
        }
        proof {
            assert forall|k: int| #![trigger self.footprints@[k]] 0 <= k
                < before.footprints@.len() implies self.footprints@[k].id == before.footprints@[k].id
                && self.footprints@[k].pad_item_ids == before.footprints@[k].pad_item_ids
                && self.footprints@[k].hole_item_ids == before.footprints@[k].hole_item_ids by {
                assert(is_synced(
                    before.footprints@[k],
                    self.footprints@[k],
                    templates@,
                    poses@[k],
                ));
            }
            lemma_same_owners(before.footprints@, self.footprints@, self.node.entries@);
            lemma_same_ids(
                before.footprints@,
                self.footprints@,
                self.next_footprint_serial as int,
            );
        }
    }

    /// The pad with a number on the part with a reference; `templates` tells
    /// which pad of the part has which number.
    pub fn find_pad(
        &self,
        templates: &[FootprintTemplate],
        reference: &str,
        pad_number: &str,
    ) -> (r: Option<ItemId>)
        ensures
            r == self.pad_of(templates@, reference@, pad_number@),
    {
        let f: usize = match self.reference_index(reference) {
            Some(k) => k,
            None => {
                return None;
            },
        };
        let t: usize = match find_template(templates, &self.footprints[f].template_name) {
            Some(k) => k,
            None => {
                return None;
            },
        };
        match find_pad_number(&templates[t].pads, pad_number) {
            Some(k) => if k < self.footprints[f].pad_item_ids.len() {
                Some(self.footprints[f].pad_item_ids[k])
            } else {
                None
            },
            None => None,
        }
    }

    /// The pad with a number on the part with a reference.
    pub open spec fn pad_of(
        &self,
        templates: Seq<FootprintTemplate>,
        reference: Seq<char>,
        number: Seq<char>,
    ) -> Option<ItemId> {
        match part_named(self.footprints@, reference) {
            Some(f) => match template_named(templates, self.footprints@[f].template_name@) {
                Some(t) => match pad_numbered(templates[t].pads@, number) {
                    Some(k) => if k < self.footprints@[f].pad_item_ids@.len() {
                        Some(self.footprints@[f].pad_item_ids@[k])
                    } else {
                        None
                    },
                    None => None,
                },
                None => None,
            },
            None => None,
        }
    }

    /// The first pad that holds the point: `inside[i]` says so of the item at
    /// place `i` where that is a polygon.
    pub fn pad_at(&self, point: Point, inside: &[bool]) -> (r: Option<ItemId>)
        ensures
            r == first_pad_at(self.node.entries@, point, inside@, 0),
    {
        let mut i: usize = 0;
        while i < self.node.entries.len()
            invariant
                i <= self.node.entries@.len(),
                first_pad_at(self.node.entries@, point, inside@, 0) == first_pad_at(
                    self.node.entries@,
                    point,
                    inside@,
                    i as int,
                ),
            decreases self.node.entries@.len() - i,
        {
            let hit = match &self.node.entries[i].item {
                Item::Pad { shape: PadShape::Circle(c), .. } => is_within(
                    c.center,
                    point,
                    c.radius as i128,
                ),
                Item::Pad { shape: PadShape::Polygon { .. }, .. } => i < inside.len() && inside[i],
                _ => false,
            };
            if hit {
                return Some(self.node.entries[i].id);
            }
            i += 1;
        }
        None
    }

    /// The first mechanical hole that holds the point.
    pub fn hole_at(&self, point: Point) -> (r: Option<ItemId>)
        ensures
            r == first_hole_at(self.node.entries@, point, 0),
    {
        let mut i: usize = 0;
        while i < self.node.entries.len()
            invariant
                i <= self.node.entries@.len(),
                first_hole_at(self.node.entries@, point, 0) == first_hole_at(
                    self.node.entries@,
                    point,
                    i as int,
                ),
            decreases self.node.entries@.len() - i,
        {
            let hit = match &self.node.entries[i].item {
                Item::Hole { position, drill } => is_within_half(*position, point, *drill),
                _ => false,
            };
            if hit {
                return Some(self.node.entries[i].id);
            }
            i += 1;
        }
        None
    }

    /// The part that owns the pad under a click, or else the mounting hole.
    pub fn footprint_at(&self, point: Point, inside: &[bool]) -> (r: Option<FootprintId>)
        ensures
            r == match first_pad_at(self.node.entries@, point, inside@, 0) {
                Some(pad) => owner_of_pad(self.footprints@, pad),
                None => match first_hole_at(self.node.entries@, point, 0) {
                    Some(hole) => owner_of_hole(self.footprints@, hole),
                    None => None,
                },
            },
    {
        match self.pad_at(point, inside) {
            Some(pad) => self.find_owner(pad, false),
            None => match self.hole_at(point) {
                Some(hole) => self.find_owner(hole, true),
                None => None,
            },
        }
    }

    fn find_owner(&self, id: ItemId, holes: bool) -> (r: Option<FootprintId>)
        ensures
            r == if holes {
                owner_of_hole(self.footprints@, id)
            } else {
                owner_of_pad(self.footprints@, id)
            },
    {
        let mut i: usize = 0;
        assert(self.footprints@.skip(0) =~= self.footprints@);
        while i < self.footprints.len()
            invariant
                i <= self.footprints@.len(),
                owner_of_hole(self.footprints@, id) == owner_of_hole(
                    self.footprints@.skip(i as int),
                    id,
                ) || !holes,
                owner_of_pad(self.footprints@, id) == owner_of_pad(
                    self.footprints@.skip(i as int),
                    id,
                ) || holes,
            decreases self.footprints@.len() - i,
        {
            assert(self.footprints@.skip(i as int)[0] == self.footprints@[i as int]);
            assert(self.footprints@.skip(i as int).drop_first() =~= self.footprints@.skip(i + 1));
            let owns = if holes {
                contains_id(&self.footprints[i].hole_item_ids, id)
            } else {
                contains_id(&self.footprints[i].pad_item_ids, id)
            };
            if owns {
                return Some(self.footprints[i].id);
            }
            i += 1;
        }
        None
    }
}

/// A part's body and drills in world space.
#[derive(Debug, Clone)]
pub struct BodyPose {
    pub courtyard: Polygon,
    pub drills: Vec<Circle>,
}

/// `after` is the part `before` with its body and drills brought up to date,
/// if its template is known.
pub open spec fn is_synced(
    before: PlacedFootprint,
    after: PlacedFootprint,
    templates: Seq<FootprintTemplate>,
    pose: BodyPose,
) -> bool {
    if template_named(templates, before.template_name@) is Some {
        &&& after.courtyard.points@ == pose.courtyard.points@
        &&& after.assembly_drills@ == pose.drills@
        &&& after == (PlacedFootprint {
            courtyard: after.courtyard,
            assembly_drills: after.assembly_drills,
            ..before
        })
    } else {
        after == before
    }
}

/// A pad holds a point: computed for a round pad, measured for a polygon.
pub open spec fn pad_holds(item: Item, point: Point, measured: bool) -> bool {
    match item {
        Item::Pad { shape: PadShape::Circle(c), .. } => within(c.center, point, c.radius as int),
        Item::Pad { shape: PadShape::Polygon { .. }, .. } => measured,
        _ => false,
    }
}

/// The first pad from place `from` on that holds a point.
pub open spec fn first_pad_at(
    entries: Seq<Entry>,
    point: Point,
    inside: Seq<bool>,
    from: int,
) -> Option<ItemId>
    decreases entries.len() - from,
{
    if from < 0 || from >= entries.len() {
        None
    } else if pad_holds(entries[from].item, point, from < inside.len() && inside[from]) {
        Some(entries[from].id)
    } else {
        first_pad_at(entries, point, inside, from + 1)
    }
}

/// The first mechanical hole from place `from` on that holds a point.
pub open spec fn first_hole_at(entries: Seq<Entry>, point: Point, from: int) -> Option<ItemId>
    decreases entries.len() - from,
{
    if from < 0 || from >= entries.len() {
        None
    } else if entries[from].item matches Item::Hole { position, drill } && within_half(
        position,
        point,
        drill as int,
    ) {
        Some(entries[from].id)
    } else {
        first_hole_at(entries, point, from + 1)
    }
}

/// The part that owns a pad.
pub open spec fn owner_of_pad(fps: Seq<PlacedFootprint>, pad: ItemId) -> Option<FootprintId>
    decreases fps.len(),
{
    if fps.len() == 0 {
        None
    } else if fps[0].pad_item_ids@.contains(pad) {
        Some(fps[0].id)
    } else {
        owner_of_pad(fps.drop_first(), pad)
    }
}

/// The part that owns a mechanical hole.
pub open spec fn owner_of_hole(fps: Seq<PlacedFootprint>, hole: ItemId) -> Option<FootprintId>
    decreases fps.len(),
{
    if fps.len() == 0 {
        None
    } else if fps[0].hole_item_ids@.contains(hole) {
        Some(fps[0].id)
    } else {
        owner_of_hole(fps.drop_first(), hole)
    }
}

/// Appends `more` to `ids`.
fn append_ids(ids: &mut Vec<ItemId>, more: &[ItemId])
    ensures
        final(ids)@ == old(ids)@ + more@,
{
    let ghost before = ids@;
    let mut k: usize = 0;
    while k < more.len()
        invariant
            k <= more@.len(),
            ids@ == before + more@.take(k as int),
        decreases more@.len() - k,
    {
        ids.push(more[k]);
        k += 1;
        assert(ids@ =~= before + more@.take(k as int));
    }
    assert(more@.take(k as int) =~= more@);
}

/// A copy of a polygon.
pub fn copy_polygon(p: &Polygon) -> (r: Polygon)
    ensures
        r.points@ == p.points@,
{
    let mut points: Vec<Point> = Vec::new();
    let mut k: usize = 0;
    while k < p.points.len()
        invariant
            k <= p.points@.len(),
            points@ == p.points@.take(k as int),
        decreases p.points@.len() - k,
    {
        points.push(p.points[k]);
        k += 1;
        assert(points@ =~= p.points@.take(k as int));
    }
    assert(p.points@.take(k as int) =~= p.points@);
    Polygon { points }
}

/// A copy of a list of circles.
fn copy_circles(c: &[Circle]) -> (r: Vec<Circle>)
    ensures
        r@ == c@,
{
    let mut circles: Vec<Circle> = Vec::new();
    let mut k: usize = 0;
    while k < c.len()
        invariant
            k <= c@.len(),
            circles@ == c@.take(k as int),
        decreases c@.len() - k,
    {
        circles.push(c[k]);
        k += 1;
        assert(circles@ =~= c@.take(k as int));
    }
    assert(c@.take(k as int) =~= c@);
    circles
}

/// The wires at some pads are live wires, and few enough to count.
proof fn lemma_pad_wires(entries: Seq<Entry>, pads: Seq<ItemId>, wires: Seq<ItemId>)
    requires
        ids_are_unique(entries),
        wires.no_duplicates(),
        forall|id: ItemId| #[trigger]
            wires.contains(id) <==> wires_at_pads(entries, pads).contains(id),
    ensures
        wires.len() <= entries.len(),
        wires_among(entries, wires.to_set()) == wires_at_pads(entries, pads),
{
    lemma_pad_wires_are_wires(entries, pads);
    assert forall|k: int| #![trigger wires[k]] 0 <= k < wires.len() implies item_of(
        entries,
        wires[k],
    ) is Some by {
        assert(wires.contains(wires[k]));
    }
    lemma_ids_are_few(entries, wires);
    assert(wires_among(entries, wires.to_set()) =~= wires_at_pads(entries, pads)) by {
        assert forall|id: ItemId| wires_among(entries, wires.to_set()).contains(id)
            == wires_at_pads(entries, pads).contains(id) by {
            assert(wires.to_set().contains(id) == wires.contains(id));
        }
    }
}

/// Only tracks and vias are among the wires at some pads.
proof fn lemma_pad_wires_are_wires(entries: Seq<Entry>, pads: Seq<ItemId>)
    requires
        ids_are_unique(entries),
    ensures
        forall|id: ItemId| #[trigger]
            wires_at_pads(entries, pads).contains(id) ==> (item_of(entries, id) matches Some(item)
                && is_wire(item)),
{
    assert forall|id: ItemId| #[trigger] wires_at_pads(entries, pads).contains(id) implies (item_of(
        entries,
        id,
    ) matches Some(item) && is_wire(item)) by {
        let w = choose|w: int|
            0 <= w < entries.len() && #[trigger] ends_on_pads(
                entries,
                entries[w].item,
                pads,
            ) && same_wire(entries, entries[w].id, id);
        lemma_wire_is_made_of_wires(entries, entries[w].id);
    }
}

/// Reposing keeps every item's kind.
proof fn lemma_reposed_kinds(entries: Seq<Entry>, ids: Seq<ItemId>, items: Seq<Item>, n: int)
    requires
        0 <= n <= ids.len(),
        n <= items.len(),
        forall|k: int|
            #![trigger ids[k]]
            0 <= k < n ==> (item_of(entries, ids[k]) matches Some(was) && ((was is Pad
                && items[k] is Pad) || (was is Hole && items[k] is Hole))),
    ensures
        keeps_kinds(entries, reposed(entries, ids, items, n)),
    decreases n,
{
    if n > 0 {
        lemma_reposed_kinds(entries, ids, items, n - 1);
        let rest = reposed(entries, ids, items, n - 1);
        let all = reposed(entries, ids, items, n);
        let last = ids[n - 1];
        assert(item_of(entries, last) is Some);
        assert forall|id: ItemId| #[trigger] item_of(entries, id) is Some implies {
            let was = item_of(entries, id)->0;
            &&& was is Pad ==> (item_of(all, id) matches Some(is) && is is Pad)
            &&& was is Hole ==> (item_of(all, id) matches Some(is) && is is Hole)
            &&& was is Zone ==> (item_of(all, id) matches Some(is) && is is Zone)
        } by {
            lemma_replaced_item(rest, last, carried(rest, last, items[n - 1]), id);
        }
    }
}

proof fn lemma_reposed_len(entries: Seq<Entry>, ids: Seq<ItemId>, items: Seq<Item>, n: int)
    ensures
        reposed(entries, ids, items, n).len() == entries.len(),
    decreases n,
{
    if n > 0 {
        lemma_reposed_len(entries, ids, items, n - 1);
    }
}

proof fn lemma_without_few(entries: Seq<Entry>, gone: Set<ItemId>)
    ensures
        without(entries, gone).len() <= entries.len(),
    decreases entries.len(),
{
    if entries.len() > 0 {
        lemma_without_few(entries.drop_last(), gone);
    }
}

/// Moving a part leaves no more items than there were.
pub proof fn lemma_moved_len(entries: Seq<Entry>, fp: PlacedFootprint, items: Seq<Item>)
    ensures
        reposed(
            without(entries, wires_at_pads(entries, fp.pad_item_ids@)),
            owned_ids(fp),
            items,
            posed_count(fp, items),
        ).len() <= entries.len(),
        posed_count(fp, items) <= items.len(),
{
    let gone = wires_at_pads(entries, fp.pad_item_ids@);
    lemma_without_few(entries, gone);
    lemma_reposed_len(without(entries, gone), owned_ids(fp), items, posed_count(fp, items));
}

/// Records that own the same items are in order together.
pub proof fn lemma_same_owners(
    before: Seq<PlacedFootprint>,
    after: Seq<PlacedFootprint>,
    entries: Seq<Entry>,
)
    requires
        footprint_items_live(before, entries),
        footprint_items_distinct(before),
        after.len() == before.len(),
        forall|k: int|
            #![trigger after[k]]
            0 <= k < after.len() ==> after[k].pad_item_ids == before[k].pad_item_ids
                && after[k].hole_item_ids == before[k].hole_item_ids,
    ensures
        footprint_items_live(after, entries),
        footprint_items_distinct(after),
{
    assert forall|i: int, k: int|
        #![trigger after[i].pad_item_ids@[k]]
        0 <= i < after.len() && 0 <= k < after[i].pad_item_ids@.len() implies (item_of(
        entries,
        after[i].pad_item_ids@[k],
    ) matches Some(item) && item is Pad) by {
        assert(before[i].pad_item_ids@[k] == after[i].pad_item_ids@[k]);
    }
    assert forall|i: int, k: int|
        #![trigger after[i].hole_item_ids@[k]]
        0 <= i < after.len() && 0 <= k < after[i].hole_item_ids@.len() implies (item_of(
        entries,
        after[i].hole_item_ids@[k],
    ) matches Some(item) && item is Hole) by {
        assert(before[i].hole_item_ids@[k] == after[i].hole_item_ids@[k]);
    }
    assert forall|i: int, k: int, j: int, l: int|
        #![trigger after[i].pad_item_ids@[k], after[j].pad_item_ids@[l]]
        0 <= i < after.len() && 0 <= k < after[i].pad_item_ids@.len() && 0 <= j < after.len() && 0
            <= l < after[j].pad_item_ids@.len() && (i != j || k != l) implies after[i].pad_item_ids@[k]
        != after[j].pad_item_ids@[l] by {
        assert(before[i].pad_item_ids@[k] == after[i].pad_item_ids@[k]);
        assert(before[j].pad_item_ids@[l] == after[j].pad_item_ids@[l]);
    }
    assert forall|i: int, k: int, j: int, l: int|
        #![trigger after[i].hole_item_ids@[k], after[j].hole_item_ids@[l]]
        0 <= i < after.len() && 0 <= k < after[i].hole_item_ids@.len() && 0 <= j < after.len() && 0
            <= l < after[j].hole_item_ids@.len() && (i != j || k != l) implies after[i].hole_item_ids@[k]
        != after[j].hole_item_ids@[l] by {
        assert(before[i].hole_item_ids@[k] == after[i].hole_item_ids@[k]);
        assert(before[j].hole_item_ids@[l] == after[j].hole_item_ids@[l]);
    }
}

pub proof fn lemma_same_ids(before: Seq<PlacedFootprint>, after: Seq<PlacedFootprint>, last: int)
    requires
        footprint_ids_ok(before, last),
        after.len() == before.len(),
        forall|k: int| #![trigger after[k]] 0 <= k < after.len() ==> after[k].id == before[k].id,
    ensures
        footprint_ids_ok(after, last),
{
    assert forall|i: int, j: int| #![trigger after[i], after[j]] 0 <= i < j < after.len() implies
        after[i].id != after[j].id by {
        assert(before[i].id != before[j].id);
    }
    assert forall|i: int| #![trigger after[i]] 0 <= i < after.len() implies after[i].id.0 <= last by {
        assert(before[i].id.0 <= last);
    }
}

/// Where no pour is taken away, everything that is taken away was an obstacle.
proof fn lemma_obstacles_leave(entries: Seq<Entry>, gone: Set<ItemId>)
    requires
        forall|i: int|
            0 <= i < entries.len() && gone.contains((#[trigger] entries[i]).id) ==> !(
            entries[i].item is Zone),
    ensures
        obstacle_count(entries) - obstacle_count(without(entries, gone)) == entries.len() - without(
            entries,
            gone,
        ).len(),
    decreases entries.len(),
{
    if entries.len() > 0 {
        let init = entries.drop_last();
        assert forall|i: int| 0 <= i < init.len() && gone.contains(
            (#[trigger] init[i]).id,
        ) implies !(init[i].item is Zone) by {
            assert(init[i] == entries[i]);
        }
        lemma_obstacles_leave(init, gone);
        assert(entries.last() == entries[entries.len() - 1]);
        if !gone.contains(entries.last().id) {
            assert(without(entries, gone).drop_last() =~= without(init, gone));
        }
    }
}

/// Taking a part away together with its items leaves the board in order.
proof fn lemma_removed_part_keeps_order(before: BoardDoc, after: BoardDoc, f: int)
    requires
        before.wf(),
        0 <= f < before.footprints@.len(),
        after.node.wf(),
        after.node.entries@ == without(
            before.node.entries@,
            owned_ids(before.footprints@[f]).to_set(),
        ),
        after.footprints@ == before.footprints@.remove(f),
        after.next_footprint_serial == before.next_footprint_serial,
        after.nets == before.nets,
        after.next_net_serial == before.next_net_serial,
        after.zones == before.zones,
        after.next_zone_serial == before.next_zone_serial,
        after.silk_texts == before.silk_texts,
        after.next_silk_text_serial == before.next_silk_text_serial,
        after.silk_dots == before.silk_dots,
        after.next_silk_dot_serial == before.next_silk_dot_serial,
    ensures
        after.wf(),
{
    let fps = before.footprints@;
    let rest = after.footprints@;
    let entries = before.node.entries@;
    let kept = after.node.entries@;
    let fp = fps[f];
    let gone = owned_ids(fp).to_set();
    assert forall|id: ItemId| #[trigger] gone.contains(id) implies (item_of(entries, id) matches Some(
        item,
    ) && (item is Pad && fp.pad_item_ids@.contains(id) || item is Hole
        && fp.hole_item_ids@.contains(id))) by {
        assert(owned_ids(fp).contains(id));
        let k = choose|k: int| 0 <= k < owned_ids(fp).len() && owned_ids(fp)[k] == id;
        if k < fp.pad_item_ids@.len() {
            assert(fps[f].pad_item_ids@[k] == id);
        } else {
            assert(fps[f].hole_item_ids@[k - fp.pad_item_ids@.len()] == id);
        }
    }
    assert forall|i: int| 0 <= i < rest.len() implies #[trigger] rest[i] == fps[if i < f {
        i
    } else {
        i + 1
    }] by {
    }
    assert forall|i: int, k: int|
        #![trigger rest[i].pad_item_ids@[k]]
        0 <= i < rest.len() && 0 <= k < rest[i].pad_item_ids@.len() implies (item_of(
        kept,
        rest[i].pad_item_ids@[k],
    ) matches Some(item) && item is Pad) by {
        let j = if i < f {
            i
        } else {
            i + 1
        };
        let id = fps[j].pad_item_ids@[k];
        assert(rest[i].pad_item_ids@[k] == id);
        assert(item_of(entries, id) matches Some(item) && item is Pad);
        if gone.contains(id) {
            let m = choose|m: int| 0 <= m < fp.pad_item_ids@.len() && fp.pad_item_ids@[m] == id;
            assert(fps[f].pad_item_ids@[m] != fps[j].pad_item_ids@[k]);
        }
        lemma_without_item(entries, gone, id);
    }
    assert forall|i: int, k: int|
        #![trigger rest[i].hole_item_ids@[k]]
        0 <= i < rest.len() && 0 <= k < rest[i].hole_item_ids@.len() implies (item_of(
        kept,
        rest[i].hole_item_ids@[k],
    ) matches Some(item) && item is Hole) by {
        let j = if i < f {
            i
        } else {
            i + 1
        };
        let id = fps[j].hole_item_ids@[k];
        assert(rest[i].hole_item_ids@[k] == id);
        assert(item_of(entries, id) matches Some(item) && item is Hole);
        if gone.contains(id) {
            let m = choose|m: int| 0 <= m < fp.hole_item_ids@.len() && fp.hole_item_ids@[m] == id;
            assert(fps[f].hole_item_ids@[m] != fps[j].hole_item_ids@[k]);
        }
        lemma_without_item(entries, gone, id);
    }
    assert(footprint_items_distinct(rest)) by {
        assert forall|i: int, k: int, j: int, l: int|
            #![trigger rest[i].pad_item_ids@[k], rest[j].pad_item_ids@[l]]
            0 <= i < rest.len() && 0 <= k < rest[i].pad_item_ids@.len() && 0 <= j < rest.len() && 0
                <= l < rest[j].pad_item_ids@.len() && (i != j || k != l) implies rest[i].pad_item_ids@[k]
            != rest[j].pad_item_ids@[l] by {
            let a = if i < f {
                i
            } else {
                i + 1
            };
            let b = if j < f {
                j
            } else {
                j + 1
            };
            assert(fps[a].pad_item_ids@[k] == rest[i].pad_item_ids@[k]);
            assert(fps[b].pad_item_ids@[l] == rest[j].pad_item_ids@[l]);
        }
        assert forall|i: int, k: int, j: int, l: int|
            #![trigger rest[i].hole_item_ids@[k], rest[j].hole_item_ids@[l]]
            0 <= i < rest.len() && 0 <= k < rest[i].hole_item_ids@.len() && 0 <= j < rest.len() && 0
                <= l < rest[j].hole_item_ids@.len() && (i != j || k != l) implies rest[i].hole_item_ids@[k]
            != rest[j].hole_item_ids@[l] by {
            let a = if i < f {
                i
            } else {
                i + 1
            };
            let b = if j < f {
                j
            } else {
                j + 1
            };
            assert(fps[a].hole_item_ids@[k] == rest[i].hole_item_ids@[k]);
            assert(fps[b].hole_item_ids@[l] == rest[j].hole_item_ids@[l]);
        }
    }
    assert(footprint_ids_ok(rest, after.next_footprint_serial as int)) by {
        assert forall|i: int, j: int| #![trigger rest[i], rest[j]] 0 <= i < j < rest.len() implies
            rest[i].id != rest[j].id by {
            let a = if i < f {
                i
            } else {
                i + 1
            };
            let b = if j < f {
                j
            } else {
                j + 1
            };
            assert(fps[a].id != fps[b].id);
        }
    }
    assert(zone_items_ok(after.zones@, kept)) by {
        let zones = before.zones@;
        assert forall|i: int, k: int|
            #![trigger zones[i].item_ids@[k]]
            0 <= i < zones.len() && 0 <= k < zones[i].item_ids@.len() implies (item_of(
            kept,
            zones[i].item_ids@[k],
        ) matches Some(item) && item is Zone) by {
            let id = zones[i].item_ids@[k];
            assert(item_of(entries, id) matches Some(item) && item is Zone);
            lemma_without_item(entries, gone, id);
        }
    }
}

/// The ids a part owns are distinct.
proof fn lemma_owned_are_distinct(board: BoardDoc, f: int)
    requires
        board.wf(),
        0 <= f < board.footprints@.len(),
    ensures
        owned_ids(board.footprints@[f]).no_duplicates(),
{
    let fp = board.footprints@[f];
    let ids = owned_ids(fp);
    let pads = fp.pad_item_ids@.len();
    assert forall|a: int, b: int| 0 <= a < ids.len() && 0 <= b < ids.len() && a != b implies ids[a]
        != ids[b] by {
        if a < pads {
            assert(ids[a] == board.footprints@[f].pad_item_ids@[a]);
        } else {
            assert(ids[a] == board.footprints@[f].hole_item_ids@[a - pads]);
        }
        if b < pads {
            assert(ids[b] == board.footprints@[f].pad_item_ids@[b]);
        } else {
            assert(ids[b] == board.footprints@[f].hole_item_ids@[b - pads]);
        }
    }
}

proof fn lemma_reposed_other(
    entries: Seq<Entry>,
    ids: Seq<ItemId>,
    items: Seq<Item>,
    n: int,
    id: ItemId,
)
    requires
        0 <= n <= ids.len(),
        !ids.take(n).contains(id),
    ensures
        item_of(reposed(entries, ids, items, n), id) == item_of(entries, id),
    decreases n,
{
    if n > 0 {
        assert(ids.take(n)[n - 1] == ids[n - 1]);
        assert(!ids.take(n - 1).contains(id)) by {
            if ids.take(n - 1).contains(id) {
                let fewer = ids.take(n - 1);
                let k = choose|k: int| 0 <= k < fewer.len() && fewer[k] == id;
                assert(ids.take(n)[k] == id);
            }
        }
        lemma_reposed_other(entries, ids, items, n - 1, id);
        let rest = reposed(entries, ids, items, n - 1);
        lemma_replaced_item(rest, ids[n - 1], carried(rest, ids[n - 1], items[n - 1]), id);
    }
}

proof fn lemma_reposed_own(
    entries: Seq<Entry>,
    ids: Seq<ItemId>,
    items: Seq<Item>,
    n: int,
    k: int,
)
    requires
        0 <= k < n <= ids.len(),
        ids.no_duplicates(),
        item_of(entries, ids[k]) is Some,
    ensures
        item_of(reposed(entries, ids, items, n), ids[k]) == Some(
            carried(entries, ids[k], items[k]),
        ),
    decreases n,
{
    let rest = reposed(entries, ids, items, n - 1);
    let last = ids[n - 1];
    if k == n - 1 {
        assert(!ids.take(n - 1).contains(last)) by {
            if ids.take(n - 1).contains(last) {
                let fewer = ids.take(n - 1);
                let m = choose|m: int| 0 <= m < fewer.len() && fewer[m] == last;
                assert(ids[m] == ids[n - 1]);
            }
        }
        lemma_reposed_other(entries, ids, items, n - 1, last);
    } else {
        lemma_reposed_own(entries, ids, items, n - 1, k);
    }
    lemma_replaced_item(rest, last, carried(rest, last, items[n - 1]), ids[k]);
}

/// A moved part keeps its pads: each of them has the id and the net it had,
/// at its new place.
pub proof fn law_moved_pads_keep_their_nets(board: BoardDoc, f: int, shape: PlacedShape, k: int)
    requires
        board.wf(),
        0 <= f < board.footprints@.len(),
        0 <= k < posed_count(board.footprints@[f], shape.items@),
    ensures
        ({
            let fp = board.footprints@[f];
            let before = board.node.entries@;
            let id = owned_ids(fp)[k];
            let after = reposed(
                without(before, wires_at_pads(before, fp.pad_item_ids@)),
                owned_ids(fp),
                shape.items@,
                posed_count(fp, shape.items@),
            );
            item_of(after, id) == Some(
                with_net(shape.items@[k], item_net(item_of(before, id)->0)),
            )
        }),
{
    let fp = board.footprints@[f];
    let before = board.node.entries@;
    let gone = wires_at_pads(before, fp.pad_item_ids@);
    let id = owned_ids(fp)[k];
    if k < fp.pad_item_ids@.len() {
        assert(id == board.footprints@[f].pad_item_ids@[k]);
    } else {
        assert(id == board.footprints@[f].hole_item_ids@[k - fp.pad_item_ids@.len()]);
    }
    lemma_pad_wires_are_wires(before, fp.pad_item_ids@);
    lemma_without_item(before, gone, id);
    lemma_owned_are_distinct(board, f);
    lemma_reposed_own(
        without(before, gone),
        owned_ids(fp),
        shape.items@,
        posed_count(fp, shape.items@),
        k,
    );
}

/// A move leaves alone whatever neither belongs to the part nor is on a wire
/// that ends on it.
pub proof fn law_move_leaves_the_rest_alone(
    board: BoardDoc,
    f: int,
    shape: PlacedShape,
    id: ItemId,
)
    requires
        board.wf(),
        0 <= f < board.footprints@.len(),
        !owned_ids(board.footprints@[f]).contains(id),
        !wires_at_pads(board.node.entries@, board.footprints@[f].pad_item_ids@).contains(id),
    ensures
        ({
            let fp = board.footprints@[f];
            let before = board.node.entries@;
            let after = reposed(
                without(before, wires_at_pads(before, fp.pad_item_ids@)),
                owned_ids(fp),
                shape.items@,
                posed_count(fp, shape.items@),
            );
            item_of(after, id) == item_of(before, id)
        }),
{
    let fp = board.footprints@[f];
    let before = board.node.entries@;
    let gone = wires_at_pads(before, fp.pad_item_ids@);
    let n = posed_count(fp, shape.items@);
    lemma_without_item(before, gone, id);
    assert(!owned_ids(fp).take(n).contains(id)) by {
        if owned_ids(fp).take(n).contains(id) {
            let posed = owned_ids(fp).take(n);
            let k = choose|k: int| 0 <= k < posed.len() && posed[k] == id;
            assert(owned_ids(fp)[k] == id);
        }
    }
    lemma_reposed_other(without(before, gone), owned_ids(fp), shape.items@, n, id);
}

/// No stranded copper: once the wires at some pads are deleted, no track or
/// via ends where those pads stood.
pub proof fn law_no_wire_is_stranded(entries: Seq<Entry>, pads: Seq<ItemId>, e: Entry)
    requires
        ids_are_unique(entries),
        without(entries, wires_at_pads(entries, pads)).contains(e),
    ensures
        !ends_on_pads(entries, e.item, pads),
{
    lemma_without_contains(entries, wires_at_pads(entries, pads));
    if ends_on_pads(entries, e.item, pads) {
        let w = choose|w: int| 0 <= w < entries.len() && entries[w] == e;
        lemma_item_of_index(entries, w);
        law_wire_holds_its_start(entries, e.id);
        assert(ends_on_pads(entries, entries[w].item, pads));
        assert(wires_at_pads(entries, pads).contains(e.id));
    }
}

/// A new part's id is one that no part on the board has.
pub proof fn law_new_part_ids_are_fresh(fps: Seq<PlacedFootprint>, serial: usize)
    requires
        footprint_ids_ok(fps, serial as int),
        serial < usize::MAX,
    ensures
        part_at(fps, FootprintId((serial + 1) as usize)) is None,
    decreases fps.len(),
{
    if fps.len() > 0 {
        assert(fps[0].id.0 <= serial);
        let rest = fps.drop_first();
        lemma_rest_ids(fps, serial as int);
        law_new_part_ids_are_fresh(rest, serial);
    }
}

proof fn lemma_rest_ids(fps: Seq<PlacedFootprint>, last: int)
    requires
        footprint_ids_ok(fps, last),
        fps.len() > 0,
    ensures
        footprint_ids_ok(fps.drop_first(), last),
{
    let rest = fps.drop_first();
    assert forall|i: int, j: int| #![trigger rest[i], rest[j]] 0 <= i < j < rest.len() implies
        rest[i].id != rest[j].id by {
        assert(rest[i] == fps[i + 1]);
        assert(rest[j] == fps[j + 1]);
    }
    assert forall|i: int| #![trigger rest[i]] 0 <= i < rest.len() implies rest[i].id.0 <= last by {
        assert(rest[i] == fps[i + 1]);
    }
}

/// References are never used again: two parts with the same prefix that were
/// placed at different serials have different references.
pub proof fn law_references_are_not_reused(prefix: Seq<char>, a: nat, b: nat)
    requires
        a != b,
    ensures
        prefix + decimal(a) != prefix + decimal(b),
{
    if prefix + decimal(a) == prefix + decimal(b) {
        let x = prefix + decimal(a);
        let y = prefix + decimal(b);
        assert(x.skip(prefix.len() as int) =~= decimal(a));
        assert(y.skip(prefix.len() as int) =~= decimal(b));
        law_decimal_is_injective(a, b);
    }
}

/// A part was placed under a reference with the given prefix.
pub open spec fn places_a_part(before: BoardDoc, after: BoardDoc, prefix: Seq<char>) -> bool {
    let serial = (before.next_footprint_serial + 1) as usize;
    exists|
        name: Seq<char>,
        position: Point,
        rotation_deg: Angle,
        items: Seq<Item>,
        courtyard: Polygon,
        drills: Vec<Circle>,
    | #[trigger]
        after.has_new_part(
            &before,
            name,
            prefix + decimal(serial as nat),
            position,
            rotation_deg,
            items,
            courtyard,
            drills,
        )
}

/// A part was put on the board under whatever reference.
pub open spec fn inserts_a_part(before: BoardDoc, after: BoardDoc) -> bool {
    exists|
        name: Seq<char>,
        reference: Seq<char>,
        position: Point,
        rotation_deg: Angle,
        items: Seq<Item>,
        courtyard: Polygon,
        drills: Vec<Circle>,
    | #[trigger]
        after.has_new_part(
            &before,
            name,
            reference,
            position,
            rotation_deg,
            items,
            courtyard,
            drills,
        )
}

/// A part was moved.
pub open spec fn moves_a_part(before: BoardDoc, after: BoardDoc) -> bool {
    exists|id: FootprintId, position: Point, rotation_deg: Angle, shape: PlacedShape| #[trigger]
        after.has_moved_part(&before, id, position, rotation_deg, shape)
}

/// A part was removed.
pub open spec fn removes_a_part(before: BoardDoc, after: BoardDoc) -> bool {
    exists|id: FootprintId| #[trigger] after.has_lost_part(&before, id)
}

/// One step of a board's life, as far as parts go: a part is put on it, moved
/// or removed, or something else happens that leaves the serial alone.
pub open spec fn is_part_step(before: BoardDoc, after: BoardDoc) -> bool {
    ||| inserts_a_part(before, after)
    ||| moves_a_part(before, after)
    ||| removes_a_part(before, after)
    ||| after.next_footprint_serial == before.next_footprint_serial
}

/// The serial of parts never falls.
proof fn lemma_part_serial_grows(history: Seq<BoardDoc>, i: int, j: int)
    requires
        0 <= i <= j < history.len(),
        forall|k: int|
            0 <= k < history.len() - 1 ==> is_part_step(#[trigger] history[k], history[k + 1]),
    ensures
        history[i].next_footprint_serial <= history[j].next_footprint_serial,
    decreases j - i,
{
    if i < j {
        lemma_part_serial_grows(history, i, j - 1);
        let k = j - 1;
        assert(is_part_step(history[k], history[k + 1]));
    }
}

/// A reference is never given again, nor is an id: whatever is placed, moved
/// or removed between two placements with the same prefix, the second part
/// gets another reference and another id than the first. Both references are
/// the prefix and a number, and the second number is the larger one.
pub proof fn law_a_reference_is_never_given_again(
    history: Seq<BoardDoc>,
    i: int,
    j: int,
    prefix: Seq<char>,
)
    requires
        0 <= i < j < history.len() - 1,
        forall|k: int|
            0 <= k < history.len() - 1 ==> is_part_step(#[trigger] history[k], history[k + 1]),
        places_a_part(history[i], history[i + 1], prefix),
        places_a_part(history[j], history[j + 1], prefix),
    ensures
        history[i + 1].footprints@.last().reference@ == prefix + decimal(
            history[i + 1].next_footprint_serial as nat,
        ),
        history[j + 1].footprints@.last().reference@ == prefix + decimal(
            history[j + 1].next_footprint_serial as nat,
        ),
        history[i + 1].next_footprint_serial < history[j + 1].next_footprint_serial,
        history[i + 1].footprints@.last().reference@ != history[j + 1].footprints@.last().reference@,
        history[i + 1].footprints@.last().id != history[j + 1].footprints@.last().id,
{
    lemma_part_serial_grows(history, i + 1, j);
    let a = (history[i].next_footprint_serial + 1) as nat;
    let b = (history[j].next_footprint_serial + 1) as nat;
    law_references_are_not_reused(prefix, a, b);
}

} // verus!
