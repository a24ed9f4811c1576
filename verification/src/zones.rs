//! Copper zones: their records, their fills, and replacing the board outline.
//!
//! The islands a pour fills to are computed outside; here they are put on the
//! board, taken off again, and kept apart from everything else.

use vstd::prelude::*;

use crate::board_doc::{
    footprint_items_live, keeps_kinds, lemma_records_carry, zone_ids_ok, zone_items_ok, BoardDoc,
    FootprintId, PlacedFootprint, ZoneId, ZoneRecord,
};
use crate::footprint::FootprintTemplate;
use crate::geom::{Angle, Circle, Point, Polygon};
use crate::item::{
    extended, ids_are_unique, item_of, lemma_concat_item, lemma_item_of_absent, lemma_item_of_index,
    lemma_item_of_some, lemma_without_item, obstacle_count, obstacles_in, without, Entry, Item,
    ItemId, LayerId, NetId,
};
use crate::parts::{find_template, part_at, owned_ids, posed_count, reposed, template_named};
use crate::placement::PlacedShape;
use crate::text::{decimal, decimal_string};
use crate::wires::wires_at_pads;

verus! {

/// Why a new board outline was refused.
#[derive(Debug, Clone, Copy, PartialEq, Eq, Structural)]
pub enum SetOutlineError {
    /// A pad, a hole or the body of this part would leave the board.
    FootprintOffBoard(FootprintId),
    /// A track would leave the board.
    TrackOffBoard,
    /// A via would leave the board.
    ViaOffBoard,
}

impl SetOutlineError {
    pub open spec fn text(self) -> Seq<char> {
        match self {
            SetOutlineError::FootprintOffBoard(id) => "footprint FootprintId("@ + decimal(
                id.0 as nat,
            ) + ") would fall outside the new outline"@,
            SetOutlineError::TrackOffBoard =>
                "an existing track would fall outside the new outline"@,
            SetOutlineError::ViaOffBoard => "an existing via would fall outside the new outline"@,
        }
    }

    pub fn message(self) -> (s: String)
        ensures
            s@ == self.text(),
    {
        match self {
            SetOutlineError::FootprintOffBoard(id) => {
                let mut s = "footprint FootprintId(".to_owned();
                let number = decimal_string(id.0 as u64);
                s.append(&number);
                s.append(") would fall outside the new outline");
                s
            },
            SetOutlineError::TrackOffBoard =>
                "an existing track would fall outside the new outline".to_owned(),
            SetOutlineError::ViaOffBoard =>
                "an existing via would fall outside the new outline".to_owned(),
        }
    }
}

/// What was measured against a new outline: `items[f][k]` whether item `k` of
/// part `f` keeps its distance from the edge, `bodies[f]` whether its body
/// does, `copper[i]` whether item `i` of the world does.
#[derive(Debug, Clone)]
pub struct OutlineProbe {
    pub items: Vec<Vec<bool>>,
    pub bodies: Vec<bool>,
    pub copper: Vec<bool>,
}

/// Only pour copper.
pub open spec fn only_zones(items: Seq<Item>) -> bool {
    forall|i: int| #![trigger items[i]] 0 <= i < items.len() ==> items[i] is Zone
}

/// Consecutive ids from `first` on.
pub open spec fn fresh_ids(first: int, n: nat) -> Seq<ItemId> {
    Seq::new(n, |k: int| ItemId((first + k) as u64))
}

/// Where the zone with this id stands.
pub open spec fn zone_place(zones: Seq<ZoneRecord>, id: ZoneId) -> Option<int>
    decreases zones.len(),
{
    if zones.len() == 0 {
        None
    } else if zones[0].id == id {
        Some(0)
    } else {
        match zone_place(zones.drop_first(), id) {
            Some(k) => Some(k + 1),
            None => None,
        }
    }
}

/// A fill predates the current state of the board.
pub open spec fn is_stale(zones: Seq<ZoneRecord>, revision: u64) -> bool {
    exists|k: int| 0 <= k < zones.len() && (#[trigger] zones[k]).filled_at_revision != revision
}

/// `after` is the zone `before` with another fill.
pub open spec fn is_refilled(
    before: ZoneRecord,
    after: ZoneRecord,
    ids: Seq<ItemId>,
    revision: u64,
) -> bool {
    &&& after.id == before.id
    &&& after.outline == before.outline
    &&& after.layer == before.layer
    &&& after.net == before.net
    &&& after.item_ids@ == ids
    &&& after.filled_at_revision == revision
}

/// How many islands the first `n` fills have.
pub open spec fn fill_total(fills: Seq<Vec<Item>>, n: int) -> nat
    decreases n,
{
    if n <= 0 {
        0
    } else {
        fill_total(fills, n - 1) + fills[n - 1]@.len()
    }
}

/// The world after the first `n` zones were refilled in order: each loses its
/// old islands and gets its new ones.
pub open spec fn world_refilled(
    entries: Seq<Entry>,
    zones: Seq<ZoneRecord>,
    fills: Seq<Vec<Item>>,
    next: int,
    n: int,
) -> Seq<Entry>
    decreases n,
{
    if n <= 0 {
        entries
    } else {
        extended(
            without(
                world_refilled(entries, zones, fills, next, n - 1),
                zones[n - 1].item_ids@.to_set(),
            ),
            fills[n - 1]@,
            next + fill_total(fills, n - 1),
        )
    }
}

/// The largest number of islands that all zones together have now.
pub open spec fn island_total(zones: Seq<ZoneRecord>) -> nat
    decreases zones.len(),
{
    if zones.len() == 0 {
        0
    } else {
        island_total(zones.drop_last()) + zones.last().item_ids@.len()
    }
}

/// Part `f` would not keep its distance from the new edge; a part whose
/// template is not known is passed over.
pub open spec fn part_off_board(
    fps: Seq<PlacedFootprint>,
    templates: Seq<FootprintTemplate>,
    probe: OutlineProbe,
    f: int,
) -> bool {
    &&& template_named(templates, fps[f].template_name@) is Some
    &&& (exists|k: int| 0 <= k < probe.items@[f]@.len() && !#[trigger] probe.items@[f]@[k])
        || !probe.bodies@[f]
}

/// The first of the parts from `f` on that the new outline strands.
pub open spec fn first_part_off(
    fps: Seq<PlacedFootprint>,
    templates: Seq<FootprintTemplate>,
    probe: OutlineProbe,
    f: int,
) -> Option<FootprintId>
    decreases fps.len() - f,
{
    if f < 0 || f >= fps.len() {
        None
    } else if part_off_board(fps, templates, probe, f) {
        Some(fps[f].id)
    } else {
        first_part_off(fps, templates, probe, f + 1)
    }
}

/// The first of the items from `i` on that the new outline strands.
pub open spec fn first_copper_off(
    entries: Seq<Entry>,
    probe: OutlineProbe,
    i: int,
) -> Option<SetOutlineError>
    decreases entries.len() - i,
{
    if i < 0 || i >= entries.len() {
        None
    } else if entries[i].item is Track && !probe.copper@[i] {
        Some(SetOutlineError::TrackOffBoard)
    } else if entries[i].item is Via && !probe.copper@[i] {
        Some(SetOutlineError::ViaOffBoard)
    } else {
        first_copper_off(entries, probe, i + 1)
    }
}

impl BoardDoc {
    /// Everything but the item world and the zones is as in `other`.
    pub open spec fn same_but_zones(&self, other: &BoardDoc) -> bool {
        &&& self.outline == other.outline
        &&& self.same_but_outline_and_zones(other)
    }

    /// Everything but the outline, the item world and the zones is as in
    /// `other`.
    pub open spec fn same_but_outline_and_zones(&self, other: &BoardDoc) -> bool {
        &&& self.layer_count == other.layer_count
        &&& self.copper_weight == other.copper_weight
        &&& self.footprints == other.footprints
        &&& self.next_footprint_serial == other.next_footprint_serial
        &&& self.nets == other.nets
        &&& self.next_net_serial == other.next_net_serial
        &&& self.silk_texts == other.silk_texts
        &&& self.next_silk_text_serial == other.next_silk_text_serial
        &&& self.silk_dots == other.silk_dots
        &&& self.next_silk_dot_serial == other.next_silk_dot_serial
    }

    fn zone_index(&self, id: ZoneId) -> (r: Option<usize>)
        ensures
            match r {
                Some(k) => k < self.zones@.len() && zone_place(self.zones@, id) == Some(k as int)
                    && self.zones@[k as int].id == id,
                None => zone_place(self.zones@, id) is None,
            },
    {
        let mut i: usize = 0;
        assert(self.zones@.skip(0) =~= self.zones@);
        while i < self.zones.len()
            invariant
                i <= self.zones@.len(),
                zone_place(self.zones@, id) == (match zone_place(self.zones@.skip(i as int), id) {
                    Some(k) => Some(k + i),
                    None => None,
                }),
            decreases self.zones@.len() - i,
        {
            assert(self.zones@.skip(i as int)[0] == self.zones@[i as int]);
            assert(self.zones@.skip(i as int).drop_first() =~= self.zones@.skip(i + 1));
            if self.zones[i].id == id {
                return Some(i);
            }
            i += 1;
        }
        None
    }

    /// Draws a new zone: `items` are the islands it fills to on the board as
    /// it is, maybe none.
    pub fn add_zone(
        &mut self,
        outline: Polygon,
        layer: LayerId,
        net: NetId,
        items: Vec<Item>,
    ) -> (id: ZoneId)
        requires
            old(self).wf(),
            only_zones(items@),
            old(self).node.has_room_for(items@.len() as int),
            old(self).next_zone_serial < usize::MAX,
        ensures
            final(self).wf(),
            final(self).has_new_zone(
                old(self),
                id,
                outline,
                layer,
                net,
                items@,
                old(self).node.revision,
            ),
    {
        let filled_at_revision: u64 = self.node.obstacle_revision();
        self.insert_new_zone(outline, layer, net, items, filled_at_revision)
    }

    /// `self` is `before` with one more zone.
    pub open spec fn has_new_zone(
        &self,
        before: &BoardDoc,
        id: ZoneId,
        outline: Polygon,
        layer: LayerId,
        net: NetId,
        items: Seq<Item>,
        revision: u64,
    ) -> bool {
        let zone = self.zones@.last();
        &&& id == ZoneId((before.next_zone_serial + 1) as usize)
        &&& self.same_but_zones(before)
        &&& self.next_zone_serial == before.next_zone_serial + 1
        &&& self.zones@.len() == before.zones@.len() + 1
        &&& self.zones@.drop_last() == before.zones@
        &&& zone.id == id
        &&& zone.outline == outline
        &&& zone.layer == layer
        &&& zone.net == net
        &&& zone.item_ids@ == fresh_ids(before.node.next as int, items.len())
        &&& zone.filled_at_revision == revision
        &&& self.node.entries@ == extended(before.node.entries@, items, before.node.next as int)
        &&& self.node.next == before.node.next + items.len()
        &&& self.node.revision == before.node.revision
    }

    /// Records a zone whose islands were computed against the board at
    /// `filled_at_revision`.
    pub fn insert_new_zone(
        &mut self,
        outline: Polygon,
        layer: LayerId,
        net: NetId,
        items: Vec<Item>,
        filled_at_revision: u64,
    ) -> (id: ZoneId)
        requires
            old(self).wf(),
            only_zones(items@),
            old(self).node.has_room_for(items@.len() as int),
            old(self).next_zone_serial < usize::MAX,
        ensures
            final(self).wf(),
            final(self).has_new_zone(
                old(self),
                id,
                outline,
                layer,
                net,
                items@,
                filled_at_revision,
            ),
    {
        let ghost before = *self;
        let ghost all = items@;
        let serial: usize = self.next_zone_serial + 1;
        self.next_zone_serial = serial;
        let id = ZoneId(serial);
        let count: usize = items.len();
        let first: u64 = self.node.add_all(items);
        let item_ids: Vec<ItemId> = consecutive_ids(first, count);
        self.zones.push(ZoneRecord { id, outline, layer, net, item_ids, filled_at_revision });
        proof {
            lemma_zones_are_no_obstacles(all);
            assert(self.zones@.drop_last() =~= before.zones@);
            lemma_new_islands(before, before.node.entries@, all, before.node.next as int);
            let zones = self.zones@;
            let n = before.zones@.len();
            assert forall|i: int| 0 <= i < n implies #[trigger] zones[i] == before.zones@[i] by {
            }
            lemma_zone_items_with(
                zones,
                n as int,
                before.zones@,
                before.node.entries@,
                self.node.entries@,
                all,
                first as int,
            );
            assert(zone_ids_ok(zones, self.next_zone_serial as int)) by {
                assert forall|i: int, j: int|
                    #![trigger zones[i], zones[j]]
                    0 <= i < j < zones.len() implies zones[i].id != zones[j].id by {
                    assert(zones[i] == before.zones@[i]);
                    if j < n {
                        assert(zones[j] == before.zones@[j]);
                    }
                }
                assert forall|i: int| #![trigger zones[i]] 0 <= i < zones.len() implies zones[i].id.0
                    <= self.next_zone_serial by {
                    if i < n {
                        assert(zones[i] == before.zones@[i]);
                    }
                }
            }
        }
        id
    }

    /// Takes a zone's islands off the board; the zone stays recorded. Nothing
    /// happens if there is no such zone.
    pub fn clear_zone_fill(&mut self, id: ZoneId)
        requires
            old(self).wf(),
            zone_place(old(self).zones@, id) matches Some(k) ==> old(self).node.has_room_for(
                old(self).zones@[k].item_ids@.len() as int,
            ),
        ensures
            final(self).wf(),
            match zone_place(old(self).zones@, id) {
                Some(k) => {
                    let was = old(self).zones@[k];
                    &&& final(self).same_but_zones(old(self))
                    &&& final(self).next_zone_serial == old(self).next_zone_serial
                    &&& final(self).zones@ == old(self).zones@.update(k, final(self).zones@[k])
                    &&& is_refilled(
                        was,
                        final(self).zones@[k],
                        Seq::empty(),
                        was.filled_at_revision,
                    )
                    &&& final(self).node.entries@ == without(
                        old(self).node.entries@,
                        was.item_ids@.to_set(),
                    )
                    &&& final(self).node.next == old(self).node.next
                    &&& final(self).node.revision == old(self).node.revision
                },
                None => *final(self) == *old(self),
            },
    {
        match self.zone_index(id) {
            Some(k) => {
                self.clear_fill_at(k);
            },
            None => {},
        }
    }

    fn clear_fill_at(&mut self, k: usize)
        requires
            old(self).wf(),
            k < old(self).zones@.len(),
            old(self).node.has_room_for(old(self).zones@[k as int].item_ids@.len() as int),
        ensures
            final(self).wf(),
            final(self).same_but_zones(old(self)),
            final(self).next_zone_serial == old(self).next_zone_serial,
            final(self).zones@ == old(self).zones@.update(k as int, final(self).zones@[k as int]),
            is_refilled(
                old(self).zones@[k as int],
                final(self).zones@[k as int],
                Seq::empty(),
                old(self).zones@[k as int].filled_at_revision,
            ),
            final(self).node.entries@ == without(
                old(self).node.entries@,
                old(self).zones@[k as int].item_ids@.to_set(),
            ),
            final(self).node.next == old(self).node.next,
            final(self).node.revision == old(self).node.revision,
    {
        let ghost before = *self;
        let ghost gone = self.zones@[k as int].item_ids@.to_set();
        self.node.remove_all(&self.zones[k].item_ids);
        self.zones[k].item_ids = Vec::new();
        proof {
            assert(self.zones@ =~= before.zones@.update(k as int, self.zones@[k as int]));
            assert(self.zones@[k as int].item_ids@ =~= Seq::<ItemId>::empty());
            lemma_island_removal(before, k as int);
            lemma_zone_ids_stay(before.zones@, self.zones@, self.next_zone_serial as int);
            let zones = self.zones@;
            assert(zone_items_ok(zones, self.node.entries@)) by {
                assert forall|i: int, m: int|
                    #![trigger zones[i].item_ids@[m]]
                    0 <= i < zones.len() && 0 <= m < zones[i].item_ids@.len() implies (item_of(
                    self.node.entries@,
                    zones[i].item_ids@[m],
                ) matches Some(item) && item is Zone) by {
                    assert(i != k);
                    assert(zones[i] == before.zones@[i]);
                    let id = before.zones@[i].item_ids@[m];
                    lemma_island_stays(before, k as int, i, m);
                }
                assert forall|i: int, m: int, j: int, l: int|
                    #![trigger zones[i].item_ids@[m], zones[j].item_ids@[l]]
                    0 <= i < zones.len() && 0 <= m < zones[i].item_ids@.len() && 0 <= j < zones.len()
                        && 0 <= l < zones[j].item_ids@.len() && (i != j || m != l) implies zones[i].item_ids@[m]
                    != zones[j].item_ids@[l] by {
                    assert(before.zones@[i].item_ids@[m] == zones[i].item_ids@[m]);
                    assert(before.zones@[j].item_ids@[l] == zones[j].item_ids@[l]);
                }
            }
        }
    }

    /// Gives a zone the islands of a fresh fill, computed against the board at
    /// `filled_at_revision`. Nothing happens if there is no such zone.
    pub fn insert_zone_refill(&mut self, id: ZoneId, items: Vec<Item>, filled_at_revision: u64)
        requires
            old(self).wf(),
            only_zones(items@),
            old(self).node.has_room_for(items@.len() as int),
        ensures
            final(self).wf(),
            match zone_place(old(self).zones@, id) {
                Some(k) => {
                    &&& final(self).same_but_zones(old(self))
                    &&& final(self).next_zone_serial == old(self).next_zone_serial
                    &&& final(self).zones@ == old(self).zones@.update(k, final(self).zones@[k])
                    &&& is_refilled(
                        old(self).zones@[k],
                        final(self).zones@[k],
                        fresh_ids(old(self).node.next as int, items@.len()),
                        filled_at_revision,
                    )
                    &&& final(self).node.entries@ == extended(
                        old(self).node.entries@,
                        items@,
                        old(self).node.next as int,
                    )
                    &&& final(self).node.next == old(self).node.next + items@.len()
                    &&& final(self).node.revision == old(self).node.revision
                },
                None => *final(self) == *old(self),
            },
    {
        match self.zone_index(id) {
            Some(k) => {
                self.insert_fill_at(k, items, filled_at_revision);
            },
            None => {},
        }
    }

    fn insert_fill_at(&mut self, k: usize, items: Vec<Item>, filled_at_revision: u64)
        requires
            old(self).wf(),
            k < old(self).zones@.len(),
            only_zones(items@),
            old(self).node.has_room_for(items@.len() as int),
        ensures
            final(self).wf(),
            final(self).same_but_zones(old(self)),
            final(self).next_zone_serial == old(self).next_zone_serial,
            final(self).zones@ == old(self).zones@.update(k as int, final(self).zones@[k as int]),
            is_refilled(
                old(self).zones@[k as int],
                final(self).zones@[k as int],
                fresh_ids(old(self).node.next as int, items@.len()),
                filled_at_revision,
            ),
            final(self).node.entries@ == extended(
                old(self).node.entries@,
                items@,
                old(self).node.next as int,
            ),
            final(self).node.next == old(self).node.next + items@.len(),
            final(self).node.revision == old(self).node.revision,
    {
        let ghost before = *self;
        let ghost all = items@;
        let count: usize = items.len();
        let first: u64 = self.node.add_all(items);
        self.zones[k].item_ids = consecutive_ids(first, count);
        self.zones[k].filled_at_revision = filled_at_revision;
        proof {
            lemma_zones_are_no_obstacles(all);
            assert(self.zones@ =~= before.zones@.update(k as int, self.zones@[k as int]));
            lemma_new_islands(before, before.node.entries@, all, before.node.next as int);
            lemma_zone_items_with(
                self.zones@,
                k as int,
                before.zones@,
                before.node.entries@,
                self.node.entries@,
                all,
                first as int,
            );
            lemma_zone_ids_stay(before.zones@, self.zones@, self.next_zone_serial as int);
        }
    }

    fn refill_at(&mut self, k: usize, items: Vec<Item>)
        requires
            old(self).wf(),
            k < old(self).zones@.len(),
            only_zones(items@),
            old(self).node.has_room_for(
                (old(self).zones@[k as int].item_ids@.len() + items@.len()) as int,
            ),
        ensures
            final(self).wf(),
            final(self).same_but_zones(old(self)),
            final(self).next_zone_serial == old(self).next_zone_serial,
            final(self).zones@ == old(self).zones@.update(k as int, final(self).zones@[k as int]),
            is_refilled(
                old(self).zones@[k as int],
                final(self).zones@[k as int],
                fresh_ids(old(self).node.next as int, items@.len()),
                old(self).node.revision,
            ),
            final(self).node.entries@ == extended(
                without(
                    old(self).node.entries@,
                    old(self).zones@[k as int].item_ids@.to_set(),
                ),
                items@,
                old(self).node.next as int,
            ),
            final(self).node.next == old(self).node.next + items@.len(),
            final(self).node.revision == old(self).node.revision,
    {
        let ghost before = *self;
        self.clear_fill_at(k);
        let ghost cleared = *self;
        let filled_at_revision: u64 = self.node.obstacle_revision();
        self.insert_fill_at(k, items, filled_at_revision);
        proof {
            assert(cleared.zones@.update(k as int, self.zones@[k as int])
                =~= before.zones@.update(k as int, self.zones@[k as int]));
        }
    }

    /// Replaces a zone's fill by a fresh one: `items` are the islands it fills
    /// to on the board without its old ones. Nothing happens if there is no
    /// such zone.
    pub fn refill_zone(&mut self, id: ZoneId, items: Vec<Item>)
        requires
            old(self).wf(),
            only_zones(items@),
            zone_place(old(self).zones@, id) matches Some(k) ==> old(self).node.has_room_for(
                (old(self).zones@[k].item_ids@.len() + items@.len()) as int,
            ),
        ensures
            final(self).wf(),
            match zone_place(old(self).zones@, id) {
                Some(k) => {
                    let was = old(self).zones@[k];
                    &&& final(self).same_but_zones(old(self))
                    &&& final(self).next_zone_serial == old(self).next_zone_serial
                    &&& final(self).zones@ == old(self).zones@.update(k, final(self).zones@[k])
                    &&& is_refilled(
                        was,
                        final(self).zones@[k],
                        fresh_ids(old(self).node.next as int, items@.len()),
                        old(self).node.revision,
                    )
                    &&& final(self).node.entries@ == extended(
                        without(old(self).node.entries@, was.item_ids@.to_set()),
                        items@,
                        old(self).node.next as int,
                    )
                    &&& final(self).node.next == old(self).node.next + items@.len()
                    &&& final(self).node.revision == old(self).node.revision
                },
                None => *final(self) == *old(self),
            },
    {
        match self.zone_index(id) {
            Some(k) => {
                self.refill_at(k, items);
            },
            None => {},
        }
    }

    /// Whether some fill predates the latest change of something a pour has to
    /// keep clear of.
    pub fn zones_are_stale(&self) -> (r: bool)
        ensures
            r == is_stale(self.zones@, self.node.revision),
    {
        let current: u64 = self.node.obstacle_revision();
        let mut k: usize = 0;
        while k < self.zones.len()
            invariant
                k <= self.zones@.len(),
                current == self.node.revision,
                forall|i: int|
                    0 <= i < k ==> (#[trigger] self.zones@[i]).filled_at_revision == current,
            decreases self.zones@.len() - k,
        {
            if self.zones[k].filled_at_revision != current {
                assert(self.zones@[k as int].filled_at_revision != current);
                return true;
            }
            k += 1;
        }
        false
    }

    /// `self` is `before` with every zone refilled.
    pub open spec fn has_zones_refilled(&self, before: &BoardDoc, fills: Seq<Vec<Item>>) -> bool {
        let first = before.node.next as int;
        &&& self.zones@.len() == before.zones@.len()
        &&& self.next_zone_serial == before.next_zone_serial
        &&& forall|k: int|
            #![trigger self.zones@[k]]
            0 <= k < self.zones@.len() ==> is_refilled(
                before.zones@[k],
                self.zones@[k],
                fresh_ids(first + fill_total(fills, k), fills[k]@.len()),
                before.node.revision,
            )
        &&& self.node.entries@ == world_refilled(
            before.node.entries@,
            before.zones@,
            fills,
            first,
            before.zones@.len() as int,
        )
        &&& self.node.next == first + fill_total(fills, before.zones@.len() as int)
        &&& self.node.revision == before.node.revision
    }

    /// Refills every zone in order: `fills[k]` are the islands of zone `k` on
    /// the board with the zones before it already refilled. No fill is stale
    /// afterwards.
    pub fn refill_all_zones(&mut self, fills: Vec<Vec<Item>>)
        requires
            old(self).wf(),
            fills@.len() == old(self).zones@.len(),
            forall|k: int| #![trigger fills@[k]] 0 <= k < fills@.len() ==> only_zones(fills@[k]@),
            old(self).node.has_room_for(
                (island_total(old(self).zones@) + fill_total(fills@, fills@.len() as int)) as int,
            ),
        ensures
            final(self).wf(),
            final(self).same_but_zones(old(self)),
            final(self).has_zones_refilled(old(self), fills@),
            !is_stale(final(self).zones@, final(self).node.revision),
    {
        let ghost before = *self;
        let ghost all = fills@;
        let ghost first = self.node.next as int;
        let count: usize = fills.len();
        let mut k: usize = 0;
        for fill in it: fills
            invariant
                it.seq() == all,
                count == all.len(),
                k == it.index(),
                all.len() == before.zones@.len(),
                forall|k: int| #![trigger all[k]] 0 <= k < all.len() ==> only_zones(all[k]@),
                before.wf(),
                first == before.node.next,
                before.node.has_room_for(
                    (island_total(before.zones@) + fill_total(all, all.len() as int)) as int,
                ),
                self.wf(),
                self.same_but_zones(&before),
                self.next_zone_serial == before.next_zone_serial,
                self.zones@.len() == before.zones@.len(),
                self.node.revision == before.node.revision,
                self.node.next == first + fill_total(all, k as int),
                self.node.entries@ == world_refilled(
                    before.node.entries@,
                    before.zones@,
                    all,
                    first,
                    k as int,
                ),
                forall|m: int|
                    #![trigger self.zones@[m]]
                    0 <= m < self.zones@.len() ==> if m < k {
                        is_refilled(
                            before.zones@[m],
                            self.zones@[m],
                            fresh_ids(first + fill_total(all, m), all[m]@.len()),
                            before.node.revision,
                        )
                    } else {
                        self.zones@[m] == before.zones@[m]
                    },
        {
            let ghost now = *self;
            proof {
                assert(only_zones(all[k as int]@));
                assert(fill == all[k as int]);
                assert(now.zones@[k as int] == before.zones@[k as int]);
                lemma_island_total_has(before.zones@, k as int);
                lemma_fill_total_grows(all, k + 1, all.len() as int);
            }
            self.refill_at(k, fill);
            assert forall|m: int|
                #![trigger self.zones@[m]]
                0 <= m < self.zones@.len() && m != k implies self.zones@[m] == now.zones@[m] by {
                assert(now.zones@.update(k as int, self.zones@[k as int])[m] == now.zones@[m]);
            }
            k += 1;
        }
        assert forall|m: int| 0 <= m < self.zones@.len() implies (
        #[trigger] self.zones@[m]).filled_at_revision == self.node.revision by {
        }
    }

    /// Deletes a zone and its islands. Nothing happens if there is no such
    /// zone.
    pub fn remove_zone(&mut self, id: ZoneId)
        requires
            old(self).wf(),
            zone_place(old(self).zones@, id) matches Some(k) ==> old(self).node.has_room_for(
                old(self).zones@[k].item_ids@.len() as int,
            ),
        ensures
            final(self).wf(),
            match zone_place(old(self).zones@, id) {
                Some(k) => {
                    &&& final(self).same_but_zones(old(self))
                    &&& final(self).next_zone_serial == old(self).next_zone_serial
                    &&& final(self).zones@ == old(self).zones@.remove(k)
                    &&& final(self).node.entries@ == without(
                        old(self).node.entries@,
                        old(self).zones@[k].item_ids@.to_set(),
                    )
                    &&& final(self).node.next == old(self).node.next
                    &&& final(self).node.revision == old(self).node.revision
                },
                None => *final(self) == *old(self),
            },
    {
        match self.zone_index(id) {
            Some(k) => {
                let ghost before = *self;
                self.clear_fill_at(k);
                let ghost cleared = self.zones@;
                self.zones.remove(k);
                proof {
                    assert(self.zones@ =~= before.zones@.remove(k as int));
                    lemma_zones_less_one(
                        cleared,
                        k as int,
                        self.node.entries@,
                        self.next_zone_serial as int,
                    );
                }
            },
            None => {},
        }
    }

    /// The verdict on a new outline: every part, in order, and then every
    /// track and via, in order.
    pub open spec fn outline_verdict(
        &self,
        templates: Seq<FootprintTemplate>,
        probe: OutlineProbe,
    ) -> Result<(), SetOutlineError> {
        match first_part_off(self.footprints@, templates, probe, 0) {
            Some(id) => Err(SetOutlineError::FootprintOffBoard(id)),
            None => match first_copper_off(self.node.entries@, probe, 0) {
                Some(e) => Err(e),
                None => Ok(()),
            },
        }
    }

    /// Replaces the board outline and refills every zone inside it; nothing
    /// changes if anything on the board would be stranded.
    pub fn set_outline(
        &mut self,
        new_outline: Vec<Polygon>,
        templates: &[FootprintTemplate],
        probe: &OutlineProbe,
        fills: Vec<Vec<Item>>,
    ) -> (r: Result<(), SetOutlineError>)
        requires
            old(self).wf(),
            probe.items@.len() == old(self).footprints@.len(),
            probe.bodies@.len() == old(self).footprints@.len(),
            probe.copper@.len() == old(self).node.entries@.len(),
            fills@.len() == old(self).zones@.len(),
            forall|k: int| #![trigger fills@[k]] 0 <= k < fills@.len() ==> only_zones(fills@[k]@),
            old(self).node.has_room_for(
                (island_total(old(self).zones@) + fill_total(fills@, fills@.len() as int)) as int,
            ),
        ensures
            final(self).wf(),
            r == old(self).outline_verdict(templates@, *probe),
            r is Err ==> *final(self) == *old(self),
            r is Ok ==> {
                &&& final(self).outline == new_outline
                &&& final(self).same_but_outline_and_zones(old(self))
                &&& final(self).has_zones_refilled(old(self), fills@)
            },
    {
        let mut f: usize = 0;
        while f < self.footprints.len()
            invariant
                *self == *old(self),
                self.wf(),
                f <= self.footprints@.len(),
                probe.items@.len() == self.footprints@.len(),
                probe.bodies@.len() == self.footprints@.len(),
                first_part_off(self.footprints@, templates@, *probe, 0) == first_part_off(
                    self.footprints@,
                    templates@,
                    *probe,
                    f as int,
                ),
            decreases self.footprints@.len() - f,
        {
            if find_template(templates, &self.footprints[f].template_name).is_some() {
                let inside = all_true(&probe.items[f]);
                if !inside || !probe.bodies[f] {
                    return Err(SetOutlineError::FootprintOffBoard(self.footprints[f].id));
                }
            }
            f += 1;
        }
        let mut i: usize = 0;
        while i < self.node.entries.len()
            invariant
                *self == *old(self),
                self.wf(),
                i <= self.node.entries@.len(),
                probe.copper@.len() == self.node.entries@.len(),
                first_part_off(self.footprints@, templates@, *probe, 0) is None,
                first_copper_off(self.node.entries@, *probe, 0) == first_copper_off(
                    self.node.entries@,
                    *probe,
                    i as int,
                ),
            decreases self.node.entries@.len() - i,
        {
            match &self.node.entries[i].item {
                Item::Track { .. } => {
                    if !probe.copper[i] {
                        return Err(SetOutlineError::TrackOffBoard);
                    }
                },
                Item::Via { .. } => {
                    if !probe.copper[i] {
                        return Err(SetOutlineError::ViaOffBoard);
                    }
                },
                _ => {},
            }
            i += 1;
        }
        self.outline = new_outline;
        self.refill_all_zones(fills);
        Ok(())
    }
}

fn all_true(flags: &[bool]) -> (r: bool)
    ensures
        r == !(exists|k: int| 0 <= k < flags@.len() && !#[trigger] flags@[k]),
{
    let mut k: usize = 0;
    while k < flags.len()
        invariant
            k <= flags@.len(),
            forall|m: int| 0 <= m < k ==> #[trigger] flags@[m],
        decreases flags@.len() - k,
    {
        if !flags[k] {
            assert(!flags@[k as int]);
            return false;
        }
        k += 1;
    }
    true
}

fn consecutive_ids(first: u64, count: usize) -> (r: Vec<ItemId>)
    requires
        first + count <= u64::MAX,
    ensures
        r@ == fresh_ids(first as int, count as nat),
{
    let mut r: Vec<ItemId> = Vec::new();
    let mut k: usize = 0;
    while k < count
        invariant
            k <= count,
            first + count <= u64::MAX,
            r@ == fresh_ids(first as int, k as nat),
        decreases count - k,
    {
        r.push(ItemId(first + k as u64));
        k += 1;
        assert(r@ =~= fresh_ids(first as int, k as nat));
    }
    r
}

proof fn lemma_zones_are_no_obstacles(items: Seq<Item>)
    requires
        only_zones(items),
    ensures
        obstacles_in(items) == 0,
    decreases items.len(),
{
    if items.len() > 0 {
        assert(items.last() == items[items.len() - 1]);
        assert forall|i: int| #![trigger items.drop_last()[i]] 0 <= i < items.drop_last().len() implies
            items.drop_last()[i] is Zone by {
            assert(items.drop_last()[i] == items[i]);
        }
        lemma_zones_are_no_obstacles(items.drop_last());
    }
}

/// New islands leave the records about everything else in order.
proof fn lemma_new_islands(board: BoardDoc, before: Seq<Entry>, items: Seq<Item>, first: int)
    requires
        footprint_items_live(board.footprints@, before),
        zone_items_ok(board.zones@, before),
    ensures
        footprint_items_live(board.footprints@, extended(before, items, first)),
        zone_items_ok(board.zones@, extended(before, items, first)),
{
    let after = extended(before, items, first);
    assert(keeps_kinds(before, after)) by {
        assert forall|id: ItemId| #[trigger] item_of(before, id) is Some implies item_of(after, id)
            == item_of(before, id) by {
            lemma_concat_item(
                before,
                Seq::new(
                    items.len(),
                    |i: int| Entry { id: ItemId((first + i) as u64), item: items[i] },
                ),
                id,
            );
        }
    }
    lemma_records_carry(board.footprints@, board.zones@, before, after);
}

/// Islands of one zone under fresh ids keep all zones in order.
proof fn lemma_zone_items_with(
    zones: Seq<ZoneRecord>,
    z: int,
    old_zones: Seq<ZoneRecord>,
    before: Seq<Entry>,
    after: Seq<Entry>,
    items: Seq<Item>,
    first: int,
)
    requires
        0 <= z < zones.len(),
        only_zones(items),
        ids_are_unique(after),
        after == extended(before, items, first),
        0 <= first,
        first + items.len() <= u64::MAX,
        forall|i: int| #![trigger before[i]] 0 <= i < before.len() ==> before[i].id.0 < first,
        zone_items_ok(old_zones, before),
        zone_items_ok(old_zones, after),
        zones[z].item_ids@ == fresh_ids(first, items.len()),
        forall|i: int|
            #![trigger zones[i]]
            0 <= i < zones.len() && i != z ==> i < old_zones.len() && zones[i].item_ids
                == old_zones[i].item_ids,
    ensures
        zone_items_ok(zones, after),
{
    assert forall|i: int, m: int|
        #![trigger zones[i].item_ids@[m]]
        0 <= i < zones.len() && 0 <= m < zones[i].item_ids@.len() implies (item_of(
        after,
        zones[i].item_ids@[m],
    ) matches Some(item) && item is Zone) by {
        if i == z {
            lemma_item_of_index(after, before.len() + m);
            assert(items[m] is Zone);
        } else {
            assert(zones[i].item_ids == old_zones[i].item_ids);
            assert(old_zones[i].item_ids@[m] == zones[i].item_ids@[m]);
        }
    }
    assert forall|i: int, m: int, j: int, l: int|
        #![trigger zones[i].item_ids@[m], zones[j].item_ids@[l]]
        0 <= i < zones.len() && 0 <= m < zones[i].item_ids@.len() && 0 <= j < zones.len() && 0 <= l
            < zones[j].item_ids@.len() && (i != j || m != l) implies zones[i].item_ids@[m]
        != zones[j].item_ids@[l] by {
        if i != z {
            assert(zones[i].item_ids == old_zones[i].item_ids);
            assert(old_zones[i].item_ids@[m] == zones[i].item_ids@[m]);
            let a = lemma_item_of_some(before, old_zones[i].item_ids@[m]);
            assert(before[a].id.0 < first);
        }
        if j != z {
            assert(zones[j].item_ids == old_zones[j].item_ids);
            assert(old_zones[j].item_ids@[l] == zones[j].item_ids@[l]);
            let b = lemma_item_of_some(before, old_zones[j].item_ids@[l]);
            assert(before[b].id.0 < first);
        }
    }
}

proof fn lemma_zone_ids_stay(before: Seq<ZoneRecord>, after: Seq<ZoneRecord>, last: int)
    requires
        zone_ids_ok(before, last),
        after.len() == before.len(),
        forall|k: int| #![trigger after[k]] 0 <= k < after.len() ==> after[k].id == before[k].id,
    ensures
        zone_ids_ok(after, last),
{
    assert forall|i: int, j: int| #![trigger after[i], after[j]] 0 <= i < j < after.len() implies
        after[i].id != after[j].id by {
        assert(before[i].id != before[j].id);
    }
    assert forall|i: int| #![trigger after[i]] 0 <= i < after.len() implies after[i].id.0 <= last by {
        assert(before[i].id.0 <= last);
    }
}

proof fn lemma_zones_less_one(zones: Seq<ZoneRecord>, k: int, entries: Seq<Entry>, last: int)
    requires
        zone_ids_ok(zones, last),
        zone_items_ok(zones, entries),
        0 <= k < zones.len(),
    ensures
        zone_ids_ok(zones.remove(k), last),
        zone_items_ok(zones.remove(k), entries),
{
    let rest = zones.remove(k);
    let place = |i: int|
        if i < k {
            i
        } else {
            i + 1
        };
    assert forall|i: int| 0 <= i < rest.len() implies #[trigger] rest[i] == zones[place(i)] by {
    }
    assert forall|i: int, j: int| #![trigger rest[i], rest[j]] 0 <= i < j < rest.len() implies
        rest[i].id != rest[j].id by {
        assert(zones[place(i)].id != zones[place(j)].id);
    }
    assert forall|i: int| #![trigger rest[i]] 0 <= i < rest.len() implies rest[i].id.0 <= last by {
        assert(zones[place(i)].id.0 <= last);
    }
    assert forall|i: int, m: int|
        #![trigger rest[i].item_ids@[m]]
        0 <= i < rest.len() && 0 <= m < rest[i].item_ids@.len() implies (item_of(
        entries,
        rest[i].item_ids@[m],
    ) matches Some(item) && item is Zone) by {
        assert(zones[place(i)].item_ids@[m] == rest[i].item_ids@[m]);
    }
    assert forall|i: int, m: int, j: int, l: int|
        #![trigger rest[i].item_ids@[m], rest[j].item_ids@[l]]
        0 <= i < rest.len() && 0 <= m < rest[i].item_ids@.len() && 0 <= j < rest.len() && 0 <= l
            < rest[j].item_ids@.len() && (i != j || m != l) implies rest[i].item_ids@[m]
        != rest[j].item_ids@[l] by {
        assert(zones[place(i)].item_ids@[m] == rest[i].item_ids@[m]);
        assert(zones[place(j)].item_ids@[l] == rest[j].item_ids@[l]);
    }
}

/// An island is live pour copper.
proof fn lemma_islands_are_zones(board: BoardDoc, k: int)
    requires
        board.wf(),
        0 <= k < board.zones@.len(),
    ensures
        forall|id: ItemId| #[trigger]
            board.zones@[k].item_ids@.to_set().contains(id) ==> (item_of(
                board.node.entries@,
                id,
            ) matches Some(item) && item is Zone),
{
    let ids = board.zones@[k].item_ids@;
    assert forall|id: ItemId| #[trigger] ids.to_set().contains(id) implies (item_of(
        board.node.entries@,
        id,
    ) matches Some(item) && item is Zone) by {
        let m = choose|m: int| 0 <= m < ids.len() && ids[m] == id;
        assert(board.zones@[k].item_ids@[m] == id);
    }
}

/// Taking a zone's islands away touches no pad, no hole and no obstacle.
proof fn lemma_island_removal(board: BoardDoc, k: int)
    requires
        board.wf(),
        0 <= k < board.zones@.len(),
    ensures
        ({
            let after = without(board.node.entries@, board.zones@[k].item_ids@.to_set());
            &&& footprint_items_live(board.footprints@, after)
            &&& obstacle_count(after) == obstacle_count(board.node.entries@)
        }),
{
    let entries = board.node.entries@;
    let gone = board.zones@[k].item_ids@.to_set();
    let after = without(entries, gone);
    let fps = board.footprints@;
    lemma_islands_are_zones(board, k);
    assert forall|i: int, m: int|
        #![trigger fps[i].pad_item_ids@[m]]
        0 <= i < fps.len() && 0 <= m < fps[i].pad_item_ids@.len() implies (item_of(
        after,
        fps[i].pad_item_ids@[m],
    ) matches Some(item) && item is Pad) by {
        lemma_without_item(entries, gone, fps[i].pad_item_ids@[m]);
    }
    assert forall|i: int, m: int|
        #![trigger fps[i].hole_item_ids@[m]]
        0 <= i < fps.len() && 0 <= m < fps[i].hole_item_ids@.len() implies (item_of(
        after,
        fps[i].hole_item_ids@[m],
    ) matches Some(item) && item is Hole) by {
        lemma_without_item(entries, gone, fps[i].hole_item_ids@[m]);
    }
    assert forall|i: int| 0 <= i < entries.len() && gone.contains((#[trigger] entries[i]).id) implies
        entries[i].item is Zone by {
        lemma_item_of_index(entries, i);
    }
    lemma_zone_removal_count(entries, gone);
}

proof fn lemma_zone_removal_count(entries: Seq<Entry>, gone: Set<ItemId>)
    requires
        forall|i: int|
            0 <= i < entries.len() && gone.contains((#[trigger] entries[i]).id) ==> entries[i].item
                is Zone,
    ensures
        obstacle_count(without(entries, gone)) == obstacle_count(entries),
    decreases entries.len(),
{
    if entries.len() > 0 {
        let init = entries.drop_last();
        assert forall|i: int| 0 <= i < init.len() && gone.contains((#[trigger] init[i]).id) implies
            init[i].item is Zone by {
            assert(init[i] == entries[i]);
        }
        lemma_zone_removal_count(init, gone);
        assert(entries[entries.len() - 1] == entries.last());
        let kept = without(init, gone);
        assert(kept.push(entries.last()).drop_last() =~= kept);
    }
}

/// An island of another zone outlives the removal of this zone's islands.
proof fn lemma_island_stays(board: BoardDoc, k: int, i: int, m: int)
    requires
        board.wf(),
        0 <= k < board.zones@.len(),
        0 <= i < board.zones@.len(),
        i != k,
        0 <= m < board.zones@[i].item_ids@.len(),
    ensures
        item_of(
            without(board.node.entries@, board.zones@[k].item_ids@.to_set()),
            board.zones@[i].item_ids@[m],
        ) matches Some(item) && item is Zone,
{
    let ids = board.zones@[k].item_ids@;
    let id = board.zones@[i].item_ids@[m];
    if ids.to_set().contains(id) {
        let l = choose|l: int| 0 <= l < ids.len() && ids[l] == id;
        assert(board.zones@[k].item_ids@[l] != board.zones@[i].item_ids@[m]);
    }
    lemma_without_item(board.node.entries@, ids.to_set(), id);
}

proof fn lemma_island_total_has(zones: Seq<ZoneRecord>, k: int)
    requires
        0 <= k < zones.len(),
    ensures
        zones[k].item_ids@.len() <= island_total(zones),
    decreases zones.len(),
{
    if k < zones.len() - 1 {
        assert(zones.drop_last()[k] == zones[k]);
        lemma_island_total_has(zones.drop_last(), k);
    }
}

proof fn lemma_fill_total_grows(fills: Seq<Vec<Item>>, n: int, m: int)
    requires
        n <= m,
    ensures
        fill_total(fills, n) <= fill_total(fills, m),
    decreases m - n,
{
    if n < m {
        lemma_fill_total_grows(fills, n, m - 1);
    }
}

/// Refilling a zone changes pour copper only: every pad, track, via and hole
/// is as it was, net and all.
pub proof fn law_refill_touches_only_pours(board: BoardDoc, k: int, items: Seq<Item>, id: ItemId)
    requires
        board.wf(),
        0 <= k < board.zones@.len(),
        board.node.item(id) matches Some(item) && !(item is Zone),
    ensures
        item_of(
            extended(
                without(board.node.entries@, board.zones@[k].item_ids@.to_set()),
                items,
                board.node.next as int,
            ),
            id,
        ) == board.node.item(id),
{
    let gone = board.zones@[k].item_ids@.to_set();
    let kept = without(board.node.entries@, gone);
    lemma_islands_are_zones(board, k);
    lemma_without_item(board.node.entries@, gone, id);
    lemma_concat_item(
        kept,
        Seq::new(
            items.len(),
            |i: int| Entry { id: ItemId((board.node.next as int + i) as u64), item: items[i] },
        ),
        id,
    );
}

/// A refill leaves no island of the fill before it behind.
pub proof fn law_refill_leaves_no_old_island(board: BoardDoc, k: int, m: int, items: Seq<Item>)
    requires
        board.wf(),
        0 <= k < board.zones@.len(),
        0 <= m < board.zones@[k].item_ids@.len(),
        board.node.next + items.len() <= u64::MAX,
    ensures
        item_of(
            extended(
                without(board.node.entries@, board.zones@[k].item_ids@.to_set()),
                items,
                board.node.next as int,
            ),
            board.zones@[k].item_ids@[m],
        ) is None,
{
    let id = board.zones@[k].item_ids@[m];
    let gone = board.zones@[k].item_ids@.to_set();
    let kept = without(board.node.entries@, gone);
    let first = board.node.next as int;
    assert(gone.contains(id));
    lemma_without_item(board.node.entries@, gone, id);
    let a = lemma_item_of_some(board.node.entries@, id);
    assert(board.node.entries@[a].id.0 < first);
    let new = Seq::new(
        items.len(),
        |i: int| Entry { id: ItemId((first + i) as u64), item: items[i] },
    );
    lemma_item_of_absent(new, id);
    lemma_concat_item(kept, new, id);
}

/// Placing a part makes every fill that was up to date stale.
pub proof fn law_a_new_part_makes_fills_stale(
    before: BoardDoc,
    after: BoardDoc,
    name: Seq<char>,
    reference: Seq<char>,
    position: Point,
    rotation_deg: Angle,
    items: Seq<Item>,
    courtyard: Polygon,
    drills: Vec<Circle>,
)
    requires
        before.zones@.len() > 0,
        !is_stale(before.zones@, before.node.revision),
        items.len() > 0,
        after.has_new_part(
            &before,
            name,
            reference,
            position,
            rotation_deg,
            items,
            courtyard,
            drills,
        ),
    ensures
        is_stale(after.zones@, after.node.revision),
{
    assert(before.zones@[0].filled_at_revision == before.node.revision);
    assert(after.zones@[0].filled_at_revision != after.node.revision);
}

/// Moving a part makes every fill that was up to date stale.
pub proof fn law_a_moved_part_makes_fills_stale(
    before: BoardDoc,
    after: BoardDoc,
    id: FootprintId,
    position: Point,
    rotation_deg: Angle,
    shape: PlacedShape,
)
    requires
        before.zones@.len() > 0,
        !is_stale(before.zones@, before.node.revision),
        part_at(before.footprints@, id) matches Some(f) && posed_count(
            before.footprints@[f],
            shape.items@,
        ) > 0,
        after.has_moved_part(&before, id, position, rotation_deg, shape),
    ensures
        is_stale(after.zones@, after.node.revision),
{
    let fp = before.footprints@[part_at(before.footprints@, id)->0];
    let gone = wires_at_pads(before.node.entries@, fp.pad_item_ids@);
    lemma_without_is_shorter(before.node.entries@, gone);
    lemma_reposed_length(
        without(before.node.entries@, gone),
        owned_ids(fp),
        shape.items@,
        posed_count(fp, shape.items@),
    );
    assert(before.zones@[0].filled_at_revision == before.node.revision);
    assert(after.zones@[0].filled_at_revision != after.node.revision);
}

proof fn lemma_reposed_length(entries: Seq<Entry>, ids: Seq<ItemId>, items: Seq<Item>, n: int)
    ensures
        reposed(entries, ids, items, n).len() == entries.len(),
    decreases n,
{
    if n > 0 {
        lemma_reposed_length(entries, ids, items, n - 1);
    }
}

proof fn lemma_without_is_shorter(entries: Seq<Entry>, gone: Set<ItemId>)
    ensures
        without(entries, gone).len() <= entries.len(),
    decreases entries.len(),
{
    if entries.len() > 0 {
        lemma_without_is_shorter(entries.drop_last(), gone);
    }
}

} // verus!
