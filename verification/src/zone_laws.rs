//! What pouring, refilling and re-outlining do to the board, and where the
//! members of a matrix stand.

use vstd::prelude::*;

use crate::board_doc::{BoardDoc, PlacedFootprint, ZoneId, ZoneRecord};
use crate::dfm::FabRules;
use crate::footprint::FootprintTemplate;
use crate::geom::{Point, Polygon};
use crate::item::{
    extended, ids_are_unique, item_of, lemma_concat_item, lemma_item_of_absent, lemma_item_of_index,
    lemma_without_item, lemma_without_unique, without, Entry, Item, ItemId, LayerId, NetId,
};
use crate::matrix::{cell, first_member_error, member_error, spread, MatrixProbe};
use crate::part_laws::law_a_template_is_found_by_its_name;
use crate::placement::{PlacedShape, PlacementError, PlacementProbe};
use crate::zones::{
    fill_total, first_copper_off, first_part_off, is_stale, part_off_board, world_refilled,
    zone_place, OutlineProbe, SetOutlineError,
};

verus! {

/// A zone is found by its id: the first with that id, if there is one.
pub proof fn law_a_zone_is_found_by_its_id(zones: Seq<ZoneRecord>, id: ZoneId)
    ensures
        match zone_place(zones, id) {
            Some(k) => 0 <= k < zones.len() && zones[k].id == id && forall|j: int|
                0 <= j < k ==> (#[trigger] zones[j]).id != id,
            None => forall|j: int| 0 <= j < zones.len() ==> (#[trigger] zones[j]).id != id,
        },
    decreases zones.len(),
{
    if zones.len() > 0 {
        law_a_zone_is_found_by_its_id(zones.drop_first(), id);
        assert forall|j: int| 0 < j < zones.len() implies #[trigger] zones[j]
            == zones.drop_first()[j - 1] by {}
    }
}

/// A new zone has the outline, layer and net asked for; each of its islands is
/// on the board, and no other zone, part or item is touched. A pour is no
/// obstacle: it makes no other fill stale.
pub proof fn law_a_new_zone_is_on_the_board(
    before: BoardDoc,
    after: BoardDoc,
    id: ZoneId,
    outline: Polygon,
    layer: LayerId,
    net: NetId,
    items: Seq<Item>,
    revision: u64,
    m: int,
    old_id: ItemId,
)
    requires
        before.wf(),
        before.node.next + items.len() <= u64::MAX,
        after.has_new_zone(&before, id, outline, layer, net, items, revision),
        0 <= m < items.len(),
        old_id.0 < before.node.next,
    ensures
        after.zones@.len() == before.zones@.len() + 1,
        after.zones@.last().id == id,
        after.zones@.last().outline == outline,
        after.zones@.last().layer == layer,
        after.zones@.last().net == net,
        after.zones@.last().filled_at_revision == revision,
        after.zones@.last().item_ids@.len() == items.len(),
        item_of(after.node.entries@, after.zones@.last().item_ids@[m]) == Some(items[m]),
        item_of(after.node.entries@, old_id) == item_of(before.node.entries@, old_id),
        forall|z: int| 0 <= z < before.zones@.len() ==> #[trigger] after.zones@[z] == before.zones@[z],
        after.footprints == before.footprints,
        after.nets == before.nets,
        after.silk_texts == before.silk_texts,
        after.silk_dots == before.silk_dots,
        after.outline == before.outline,
        after.node.revision == before.node.revision,
{
    let first = before.node.next as int;
    let entries = before.node.entries@;
    lemma_islands(entries, items, first, m);
    lemma_old_item_stays(entries, items, first, old_id);
    assert forall|z: int| 0 <= z < before.zones@.len() implies #[trigger] after.zones@[z]
        == before.zones@[z] by {
        assert(after.zones@.drop_last()[z] == after.zones@[z]);
    }
}

proof fn lemma_islands(entries: Seq<Entry>, items: Seq<Item>, first: int, m: int)
    requires
        0 <= first,
        first + items.len() <= u64::MAX,
        forall|i: int| #![trigger entries[i]] 0 <= i < entries.len() ==> entries[i].id.0 < first,
        0 <= m < items.len(),
    ensures
        item_of(extended(entries, items, first), ItemId((first + m) as u64)) == Some(items[m]),
{
    let fresh = Seq::new(
        items.len(),
        |i: int| Entry { id: ItemId((first + i) as u64), item: items[i] },
    );
    assert(ids_are_unique(fresh));
    lemma_item_of_index(fresh, m);
    lemma_item_of_absent(entries, ItemId((first + m) as u64));
    lemma_concat_item(entries, fresh, ItemId((first + m) as u64));
}

proof fn lemma_old_item_stays(entries: Seq<Entry>, items: Seq<Item>, first: int, id: ItemId)
    requires
        0 <= first,
        first + items.len() <= u64::MAX,
        id.0 < first,
    ensures
        item_of(extended(entries, items, first), id) == item_of(entries, id),
{
    let fresh = Seq::new(
        items.len(),
        |i: int| Entry { id: ItemId((first + i) as u64), item: items[i] },
    );
    lemma_item_of_absent(fresh, id);
    lemma_concat_item(entries, fresh, id);
}

/// After refilling every zone, each has the islands computed for it and they
/// are on the board, no island of an earlier fill is left, everything that is
/// no pour is as it was, and no fill is stale.
pub proof fn law_refilling_replaces_every_fill(
    before: BoardDoc,
    after: BoardDoc,
    fills: Seq<Vec<Item>>,
    k: int,
    m: int,
    old_id: ItemId,
)
    requires
        before.wf(),
        fills.len() == before.zones@.len(),
        before.node.next + fill_total(fills, fills.len() as int) <= u64::MAX,
        after.has_zones_refilled(&before, fills),
        0 <= k < before.zones@.len(),
        0 <= m < fills[k]@.len(),
        old_id.0 < before.node.next,
    ensures
        after.zones@.len() == before.zones@.len(),
        after.zones@[k].id == before.zones@[k].id,
        after.zones@[k].outline == before.zones@[k].outline,
        after.zones@[k].layer == before.zones@[k].layer,
        after.zones@[k].net == before.zones@[k].net,
        after.zones@[k].item_ids@.len() == fills[k]@.len(),
        item_of(after.node.entries@, after.zones@[k].item_ids@[m]) == Some(fills[k]@[m]),
        item_of(after.node.entries@, old_id) == if exists|z: int|
            0 <= z < before.zones@.len() && (#[trigger] before.zones@[z]).item_ids@.contains(
                old_id,
            ) {
            None
        } else {
            item_of(before.node.entries@, old_id)
        },
        !is_stale(after.zones@, after.node.revision),
        after.node.revision == before.node.revision,
{
    let n = before.zones@.len() as int;
    let first = before.node.next as int;
    assert(after.zones@[k] == after.zones@[k]);
    lemma_total_grows(fills, k + 1, n);
    assert(fill_total(fills, k + 1) == fill_total(fills, k) + fills[k]@.len());
    let id = ItemId((first + fill_total(fills, k) + m) as u64);
    assert(after.zones@[k].item_ids@[m] == id);
    lemma_refilled_islands(before, fills, first, n, k, m);
    lemma_refilled_old(before, fills, first, n, old_id);
    if is_stale(after.zones@, after.node.revision) {
        let z = choose|z: int|
            0 <= z < after.zones@.len() && (#[trigger] after.zones@[z]).filled_at_revision
                != after.node.revision;
        assert(after.zones@[z] == after.zones@[z]);
    }
}

proof fn lemma_total_grows(fills: Seq<Vec<Item>>, n: int, m: int)
    requires
        n <= m,
    ensures
        fill_total(fills, n) <= fill_total(fills, m),
    decreases m - n,
{
    if n < m {
        lemma_total_grows(fills, n, m - 1);
    }
}

proof fn lemma_refilled_low(before: BoardDoc, fills: Seq<Vec<Item>>, first: int, n: int)
    requires
        before.wf(),
        first == before.node.next,
        0 <= n <= before.zones@.len(),
        first + fill_total(fills, n) <= u64::MAX,
    ensures
        ({
            let entries = world_refilled(before.node.entries@, before.zones@, fills, first, n);
            ids_are_unique(entries) && forall|i: int|
                #![trigger entries[i]]
                0 <= i < entries.len() ==> entries[i].id.0 < first + fill_total(fills, n)
        }),
    decreases n,
{
    if n > 0 {
        lemma_total_grows(fills, n - 1, n);
        lemma_refilled_low(before, fills, first, n - 1);
        let prev = world_refilled(before.node.entries@, before.zones@, fills, first, n - 1);
        let gone = before.zones@[n - 1].item_ids@.to_set();
        let kept = without(prev, gone);
        let start = first + fill_total(fills, n - 1);
        let items = fills[n - 1]@;
        lemma_without_unique(prev, gone);
        crate::item::lemma_without_contains(prev, gone);
        assert forall|i: int| #![trigger kept[i]] 0 <= i < kept.len() implies kept[i].id.0
            < start by {
            assert(kept.contains(kept[i]));
            let j = choose|j: int| 0 <= j < prev.len() && prev[j] == kept[i];
            assert(prev[j].id.0 < start);
        }
        let all = extended(kept, items, start);
        assert forall|i: int| #![trigger all[i]] 0 <= i < all.len() implies all[i].id.0 < first
            + fill_total(fills, n) by {
            if i < kept.len() {
                assert(all[i] == kept[i]);
            }
        }
        assert forall|i: int, j: int| #![trigger all[i], all[j]] 0 <= i < j < all.len() implies all[i].id
            != all[j].id by {
            if i < kept.len() {
                assert(all[i] == kept[i]);
                if j < kept.len() {
                    assert(all[j] == kept[j]);
                } else {
                    assert(kept[i].id.0 < start);
                }
            }
        }
    }
}

proof fn lemma_refilled_islands(
    before: BoardDoc,
    fills: Seq<Vec<Item>>,
    first: int,
    n: int,
    k: int,
    m: int,
)
    requires
        before.wf(),
        first == before.node.next,
        0 <= k < n <= before.zones@.len(),
        first + fill_total(fills, n) <= u64::MAX,
        0 <= m < fills[k]@.len(),
    ensures
        item_of(
            world_refilled(before.node.entries@, before.zones@, fills, first, n),
            ItemId((first + fill_total(fills, k) + m) as u64),
        ) == Some(fills[k]@[m]),
    decreases n,
{
    lemma_total_grows(fills, n - 1, n);
    lemma_refilled_low(before, fills, first, n - 1);
    let prev = world_refilled(before.node.entries@, before.zones@, fills, first, n - 1);
    let gone = before.zones@[n - 1].item_ids@.to_set();
    let kept = without(prev, gone);
    let start = first + fill_total(fills, n - 1);
    let items = fills[n - 1]@;
    let id = ItemId((first + fill_total(fills, k) + m) as u64);
    if k < n - 1 {
        lemma_total_grows(fills, k + 1, n - 1);
        assert(fill_total(fills, k + 1) == fill_total(fills, k) + fills[k]@.len());
        assert(id.0 >= first);
        lemma_refilled_islands(before, fills, first, n - 1, k, m);
        lemma_without_item(prev, gone, id);
        assert(!gone.contains(id)) by {
            if gone.contains(id) {
                let ids = before.zones@[n - 1].item_ids@;
                let j = choose|j: int| 0 <= j < ids.len() && ids[j] == id;
                assert(item_of(before.node.entries@, before.zones@[n - 1].item_ids@[j]) is Some);
                let i = crate::item::lemma_item_of_some(before.node.entries@, id);
                assert(before.node.entries@[i].id.0 < before.node.next);
            }
        }
        lemma_old_item_stays(kept, items, start, id);
    } else {
        crate::item::lemma_without_contains(prev, gone);
        assert forall|i: int| #![trigger kept[i]] 0 <= i < kept.len() implies kept[i].id.0
            < start by {
            assert(kept.contains(kept[i]));
            let j = choose|j: int| 0 <= j < prev.len() && prev[j] == kept[i];
            assert(prev[j].id.0 < start);
        }
        lemma_islands(kept, items, start, m);
    }
}

proof fn lemma_refilled_old(
    before: BoardDoc,
    fills: Seq<Vec<Item>>,
    first: int,
    n: int,
    id: ItemId,
)
    requires
        before.wf(),
        first == before.node.next,
        0 <= n <= before.zones@.len(),
        first + fill_total(fills, n) <= u64::MAX,
        id.0 < first,
    ensures
        item_of(world_refilled(before.node.entries@, before.zones@, fills, first, n), id)
            == if exists|z: int|
            0 <= z < n && (#[trigger] before.zones@[z]).item_ids@.contains(id) {
            None
        } else {
            item_of(before.node.entries@, id)
        },
    decreases n,
{
    if n > 0 {
        lemma_total_grows(fills, n - 1, n);
        lemma_refilled_low(before, fills, first, n - 1);
        lemma_refilled_old(before, fills, first, n - 1, id);
        let prev = world_refilled(before.node.entries@, before.zones@, fills, first, n - 1);
        let gone = before.zones@[n - 1].item_ids@.to_set();
        lemma_without_item(prev, gone, id);
        lemma_old_item_stays(
            without(prev, gone),
            fills[n - 1]@,
            first + fill_total(fills, n - 1),
            id,
        );
        assert(gone.contains(id) == before.zones@[n - 1].item_ids@.contains(id));
        if exists|z: int| 0 <= z < n - 1 && (#[trigger] before.zones@[z]).item_ids@.contains(id) {
            let z = choose|z: int|
                0 <= z < n - 1 && (#[trigger] before.zones@[z]).item_ids@.contains(id);
            assert(before.zones@[z].item_ids@.contains(id));
        }
    }
}

/// A new outline is taken exactly if it holds every pad, hole and body of
/// every part whose template is known, and every track and via. A refusal
/// names the first part that would be off the board; only where there is none
/// does it name a track or a via.
pub proof fn law_an_outline_must_hold_the_board(
    doc: BoardDoc,
    templates: Seq<FootprintTemplate>,
    probe: OutlineProbe,
)
    ensures
        ({
            let r = doc.outline_verdict(templates, probe);
            let off = |f: int|
                (exists|t: int|
                    0 <= t < templates.len() && (#[trigger] templates[t]).name@
                        == doc.footprints@[f].template_name@) && (!probe.bodies@[f] || exists|k: int|
                    0 <= k < probe.items@[f]@.len() && !#[trigger] probe.items@[f]@[k]);
            let parts_in = forall|f: int| 0 <= f < doc.footprints@.len() ==> !#[trigger] off(f);
            let copper_in = forall|i: int|
                0 <= i < doc.node.entries@.len() ==> match (#[trigger] doc.node.entries@[i]).item {
                    Item::Track { .. } => probe.copper@[i],
                    Item::Via { .. } => probe.copper@[i],
                    _ => true,
                };
            &&& r is Ok <==> parts_in && copper_in
            &&& !parts_in ==> exists|f: int|
                0 <= f < doc.footprints@.len() && #[trigger] off(f) && (forall|g: int|
                    0 <= g < f ==> !#[trigger] off(g)) && r == Err::<(), SetOutlineError>(
                    SetOutlineError::FootprintOffBoard(doc.footprints@[f].id),
                )
            &&& r == Err::<(), SetOutlineError>(SetOutlineError::TrackOffBoard) ==> exists|i: int|
                0 <= i < doc.node.entries@.len() && (#[trigger] doc.node.entries@[i]).item is Track
                    && !probe.copper@[i]
            &&& r == Err::<(), SetOutlineError>(SetOutlineError::ViaOffBoard) ==> exists|i: int|
                0 <= i < doc.node.entries@.len() && (#[trigger] doc.node.entries@[i]).item is Via
                    && !probe.copper@[i]
        }),
{
    let off = |f: int|
        (exists|t: int|
            0 <= t < templates.len() && (#[trigger] templates[t]).name@
                == doc.footprints@[f].template_name@) && (!probe.bodies@[f] || exists|k: int|
            0 <= k < probe.items@[f]@.len() && !#[trigger] probe.items@[f]@[k]);
    assert forall|f: int| #[trigger] off(f) == part_off_board(
        doc.footprints@,
        templates,
        probe,
        f,
    ) by {
        law_a_template_is_found_by_its_name(templates, doc.footprints@[f].template_name@);
    }
    lemma_first_part_off(doc.footprints@, templates, probe, 0);
    lemma_first_copper_off(doc.node.entries@, probe, 0);
    if let Some(id) = first_part_off(doc.footprints@, templates, probe, 0) {
        let f = choose|f: int|
            0 <= f < doc.footprints@.len() && part_off_board(doc.footprints@, templates, probe, f)
                && (#[trigger] doc.footprints@[f]).id == id && forall|g: int|
                0 <= g < f ==> !#[trigger] part_off_board(doc.footprints@, templates, probe, g);
        assert(off(f));
    } else {
        assert forall|f: int| 0 <= f < doc.footprints@.len() implies !#[trigger] off(f) by {
            assert(!part_off_board(doc.footprints@, templates, probe, f));
        }
    }
}

proof fn lemma_first_part_off(
    fps: Seq<PlacedFootprint>,
    templates: Seq<FootprintTemplate>,
    probe: OutlineProbe,
    from: int,
)
    requires
        0 <= from,
    ensures
        match first_part_off(fps, templates, probe, from) {
            Some(id) => exists|f: int|
                from <= f < fps.len() && part_off_board(fps, templates, probe, f) && (
                #[trigger] fps[f]).id == id && forall|g: int|
                    from <= g < f ==> !#[trigger] part_off_board(fps, templates, probe, g),
            None => forall|g: int|
                from <= g < fps.len() ==> !#[trigger] part_off_board(fps, templates, probe, g),
        },
    decreases fps.len() - from,
{
    if from < fps.len() {
        lemma_first_part_off(fps, templates, probe, from + 1);
        assert(fps[from] == fps[from]);
    }
}

proof fn lemma_first_copper_off(entries: Seq<Entry>, probe: OutlineProbe, from: int)
    requires
        0 <= from,
    ensures
        match first_copper_off(entries, probe, from) {
            Some(e) => exists|i: int|
                from <= i < entries.len() && !probe.copper@[i] && match (#[trigger] entries[i]).item {
                    Item::Track { .. } => e == SetOutlineError::TrackOffBoard,
                    Item::Via { .. } => e == SetOutlineError::ViaOffBoard,
                    _ => false,
                },
            None => forall|i: int|
                from <= i < entries.len() ==> match (#[trigger] entries[i]).item {
                    Item::Track { .. } => probe.copper@[i],
                    Item::Via { .. } => probe.copper@[i],
                    _ => true,
                },
        },
    decreases entries.len() - from,
{
    if from < entries.len() {
        lemma_first_copper_off(entries, probe, from + 1);
        assert(entries[from] == entries[from]);
    }
}

/// The members of a matrix stand a pitch apart, the middle of them all at the
/// centre: twice a member's offset is its distance in half pitches to the
/// nanometre, rounded away from the centre.
pub proof fn law_matrix_members_stand_a_pitch_apart(
    row: int,
    col: int,
    rows: int,
    cols: int,
    pitch_x: int,
    pitch_y: int,
    center: Point,
)
    requires
        i64::MIN <= spread(col, cols, pitch_x, center.x as int) <= i64::MAX,
        i64::MIN <= spread(row, rows, pitch_y, center.y as int) <= i64::MAX,
    ensures
        ({
            let p = cell(row, col, rows, cols, pitch_x, pitch_y, center);
            let dx = (2 * col - (cols - 1)) * pitch_x;
            let dy = (2 * row - (rows - 1)) * pitch_y;
            &&& dx >= 0 ==> dx <= 2 * (p.x - center.x) <= dx + 1
            &&& dx <= 0 ==> dx - 1 <= 2 * (p.x - center.x) <= dx
            &&& dy >= 0 ==> dy <= 2 * (p.y - center.y) <= dy + 1
            &&& dy <= 0 ==> dy - 1 <= 2 * (p.y - center.y) <= dy
        }),
{
}

/// A matrix is accepted exactly if every member's pose is, no two bodies of
/// members overlap, and no member's item touches that of another.
pub proof fn law_a_matrix_needs_every_member(
    doc: BoardDoc,
    template: FootprintTemplate,
    shapes: Seq<PlacedShape>,
    probes: Seq<PlacementProbe>,
    among: MatrixProbe,
    rules: FabRules,
)
    requires
        among.bodies@.len() == shapes.len(),
        among.items@.len() == shapes.len(),
        forall|i: int|
            #![trigger shapes[i]]
            0 <= i < shapes.len() ==> among.bodies@[i]@.len() >= i && among.items@[i]@.len()
                == shapes[i].items@.len(),
    ensures
        ({
            let r = doc.matrix_verdict(template, shapes, probes, among, rules);
            let poses_ok = forall|i: int|
                #![trigger shapes[i]]
                0 <= i < shapes.len() ==> doc.placement_verdict(
                    template,
                    shapes[i],
                    probes[i],
                    rules,
                    Seq::empty(),
                ) is Ok;
            let apart = forall|i: int, j: int|
                0 <= j < i < shapes.len() ==> !#[trigger] among.bodies@[i]@[j];
            let untouched = forall|i: int, k: int|
                0 <= i < shapes.len() && 0 <= k < shapes[i].items@.len()
                    ==> !#[trigger] among.items@[i]@[k];
            &&& r is Ok <==> poses_ok && apart && untouched
            &&& !poses_ok ==> exists|i: int|
                0 <= i < shapes.len() && r == doc.placement_verdict(
                    template,
                    #[trigger] shapes[i],
                    probes[i],
                    rules,
                    Seq::empty(),
                ) && forall|j: int|
                    #![trigger shapes[j]]
                    0 <= j < i ==> doc.placement_verdict(
                        template,
                        shapes[j],
                        probes[j],
                        rules,
                        Seq::empty(),
                    ) is Ok
            &&& poses_ok && apart && !untouched ==> r == Err::<(), PlacementError>(
                PlacementError::Collision(1),
            )
            &&& poses_ok && untouched && !apart ==> r == Err::<(), PlacementError>(
                PlacementError::BodyOverlap,
            )
        }),
{
    let n = shapes.len() as int;
    lemma_first_pose_error(doc, template, shapes, probes, rules, n);
    lemma_first_member_error(shapes, among, n);
    assert forall|i: int| 0 <= i < n implies #[trigger] member_error(shapes, among, i) == (
    if exists|j: int| 0 <= j < i && #[trigger] among.bodies@[i]@[j] {
        Some(PlacementError::BodyOverlap)
    } else if exists|k: int|
        0 <= k < shapes[i].items@.len() && #[trigger] among.items@[i]@[k] {
        Some(PlacementError::Collision(1))
    } else {
        None
    }) by {
        assert(shapes[i] == shapes[i]);
        if exists|j: int| 0 <= j < i && #[trigger] among.bodies@[i]@[j] {
            let j = choose|j: int| 0 <= j < i && #[trigger] among.bodies@[i]@[j];
            assert(crate::placement::flag2(among.bodies@, i, j));
        }
        if exists|k: int| 0 <= k < shapes[i].items@.len() && #[trigger] among.items@[i]@[k] {
            let k = choose|k: int| 0 <= k < shapes[i].items@.len() && #[trigger] among.items@[i]@[k];
            assert(crate::placement::flag2(among.items@, i, k));
        }
    }
    if first_member_error(shapes, among, n) is None {
        assert forall|i: int, j: int| 0 <= j < i < n implies !#[trigger] among.bodies@[i]@[j] by {
            assert(member_error(shapes, among, i) is None);
        }
        assert forall|i: int, k: int| 0 <= i < n && 0 <= k < shapes[i].items@.len() implies
            !#[trigger] among.items@[i]@[k] by {
            assert(member_error(shapes, among, i) is None);
        }
    } else {
        let i = choose|i: int|
            0 <= i < n && #[trigger] member_error(shapes, among, i) == first_member_error(
                shapes,
                among,
                n,
            );
        assert(member_error(shapes, among, i) is Some);
    }
}

proof fn lemma_first_pose_error(
    doc: BoardDoc,
    template: FootprintTemplate,
    shapes: Seq<PlacedShape>,
    probes: Seq<PlacementProbe>,
    rules: FabRules,
    n: int,
)
    requires
        0 <= n <= shapes.len(),
    ensures
        match doc.first_pose_error(template, shapes, probes, rules, n) {
            Some(e) => exists|i: int|
                0 <= i < n && doc.placement_verdict(
                    template,
                    #[trigger] shapes[i],
                    probes[i],
                    rules,
                    Seq::empty(),
                ) == Err::<(), PlacementError>(e) && forall|j: int|
                    #![trigger shapes[j]]
                    0 <= j < i ==> doc.placement_verdict(
                        template,
                        shapes[j],
                        probes[j],
                        rules,
                        Seq::empty(),
                    ) is Ok,
            None => forall|j: int|
                #![trigger shapes[j]]
                0 <= j < n ==> doc.placement_verdict(
                    template,
                    shapes[j],
                    probes[j],
                    rules,
                    Seq::empty(),
                ) is Ok,
        },
    decreases n,
{
    if n > 0 {
        lemma_first_pose_error(doc, template, shapes, probes, rules, n - 1);
        assert(shapes[n - 1] == shapes[n - 1]);
    }
}

proof fn lemma_first_member_error(shapes: Seq<PlacedShape>, among: MatrixProbe, n: int)
    ensures
        match first_member_error(shapes, among, n) {
            Some(e) => exists|i: int|
                0 <= i < n && #[trigger] member_error(shapes, among, i) == Some(e),
            None => forall|i: int| 0 <= i < n ==> #[trigger] member_error(shapes, among, i) is None,
        },
    decreases n,
{
    if n > 0 {
        lemma_first_member_error(shapes, among, n - 1);
    }
}

} // verus!
