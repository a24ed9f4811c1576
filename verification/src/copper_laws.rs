//! What wires, vias and nets are, told by where copper lies and what it is on.

use vstd::prelude::*;

use crate::board_doc::{CopperWeight, NetRecord, PlacedFootprint};
use crate::dfm::{DfmViolation, FabProfiles, FabRules};
use crate::footprint::{bottom_of, left_of, right_of, top_of};
use crate::geom::{Point, Segment, Unit};
use crate::item::{
    ids_are_unique, item_net, item_of, lemma_item_of_index, lemma_without_item, without, Entry,
    Item, ItemId, LayerId, NetClass, NetId, PadShape,
};
use crate::nets::{
    auto_name, ids_on_net, joined_net, net_in_use, nets_in_use, nets_without, pads_counted,
};
use crate::placement::PlacementError;
use crate::placement_laws::too_close;
use crate::template_laws::law_bounds_are_reached_and_never_passed;
use crate::text::{decimal, law_decimal_is_injective};
use crate::vias::{
    body_of_pad, candidate_error, crowds_a_drill, drills_crowd, first_fit, outward, stitch_verdict,
    stub_item, sweep, via_holds, via_item, via_verdict, PinStitchingViaError, StitchCandidate,
    ViaProbe,
};
use crate::wires::{
    ends_on_pads, is_walk, law_wire_holds_its_start, leg_count, meets, path_tracks, same_copper,
    same_wire, touches, walk_joins, wires_among, wires_at_pads,
};

verus! {

/// Two pieces of wire join: two tracks on one layer with a common end, a via
/// at an end of a track, or two vias at one place.
pub open spec fn joins(a: Item, b: Item) -> bool {
    match (a, b) {
        (
            Item::Track { shape: s, layer: l, .. },
            Item::Track { shape: t, layer: m, .. },
        ) => l == m && (s.a == t.a || s.a == t.b || s.b == t.a || s.b == t.b),
        (Item::Track { shape: s, .. }, Item::Via { shape: v, .. }) => s.a == v.center || s.b
            == v.center,
        (Item::Via { shape: v, .. }, Item::Track { shape: s, .. }) => s.a == v.center || s.b
            == v.center,
        (Item::Via { shape: v, .. }, Item::Via { shape: w, .. }) => v.center == w.center,
        _ => false,
    }
}

/// The net of a piece of wire.
pub open spec fn net_of_wire(item: Item) -> Option<NetId> {
    match item {
        Item::Track { net, .. } => net,
        Item::Via { net, .. } => net,
        _ => None,
    }
}

/// Pieces of wire meet exactly where they join.
pub proof fn law_pieces_meet_where_they_join(a: Item, b: Item)
    ensures
        meets(a, b) <==> joins(a, b),
{
    if meets(a, b) {
        let (p, l) = choose|p: Point, l: LayerId| #[trigger] touches(a, p, l) && touches(b, p, l);
    }
    if joins(a, b) {
        match (a, b) {
            (
                Item::Track { shape: s, layer: l, .. },
                Item::Track { shape: t, layer: m, .. },
            ) => {
                assert(touches(a, s.a, l) && touches(a, s.b, l));
            },
            (Item::Track { shape: s, layer: l, .. }, Item::Via { shape: v, .. }) => {
                assert(touches(a, v.center, l) && touches(b, v.center, l));
            },
            (Item::Via { shape: v, .. }, Item::Track { shape: s, layer: l, .. }) => {
                assert(touches(a, v.center, l) && touches(b, v.center, l));
            },
            (Item::Via { shape: v, .. }, Item::Via { .. }) => {
                assert(touches(a, v.center, LayerId::FCu) && touches(b, v.center, LayerId::FCu));
            },
            _ => {},
        }
    }
}

/// Two tracks or vias of one net that join belong to one wire.
pub proof fn law_joined_pieces_are_one_wire(entries: Seq<Entry>, i: int, j: int)
    requires
        0 <= i < entries.len(),
        0 <= j < entries.len(),
        joins(entries[i].item, entries[j].item),
        net_of_wire(entries[i].item) == net_of_wire(entries[j].item),
    ensures
        same_wire(entries, entries[i].id, entries[j].id),
        same_wire(entries, entries[i].id, entries[i].id),
{
    law_pieces_meet_where_they_join(entries[i].item, entries[j].item);
    let net = net_of_wire(entries[i].item);
    let walk = seq![i, j];
    assert(is_walk(entries, net, walk));
    assert(walk_joins(entries, net, walk, entries[i].id, entries[j].id));
    let stay = seq![i];
    assert(is_walk(entries, net, stay));
    assert(walk_joins(entries, net, stay, entries[i].id, entries[i].id));
}

/// A track or via that joins no other of its net is a wire by itself.
pub proof fn law_a_lone_piece_is_a_wire_by_itself(entries: Seq<Entry>, i: int, other: ItemId)
    requires
        ids_are_unique(entries),
        0 <= i < entries.len(),
        forall|j: int|
            #![trigger entries[j]]
            0 <= j < entries.len() && j != i && net_of_wire(entries[j].item) == net_of_wire(
                entries[i].item,
            ) ==> !joins(entries[i].item, entries[j].item),
        same_wire(entries, entries[i].id, other),
    ensures
        other == entries[i].id,
{
    let (net, walk) = choose|net: Option<NetId>, walk: Seq<int>|
        #[trigger] walk_joins(entries, net, walk, entries[i].id, other);
    assert(walk[0] == i) by {
        if walk[0] < i {
            assert(entries[walk[0]].id != entries[i].id);
        }
        if i < walk[0] {
            assert(entries[i].id != entries[walk[0]].id);
        }
    }
    lemma_walk_stays(entries, net, walk, i, walk.len() - 1);
    assert(walk.last() == i);
}

proof fn lemma_walk_stays(
    entries: Seq<Entry>,
    net: Option<NetId>,
    walk: Seq<int>,
    i: int,
    k: int,
)
    requires
        is_walk(entries, net, walk),
        walk[0] == i,
        0 <= i < entries.len(),
        0 <= k < walk.len(),
        forall|j: int|
            #![trigger entries[j]]
            0 <= j < entries.len() && j != i && net_of_wire(entries[j].item) == net_of_wire(
                entries[i].item,
            ) ==> !joins(entries[i].item, entries[j].item),
    ensures
        walk[k] == i,
    decreases k,
{
    if k > 0 {
        lemma_walk_stays(entries, net, walk, i, k - 1);
        let j = walk[k];
        assert(walk[k - 1 + 1] == j);
        assert(meets(entries[walk[k - 1]].item, entries[j].item));
        law_pieces_meet_where_they_join(entries[i].item, entries[j].item);
        assert(walk[0] == i);
        assert(net_of_wire(entries[j].item) == net_of_wire(entries[i].item));
    }
}

/// A drawn path is a track for each leg, from corner to corner, all of one
/// net, layer, width and class.
pub proof fn law_a_path_is_a_track_for_each_leg(
    path: Seq<Point>,
    net: NetId,
    layer: LayerId,
    width: Unit,
    class: NetClass,
    k: int,
)
    ensures
        path.len() > 0 ==> path_tracks(path, net, layer, width, class).len() == path.len() - 1,
        path.len() == 0 ==> path_tracks(path, net, layer, width, class).len() == 0,
        leg_count(path) == path_tracks(path, net, layer, width, class).len(),
        0 <= k < path.len() - 1 ==> path_tracks(path, net, layer, width, class)[k]
            == (Item::Track {
            shape: Segment { a: path[k], b: path[k + 1], width },
            net: Some(net),
            layer,
            class,
        }),
{
}

/// The wires at a part's pads are found: a track that ends at the middle of a
/// pad of its net on its layer, or a via there, and all that is joined to it.
pub proof fn law_a_wire_at_a_pad_is_found(
    entries: Seq<Entry>,
    pads: Seq<ItemId>,
    k: int,
    w: int,
    other: ItemId,
)
    requires
        0 <= k < pads.len(),
        0 <= w < entries.len(),
        ids_are_unique(entries),
        ({
            item_of(entries, pads[k]) matches Some(Item::Pad { shape, net, layer, .. }) && {
                let center = match shape {
                    PadShape::Circle(c) => c.center,
                    PadShape::Polygon { center, .. } => center,
                };
                match entries[w].item {
                    Item::Track { shape: s, net: n, layer: l, .. } => n == net && l == layer && (s.a
                        == center || s.b == center),
                    Item::Via { shape: v, net: n, .. } => n == net && v.center == center,
                    _ => false,
                }
            }
        }),
        same_wire(entries, entries[w].id, other),
    ensures
        wires_at_pads(entries, pads).contains(other),
        wires_at_pads(entries, pads).contains(entries[w].id),
{
    let pad = item_of(entries, pads[k])->0;
    assert(ends_on_pads(entries, entries[w].item, pads)) by {
        assert(crate::wires::ends_on_pad(entries[w].item, pad));
    }
    lemma_item_of_index(entries, w);
    law_wire_holds_its_start(entries, entries[w].id);
}

/// Only a wire that ends on one of the pads is found at them.
pub proof fn law_only_wires_at_a_pad_are_found(
    entries: Seq<Entry>,
    pads: Seq<ItemId>,
    other: ItemId,
)
    requires
        wires_at_pads(entries, pads).contains(other),
    ensures
        exists|w: int, k: int|
            0 <= w < entries.len() && 0 <= k < pads.len() && same_wire(
                entries,
                (#[trigger] entries[w]).id,
                other,
            ) && (item_of(entries, #[trigger] pads[k]) matches Some(Item::Pad {
                shape,
                net,
                layer,
                ..
            }) && {
                let center = match shape {
                    PadShape::Circle(c) => c.center,
                    PadShape::Polygon { center, .. } => center,
                };
                match entries[w].item {
                    Item::Track { shape: s, net: n, layer: l, .. } => n == net && l == layer && (s.a
                        == center || s.b == center),
                    Item::Via { shape: v, net: n, .. } => n == net && v.center == center,
                    _ => false,
                }
            }),
{
    let w = choose|w: int|
        0 <= w < entries.len() && #[trigger] ends_on_pads(entries, entries[w].item, pads)
            && same_wire(entries, entries[w].id, other);
    let k = choose|k: int|
        0 <= k < pads.len() && (item_of(entries, #[trigger] pads[k]) matches Some(pad)
            && crate::wires::ends_on_pad(entries[w].item, pad));
    assert(entries[w].id == entries[w].id && pads[k] == pads[k]);
}

/// Deleting by ids deletes the tracks and vias among them, and nothing else:
/// every other item stays as it is.
pub proof fn law_only_wires_are_deleted(entries: Seq<Entry>, ids: Set<ItemId>, id: ItemId)
    requires
        ids_are_unique(entries),
    ensures
        item_of(without(entries, wires_among(entries, ids)), id) == (match item_of(entries, id) {
            Some(Item::Track { .. }) if ids.contains(id) => None,
            Some(Item::Via { .. }) if ids.contains(id) => None,
            found => found,
        }),
{
    lemma_without_item(entries, wires_among(entries, ids), id);
}

/// Routed copper is the same if it lies in the same place on the same net; a
/// track is the same from either end, and its class does not count.
pub proof fn law_the_same_copper_is_known(
    a: Point,
    b: Point,
    width: Unit,
    net: Option<NetId>,
    layer: LayerId,
    one: NetClass,
    other: NetClass,
    item: Item,
)
    ensures
        ({
            let there = Item::Track { shape: Segment { a, b, width }, net, layer, class: one };
            let back = Item::Track {
                shape: Segment { a: b, b: a, width },
                net,
                layer,
                class: other,
            };
            &&& same_copper(there, back)
            &&& same_copper(there, there)
            &&& same_copper(there, item) ==> (item matches Item::Track {
                shape: s,
                net: n,
                layer: l,
                ..
            } && n == net && l == layer && s.width == width && (s.a == a || s.a == b) && (s.b == a
                || s.b == b) && (a != b ==> s.a != s.b))
            &&& item is Via ==> same_copper(item, item) && (forall|i: Item| #[trigger]
                same_copper(item, i) ==> i == item)
        }),
{
}

/// A via fits exactly if it breaks no rule of its own, lies on the board,
/// collides with nothing, and keeps its drill away from every other drill.
pub proof fn law_which_vias_fit(
    entries: Seq<Entry>,
    rules: FabRules,
    center: Point,
    net: NetId,
    drill: Unit,
    probe: ViaProbe,
)
    requires
        drill >= 0,
        forall|i: int|
            #![trigger entries[i]]
            0 <= i < entries.len() ==> (entries[i].item matches Item::Via { drill: d, .. } ==> d
                >= 0) && (entries[i].item matches Item::Hole { drill: d, .. } ==> d >= 0),
    ensures
        ({
            let r = via_verdict(entries, rules, center, net, drill, probe);
            let apart = forall|i: int|
                #![trigger entries[i]]
                0 <= i < entries.len() ==> match entries[i].item {
                    Item::Via { shape, drill: d, net: n } => !too_close(
                        center,
                        0,
                        shape.center,
                        0,
                        (drill + d) / 2 + if n == Some(net) {
                            rules.hole_to_hole_same_net
                        } else {
                            rules.hole_to_hole_other_net
                        },
                    ),
                    Item::Hole { position, drill: d } => !too_close(
                        center,
                        0,
                        position,
                        0,
                        (drill + d) / 2 + rules.hole_to_hole_other_net,
                    ),
                    _ => true,
                };
            &&& r is Ok <==> probe.dfm is None && probe.on_board && probe.hits == 0 && apart
            &&& probe.dfm matches Some(v) ==> r == Err::<(), PlacementError>(PlacementError::Dfm(v))
            &&& probe.dfm is None && !probe.on_board ==> r == Err::<(), PlacementError>(
                PlacementError::OffBoard,
            )
            &&& probe.dfm is None && probe.on_board && !apart ==> r == Err::<(), PlacementError>(
                PlacementError::Dfm(DfmViolation::HoleToHoleBelowMin),
            )
            &&& probe.dfm is None && probe.on_board && apart && probe.hits > 0 ==> r == Err::<
                (),
                PlacementError,
            >(PlacementError::Collision(probe.hits))
        }),
{
    assert forall|i: int| #![trigger entries[i]] 0 <= i < entries.len() implies (match entries[i].item {
        Item::Via { shape, drill: d, net: n } => drills_crowd(
            rules,
            center,
            drill,
            Some(net),
            (shape.center, d, n),
        ) == too_close(
            center,
            0,
            shape.center,
            0,
            (drill + d) / 2 + if n == Some(net) {
                rules.hole_to_hole_same_net
            } else {
                rules.hole_to_hole_other_net
            },
        ),
        Item::Hole { position, drill: d } => drills_crowd(
            rules,
            center,
            drill,
            Some(net),
            (position, d, None),
        ) == too_close(
            center,
            0,
            position,
            0,
            (drill + d) / 2 + rules.hole_to_hole_other_net,
        ),
        _ => true,
    }) by {}
    if crowds_a_drill(entries, rules, center, drill, Some(net)) {
        let i = choose|i: int|
            0 <= i < entries.len() && (crate::vias::drilled((#[trigger] entries[i]).item) matches Some(
                other,
            ) && drills_crowd(rules, center, drill, Some(net), other));
        assert(entries[i].item == entries[i].item);
    } else {
        assert forall|i: int| #![trigger entries[i]] 0 <= i < entries.len() implies (
        match entries[i].item {
            Item::Via { shape, drill: d, net: n } => !drills_crowd(
                rules,
                center,
                drill,
                Some(net),
                (shape.center, d, n),
            ),
            Item::Hole { position, drill: d } => !drills_crowd(
                rules,
                center,
                drill,
                Some(net),
                (position, d, None),
            ),
            _ => true,
        }) by {}
    }
}

/// Two drills of no net keep the distance set for that, two of one net theirs,
/// and all others the third.
pub proof fn law_drills_keep_the_distance_set_for_their_nets(
    rules: FabRules,
    a: NetId,
    b: NetId,
)
    ensures
        rules.hole_spacing(None, None) == rules.hole_to_hole_no_net,
        rules.hole_spacing(Some(a), Some(a)) == rules.hole_to_hole_same_net,
        a != b ==> rules.hole_spacing(Some(a), Some(b)) == rules.hole_to_hole_other_net,
        rules.hole_spacing(Some(a), None) == rules.hole_to_hole_other_net,
        rules.hole_spacing(None, Some(a)) == rules.hole_to_hole_other_net,
{
}

/// A via is a disc of the diameter asked for at the place asked for, with the
/// drill and net asked for.
pub proof fn law_a_via_is_what_was_asked_for(center: Point, net: NetId, diameter: Unit, drill: Unit)
    ensures
        via_item(center, net, diameter, drill) matches Item::Via { shape, drill: d, net: n }
            && shape.center == center && (diameter >= 0 ==> shape.radius == diameter / 2) && d
            == drill && n == Some(net),
{
}

/// A via is picked by a point within its radius and the tolerance.
pub proof fn law_a_via_is_picked_near_its_middle(item: Item, point: Point, tolerance: Unit)
    ensures
        via_holds(item, point, tolerance) <==> (item matches Item::Via { shape, .. } && {
            let dx = shape.center.x - point.x;
            let dy = shape.center.y - point.y;
            let r = shape.radius + tolerance;
            r >= 0 && dx * dx + dy * dy <= r * r
        }),
{
}

/// A stitching via goes to the first spot where both the via and its stub fit;
/// where none does, the error is that of the first spot.
pub proof fn law_a_stitching_via_takes_the_first_fit(
    entries: Seq<Entry>,
    rules: FabRules,
    pad_id: ItemId,
    net: NetId,
    drill: Unit,
    candidates: Seq<StitchCandidate>,
)
    requires
        item_of(entries, pad_id) matches Some(Item::Pad { net: n, .. }) && n == Some(net),
        candidates.len() > 0,
    ensures
        match stitch_verdict(entries, rules, pad_id, drill, None, candidates) {
            Ok(k) => {
                &&& 0 <= k < candidates.len()
                &&& candidates[k].stub_clear
                &&& via_verdict(
                    entries,
                    rules,
                    candidates[k].center,
                    net,
                    drill,
                    candidates[k].via,
                ) is Ok
                &&& forall|m: int|
                    #![trigger candidates[m]]
                    0 <= m < k ==> !candidates[m].stub_clear || via_verdict(
                        entries,
                        rules,
                        candidates[m].center,
                        net,
                        drill,
                        candidates[m].via,
                    ) is Err
            },
            Err(e) => {
                &&& forall|m: int|
                    #![trigger candidates[m]]
                    0 <= m < candidates.len() ==> !candidates[m].stub_clear || via_verdict(
                        entries,
                        rules,
                        candidates[m].center,
                        net,
                        drill,
                        candidates[m].via,
                    ) is Err
                &&& match via_verdict(
                    entries,
                    rules,
                    candidates[0].center,
                    net,
                    drill,
                    candidates[0].via,
                ) {
                    Err(v) => e == PinStitchingViaError::Via(v),
                    Ok(_) => e == PinStitchingViaError::NoRoomForStub,
                }
            },
        },
{
    lemma_first_fit(entries, rules, net, drill, candidates);
}

proof fn lemma_first_fit(
    entries: Seq<Entry>,
    rules: FabRules,
    net: NetId,
    drill: Unit,
    candidates: Seq<StitchCandidate>,
)
    ensures
        match first_fit(entries, rules, net, drill, candidates) {
            Some(k) => {
                &&& 0 <= k < candidates.len()
                &&& candidate_error(entries, rules, candidates[k], net, drill) is None
                &&& forall|m: int|
                    0 <= m < k ==> candidate_error(
                        entries,
                        rules,
                        #[trigger] candidates[m],
                        net,
                        drill,
                    ) is Some
            },
            None => forall|m: int|
                0 <= m < candidates.len() ==> candidate_error(
                    entries,
                    rules,
                    #[trigger] candidates[m],
                    net,
                    drill,
                ) is Some,
        },
    decreases candidates.len(),
{
    if candidates.len() > 0 {
        let rest = candidates.drop_first();
        lemma_first_fit(entries, rules, net, drill, rest);
        assert forall|m: int| 0 < m < candidates.len() implies #[trigger] candidates[m] == rest[m
            - 1] by {}
    }
}

/// The stub runs from the middle of the pad to the via, on the pad's layer and
/// net, as wide as asked for.
pub proof fn law_a_stub_runs_from_pad_to_via(
    shape: PadShape,
    net: Option<NetId>,
    layer: LayerId,
    pad: Item,
    center: Point,
    width: Unit,
)
    requires
        pad matches Item::Pad { shape: s, net: n, layer: l, .. } && s == shape && n == net && l
            == layer,
    ensures
        stub_item(pad, center, width) == (Item::Track {
            shape: Segment {
                a: match shape {
                    PadShape::Circle(c) => c.center,
                    PadShape::Polygon { center, .. } => center,
                },
                b: center,
                width,
            },
            net,
            layer,
            class: NetClass::C,
        }),
{
}

/// Spots for a stitching via are tried straight outward first, then every
/// fifteen degrees to either side of it, up to a right angle, the nearest
/// first and each direction once.
pub proof fn law_a_stitching_via_is_tried_outward_first(k: int)
    requires
        0 <= k < 13,
    ensures
        sweep().len() == 13,
        sweep()[0] == 0,
        sweep()[k] % 15 == 0,
        -90 <= sweep()[k] <= 90,
        k > 0 ==> (if sweep()[k] < 0 {
            -sweep()[k] as int
        } else {
            sweep()[k] as int
        }) >= (if sweep()[k - 1] < 0 {
            -sweep()[k - 1] as int
        } else {
            sweep()[k - 1] as int
        }),
        forall|j: int| 0 <= j < 13 && j != k ==> #[trigger] sweep()[j] != sweep()[k],
{
}

/// Outward is away from the middle of the body the pad belongs to, and to the
/// right where there is none or the pad is in the middle.
pub proof fn law_outward_is_away_from_the_body(pad: Point, body: Point)
    ensures
        pad != body ==> outward(pad, Some(body)) == (pad.x - body.x, pad.y - body.y),
        outward(pad, Some(pad)) == (1int, 0int),
        outward(pad, None) == (1int, 0int),
{
}

/// Two pads that are joined end up on the net that either of them is on, or on
/// a new one if neither is on any; two that are on different nets are not
/// joined.
pub proof fn law_joined_pads_share_a_net(a: NetId, b: NetId, fresh: NetId)
    ensures
        joined_net(Some(a), None, fresh) == Some(a),
        joined_net(None, Some(a), fresh) == Some(a),
        joined_net(None, None, fresh) == Some(fresh),
        joined_net(Some(a), Some(a), fresh) == Some(a),
        a != b ==> joined_net(Some(a), Some(b), fresh) is None,
{
}

/// Everything on a net is listed: an id is on the list exactly if an item with
/// that id is on the net, and the list is in the order of the board.
pub proof fn law_everything_on_a_net_is_listed(entries: Seq<Entry>, net: NetId, id: ItemId)
    ensures
        ids_on_net(entries, net).contains(id) <==> exists|i: int|
            0 <= i < entries.len() && (#[trigger] entries[i]).id == id && match entries[i].item {
                Item::Pad { net: n, .. } => n == Some(net),
                Item::Track { net: n, .. } => n == Some(net),
                Item::Via { net: n, .. } => n == Some(net),
                Item::Zone { net: n, .. } => n == Some(net),
                Item::Hole { .. } => false,
            },
    decreases entries.len(),
{
    if entries.len() > 0 {
        let init = entries.drop_last();
        law_everything_on_a_net_is_listed(init, net, id);
        let rest = ids_on_net(init, net);
        let all = ids_on_net(entries, net);
        assert(entries[entries.len() - 1] == entries.last());
        assert forall|i: int| 0 <= i < init.len() implies #[trigger] entries[i] == init[i] by {}
        if rest.contains(id) {
            let k = choose|k: int| 0 <= k < rest.len() && rest[k] == id;
            assert(all[k] == id);
        }
        if item_net(entries.last().item) == Some(net) {
            assert(all[rest.len() as int] == entries.last().id);
        }
        if all.contains(id) && !rest.contains(id) {
            let k = choose|k: int| 0 <= k < all.len() && all[k] == id;
            if k < rest.len() {
                assert(rest[k] == id);
            }
        }
        if exists|i: int|
            0 <= i < entries.len() && (#[trigger] entries[i]).id == id && match entries[i].item {
                Item::Pad { net: n, .. } => n == Some(net),
                Item::Track { net: n, .. } => n == Some(net),
                Item::Via { net: n, .. } => n == Some(net),
                Item::Zone { net: n, .. } => n == Some(net),
                Item::Hole { .. } => false,
            } {
            let i = choose|i: int|
                0 <= i < entries.len() && (#[trigger] entries[i]).id == id && match entries[i].item {
                    Item::Pad { net: n, .. } => n == Some(net),
                    Item::Track { net: n, .. } => n == Some(net),
                    Item::Via { net: n, .. } => n == Some(net),
                    Item::Zone { net: n, .. } => n == Some(net),
                    Item::Hole { .. } => false,
                };
            if i < init.len() {
                assert(init[i] == entries[i]);
            }
        }
    }
}

/// A pin count counts the pads on a net and nothing else: one more item adds
/// one if it is a pad on the net.
pub proof fn law_a_pin_count_counts_pads(entries: Seq<Entry>, last: Entry, net: NetId)
    ensures
        pads_counted(entries.push(last), net) == pads_counted(entries, net) + (
        match last.item {
            Item::Pad { net: n, .. } => if n == Some(net) {
                1int
            } else {
                0
            },
            _ => 0,
        }),
        pads_counted(Seq::empty(), net) == 0,
{
    assert(entries.push(last).drop_last() =~= entries);
}

/// Forgetting the nets that nothing is on keeps the record of every net that a
/// pad, track, via or pour is on, and no other.
pub proof fn law_nets_in_use_are_kept(nets: Seq<NetRecord>, entries: Seq<Entry>, r: NetRecord)
    ensures
        nets_in_use(nets, entries).contains(r) <==> nets.contains(r) && exists|i: int|
            0 <= i < entries.len() && match (#[trigger] entries[i]).item {
                Item::Pad { net: n, .. } => n == Some(r.id),
                Item::Track { net: n, .. } => n == Some(r.id),
                Item::Via { net: n, .. } => n == Some(r.id),
                Item::Zone { net: n, .. } => n == Some(r.id),
                Item::Hole { .. } => false,
            },
    decreases nets.len(),
{
    assert(net_in_use(entries, r.id) == exists|i: int|
        0 <= i < entries.len() && match (#[trigger] entries[i]).item {
            Item::Pad { net: n, .. } => n == Some(r.id),
            Item::Track { net: n, .. } => n == Some(r.id),
            Item::Via { net: n, .. } => n == Some(r.id),
            Item::Zone { net: n, .. } => n == Some(r.id),
            Item::Hole { .. } => false,
        }) by {
        if net_in_use(entries, r.id) {
            let i = choose|i: int|
                0 <= i < entries.len() && item_net((#[trigger] entries[i]).item) == Some(r.id);
            assert(entries[i] == entries[i]);
        }
    }
    if nets.len() > 0 {
        let init = nets.drop_last();
        law_nets_in_use_are_kept(init, entries, r);
        lemma_kept_record(nets, nets_in_use(init, entries), nets_in_use(nets, entries), r);
        if nets.contains(r) && !init.contains(r) {
            let k = choose|k: int| 0 <= k < nets.len() && nets[k] == r;
            if k < init.len() {
                assert(init[k] == r);
            }
            assert(nets.last() == r);
        }
    }
}

proof fn lemma_kept_record(
    nets: Seq<NetRecord>,
    rest: Seq<NetRecord>,
    all: Seq<NetRecord>,
    r: NetRecord,
)
    requires
        nets.len() > 0,
        all == rest || all == rest.push(nets.last()),
    ensures
        rest.contains(r) ==> all.contains(r),
        all == rest.push(nets.last()) && nets.last() == r ==> all.contains(r),
        all.contains(r) && !rest.contains(r) ==> nets.last() == r && all == rest.push(nets.last()),
        nets.drop_last().contains(r) ==> nets.contains(r),
        nets.contains(nets.last()),
{
    if rest.contains(r) {
        let k = choose|k: int| 0 <= k < rest.len() && rest[k] == r;
        assert(all[k] == r);
    }
    if all == rest.push(nets.last()) {
        assert(all[rest.len() as int] == nets.last());
        if all.contains(r) && !rest.contains(r) {
            let k = choose|k: int| 0 <= k < all.len() && all[k] == r;
            if k < rest.len() {
                assert(rest[k] == r);
            }
        }
    }
    if nets.drop_last().contains(r) {
        let k = choose|k: int| 0 <= k < nets.drop_last().len() && nets.drop_last()[k] == r;
        assert(nets[k] == r);
    }
    assert(nets[nets.len() - 1] == nets.last());
}

/// Forgetting a net takes its record off the list and no other.
pub proof fn law_a_forgotten_net_is_the_only_one(nets: Seq<NetRecord>, net: NetId, r: NetRecord)
    ensures
        nets_without(nets, net).contains(r) <==> nets.contains(r) && r.id != net,
    decreases nets.len(),
{
    if nets.len() > 0 {
        let init = nets.drop_last();
        law_a_forgotten_net_is_the_only_one(init, net, r);
        lemma_kept_record(nets, nets_without(init, net), nets_without(nets, net), r);
        if nets.contains(r) && !init.contains(r) {
            let k = choose|k: int| 0 <= k < nets.len() && nets[k] == r;
            if k < init.len() {
                assert(init[k] == r);
            }
            assert(nets.last() == r);
        }
    }
}

/// Nets that are created one after the other never get the same name.
pub proof fn law_created_nets_have_names_of_their_own(a: nat, b: nat)
    requires
        auto_name(a) == auto_name(b),
    ensures
        a == b,
{
    let p = "Net"@.len() as int;
    assert(auto_name(a).skip(p) =~= decimal(a));
    assert(auto_name(b).skip(p) =~= decimal(b));
    law_decimal_is_injective(a, b);
}

/// A stub that the fab cannot make is refused before anything else; and only a
/// pad that has a net can be stitched.
pub proof fn law_what_can_be_stitched(
    entries: Seq<Entry>,
    rules: FabRules,
    pad_id: ItemId,
    drill: Unit,
    stub: Option<DfmViolation>,
    candidates: Seq<StitchCandidate>,
)
    ensures
        ({
            let r = stitch_verdict(entries, rules, pad_id, drill, stub, candidates);
            match stub {
                Some(v) => r == Err::<int, PinStitchingViaError>(
                    PinStitchingViaError::Via(PlacementError::Dfm(v)),
                ),
                None => match item_of(entries, pad_id) {
                    Some(Item::Pad { net: Some(_), .. }) => r != Err::<int, PinStitchingViaError>(
                        PinStitchingViaError::NoNet,
                    ) && r != Err::<int, PinStitchingViaError>(PinStitchingViaError::NotAPad)
                        || candidates.len() == 0,
                    Some(Item::Pad { net: None, .. }) => r == Err::<int, PinStitchingViaError>(
                        PinStitchingViaError::NoNet,
                    ),
                    _ => r == Err::<int, PinStitchingViaError>(PinStitchingViaError::NotAPad),
                },
            }
        }),
{
    if let Some(Item::Pad { net: Some(net), .. }) = item_of(entries, pad_id) {
        lemma_first_fit(entries, rules, net, drill, candidates);
        if candidates.len() > 0 {
            assert(candidates[0] == candidates[0]);
        }
    }
}

/// The body that a pad belongs to is that of the first part that has the pad,
/// taken by its middle: halfway between the farthest of its corners either
/// way, to the nanometre.
pub proof fn law_a_pad_belongs_to_a_body(fps: Seq<PlacedFootprint>, pad: ItemId)
    ensures
        match body_of_pad(fps, pad) {
            Some(middle) => exists|f: int|
                0 <= f < fps.len() && (#[trigger] fps[f]).pad_item_ids@.contains(pad)
                    && fps[f].courtyard.points@.len() > 0 && {
                    let corners = fps[f].courtyard.points@;
                    &&& -1 <= 2 * middle.x - (left_of(corners) + right_of(corners)) <= 1
                    &&& -1 <= 2 * middle.y - (top_of(corners) + bottom_of(corners)) <= 1
                },
            None => forall|f: int|
                0 <= f < fps.len() && (#[trigger] fps[f]).pad_item_ids@.contains(pad) && (forall|
                    g: int,
                |
                    0 <= g < f ==> !(#[trigger] fps[g]).pad_item_ids@.contains(pad))
                    ==> fps[f].courtyard.points@.len() == 0,
        },
    decreases fps.len(),
{
    if fps.len() > 0 {
        let rest = fps.drop_first();
        law_a_pad_belongs_to_a_body(rest, pad);
        assert forall|f: int| 0 < f < fps.len() implies #[trigger] fps[f] == rest[f - 1] by {}
        let corners = fps[0].courtyard.points@;
        if fps[0].pad_item_ids@.contains(pad) {
            if corners.len() > 0 {
                law_bounds_are_reached_and_never_passed(corners);
                assert(corners[0] == corners[0]);
            }
        } else if body_of_pad(rest, pad) is Some {
            let middle = body_of_pad(rest, pad)->0;
            let f = choose|f: int|
                0 <= f < rest.len() && (#[trigger] rest[f]).pad_item_ids@.contains(pad)
                    && rest[f].courtyard.points@.len() > 0 && {
                    let corners = rest[f].courtyard.points@;
                    &&& -1 <= 2 * middle.x - (left_of(corners) + right_of(corners)) <= 1
                    &&& -1 <= 2 * middle.y - (top_of(corners) + bottom_of(corners)) <= 1
                };
            assert(fps[f + 1] == rest[f]);
        } else {
            assert forall|f: int|
                0 <= f < fps.len() && (#[trigger] fps[f]).pad_item_ids@.contains(pad) && (forall|
                    g: int,
                |
                    0 <= g < f ==> !(#[trigger] fps[g]).pad_item_ids@.contains(
                        pad,
                    )) implies fps[f].courtyard.points@.len() == 0 by {
                assert(f > 0);
                assert(rest[f - 1] == fps[f]);
                assert forall|g: int| 0 <= g < f - 1 implies !(#[trigger] rest[g]).pad_item_ids@.contains(
                    pad,
                ) by {
                    assert(rest[g] == fps[g + 1]);
                }
            }
        }
    }
}

/// A collision is told with the number of items that are hit.
pub proof fn law_a_collision_is_told_with_its_count(a: usize, b: usize, rule: Seq<char>)
    requires
        a != b,
    ensures
        PlacementError::Collision(a).text(rule) != PlacementError::Collision(b).text(rule),
        forall|v: DfmViolation| #[trigger] PlacementError::Dfm(v).text(rule) == rule,
{
    reveal_strlit("would collide with ");
    reveal_strlit(" existing pad/item(s)");
    let head = "would collide with "@;
    let tail = " existing pad/item(s)"@;
    let x = PlacementError::Collision(a).text(rule);
    let y = PlacementError::Collision(b).text(rule);
    if x == y {
        let n = head.len() as int;
        assert(x.subrange(n, x.len() - tail.len()) =~= decimal(a as nat));
        assert(y.subrange(n, y.len() - tail.len()) =~= decimal(b as nat));
        law_decimal_is_injective(a as nat, b as nat);
    }
}

/// A board is made by the rules for its copper: those for one ounce or those
/// for two.
pub proof fn law_a_board_is_made_by_the_rules_for_its_copper(profiles: FabProfiles)
    ensures
        profiles.of(CopperWeight::OneOz) == profiles.one_oz,
        profiles.of(CopperWeight::TwoOz) == profiles.two_oz,
{
}

} // verus!
