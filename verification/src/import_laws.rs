//! What an imported board keeps of the file it is read from.

use vstd::prelude::*;

use crate::board_doc::{BoardDoc, LayerCount};
use crate::footprint::{FootprintTemplate, PadShapeKind};
use crate::item::{
    item_of, lemma_item_of_index, Entry, Item, ItemId, LayerId, NetId, ZoneConnection,
};
use crate::kicad_export::WritePadShape;
use crate::kicad_import::{
    back_used, has_back_pad, is_base_board, is_import_chain, is_import_step, is_letter,
    is_template_read, largest_net, leading_letters, loose_items, pad_nets_read, prefix_of,
    records_have, table_has, template_text, uses_back, FlatBoard, ImportedFootprint,
};
use crate::parts::{pads_in, parts_only, with_pad_nets};
use crate::pins::{lemma_pad_count, lemma_pad_place, lemma_wired_pads};
use crate::placement::PlacedShape;
use crate::text::decimal;

verus! {

/// A track, a via or a pour: copper that belongs to no footprint.
pub open spec fn is_loose_copper(item: Item) -> bool {
    item is Track || item is Via || item is Zone
}

/// How many of the first `n` items are copper that belongs to no footprint.
pub open spec fn copper_before(items: Seq<Item>, n: int) -> int
    decreases n,
{
    if n <= 0 {
        0
    } else {
        copper_before(items, n - 1) + if is_loose_copper(items[n - 1]) {
            1int
        } else {
            0
        }
    }
}

proof fn lemma_loose(items: Seq<Item>, n: int)
    requires
        0 <= n <= items.len(),
    ensures
        loose_items(items.take(n)).len() == copper_before(items, n),
    decreases n,
{
    if n > 0 {
        lemma_loose(items, n - 1);
        assert(items.take(n).drop_last() =~= items.take(n - 1));
        assert(items.take(n).last() == items[n - 1]);
    }
}

proof fn lemma_loose_stays(items: Seq<Item>, i: int)
    requires
        0 <= i < items.len(),
        is_loose_copper(items[i]),
    ensures
        copper_before(items, i) < loose_items(items).len(),
        loose_items(items)[copper_before(items, i)] == items[i],
    decreases items.len(),
{
    let init = items.drop_last();
    lemma_loose(items, i);
    if i < init.len() {
        assert(init[i] == items[i]);
        lemma_loose_stays(init, i);
        lemma_loose(init, i);
        assert(init.take(i) =~= items.take(i));
    } else {
        assert(items.take(i) =~= init);
    }
}

/// Copper that no footprint owns survives the import: every track, via and
/// pour of the file is on the rebuilt board, the very item, in the order of
/// the file, and the board starts out with nothing else.
pub proof fn law_loose_copper_is_kept(
    doc: BoardDoc,
    flat: FlatBoard,
    footprints: Seq<ImportedFootprint>,
    i: int,
)
    requires
        is_base_board(doc, flat, footprints),
        0 <= i < flat.items@.len(),
    ensures
        is_loose_copper(flat.items@[i]) ==> {
            let k = copper_before(flat.items@, i);
            0 <= k < doc.node.entries@.len() && doc.node.entries@[k].item == flat.items@[i]
        },
        doc.node.entries@.len() == copper_before(flat.items@, flat.items@.len() as int),
        forall|k: int|
            0 <= k < doc.node.entries@.len() ==> is_loose_copper(
                (#[trigger] doc.node.entries@[k]).item,
            ),
{
    lemma_loose(flat.items@, flat.items@.len() as int);
    assert(flat.items@.take(flat.items@.len() as int) =~= flat.items@);
    lemma_only_loose(flat.items@);
    if is_loose_copper(flat.items@[i]) {
        lemma_loose_stays(flat.items@, i);
        lemma_loose(flat.items@, i);
    }
}

proof fn lemma_only_loose(items: Seq<Item>)
    ensures
        forall|k: int|
            0 <= k < loose_items(items).len() ==> is_loose_copper(#[trigger] loose_items(items)[k]),
    decreases items.len(),
{
    if items.len() > 0 {
        lemma_only_loose(items.drop_last());
        let rest = loose_items(items.drop_last());
        let all = loose_items(items);
        assert forall|k: int| 0 <= k < all.len() implies is_loose_copper(#[trigger] all[k]) by {
            if k < rest.len() {
                assert(rest[k] == all[k]);
            }
        }
    }
}

proof fn lemma_import_keeps(
    boards: Seq<BoardDoc>,
    templates: Seq<FootprintTemplate>,
    footprints: Seq<ImportedFootprint>,
    shapes: Seq<PlacedShape>,
    i: int,
    m: int,
)
    requires
        is_import_chain(boards, templates, footprints, shapes),
        0 <= i <= m < boards.len(),
    ensures
        boards[m].nets@ == boards[i].nets@,
        boards[m].outline@ == boards[i].outline@,
        boards[m].layer_count == boards[i].layer_count,
        boards[m].silk_texts@ == boards[i].silk_texts@,
        boards[m].footprints@.len() == boards[i].footprints@.len() + (m - i),
        boards[m].node.entries@.len() >= boards[i].node.entries@.len(),
        forall|k: int|
            0 <= k < boards[i].footprints@.len() ==> #[trigger] boards[m].footprints@[k]
                == boards[i].footprints@[k],
        forall|k: int|
            0 <= k < boards[i].node.entries@.len() ==> #[trigger] boards[m].node.entries@[k]
                == boards[i].node.entries@[k],
    decreases m - i,
{
    if i < m {
        lemma_import_keeps(boards, templates, footprints, shapes, i, m - 1);
        let last = boards[m - 1];
        assert(boards[m - 1 + 1] == boards[m]);
        assert forall|k: int| 0 <= k < last.footprints@.len() implies #[trigger] boards[m].footprints@[k]
            == last.footprints@[k] by {
            assert(boards[m].footprints@.drop_last()[k] == last.footprints@[k]);
        }
    }
}

/// The imported board as a whole still holds every track, via and pour of the
/// file, beside the parts; and it has one part for each footprint of the file,
/// in order, with that footprint's reference, place and rotation.
pub proof fn law_an_import_loses_nothing(
    boards: Seq<BoardDoc>,
    templates: Seq<FootprintTemplate>,
    footprints: Seq<ImportedFootprint>,
    shapes: Seq<PlacedShape>,
    flat: FlatBoard,
)
    requires
        is_import_chain(boards, templates, footprints, shapes),
        boards.len() == footprints.len() + 1,
        is_base_board(boards[0], flat, footprints),
    ensures
        forall|i: int|
            #![trigger flat.items@[i]]
            0 <= i < flat.items@.len() && is_loose_copper(flat.items@[i])
                ==> boards.last().node.entries@[copper_before(flat.items@, i)].item
                == flat.items@[i] && 0 <= copper_before(flat.items@, i)
                < boards.last().node.entries@.len(),
        boards.last().footprints@.len() == footprints.len(),
        forall|f: int|
            #![trigger footprints[f]]
            0 <= f < footprints.len() ==> {
                let fp = boards.last().footprints@[f];
                &&& fp.reference@ == footprints[f].reference@
                &&& fp.position == footprints[f].position
                &&& fp.rotation_deg == footprints[f].rotation_deg
                &&& fp.template_name@ == templates[f].name@
                &&& fp.courtyard == shapes[f].courtyard
                &&& fp.pin1_marker is None
            },
        boards.last().outline@ == flat.outline@,
        boards.last().silk_texts@.len() == flat.silk_texts@.len(),
        forall|t: int|
            #![trigger flat.silk_texts@[t]]
            0 <= t < flat.silk_texts@.len() ==> {
                let text = boards.last().silk_texts@[t];
                &&& text.text@ == flat.silk_texts@[t].text@
                &&& text.position == flat.silk_texts@[t].position
                &&& text.rotation_deg == flat.silk_texts@[t].rotation_deg
                &&& text.layer == flat.silk_texts@[t].layer
                &&& text.height == flat.silk_texts@[t].height
                &&& text.line_width == flat.silk_texts@[t].line_width
            },
{
    let m = boards.len() - 1;
    lemma_import_keeps(boards, templates, footprints, shapes, 0, m);
    assert forall|i: int| #![trigger flat.items@[i]] 0 <= i < flat.items@.len() && is_loose_copper(
        flat.items@[i],
    ) implies boards.last().node.entries@[copper_before(flat.items@, i)].item == flat.items@[i] && 0
        <= copper_before(flat.items@, i) < boards.last().node.entries@.len() by {
        law_loose_copper_is_kept(boards[0], flat, footprints, i);
        let k = copper_before(flat.items@, i);
        assert(boards[m].node.entries@[k] == boards[0].node.entries@[k]);
    }
    assert forall|f: int| #![trigger footprints[f]] 0 <= f < footprints.len() implies ({
        let fp = boards.last().footprints@[f];
        &&& fp.reference@ == footprints[f].reference@
        &&& fp.position == footprints[f].position
        &&& fp.rotation_deg == footprints[f].rotation_deg
        &&& fp.template_name@ == templates[f].name@
        &&& fp.courtyard == shapes[f].courtyard
        &&& fp.pin1_marker is None
    }) by {
        lemma_import_keeps(boards, templates, footprints, shapes, 0, f);
        lemma_import_keeps(boards, templates, footprints, shapes, f + 1, m);
        assert(is_import_step(boards[f], boards[f + 1], templates[f], footprints[f], shapes[f]));
        assert(boards[f + 1].footprints@[f] == boards[f + 1].footprints@.last());
        assert(boards[m].footprints@[f] == boards[f + 1].footprints@[f]);
    }
    assert forall|t: int| #![trigger flat.silk_texts@[t]] 0 <= t < flat.silk_texts@.len() implies ({
        let text = boards.last().silk_texts@[t];
        &&& text.text@ == flat.silk_texts@[t].text@
        &&& text.position == flat.silk_texts@[t].position
        &&& text.rotation_deg == flat.silk_texts@[t].rotation_deg
        &&& text.layer == flat.silk_texts@[t].layer
        &&& text.height == flat.silk_texts@[t].height
        &&& text.line_width == flat.silk_texts@[t].line_width
    }) by {
        assert(crate::kicad_import::is_text_read(
            boards[0].silk_texts@[t],
            flat.silk_texts@[t],
            t,
        ));
    }
}

/// Every pad of an imported part is on the net that the file gives it.
pub proof fn law_imported_pads_keep_their_nets(
    boards: Seq<BoardDoc>,
    templates: Seq<FootprintTemplate>,
    footprints: Seq<ImportedFootprint>,
    shapes: Seq<PlacedShape>,
    f: int,
    k: int,
)
    requires
        is_import_chain(boards, templates, footprints, shapes),
        boards.len() == footprints.len() + 1,
        boards[0].footprints@.len() == 0,
        boards.last().wf(),
        0 <= f < footprints.len(),
        parts_only(shapes[f].items@),
        pads_in(shapes[f].items@) == footprints[f].pads@.len(),
        0 <= k < footprints[f].pads@.len(),
    ensures
        ({
            let doc = boards.last();
            let ids = doc.footprints@[f].pad_item_ids@;
            &&& ids.len() == footprints[f].pads@.len()
            &&& item_of(doc.node.entries@, ids[k]) matches Some(Item::Pad { net, .. }) && net
                == footprints[f].pads@[k].net
        }),
{
    let m = boards.len() - 1;
    let doc = boards[m];
    let here = boards[f];
    let next = boards[f + 1];
    lemma_import_keeps(boards, templates, footprints, shapes, 0, f);
    lemma_import_keeps(boards, templates, footprints, shapes, f + 1, m);
    assert(is_import_step(here, next, templates[f], footprints[f], shapes[f]));
    let nets = pad_nets_read(footprints[f]);
    let items = shapes[f].items@;
    let wired = with_pad_nets(items, nets);
    let first = here.node.next as int;
    let at = here.node.entries@.len() as int;
    assert(next.footprints@[f] == next.footprints@.last());
    assert(doc.footprints@[f] == next.footprints@[f]);
    assert(wired.take(wired.len() as int) =~= wired);
    assert(items.take(items.len() as int) =~= items);
    lemma_wired_pads(items, nets, items.len() as int);
    assert(parts_only(wired)) by {
        assert forall|i: int| #![trigger wired[i]] 0 <= i < wired.len() implies wired[i] is Pad
            || wired[i] is Hole by {
            assert(items[i] is Pad || items[i] is Hole);
        }
    }
    lemma_pad_count(wired, first);
    let p = lemma_pad_place(wired, first, k);
    lemma_wired_pads(items, nets, p);
    assert(next.node.entries@[at + p] == (Entry {
        id: ItemId((first + p) as u64),
        item: wired[p],
    }));
    assert(doc.node.entries@[at + p] == next.node.entries@[at + p]);
    lemma_item_of_index(doc.node.entries@, at + p);
}

/// The imported board has the nets of the file, all but number nought, under
/// their numbers and names, in the order of their numbers, and no others; and
/// a new net gets a number above them all.
pub proof fn law_imported_nets_are_those_of_the_file(
    doc: BoardDoc,
    flat: FlatBoard,
    footprints: Seq<ImportedFootprint>,
)
    requires
        is_base_board(doc, flat, footprints),
    ensures
        forall|i: int|
            #![trigger flat.nets@[i]]
            0 <= i < flat.nets@.len() && flat.nets@[i].0 != 0 ==> exists|r: int|
                0 <= r < doc.nets@.len() && (#[trigger] doc.nets@[r]).id == NetId(flat.nets@[i].0)
                    && doc.nets@[r].name@ == flat.nets@[i].1@,
        forall|r: int|
            #![trigger doc.nets@[r]]
            0 <= r < doc.nets@.len() ==> doc.nets@[r].id.0 != 0 && exists|i: int|
                0 <= i < flat.nets@.len() && NetId((#[trigger] flat.nets@[i]).0) == doc.nets@[r].id
                    && flat.nets@[i].1@ == doc.nets@[r].name@,
        forall|a: int, b: int|
            #![trigger doc.nets@[a], doc.nets@[b]]
            0 <= a < b < doc.nets@.len() ==> doc.nets@[a].id.0 < doc.nets@[b].id.0,
        forall|i: int|
            #![trigger flat.nets@[i]]
            0 <= i < flat.nets@.len() ==> flat.nets@[i].0 <= doc.next_net_serial,
{
    assert forall|i: int| #![trigger flat.nets@[i]] 0 <= i < flat.nets@.len() && flat.nets@[i].0
        != 0 implies exists|r: int|
        0 <= r < doc.nets@.len() && (#[trigger] doc.nets@[r]).id == NetId(flat.nets@[i].0)
            && doc.nets@[r].name@ == flat.nets@[i].1@ by {
        assert(table_has(flat.nets@, flat.nets@[i].0, flat.nets@[i].1@));
        assert(records_have(doc.nets@, flat.nets@[i].0, flat.nets@[i].1@));
    }
    assert forall|r: int| #![trigger doc.nets@[r]] 0 <= r < doc.nets@.len() implies doc.nets@[r].id.0
        != 0 && exists|i: int|
        0 <= i < flat.nets@.len() && NetId((#[trigger] flat.nets@[i]).0) == doc.nets@[r].id
            && flat.nets@[i].1@ == doc.nets@[r].name@ by {
        assert(records_have(doc.nets@, doc.nets@[r].id.0, doc.nets@[r].name@));
        assert(table_has(flat.nets@, doc.nets@[r].id.0, doc.nets@[r].name@));
    }
    assert forall|i: int| #![trigger flat.nets@[i]] 0 <= i < flat.nets@.len() implies flat.nets@[i].0
        <= doc.next_net_serial by {
        lemma_largest_net(flat.nets@, i);
    }
}

proof fn lemma_largest_net(nets: Seq<(u32, String)>, i: int)
    requires
        0 <= i < nets.len(),
    ensures
        nets[i].0 <= largest_net(nets),
    decreases nets.len(),
{
    if i < nets.len() - 1 {
        assert(nets.drop_last()[i] == nets[i]);
        lemma_largest_net(nets.drop_last(), i);
    }
}

/// Copper uses the back if it lies there or goes through: a pad on the back or
/// with a drill, a track or a pour on the back, a via or a hole.
pub proof fn law_what_uses_the_back(entries: Seq<Entry>)
    ensures
        back_used(entries) <==> exists|i: int|
            0 <= i < entries.len() && match (#[trigger] entries[i]).item {
                Item::Pad { layer, hole_diameter, .. } => layer == LayerId::BCu
                    || hole_diameter is Some,
                Item::Track { layer, .. } => layer == LayerId::BCu,
                Item::Zone { layer, .. } => layer == LayerId::BCu,
                Item::Via { .. } => true,
                Item::Hole { .. } => true,
            },
{
    if back_used(entries) {
        let i = choose|i: int| 0 <= i < entries.len() && uses_back((#[trigger] entries[i]).item);
        assert(entries[i] == entries[i]);
    }
}

/// The imported board has two layers exactly if something in the file is on
/// the back or goes through: a track, a pour or a pad there, or any via.
pub proof fn law_a_board_with_something_on_the_back_has_two_layers(
    doc: BoardDoc,
    flat: FlatBoard,
    footprints: Seq<ImportedFootprint>,
)
    requires
        is_base_board(doc, flat, footprints),
    ensures
        doc.layer_count == LayerCount::Two <==> {
            ||| exists|i: int|
                #![trigger flat.items@[i]]
                0 <= i < flat.items@.len() && match flat.items@[i] {
                    Item::Track { layer, .. } => layer == LayerId::BCu,
                    Item::Zone { layer, .. } => layer == LayerId::BCu,
                    Item::Via { .. } => true,
                    _ => false,
                }
            ||| exists|f: int, k: int|
                0 <= f < footprints.len() && 0 <= k < footprints[f].pads@.len() && (
                #[trigger] footprints[f].pads@[k]).layer == LayerId::BCu
        },
{
    let entries = doc.node.entries@;
    lemma_only_loose(flat.items@);
    if exists|i: int|
        #![trigger flat.items@[i]]
        0 <= i < flat.items@.len() && match flat.items@[i] {
            Item::Track { layer, .. } => layer == LayerId::BCu,
            Item::Zone { layer, .. } => layer == LayerId::BCu,
            Item::Via { .. } => true,
            _ => false,
        } {
        let i = choose|i: int|
            #![trigger flat.items@[i]]
            0 <= i < flat.items@.len() && match flat.items@[i] {
                Item::Track { layer, .. } => layer == LayerId::BCu,
                Item::Zone { layer, .. } => layer == LayerId::BCu,
                Item::Via { .. } => true,
                _ => false,
            };
        law_loose_copper_is_kept(doc, flat, footprints, i);
        let k = copper_before(flat.items@, i);
        assert(uses_back(entries[k].item));
    }
    if exists|f: int, k: int|
        0 <= f < footprints.len() && 0 <= k < footprints[f].pads@.len() && (
        #[trigger] footprints[f].pads@[k]).layer == LayerId::BCu {
        let (f, k) = choose|f: int, k: int|
            0 <= f < footprints.len() && 0 <= k < footprints[f].pads@.len() && (
            #[trigger] footprints[f].pads@[k]).layer == LayerId::BCu;
        assert(has_back_pad(footprints[f]));
    }
    if exists|e: int| 0 <= e < entries.len() && uses_back((#[trigger] entries[e]).item) {
        let e = choose|e: int| 0 <= e < entries.len() && uses_back((#[trigger] entries[e]).item);
        assert(entries[e].item == loose_items(flat.items@)[e]);
        lemma_loose_from(flat.items@, e);
        let i = choose|i: int|
            0 <= i < flat.items@.len() && #[trigger] flat.items@[i] == loose_items(flat.items@)[e];
        assert(is_loose_copper(entries[e].item));
        assert(flat.items@[i] == entries[e].item);
    }
    if exists|f: int| 0 <= f < footprints.len() && #[trigger] has_back_pad(footprints[f]) {
        let f = choose|f: int| 0 <= f < footprints.len() && #[trigger] has_back_pad(footprints[f]);
        let k = choose|k: int|
            0 <= k < footprints[f].pads@.len() && (#[trigger] footprints[f].pads@[k]).layer
                == LayerId::BCu;
        assert(footprints[f].pads@[k].layer == LayerId::BCu);
    }
}

proof fn lemma_loose_from(items: Seq<Item>, e: int)
    requires
        0 <= e < loose_items(items).len(),
    ensures
        exists|i: int| 0 <= i < items.len() && #[trigger] items[i] == loose_items(items)[e],
    decreases items.len(),
{
    let init = items.drop_last();
    let rest = loose_items(init);
    if e < rest.len() {
        lemma_loose_from(init, e);
        let i = choose|i: int| 0 <= i < init.len() && #[trigger] init[i] == rest[e];
        assert(items[i] == loose_items(items)[e]);
    } else {
        assert(items[items.len() - 1] == loose_items(items)[e]);
    }
}

/// An imported template has a pad for each pad of the footprint, with its
/// number, place, side, drill and shape, and half the shorter side for its
/// radius; its holes are those of the footprint; and it stays off the bill of
/// materials if it has holes and no pad.
pub proof fn law_an_imported_template_is_its_footprint(
    t: FootprintTemplate,
    fp: ImportedFootprint,
    index: int,
    label: Seq<char>,
    k: int,
)
    requires
        is_template_read(t, fp, index, label),
    ensures
        t.pads@.len() == fp.pads@.len(),
        t.holes@ == fp.holes@,
        t.exclude_from_bom <==> fp.holes@.len() > 0 && fp.pads@.len() == 0,
        t.explicit_courtyard is None,
        0 <= k < fp.pads@.len() ==> {
            let pad = t.pads@[k];
            let read = fp.pads@[k];
            &&& pad.number@ == read.number@
            &&& pad.offset == read.offset
            &&& pad.layer == read.layer
            &&& pad.rotation_deg == read.rotation_deg
            &&& pad.hole_diameter == read.drill
            &&& match read.shape {
                WritePadShape::Circle { diameter } => pad.shape == PadShapeKind::Circle && (
                diameter >= 2 ==> 2 * pad.radius == diameter || 2 * pad.radius + 1 == diameter),
                WritePadShape::Rect { width, height } => pad.shape == (PadShapeKind::Rect {
                    width,
                    height,
                }),
                WritePadShape::Oval { width, height } => pad.shape == (PadShapeKind::Oval {
                    width,
                    height,
                }),
            }
            &&& match read.shape {
                WritePadShape::Circle { .. } => true,
                WritePadShape::Rect { width, height } => width >= 2 && height >= 2 ==> 2
                    * pad.radius <= width && 2 * pad.radius <= height && (2 * pad.radius >= width
                    - 1 || 2 * pad.radius >= height - 1),
                WritePadShape::Oval { width, height } => width >= 2 && height >= 2 ==> 2
                    * pad.radius <= width && 2 * pad.radius <= height && (2 * pad.radius >= width
                    - 1 || 2 * pad.radius >= height - 1),
            }
            &&& pad.radius >= 1
            &&& pad.zone_connection == ZoneConnection::Thermal
            &&& pad.pin_name is None
        },
{
    if 0 <= k < fp.pads@.len() {
        assert(crate::kicad_import::is_pad_read(t.pads@[k], fp.pads@[k]));
    }
}

/// A reference's prefix is the letters in front of it, and `P` where there are
/// none.
pub proof fn law_a_prefix_is_the_letters_in_front(letters: Seq<char>, rest: Seq<char>)
    requires
        forall|i: int|
            0 <= i < letters.len() ==> ('A' <= #[trigger] letters[i] && letters[i] <= 'Z') || ('a'
                <= letters[i] && letters[i] <= 'z'),
        rest.len() > 0 ==> !('A' <= rest[0] && rest[0] <= 'Z') && !('a' <= rest[0] && rest[0]
            <= 'z'),
    ensures
        prefix_of(letters + rest) == if letters.len() > 0 {
            letters
        } else {
            seq!['P']
        },
{
    reveal_strlit("P");
    assert("P"@ =~= seq!['P']);
    lemma_letters(letters, rest);
}

proof fn lemma_letters(letters: Seq<char>, rest: Seq<char>)
    requires
        forall|i: int| 0 <= i < letters.len() ==> is_letter(#[trigger] letters[i]),
        rest.len() > 0 ==> !is_letter(rest[0]),
    ensures
        leading_letters(letters + rest) == letters,
    decreases letters.len(),
{
    let s = letters + rest;
    if letters.len() > 0 {
        let tail = letters.drop_first();
        assert(s.drop_first() =~= tail + rest);
        assert(s[0] == letters[0]);
        assert forall|i: int| 0 <= i < tail.len() implies is_letter(#[trigger] tail[i]) by {
            assert(tail[i] == letters[i + 1]);
        }
        lemma_letters(tail, rest);
        assert(seq![s[0]] + tail =~= letters);
    } else {
        assert(s =~= rest);
    }
}

/// An imported footprint is named after its reference and, in brackets, the
/// board it comes from; without a reference it is numbered, from one.
pub proof fn law_an_imported_name_tells_where_it_comes_from(
    reference: Seq<char>,
    index: int,
    label: Seq<char>,
)
    requires
        0 <= index,
    ensures
        ({
            let imported = seq!['I', 'm', 'p', 'o', 'r', 't', 'e', 'd'];
            let of = if label.len() > 0 {
                seq![' ', '['] + label + seq![']']
            } else {
                Seq::empty()
            };
            template_text(reference, index, label) == if reference.len() > 0 {
                imported + of + seq![':', ' '] + reference
            } else {
                imported + of + seq![' ', 'f', 'o', 'o', 't', 'p', 'r', 'i', 'n', 't', ' ', '#']
                    + decimal((index + 1) as nat)
            }
        }),
{
    reveal_strlit("Imported footprint #");
    reveal_strlit("Imported [");
    reveal_strlit("] footprint #");
    reveal_strlit("Imported: ");
    reveal_strlit("]: ");
    let imported = seq!['I', 'm', 'p', 'o', 'r', 't', 'e', 'd'];
    let of = if label.len() > 0 {
        seq![' ', '['] + label + seq![']']
    } else {
        Seq::empty()
    };
    if reference.len() > 0 {
        assert(template_text(reference, index, label) =~= imported + of + seq![':', ' '] + reference);
    } else {
        assert(template_text(reference, index, label) =~= imported + of + seq![
            ' ',
            'f',
            'o',
            'o',
            't',
            'p',
            'r',
            'i',
            'n',
            't',
            ' ',
            '#',
        ] + decimal((index + 1) as nat));
    }
}

} // verus!
