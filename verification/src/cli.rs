//! What the headless commands say: resolving pins by name, joining them, and
//! the listings of a board.

use vstd::prelude::*;

use crate::board_doc::{BoardDoc, LayerCount, NetRecord, NewBoardParams};
use crate::footprint::FootprintTemplate;
use crate::item::{replaced, with_net, Entry, Item, ItemId, NetId};
use crate::nets::{joined_net, net_created, pads_counted, NetError};
use crate::parts::{find_pad_number, find_template, pad_numbered, part_named, template_named};
use crate::text::{decimal, decimal_string, joined, same_text, strings_in};

verus! {

/// Every part whose template is known has a pad for each of the template's
/// pads.
pub open spec fn pads_match(doc: BoardDoc, templates: Seq<FootprintTemplate>) -> bool {
    forall|f: int|
        #![trigger doc.footprints@[f]]
        0 <= f < doc.footprints@.len() ==> (template_named(
            templates,
            doc.footprints@[f].template_name@,
        ) matches Some(t) ==> templates[t].pads@.len() <= doc.footprints@[f].pad_item_ids@.len())
}

/// The pad that a reference and a pin number stand for, or what is wrong with
/// them.
pub open spec fn pin_of(
    doc: BoardDoc,
    templates: Seq<FootprintTemplate>,
    reference: Seq<char>,
    pin: Seq<char>,
) -> Result<ItemId, Seq<char>> {
    match part_named(doc.footprints@, reference) {
        None => Err("no footprint with reference "@ + reference),
        Some(f) => match template_named(templates, doc.footprints@[f].template_name@) {
            None => Err("template missing for "@ + reference),
            Some(t) => match pad_numbered(templates[t].pads@, pin) {
                None => Err("no pin "@ + pin + " on "@ + reference),
                Some(k) => Ok(doc.footprints@[f].pad_item_ids@[k]),
            },
        },
    }
}

/// A result whose error is text.
pub open spec fn text_result<T>(r: Result<T, String>) -> Result<T, Seq<char>> {
    match r {
        Ok(v) => Ok(v),
        Err(e) => Err(e@),
    }
}

/// Resolves a pin by the part's reference and the pad's number.
pub fn find_pin(
    doc: &BoardDoc,
    templates: &[FootprintTemplate],
    reference: &str,
    pin: &str,
) -> (r: Result<ItemId, String>)
    requires
        pads_match(*doc, templates@),
    ensures
        text_result(r) == pin_of(*doc, templates@, reference@, pin@),
{
    let f: usize = match doc.reference_index(reference) {
        Some(f) => f,
        None => {
            return Err(joined("no footprint with reference ", reference));
        },
    };
    let t: usize = match find_template(templates, &doc.footprints[f].template_name) {
        Some(t) => t,
        None => {
            return Err(joined("template missing for ", reference));
        },
    };
    assert(templates@[t as int].pads@.len() <= doc.footprints@[f as int].pad_item_ids@.len());
    match find_pad_number(&templates[t].pads, pin) {
        Some(k) => Ok(doc.footprints[f].pad_item_ids[k]),
        None => {
            let mut e = joined("no pin ", pin);
            e.append(" on ");
            e.append(reference);
            Err(e)
        },
    }
}

/// Why a new board cannot be created; the editor makes two-layer boards only.
pub fn check_new_board(params: &NewBoardParams) -> (r: Result<(), String>)
    ensures
        r is Ok <==> params.width > 0 && params.height > 0 && params.corner_radius >= 0
            && params.corner_radius * 2 <= params.width && params.corner_radius * 2 <= params.height
            && params.layer_count == LayerCount::Two,
        r matches Err(e) ==> e@ == (if params.width > 0 && params.height > 0 && params.corner_radius
            >= 0 && params.corner_radius * 2 <= params.width && params.corner_radius * 2
            <= params.height {
            "only 2-layer boards are supported"@
        } else {
            "board dimensions/corner radius are not valid"@
        }),
{
    if !params.is_valid() {
        return Err("board dimensions/corner radius are not valid".to_owned());
    }
    if params.layer_count != LayerCount::Two {
        return Err("only 2-layer boards are supported".to_owned());
    }
    Ok(())
}

/// The name of a net, or a question mark.
pub open spec fn name_of(nets: Seq<NetRecord>, id: NetId) -> Seq<char>
    decreases nets.len(),
{
    if nets.len() == 0 {
        "?"@
    } else if nets[0].id == id {
        nets[0].name@
    } else {
        name_of(nets.drop_first(), id)
    }
}

fn find_name(nets: &[NetRecord], id: NetId) -> (r: String)
    ensures
        r@ == name_of(nets@, id),
{
    let mut i: usize = 0;
    assert(nets@.skip(0) =~= nets@);
    while i < nets.len()
        invariant
            i <= nets@.len(),
            name_of(nets@, id) == name_of(nets@.skip(i as int), id),
        decreases nets@.len() - i,
    {
        assert(nets@.skip(i as int)[0] == nets@[i as int]);
        assert(nets@.skip(i as int).drop_first() =~= nets@.skip(i + 1));
        if nets[i].id == id {
            return nets[i].name.clone();
        }
        i += 1;
    }
    "?".to_owned()
}

/// A pin as it is written: reference, dot, number.
pub open spec fn pin_text(reference: Seq<char>, pin: Seq<char>) -> Seq<char> {
    reference + "."@ + pin
}

/// Joins two pins given by reference and number, and says which net they are
/// on now; nothing changes if that fails.
pub fn connect_pins(
    doc: &mut BoardDoc,
    templates: &[FootprintTemplate],
    ref1: &str,
    pin1: &str,
    ref2: &str,
    pin2: &str,
) -> (r: Result<String, String>)
    requires
        old(doc).wf(),
        pads_match(*old(doc), templates@),
        old(doc).node.has_room_for(2),
        old(doc).next_net_serial < u32::MAX,
    ensures
        final(doc).wf(),
        r is Err ==> *final(doc) == *old(doc),
        match (
            pin_of(*old(doc), templates@, ref1@, pin1@),
            pin_of(*old(doc), templates@, ref2@, pin2@),
        ) {
            (Err(e), _) => text_result(r) == Err::<String, Seq<char>>(e),
            (Ok(_), Err(e)) => text_result(r) == Err::<String, Seq<char>>(e),
            (Ok(a), Ok(b)) => match (old(doc).pad_net_of(a), old(doc).pad_net_of(b)) {
                (Ok(na), Ok(nb)) => {
                    let fresh = NetId((old(doc).next_net_serial + 1) as u32);
                    match joined_net(na, nb, fresh) {
                        None => text_result(r) == Err::<String, Seq<char>>(
                            NetError::AlreadyOnDifferentNets.text(),
                        ),
                        Some(net) => {
                            &&& final(doc).pad_net_of(a) == Ok::<Option<NetId>, NetError>(Some(net))
                            &&& final(doc).pad_net_of(b) == Ok::<Option<NetId>, NetError>(Some(net))
                            &&& final(doc).node.entries@ == replaced(
                                replaced(
                                    old(doc).node.entries@,
                                    a,
                                    with_net(old(doc).node.item(a)->0, Some(net)),
                                ),
                                b,
                                with_net(old(doc).node.item(b)->0, Some(net)),
                            )
                            &&& final(doc).same_but_node_and_nets(old(doc))
                            &&& if na is None && nb is None {
                                &&& net_created(old(doc).nets@, final(doc).nets@, fresh.0)
                                &&& final(doc).next_net_serial == fresh.0
                            } else {
                                &&& final(doc).nets == old(doc).nets
                                &&& final(doc).next_net_serial == old(doc).next_net_serial
                            }
                            &&& final(doc).node.next == old(doc).node.next
                            &&& final(doc).node.revision == old(doc).node.revision + 2
                            &&& r matches Ok(s) && s@ == "connected "@ + pin_text(ref1@, pin1@)
                                + " -- "@ + pin_text(ref2@, pin2@) + " on "@ + name_of(
                                final(doc).nets@,
                                net,
                            )
                        },
                    }
                },
                _ => text_result(r) == Err::<String, Seq<char>>(NetError::NotAPad.text()),
            },
        },
{
    let a = match find_pin(doc, templates, ref1, pin1) {
        Ok(id) => id,
        Err(e) => {
            return Err(e);
        },
    };
    let b = match find_pin(doc, templates, ref2, pin2) {
        Ok(id) => id,
        Err(e) => {
            return Err(e);
        },
    };
    let net = match doc.connect_pads(a, b) {
        Ok(net) => net,
        Err(e) => {
            return Err(e.message());
        },
    };
    let name = find_name(&doc.nets, net);
    let mut s = joined("connected ", ref1);
    s.append(".");
    s.append(pin1);
    s.append(" -- ");
    s.append(ref2);
    s.append(".");
    s.append(pin2);
    s.append(" on ");
    s.append(&name);
    assert(s@ =~= "connected "@ + pin_text(ref1@, pin1@) + " -- "@ + pin_text(ref2@, pin2@)
        + " on "@ + name@);
    Ok(s)
}

/// The line about one net: its name, its number, and how many pads are on it.
pub open spec fn net_line(net: NetRecord, entries: Seq<Entry>) -> Seq<char> {
    net.name@ + " (id "@ + decimal(net.id.0 as nat) + ") pads="@ + decimal(
        pads_counted(entries, net.id),
    )
}

/// Lists the nets of a board.
pub fn list_nets(doc: &BoardDoc) -> (lines: Vec<String>)
    ensures
        strings_in(lines@) == doc.nets@.map_values(
            |net: NetRecord| net_line(net, doc.node.entries@),
        ),
{
    let ghost line_of = |net: NetRecord| net_line(net, doc.node.entries@);
    let mut lines: Vec<String> = Vec::new();
    let mut i: usize = 0;
    while i < doc.nets.len()
        invariant
            i <= doc.nets@.len(),
            lines@.len() == i,
            forall|k: int|
                #![trigger lines@[k]]
                0 <= k < i ==> lines@[k]@ == net_line(doc.nets@[k], doc.node.entries@),
        decreases doc.nets@.len() - i,
    {
        let net = &doc.nets[i];
        let count: usize = doc.pad_count_on_net(net.id);
        let mut line = joined(&net.name, " (id ");
        let number = decimal_string(net.id.0 as u64);
        line.append(&number);
        line.append(") pads=");
        let pads = decimal_string(count as u64);
        line.append(&pads);
        lines.push(line);
        i += 1;
    }
    assert(strings_in(lines@) =~= doc.nets@.map_values(line_of));
    lines
}

/// How many tracks there are.
pub open spec fn track_count(entries: Seq<Entry>) -> nat
    decreases entries.len(),
{
    if entries.len() == 0 {
        0
    } else {
        track_count(entries.drop_last()) + if entries.last().item is Track {
            1nat
        } else {
            0
        }
    }
}

/// How many vias there are.
pub open spec fn via_count(entries: Seq<Entry>) -> nat
    decreases entries.len(),
{
    if entries.len() == 0 {
        0
    } else {
        via_count(entries.drop_last()) + if entries.last().item is Via {
            1nat
        } else {
            0
        }
    }
}

/// The one-line summary of a board.
pub open spec fn summary_text(doc: BoardDoc) -> Seq<char> {
    "footprints="@ + decimal(doc.footprints@.len()) + " nets="@ + decimal(doc.nets@.len())
        + " tracks="@ + decimal(track_count(doc.node.entries@)) + " vias="@ + decimal(
        via_count(doc.node.entries@),
    ) + " zones="@ + decimal(doc.zones@.len())
}

/// Summarises a board in one line.
pub fn board_summary(doc: &BoardDoc) -> (s: String)
    ensures
        s@ == summary_text(*doc),
{
    let ghost entries = doc.node.entries@;
    let mut tracks: u64 = 0;
    let mut vias: u64 = 0;
    let mut i: usize = 0;
    while i < doc.node.entries.len()
        invariant
            entries == doc.node.entries@,
            i <= entries.len(),
            tracks <= i,
            vias <= i,
            tracks == track_count(entries.take(i as int)),
            vias == via_count(entries.take(i as int)),
        decreases entries.len() - i,
    {
        assert(entries.take(i + 1).drop_last() =~= entries.take(i as int));
        assert(entries.take(i + 1).last() == entries[i as int]);
        match &doc.node.entries[i].item {
            Item::Track { .. } => {
                tracks += 1;
            },
            Item::Via { .. } => {
                vias += 1;
            },
            _ => {},
        }
        i += 1;
    }
    assert(entries.take(i as int) =~= entries);
    let mut s = "footprints=".to_owned();
    let footprints = decimal_string(doc.footprints.len() as u64);
    s.append(&footprints);
    s.append(" nets=");
    let nets = decimal_string(doc.nets.len() as u64);
    s.append(&nets);
    s.append(" tracks=");
    let tracks = decimal_string(tracks);
    s.append(&tracks);
    s.append(" vias=");
    let vias = decimal_string(vias);
    s.append(&vias);
    s.append(" zones=");
    let zones = decimal_string(doc.zones.len() as u64);
    s.append(&zones);
    s
}

/// Where a flag first stands among some arguments.
pub open spec fn flag_place(args: Seq<Seq<char>>, name: Seq<char>) -> Option<int>
    decreases args.len(),
{
    if args.len() == 0 {
        None
    } else if args[0] == name {
        Some(0)
    } else {
        match flag_place(args.drop_first(), name) {
            Some(k) => Some(k + 1),
            None => None,
        }
    }
}

/// Takes the first occurrence of a flag out of some arguments; says whether
/// there was one.
pub fn take_flag(args: &mut Vec<String>, name: &str) -> (r: bool)
    ensures
        match flag_place(strings_in(old(args)@), name@) {
            Some(k) => r && final(args)@ == old(args)@.remove(k),
            None => !r && *final(args) == *old(args),
        },
{
    let ghost all = strings_in(args@);
    let mut i: usize = 0;
    assert(all.skip(0) =~= all);
    while i < args.len()
        invariant
            *args == *old(args),
            all == strings_in(args@),
            i <= args@.len(),
            flag_place(all, name@) == (match flag_place(all.skip(i as int), name@) {
                Some(k) => Some(k + i),
                None => None,
            }),
        decreases args@.len() - i,
    {
        assert(all.skip(i as int)[0] == args@[i as int]@);
        assert(all.skip(i as int).drop_first() =~= all.skip(i + 1));
        if same_text(&args[i], name) {
            args.remove(i);
            return true;
        }
        i += 1;
    }
    false
}

} // verus!
