//! What the commands that drive a board from outside do: which of them need
//! leave to write, what they find by name, and what they refuse.

use vstd::prelude::*;

use crate::board_doc::{BoardDoc, NetRecord, PlacedFootprint};
use crate::cli::{flag_place, name_of, pin_of, track_count, via_count};
use crate::footprint::FootprintTemplate;
use crate::geom::Unit;
use crate::item::{Entry, Item};
use crate::json::{member, member_from, member_items, member_text, JsonShape};
use crate::mcp::{reply_text, Reply, Tool};
use crate::mcp_placement::{
    first_unknown, first_unmovable, known_part, move_problem, move_step, place_problem,
    probe_target, search_for, size_problem, MovePartSpec, PlacePartSpec, ProbePlacementArgs,
};
use crate::part_laws::{
    law_a_pad_is_found_by_its_number, law_a_part_is_found_by_its_reference,
    law_a_template_is_found_by_its_name,
};
use crate::parts::{pad_numbered, part_named, template_named};

verus! {

/// The tools that change the board or the parts library are those that need
/// leave to write; those that only look at them do not.
pub proof fn law_which_tools_write(tool: Tool)
    ensures
        tool.only_reads() <==> tool == Tool::GetNets || tool == Tool::GetFootprints || tool
            == Tool::BoardSummary || tool == Tool::ListParts || tool == Tool::CheckBoard || tool
            == Tool::GetRoutingScene || tool == Tool::ProbeRoute,
        !tool.only_reads() <==> tool == Tool::DownloadLcscPart || tool == Tool::ConnectPins || tool
            == Tool::SaveBoard || tool == Tool::PlaceFootprint || tool == Tool::MoveFootprint
            || tool == Tool::RemoveFootprint || tool == Tool::DisconnectPin || tool
            == Tool::AddPinStitchingVia || tool == Tool::RenameNet || tool == Tool::NewBoard || tool
            == Tool::CommitRoute || tool == Tool::RipupWire,
{
}

/// Tools that look at the whole board or search on it get twenty seconds, all
/// others three.
pub proof fn law_how_long_a_tool_may_take(tool: Tool)
    ensures
        tool.patience() == if tool == Tool::BoardSummary || tool == Tool::CheckBoard || tool
            == Tool::AddPinStitchingVia || tool == Tool::GetRoutingScene || tool
            == Tool::ProbeRoute {
            20
        } else {
            3u64
        },
{
}

/// An answer is handed on as it is; without one an error is told.
pub proof fn law_an_answer_is_handed_on(reply: Reply, seconds: u64)
    ensures
        match reply {
            Reply::Answered(text) => reply_text(reply, seconds) == text@,
            _ => reply_text(reply, seconds).len() > 7 && reply_text(reply, seconds).take(7) == seq![
                'e',
                'r',
                'r',
                'o',
                'r',
                ':',
                ' ',
            ],
        },
{
    reveal_strlit("error: the alladin-pcb GUI's editor thread is gone");
    reveal_strlit("error: the alladin-pcb GUI dropped the request without answering");
    reveal_strlit("error: no reply within ");
    reveal_strlit("error: the LCSC download thread ended unexpectedly");
    match reply {
        Reply::Answered(_) => {},
        _ => {
            assert(reply_text(reply, seconds).take(7) =~= seq!['e', 'r', 'r', 'o', 'r', ':', ' ']);
        },
    }
}

/// A search goes as far and in such steps as asked for, but no farther than
/// ten millimetres and in steps of no less than a quarter of one; half a
/// millimetre if no step is asked for. Without a radius there is none.
pub proof fn law_how_far_a_search_goes(radius: Option<Unit>, step: Option<Unit>)
    ensures
        ({
            let s = search_for(radius, step);
            &&& radius is None <==> s.radius is None
            &&& s.radius matches Some(r) ==> 0 <= r <= 10_000_000
            &&& radius matches Some(r) ==> 0 <= r <= 10_000_000 ==> s.radius == Some(r)
            &&& radius matches Some(r) ==> r > 10_000_000 ==> s.radius == Some(10_000_000i64)
            &&& radius matches Some(r) ==> r < 0 ==> s.radius == Some(0i64)
            &&& s.step matches Some(t) ==> t >= 250_000
            &&& step matches Some(t) ==> t >= 250_000 ==> s.step == Some(t)
            &&& step matches Some(t) ==> t < 250_000 ==> s.step == Some(250_000i64)
            &&& step is None && radius is Some ==> s.step == Some(500_000i64)
            &&& step is None && radius is None ==> s.step is None
        }),
{
}

/// A probe of a part on the board is one of moving it, turned as it stands
/// unless asked otherwise; without a reference it is one of placing a new part
/// of the template named, not turned unless asked for.
pub proof fn law_what_a_probe_is_about(
    parts: Seq<PlacedFootprint>,
    templates: Seq<FootprintTemplate>,
    args: ProbePlacementArgs,
)
    requires
        templates.len() <= usize::MAX,
    ensures
        ({
            let r = probe_target(parts, templates, args);
            &&& args.reference is None && args.template is None ==> r is Err
            &&& r matches Ok(target) ==> {
                &&& 0 <= target.template < templates.len()
                &&& args.rotation_deg matches Some(a) ==> target.rotation_deg == a
                &&& args.reference matches Some(reference) ==> exists|f: int|
                    0 <= f < parts.len() && (#[trigger] parts[f]).reference@ == reference@
                        && target.moving == Some(parts[f].id)
                        && templates[target.template as int].name@ == parts[f].template_name@ && (
                    args.rotation_deg is None ==> target.rotation_deg == parts[f].rotation_deg)
                &&& args.reference is None ==> args.template is Some && target.moving is None
                    && templates[target.template as int].name@ == args.template->0@ && (
                args.rotation_deg is None ==> target.rotation_deg.bits == 0)
            }
            &&& args.reference matches Some(reference) ==> (r is Err ==> forall|f: int|
                0 <= f < parts.len() && (#[trigger] parts[f]).reference@ == reference@ && (
                forall|g: int| 0 <= g < f ==> (#[trigger] parts[g]).reference@ != reference@)
                    ==> forall|t: int|
                    0 <= t < templates.len() ==> (#[trigger] templates[t]).name@
                        != parts[f].template_name@)
            &&& args.reference is None ==> (args.template matches Some(name) ==> (r is Err
                <==> forall|t: int|
                0 <= t < templates.len() ==> (#[trigger] templates[t]).name@ != name@))
        }),
{
    if let Some(reference) = args.reference {
        law_a_part_is_found_by_its_reference(parts, reference@);
        if let Some(k) = part_named(parts, reference@) {
            law_a_template_is_found_by_its_name(templates, parts[k].template_name@);
            assert(parts[k].reference@ == reference@);
            assert forall|f: int|
                0 <= f < parts.len() && (#[trigger] parts[f]).reference@ == reference@ && (forall|
                    g: int,
                |
                    0 <= g < f ==> (#[trigger] parts[g]).reference@ != reference@) implies f == k by {
                if k < f {
                    assert(parts[k].reference@ != reference@);
                }
                if f < k {
                    assert(parts[f].reference@ != reference@);
                }
            }
        }
    } else if let Some(name) = args.template {
        law_a_template_is_found_by_its_name(templates, name@);
    }
}

/// A batch holds one to fifty parts.
pub proof fn law_how_many_parts_a_batch_holds(count: nat)
    ensures
        size_problem(count) is None <==> 1 <= count <= 50,
{
}

/// A batch of new parts is in order exactly if it is neither empty nor too
/// long and every template in it is known.
pub proof fn law_when_a_batch_can_be_placed(
    templates: Seq<FootprintTemplate>,
    parts: Seq<PlacePartSpec>,
)
    ensures
        place_problem(templates, parts) is None <==> 1 <= parts.len() <= 50 && forall|i: int|
            0 <= i < parts.len() ==> exists|t: int|
                0 <= t < templates.len() && (#[trigger] templates[t]).name@ == (
                #[trigger] parts[i]).template@,
{
    lemma_first_unknown(templates, parts);
}

proof fn lemma_first_unknown(templates: Seq<FootprintTemplate>, parts: Seq<PlacePartSpec>)
    ensures
        first_unknown(templates, parts) is None <==> forall|i: int|
            0 <= i < parts.len() ==> exists|t: int|
                0 <= t < templates.len() && (#[trigger] templates[t]).name@ == (
                #[trigger] parts[i]).template@,
    decreases parts.len(),
{
    if parts.len() > 0 {
        let init = parts.drop_last();
        lemma_first_unknown(templates, init);
        law_a_template_is_found_by_its_name(templates, parts.last().template@);
        assert(parts[parts.len() - 1] == parts.last());
        if template_named(templates, parts.last().template@) is Some {
            let t = template_named(templates, parts.last().template@)->0;
            assert(templates[t].name@ == parts.last().template@);
        }
        if forall|i: int|
            0 <= i < init.len() ==> exists|t: int|
                0 <= t < templates.len() && (#[trigger] templates[t]).name@ == (
                #[trigger] init[i]).template@ {
            assert forall|i: int| 0 <= i < parts.len() - 1 implies exists|t: int|
                0 <= t < templates.len() && (#[trigger] templates[t]).name@ == (
                #[trigger] parts[i]).template@ by {
                assert(init[i] == parts[i]);
            }
        }
        if forall|i: int|
            0 <= i < parts.len() ==> exists|t: int|
                0 <= t < templates.len() && (#[trigger] templates[t]).name@ == (
                #[trigger] parts[i]).template@ {
            assert forall|i: int| 0 <= i < init.len() implies exists|t: int|
                0 <= t < templates.len() && (#[trigger] templates[t]).name@ == (
                #[trigger] init[i]).template@ by {
                assert(init[i] == parts[i]);
            }
            assert(parts[parts.len() - 1].template@ == parts.last().template@);
        }
    }
}

/// A batch of moves is in order exactly if it is neither empty nor too long
/// and every part in it is known; a part keeps its turn unless asked otherwise
/// and goes where it was asked to.
pub proof fn law_when_a_batch_can_be_moved(
    on_board: Seq<PlacedFootprint>,
    templates: Seq<FootprintTemplate>,
    parts: Seq<MovePartSpec>,
    i: int,
)
    requires
        templates.len() <= usize::MAX,
    ensures
        move_problem(on_board, templates, parts) is None ==> 1 <= parts.len() <= 50,
        1 <= parts.len() <= 50 ==> (move_problem(on_board, templates, parts) is None <==> forall|
            j: int,
        |
            0 <= j < parts.len() ==> known_part(
                on_board,
                templates,
                (#[trigger] parts[j]).reference@,
            ) is Ok),
        move_problem(on_board, templates, parts) is None && 0 <= i < parts.len() ==> {
            let step = move_step(on_board, templates, parts[i]);
            &&& step.position == parts[i].position
            &&& parts[i].rotation_deg matches Some(a) ==> step.rotation_deg == a
            &&& exists|f: int|
                0 <= f < on_board.len() && (#[trigger] on_board[f]).reference@
                    == parts[i].reference@ && step.id == on_board[f].id && (
                parts[i].rotation_deg is None ==> step.rotation_deg == on_board[f].rotation_deg)
                    && step.template < templates.len() && templates[step.template as int].name@
                    == on_board[f].template_name@
        },
{
    lemma_first_unmovable(on_board, templates, parts);
    if move_problem(on_board, templates, parts) is None && 0 <= i < parts.len() {
        assert(known_part(on_board, templates, parts[i].reference@) is Ok);
        law_a_part_is_found_by_its_reference(on_board, parts[i].reference@);
        let k = part_named(on_board, parts[i].reference@)->0;
        law_a_template_is_found_by_its_name(templates, on_board[k].template_name@);
        assert(on_board[k].reference@ == parts[i].reference@);
    }
}

proof fn lemma_first_unmovable(
    on_board: Seq<PlacedFootprint>,
    templates: Seq<FootprintTemplate>,
    parts: Seq<MovePartSpec>,
)
    ensures
        first_unmovable(on_board, templates, parts) is None <==> forall|j: int|
            0 <= j < parts.len() ==> known_part(
                on_board,
                templates,
                (#[trigger] parts[j]).reference@,
            ) is Ok,
    decreases parts.len(),
{
    if parts.len() > 0 {
        let init = parts.drop_last();
        lemma_first_unmovable(on_board, templates, init);
        assert(parts[parts.len() - 1] == parts.last());
        if forall|j: int|
            0 <= j < init.len() ==> known_part(
                on_board,
                templates,
                (#[trigger] init[j]).reference@,
            ) is Ok {
            assert forall|j: int| 0 <= j < parts.len() - 1 implies known_part(
                on_board,
                templates,
                (#[trigger] parts[j]).reference@,
            ) is Ok by {
                assert(init[j] == parts[j]);
            }
        }
        if forall|j: int|
            0 <= j < parts.len() ==> known_part(
                on_board,
                templates,
                (#[trigger] parts[j]).reference@,
            ) is Ok {
            assert forall|j: int| 0 <= j < init.len() implies known_part(
                on_board,
                templates,
                (#[trigger] init[j]).reference@,
            ) is Ok by {
                assert(init[j] == parts[j]);
            }
            assert(known_part(
                on_board,
                templates,
                parts[parts.len() - 1].reference@,
            ) is Ok);
        }
    }
}

/// A part is known if the first one of its name on the board has a template
/// of its name in the library.
pub proof fn law_which_parts_are_known(
    parts: Seq<PlacedFootprint>,
    templates: Seq<FootprintTemplate>,
    reference: Seq<char>,
    f: int,
)
    requires
        0 <= f < parts.len(),
        parts[f].reference@ == reference,
        forall|g: int| 0 <= g < f ==> (#[trigger] parts[g]).reference@ != reference,
    ensures
        known_part(parts, templates, reference) is Ok <==> exists|t: int|
            0 <= t < templates.len() && (#[trigger] templates[t]).name@ == parts[f].template_name@,
        known_part(parts, templates, reference) matches Ok((k, t)) ==> k == f,
{
    law_a_part_is_found_by_its_reference(parts, reference);
    law_a_template_is_found_by_its_name(templates, parts[f].template_name@);
    let k = part_named(parts, reference)->0;
    if k < f {
        assert(parts[k].reference@ != reference);
    }
    if f < k {
        assert(parts[f].reference@ != reference);
    }
    if template_named(templates, parts[f].template_name@) is Some {
        let t = template_named(templates, parts[f].template_name@)->0;
        assert(templates[t].name@ == parts[f].template_name@);
    }
}

/// A pin named on the command line is found exactly if there is a part of that
/// name, its template is known, and that has a pad of that number; the item
/// found is the part's own, at the pad's place.
pub proof fn law_a_pin_is_found_by_name(
    doc: BoardDoc,
    templates: Seq<FootprintTemplate>,
    reference: Seq<char>,
    pin: Seq<char>,
    f: int,
    t: int,
)
    requires
        0 <= f < doc.footprints@.len(),
        doc.footprints@[f].reference@ == reference,
        forall|g: int| 0 <= g < f ==> (#[trigger] doc.footprints@[g]).reference@ != reference,
        0 <= t < templates.len(),
        templates[t].name@ == doc.footprints@[f].template_name@,
        forall|u: int| 0 <= u < t ==> (#[trigger] templates[u]).name@ != templates[t].name@,
    ensures
        pin_of(doc, templates, reference, pin) is Ok <==> exists|k: int|
            0 <= k < templates[t].pads@.len() && (#[trigger] templates[t].pads@[k]).number@ == pin,
        pin_of(doc, templates, reference, pin) matches Ok(id) ==> exists|k: int|
            0 <= k < templates[t].pads@.len() && (#[trigger] templates[t].pads@[k]).number@ == pin
                && id == doc.footprints@[f].pad_item_ids@[k],
{
    law_a_part_is_found_by_its_reference(doc.footprints@, reference);
    let g = part_named(doc.footprints@, reference)->0;
    if g < f {
        assert(doc.footprints@[g].reference@ != reference);
    }
    if f < g {
        assert(doc.footprints@[f].reference@ != reference);
    }
    law_a_template_is_found_by_its_name(templates, templates[t].name@);
    let u = template_named(templates, templates[t].name@)->0;
    if u < t {
        assert(templates[u].name@ != templates[t].name@);
    }
    if t < u {
        assert(templates[t].name@ != templates[t].name@);
    }
    law_a_pad_is_found_by_its_number(templates[t].pads@, pin);
    if let Some(k) = pad_numbered(templates[t].pads@, pin) {
        assert(templates[t].pads@[k].number@ == pin);
    }
}

/// No part of that name, no pin.
pub proof fn law_no_pin_without_a_part(
    doc: BoardDoc,
    templates: Seq<FootprintTemplate>,
    reference: Seq<char>,
    pin: Seq<char>,
)
    requires
        forall|f: int|
            0 <= f < doc.footprints@.len() ==> (#[trigger] doc.footprints@[f]).reference@
                != reference,
    ensures
        pin_of(doc, templates, reference, pin) is Err,
        doc.pad_of(templates, reference, pin) is None,
{
    law_a_part_is_found_by_its_reference(doc.footprints@, reference);
}

/// A net is called by the name of its record.
pub proof fn law_a_net_is_called_by_its_name(nets: Seq<NetRecord>, k: int)
    requires
        0 <= k < nets.len(),
        forall|j: int| 0 <= j < k ==> (#[trigger] nets[j]).id != nets[k].id,
    ensures
        name_of(nets, nets[k].id) == nets[k].name@,
    decreases nets.len(),
{
    if k > 0 {
        let rest = nets.drop_first();
        assert(nets[0].id != nets[k].id);
        assert forall|j: int| 0 <= j < k - 1 implies (#[trigger] rest[j]).id != rest[k - 1].id by {
            assert(rest[j] == nets[j + 1]);
        }
        law_a_net_is_called_by_its_name(rest, k - 1);
    }
}

/// The summary counts tracks and vias: each item adds one to its own count.
pub proof fn law_the_summary_counts_copper(entries: Seq<Entry>, last: Entry)
    ensures
        track_count(Seq::empty()) == 0,
        via_count(Seq::empty()) == 0,
        track_count(entries.push(last)) == track_count(entries) + match last.item {
            Item::Track { .. } => 1int,
            _ => 0,
        },
        via_count(entries.push(last)) == via_count(entries) + match last.item {
            Item::Via { .. } => 1int,
            _ => 0,
        },
{
    assert(entries.push(last).drop_last() =~= entries);
}

/// A flag is found where it first stands among the arguments.
pub proof fn law_a_flag_is_found_where_it_stands(args: Seq<Seq<char>>, name: Seq<char>)
    ensures
        match flag_place(args, name) {
            Some(k) => 0 <= k < args.len() && args[k] == name && forall|j: int|
                0 <= j < k ==> #[trigger] args[j] != name,
            None => !args.contains(name),
        },
    decreases args.len(),
{
    if args.len() > 0 {
        let rest = args.drop_first();
        law_a_flag_is_found_where_it_stands(rest, name);
        assert forall|j: int| 0 < j < args.len() implies #[trigger] args[j] == rest[j - 1] by {}
        if args.contains(name) && args[0] != name {
            let k = choose|k: int| 0 <= k < args.len() && args[k] == name;
            assert(rest[k - 1] == name);
        }
    }
}

/// A member of an object is the value of the first that has its name; only an
/// object has any.
pub proof fn law_a_member_is_found_by_its_name(shape: JsonShape, name: Seq<char>)
    ensures
        match shape {
            JsonShape::Object(members) => match member(shape, name) {
                Some(value) => exists|k: int|
                    0 <= k < members.len() && (#[trigger] members[k]).0 == name && members[k].1
                        == value && forall|j: int| 0 <= j < k ==> (#[trigger] members[j]).0 != name,
                None => forall|j: int| 0 <= j < members.len() ==> (#[trigger] members[j]).0 != name,
            },
            _ => member(shape, name) is None,
        },
        member_text(shape, name) == match member(shape, name) {
            Some(JsonShape::Text(t)) => Some(t),
            _ => None,
        },
        member_items(shape, name) == match member(shape, name) {
            Some(JsonShape::Array(items)) => Some(items),
            _ => None,
        },
{
    if let JsonShape::Object(members) = shape {
        lemma_member_from(members, name, 0);
    }
}

proof fn lemma_member_from(members: Seq<(Seq<char>, JsonShape)>, name: Seq<char>, from: int)
    requires
        0 <= from,
    ensures
        match member_from(members, name, from) {
            Some(k) => from <= k < members.len() && members[k].0 == name && forall|j: int|
                from <= j < k ==> (#[trigger] members[j]).0 != name,
            None => forall|j: int| from <= j < members.len() ==> (#[trigger] members[j]).0 != name,
        },
    decreases members.len() - from,
{
    if from < members.len() {
        lemma_member_from(members, name, from + 1);
    }
}

} // verus!
