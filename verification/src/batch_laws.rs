//! What becomes of the parts of a batch: each stands where its step puts it,
//! and a batch of moves is judged as one.

use vstd::prelude::*;

use crate::batch::{is_moving, is_placing, moved_ids, new_ids};
use crate::board_doc::BoardDoc;
use crate::dfm::FabRules;
use crate::footprint::{FootprintTemplate, PadTemplate};
use crate::geom::{Angle, Point};
use crate::matrix::{first_member_error, is_chain, is_step, member_error, MatrixProbe};
use crate::mcp_placement::{MoveStep, PlaceStep};
use crate::part_laws::{
    law_a_moved_part_stands_at_its_new_pose, law_a_new_part_stands_where_it_was_put,
    law_a_pad_is_found_by_its_number, law_a_part_is_found_by_its_id,
};
use crate::parts::{pad_numbered, part_at, TemplateVerdicts};
use crate::pins::{batch_nets, mapped_net, missing_pin};
use crate::placement::{PlacedShape, PlacementProbe};
use crate::text::decimal;

verus! {

/// Every part of a placed batch is on the board, at its own pose, as its own
/// template and under a reference of its own, after the parts that were there.
pub proof fn law_every_part_of_a_batch_is_placed(
    boards: Seq<BoardDoc>,
    templates: Seq<FootprintTemplate>,
    positions: Seq<Point>,
    rotations: Seq<Angle>,
    shapes: Seq<PlacedShape>,
    probes: Seq<PlacementProbe>,
    verdicts: Seq<TemplateVerdicts>,
    rules: FabRules,
    n: int,
    i: int,
)
    requires
        is_placing(boards, templates, positions, rotations, shapes, probes, verdicts, rules),
        0 <= i < n < boards.len(),
    ensures
        boards[n].footprints@.len() == boards[0].footprints@.len() + n,
        boards[n].next_footprint_serial == boards[0].next_footprint_serial + n,
        ({
            let fp = boards[n].footprints@[boards[0].footprints@.len() + i];
            &&& fp.position == positions[i]
            &&& fp.rotation_deg == rotations[i]
            &&& fp.template_name@ == templates[i].name@
            &&& fp.courtyard == shapes[i].courtyard
            &&& fp.assembly_drills == shapes[i].drills
            &&& fp.reference@ == templates[i].reference_prefix@ + decimal(
                (boards[0].next_footprint_serial + i + 1) as nat,
            )
            &&& boards[0].next_footprint_serial + n <= usize::MAX ==> fp.id.0
                == boards[0].next_footprint_serial + i + 1
        }),
    decreases n,
{
    let before = boards[n - 1];
    let after = boards[n];
    assert(boards[n - 1 + 1] == after);
    assert(is_step(
        before,
        after,
        templates[n - 1],
        positions[n - 1],
        rotations[n - 1],
        shapes[n - 1],
        probes[n - 1],
        verdicts[n - 1],
        rules,
    ));
    law_a_new_part_stands_where_it_was_put(
        before,
        after,
        templates[n - 1].name@,
        templates[n - 1].reference_prefix@ + decimal((before.next_footprint_serial + 1) as nat),
        positions[n - 1],
        rotations[n - 1],
        shapes[n - 1].items@,
        shapes[n - 1].courtyard,
        shapes[n - 1].drills,
    );
    if n > 1 {
        law_every_part_of_a_batch_is_placed(
            boards,
            templates,
            positions,
            rotations,
            shapes,
            probes,
            verdicts,
            rules,
            n - 1,
            if i < n - 1 {
                i
            } else {
                0
            },
        );
    }
    if i < n - 1 {
        let at = boards[0].footprints@.len() + i;
        assert(after.footprints@[at] == before.footprints@[at]);
    }
}

/// Every member of a matrix is on the board, at its own position, all turned
/// alike and of one template.
pub proof fn law_every_member_of_a_matrix_is_placed(
    boards: Seq<BoardDoc>,
    template: FootprintTemplate,
    positions: Seq<Point>,
    rotation_deg: Angle,
    shapes: Seq<PlacedShape>,
    probes: Seq<PlacementProbe>,
    verdicts: TemplateVerdicts,
    rules: FabRules,
    n: int,
    i: int,
)
    requires
        is_chain(boards, template, positions, rotation_deg, shapes, probes, verdicts, rules),
        0 <= i < n < boards.len(),
    ensures
        boards[n].footprints@.len() == boards[0].footprints@.len() + n,
        boards[n].next_footprint_serial == boards[0].next_footprint_serial + n,
        ({
            let fp = boards[n].footprints@[boards[0].footprints@.len() + i];
            &&& fp.position == positions[i]
            &&& fp.rotation_deg == rotation_deg
            &&& fp.template_name@ == template.name@
            &&& fp.courtyard == shapes[i].courtyard
            &&& fp.reference@ == template.reference_prefix@ + decimal(
                (boards[0].next_footprint_serial + i + 1) as nat,
            )
        }),
    decreases n,
{
    let before = boards[n - 1];
    let after = boards[n];
    assert(boards[n - 1 + 1] == after);
    assert(is_step(
        before,
        after,
        template,
        positions[n - 1],
        rotation_deg,
        shapes[n - 1],
        probes[n - 1],
        verdicts,
        rules,
    ));
    law_a_new_part_stands_where_it_was_put(
        before,
        after,
        template.name@,
        template.reference_prefix@ + decimal((before.next_footprint_serial + 1) as nat),
        positions[n - 1],
        rotation_deg,
        shapes[n - 1].items@,
        shapes[n - 1].courtyard,
        shapes[n - 1].drills,
    );
    if n > 1 {
        law_every_member_of_a_matrix_is_placed(
            boards,
            template,
            positions,
            rotation_deg,
            shapes,
            probes,
            verdicts,
            rules,
            n - 1,
            if i < n - 1 {
                i
            } else {
                0
            },
        );
    }
    if i < n - 1 {
        let at = boards[0].footprints@.len() + i;
        assert(after.footprints@[at] == before.footprints@[at]);
    }
}

/// Each new part of a batch gets an id of its own, the next after those given
/// before.
pub proof fn law_new_parts_get_the_next_ids(serial: usize, count: nat, k: int)
    requires
        serial + count <= usize::MAX,
        0 <= k < count,
    ensures
        new_ids(serial, count).len() == count,
        new_ids(serial, count)[k].0 == serial + 1 + k,
{
}

/// After a batch of moves of different parts each stands at the pose that its
/// step asks for, and every part that is not in the batch where it stood.
pub proof fn law_every_part_of_a_batch_is_moved(
    boards: Seq<BoardDoc>,
    steps: Seq<MoveStep>,
    shapes: Seq<PlacedShape>,
    n: int,
    f: int,
)
    requires
        is_moving(boards, steps, shapes),
        0 <= n < boards.len(),
        n <= steps.len(),
        forall|k: int| #![trigger boards[k]] 0 <= k < boards.len() ==> boards[k].wf(),
        forall|k: int|
            #![trigger steps[k]]
            0 <= k < steps.len() ==> part_at(boards[0].footprints@, steps[k].id) is Some,
        forall|k: int, l: int|
            #![trigger steps[k], steps[l]]
            0 <= k < l < steps.len() ==> steps[k].id != steps[l].id,
        0 <= f < boards[0].footprints@.len(),
    ensures
        boards[n].footprints@.len() == boards[0].footprints@.len(),
        forall|g: int|
            #![trigger boards[n].footprints@[g]]
            0 <= g < boards[0].footprints@.len() ==> boards[n].footprints@[g].id
                == boards[0].footprints@[g].id,
        forall|k: int|
            #![trigger steps[k]]
            0 <= k < n && steps[k].id == boards[0].footprints@[f].id ==> {
                &&& boards[n].footprints@[f].position == steps[k].position
                &&& boards[n].footprints@[f].rotation_deg == steps[k].rotation_deg
                &&& boards[n].footprints@[f].courtyard == shapes[k].courtyard
            },
        (forall|k: int|
            #![trigger steps[k]]
            0 <= k < n ==> steps[k].id != boards[0].footprints@[f].id) ==> boards[n].footprints@[f]
            == boards[0].footprints@[f],
    decreases n,
{
    if n > 0 {
        let before = boards[n - 1];
        let after = boards[n];
        law_every_part_of_a_batch_is_moved(boards, steps, shapes, n - 1, f);
        assert(boards[n - 1 + 1] == after);
        assert(before.wf());
        let step = steps[n - 1];
        assert(after.has_moved_part(
            &before,
            step.id,
            step.position,
            step.rotation_deg,
            shapes[n - 1],
        ));
        law_a_part_is_found_by_its_id(boards[0].footprints@, step.id);
        law_a_part_is_found_by_its_id(before.footprints@, step.id);
        let g = part_at(boards[0].footprints@, step.id)->0;
        assert(before.footprints@[g].id == step.id);
        law_a_moved_part_stands_at_its_new_pose(
            before,
            after,
            g,
            step.position,
            step.rotation_deg,
            shapes[n - 1],
        );
        assert forall|h: int|
            #![trigger after.footprints@[h]]
            0 <= h < boards[0].footprints@.len() implies after.footprints@[h].id
            == boards[0].footprints@[h].id by {
            assert(before.footprints@[h].id == boards[0].footprints@[h].id);
        }
        if f != g {
            assert(after.footprints@[f] == before.footprints@[f]);
            assert(boards[0].footprints@[f].id != step.id) by {
                assert(boards[0].wf());
                if f < g {
                    assert(boards[0].footprints@[f].id != boards[0].footprints@[g].id);
                } else {
                    assert(boards[0].footprints@[g].id != boards[0].footprints@[f].id);
                }
            }
            assert forall|k: int|
                #![trigger steps[k]]
                0 <= k < n && steps[k].id == boards[0].footprints@[f].id implies {
                &&& after.footprints@[f].position == steps[k].position
                &&& after.footprints@[f].rotation_deg == steps[k].rotation_deg
                &&& after.footprints@[f].courtyard == shapes[k].courtyard
            } by {
                assert(k < n - 1);
            }
        } else {
            assert(steps[n - 1].id == boards[0].footprints@[f].id);
            assert forall|k: int|
                #![trigger steps[k]]
                0 <= k < n && steps[k].id == boards[0].footprints@[f].id implies k == n - 1 by {
                if k < n - 1 {
                    assert(steps[k].id != steps[n - 1].id);
                }
            }
        }
    }
}

/// A batch of moves is judged as one: each pose as if every part of the batch
/// were lifted off the board, and then the new poses against each other.
pub proof fn law_a_batch_of_moves_is_judged_as_one(
    doc: BoardDoc,
    templates: Seq<FootprintTemplate>,
    steps: Seq<MoveStep>,
    shapes: Seq<PlacedShape>,
    probes: Seq<PlacementProbe>,
    among: MatrixProbe,
    rules: FabRules,
)
    requires
        steps.len() == shapes.len(),
        among.bodies@.len() == shapes.len(),
        among.items@.len() == shapes.len(),
        forall|i: int|
            #![trigger shapes[i]]
            0 <= i < shapes.len() ==> among.bodies@[i]@.len() >= i && among.items@[i]@.len()
                == shapes[i].items@.len(),
    ensures
        ({
            let lifted = Seq::new(steps.len(), |k: int| steps[k].id);
            doc.move_verdict(templates, steps, shapes, probes, among, rules) is Ok <==> {
                &&& forall|i: int|
                    #![trigger steps[i]]
                    0 <= i < steps.len() ==> doc.placement_verdict(
                        templates[steps[i].template as int],
                        shapes[i],
                        probes[i],
                        rules,
                        lifted,
                    ) is Ok
                &&& forall|i: int, j: int|
                    0 <= j < i < shapes.len() ==> !#[trigger] among.bodies@[i]@[j]
                &&& forall|i: int, k: int|
                    0 <= i < shapes.len() && 0 <= k < shapes[i].items@.len()
                        ==> !#[trigger] among.items@[i]@[k]
            }
        }),
{
    let lifted = Seq::new(steps.len(), |k: int| steps[k].id);
    assert(moved_ids(steps) =~= lifted);
    let n = shapes.len() as int;
    lemma_first_move_error(doc, templates, steps, shapes, probes, rules, n);
    lemma_members(shapes, among, n);
    if first_member_error(shapes, among, n) is None {
        assert forall|i: int, j: int| 0 <= j < i < n implies !#[trigger] among.bodies@[i]@[j] by {
            assert(member_error(shapes, among, i) is None);
            assert(shapes[i] == shapes[i]);
            if among.bodies@[i]@[j] {
                assert(crate::placement::flag2(among.bodies@, i, j));
            }
        }
        assert forall|i: int, k: int| 0 <= i < n && 0 <= k < shapes[i].items@.len() implies
            !#[trigger] among.items@[i]@[k] by {
            assert(member_error(shapes, among, i) is None);
            if among.items@[i]@[k] {
                assert(crate::placement::flag2(among.items@, i, k));
            }
        }
    } else {
        let i = choose|i: int| 0 <= i < n && #[trigger] member_error(shapes, among, i) is Some;
        assert(shapes[i] == shapes[i]);
        if exists|j: int| 0 <= j < i && #[trigger] crate::placement::flag2(among.bodies@, i, j) {
            let j = choose|j: int|
                0 <= j < i && #[trigger] crate::placement::flag2(among.bodies@, i, j);
            assert(among.bodies@[i]@[j]);
        } else {
            let k = choose|k: int|
                0 <= k < shapes[i].items@.len() && #[trigger] crate::placement::flag2(
                    among.items@,
                    i,
                    k,
                );
            assert(among.items@[i]@[k]);
        }
    }
}

proof fn lemma_first_move_error(
    doc: BoardDoc,
    templates: Seq<FootprintTemplate>,
    steps: Seq<MoveStep>,
    shapes: Seq<PlacedShape>,
    probes: Seq<PlacementProbe>,
    rules: FabRules,
    n: int,
)
    requires
        0 <= n <= steps.len(),
    ensures
        doc.first_move_error(templates, steps, shapes, probes, rules, n) is None <==> forall|i: int|
            #![trigger steps[i]]
            0 <= i < n ==> doc.placement_verdict(
                templates[steps[i].template as int],
                shapes[i],
                probes[i],
                rules,
                moved_ids(steps),
            ) is Ok,
    decreases n,
{
    if n > 0 {
        lemma_first_move_error(doc, templates, steps, shapes, probes, rules, n - 1);
        assert(steps[n - 1] == steps[n - 1]);
    }
}

proof fn lemma_members(shapes: Seq<PlacedShape>, among: MatrixProbe, n: int)
    ensures
        match first_member_error(shapes, among, n) {
            Some(_) => exists|i: int| 0 <= i < n && #[trigger] member_error(shapes, among, i) is Some,
            None => forall|i: int| 0 <= i < n ==> #[trigger] member_error(shapes, among, i) is None,
        },
    decreases n,
{
    if n > 0 {
        lemma_members(shapes, among, n - 1);
    }
}

/// Every pin that a part names is there exactly if none is reported missing; a
/// pin that is reported is one that was named and is not there.
pub proof fn law_which_pins_are_missing(
    pads: Seq<PadTemplate>,
    pins: Seq<(Seq<char>, Seq<char>)>,
)
    ensures
        match missing_pin(pads, pins) {
            Some(pin) => (exists|j: int| 0 <= j < pins.len() && (#[trigger] pins[j]).0 == pin)
                && forall|k: int| 0 <= k < pads.len() ==> (#[trigger] pads[k]).number@ != pin,
            None => forall|j: int|
                0 <= j < pins.len() ==> exists|k: int|
                    0 <= k < pads.len() && (#[trigger] pads[k]).number@ == (#[trigger] pins[j]).0,
        },
    decreases pins.len(),
{
    if pins.len() > 0 {
        let init = pins.drop_last();
        let last = pins.last();
        law_which_pins_are_missing(pads, init);
        law_a_pad_is_found_by_its_number(pads, last.0);
        assert(pins[pins.len() - 1] == last);
        if missing_pin(pads, init) is Some {
            let pin = missing_pin(pads, init)->0;
            let j = choose|j: int| 0 <= j < init.len() && (#[trigger] init[j]).0 == pin;
            assert(pins[j] == init[j]);
        } else if pad_numbered(pads, last.0) is Some {
            assert forall|j: int| 0 <= j < pins.len() implies exists|k: int|
                0 <= k < pads.len() && (#[trigger] pads[k]).number@ == (#[trigger] pins[j]).0 by {
                if j < init.len() {
                    assert(init[j] == pins[j]);
                } else {
                    let k = pad_numbered(pads, last.0)->0;
                    assert(pads[k].number@ == pins[j].0);
                }
            }
        }
    }
}

/// A pad is on the net that the last pin naming it gives; a pad that no pin
/// names is on none.
pub proof fn law_a_pad_is_on_the_net_named_last(
    pads: Seq<PadTemplate>,
    pins: Seq<(Seq<char>, Seq<char>)>,
    k: int,
    j: int,
)
    requires
        0 <= k < pads.len(),
        forall|l: int| 0 <= l < k ==> (#[trigger] pads[l]).number@ != pads[k].number@,
    ensures
        0 <= j < pins.len() && pins[j].0 == pads[k].number@ && (forall|m: int|
            j < m < pins.len() ==> (#[trigger] pins[m]).0 != pads[k].number@) ==> mapped_net(
            pads,
            pins,
            k,
        ) == Some(pins[j].1),
        (forall|m: int| 0 <= m < pins.len() ==> (#[trigger] pins[m]).0 != pads[k].number@)
            ==> mapped_net(pads, pins, k) is None,
    decreases pins.len(),
{
    if pins.len() > 0 {
        let init = pins.drop_last();
        let last = pins.last();
        assert(pins[pins.len() - 1] == last);
        law_a_pad_is_found_by_its_number(pads, last.0);
        law_a_pad_is_on_the_net_named_last(pads, init, k, j);
        if let Some(p) = pad_numbered(pads, last.0) {
            if last.0 == pads[k].number@ {
                if p < k {
                    assert(pads[p].number@ != pads[k].number@);
                }
                if k < p {
                    assert(pads[k].number@ != last.0);
                }
            }
        }
        assert forall|m: int| 0 <= m < init.len() implies #[trigger] init[m] == pins[m] by {}
    }
}

/// The nets that a batch needs are all those that its pins name.
pub proof fn law_a_batch_needs_every_net_it_names(
    steps: Seq<PlaceStep>,
    i: int,
    j: int,
)
    requires
        0 <= i < steps.len(),
        0 <= j < steps[i].pins@.len(),
    ensures
        batch_nets(steps).contains(steps[i].pins@[j].1@),
    decreases steps.len(),
{
    let init = steps.drop_last();
    let rest = batch_nets(init);
    let all = batch_nets(steps);
    let name = steps[i].pins@[j].1@;
    if i < init.len() {
        assert(init[i] == steps[i]);
        law_a_batch_needs_every_net_it_names(init, i, j);
        let k = choose|k: int| 0 <= k < rest.len() && rest[k] == name;
        assert(all[k] == name);
    } else {
        assert(all[rest.len() + j] == name);
    }
}

} // verus!
