//! Batches: several parts placed or moved as one indivisible step.

use vstd::prelude::*;

use crate::board_doc::{BoardDoc, FootprintId, PlacedFootprint};
use crate::dfm::FabRules;
use crate::footprint::FootprintTemplate;
use crate::geom::{Angle, Point};
use crate::item::{Entry, ItemId};
use crate::matrix::{
    first_member_error, first_member_failure, is_step, item_total, lemma_item_total_grows,
    reversed, MatrixProbe,
};
use crate::mcp_placement::{MoveStep, PlaceStep};
use crate::nets::{fresh_names, net_named, nets_added};
use crate::parts::{
    is_moved_part, lemma_moved_len, pads_in, part_at, parts_only, pose_fits, TemplateVerdicts,
};
use crate::pins::{
    all_wired, batch_nets, find_missing_pin, first_missing_pin, lemma_mapped_nets_are_known,
    lemma_part_is_joined, mapped_net,
};
use crate::placement::{PlacedShape, PlacementError, PlacementProbe};
use crate::text::{joined, pairs_of};

verus! {

/// Why a batch of new parts is refused.
#[derive(Debug)]
pub enum BatchError {
    /// A pin is named that its part does not have.
    NoSuchPin { template: String, pin: String },
    /// A part may not stand where it is to be placed.
    Placement(PlacementError),
}

impl BatchError {
    /// What the error says; `rule` is the wording of the fabrication rule, in
    /// case one is broken.
    pub open spec fn text(self, rule: Seq<char>) -> Seq<char> {
        match self {
            BatchError::NoSuchPin { template, pin } => "no pin "@ + pin@ + " on "@ + template@,
            BatchError::Placement(e) => e.text(rule),
        }
    }

    pub fn message(&self, rule: &str) -> (s: String)
        ensures
            s@ == self.text(rule@),
    {
        match self {
            BatchError::NoSuchPin { template, pin } => {
                let mut s = joined("no pin ", pin);
                s.append(" on ");
                s.append(template);
                s
            },
            BatchError::Placement(e) => e.message(rule),
        }
    }
}

/// What some references point to.
pub open spec fn targets<T>(refs: Seq<&T>) -> Seq<T> {
    refs.map_values(|r: &T| *r)
}

/// Boards each of which has one more member of a batch placed than the one
/// before, as the rules allowed.
pub open spec fn is_placing(
    boards: Seq<BoardDoc>,
    templates: Seq<FootprintTemplate>,
    positions: Seq<Point>,
    rotations: Seq<Angle>,
    shapes: Seq<PlacedShape>,
    probes: Seq<PlacementProbe>,
    verdicts: Seq<TemplateVerdicts>,
    rules: FabRules,
) -> bool {
    &&& boards.len() > 0
    &&& forall|i: int|
        #![trigger boards[i]]
        0 <= i < boards.len() - 1 ==> is_step(
            boards[i],
            boards[i + 1],
            templates[i],
            positions[i],
            rotations[i],
            shapes[i],
            probes[i],
            verdicts[i],
            rules,
        )
}

/// The ids that a batch of new parts gets, in order.
pub open spec fn new_ids(serial: usize, count: nat) -> Seq<FootprintId> {
    Seq::new(count, |k: int| FootprintId((serial + 1 + k) as usize))
}

/// The templates of the members of a batch.
pub open spec fn step_templates(templates: Seq<FootprintTemplate>, steps: Seq<PlaceStep>) -> Seq<
    FootprintTemplate,
> {
    steps.map_values(|s: PlaceStep| templates[s.template as int])
}

/// What the fabricator says to the members of a batch.
pub open spec fn step_verdicts(verdicts: Seq<TemplateVerdicts>, steps: Seq<PlaceStep>) -> Seq<
    TemplateVerdicts,
> {
    steps.map_values(|s: PlaceStep| verdicts[s.template as int])
}

/// Where the members of a batch go.
pub open spec fn step_positions(steps: Seq<PlaceStep>) -> Seq<Point> {
    steps.map_values(|s: PlaceStep| s.position)
}

/// How the members of a batch are turned.
pub open spec fn step_rotations(steps: Seq<PlaceStep>) -> Seq<Angle> {
    steps.map_values(|s: PlaceStep| s.rotation_deg)
}

/// The parts that a batch moves.
pub open spec fn moved_ids(steps: Seq<MoveStep>) -> Seq<FootprintId> {
    steps.map_values(|s: MoveStep| s.id)
}

/// Boards each of which has one more member of a batch moved than the one
/// before.
pub open spec fn is_moving(
    boards: Seq<BoardDoc>,
    steps: Seq<MoveStep>,
    shapes: Seq<PlacedShape>,
) -> bool {
    &&& boards.len() > 0
    &&& forall|i: int|
        #![trigger boards[i]]
        0 <= i < boards.len() - 1 ==> boards[i + 1].has_moved_part(
            &boards[i],
            steps[i].id,
            steps[i].position,
            steps[i].rotation_deg,
            shapes[i],
        )
}

/// Every step moves a part of the board to a pose of that very part.
pub open spec fn poses_fit(
    fps: Seq<PlacedFootprint>,
    steps: Seq<MoveStep>,
    shapes: Seq<PlacedShape>,
) -> bool {
    forall|i: int|
        #![trigger steps[i]]
        0 <= i < steps.len() ==> (part_at(fps, steps[i].id) matches Some(f) && pose_fits(
            fps[f],
            shapes[i],
        ))
}

impl BoardDoc {
    /// What is wrong with the first of the first `n` members of a batch of
    /// moves, where the whole batch counts as lifted off the board.
    pub open spec fn first_move_error(
        &self,
        templates: Seq<FootprintTemplate>,
        steps: Seq<MoveStep>,
        shapes: Seq<PlacedShape>,
        probes: Seq<PlacementProbe>,
        rules: FabRules,
        n: int,
    ) -> Option<PlacementError>
        decreases n,
    {
        if n <= 0 {
            None
        } else {
            match self.first_move_error(templates, steps, shapes, probes, rules, n - 1) {
                Some(e) => Some(e),
                None => match self.placement_verdict(
                    templates[steps[n - 1].template as int],
                    shapes[n - 1],
                    probes[n - 1],
                    rules,
                    moved_ids(steps),
                ) {
                    Err(e) => Some(e),
                    Ok(_) => None,
                },
            }
        }
    }

    /// The verdict on a batch of moves: every member on its own, then the
    /// members against each other.
    pub open spec fn move_verdict(
        &self,
        templates: Seq<FootprintTemplate>,
        steps: Seq<MoveStep>,
        shapes: Seq<PlacedShape>,
        probes: Seq<PlacementProbe>,
        among: MatrixProbe,
        rules: FabRules,
    ) -> Result<(), PlacementError> {
        match self.first_move_error(
            templates,
            steps,
            shapes,
            probes,
            rules,
            steps.len() as int,
        ) {
            Some(e) => Err(e),
            None => match first_member_error(shapes, among, shapes.len() as int) {
                Some(e) => Err(e),
                None => Ok(()),
            },
        }
    }

    /// Places one part after the other; if any of them is refused, the board
    /// is left as it was.
    #[verifier::spinoff_prover]
    #[verifier::rlimit(60)]
    pub(crate) fn place_each(
        &mut self,
        templates: &[&FootprintTemplate],
        positions: &[Point],
        rotations: &[Angle],
        shapes: Vec<PlacedShape>,
        probes: &[PlacementProbe],
        verdicts: &[&TemplateVerdicts],
        rules: &FabRules,
    ) -> (r: Result<Vec<FootprintId>, PlacementError>)
        requires
            old(self).wf(),
            templates@.len() == shapes@.len(),
            positions@.len() == shapes@.len(),
            rotations@.len() == shapes@.len(),
            probes@.len() == shapes@.len(),
            verdicts@.len() == shapes@.len(),
            forall|i: int|
                #![trigger shapes@[i]]
                0 <= i < shapes@.len() ==> parts_only(shapes@[i].items@) && BoardDoc::probe_fits(
                    shapes@[i],
                    probes@[i],
                ),
            old(self).node.has_room_for(item_total(shapes@) as int),
            old(self).next_footprint_serial + shapes@.len() <= usize::MAX,
        ensures
            final(self).wf(),
            exists|boards: Seq<BoardDoc>|
                {
                    &&& #[trigger] is_placing(
                        boards,
                        targets(templates@),
                        positions@,
                        rotations@,
                        shapes@,
                        probes@,
                        targets(verdicts@),
                        *rules,
                    )
                    &&& boards[0] == *old(self)
                    &&& match r {
                        Ok(_) => boards.len() == shapes@.len() + 1 && *final(self) == boards.last(),
                        Err(e) => boards.len() <= shapes@.len() && boards.last().place_verdict(
                            *templates@[boards.len() - 1],
                            shapes@[boards.len() - 1],
                            probes@[boards.len() - 1],
                            *verdicts@[boards.len() - 1],
                            *rules,
                        ) == Err::<(), PlacementError>(e),
                    }
                },
            r matches Ok(ids) ==> ids@ == new_ids(old(self).next_footprint_serial, shapes@.len()),
            r is Err ==> final(self).same_board(old(self)),
    {
        let ghost before = *self;
        let ghost all = shapes@;
        let entry_count: usize = self.node.entries.len();
        let part_count: usize = self.footprints.len();
        let next: u64 = self.node.next;
        let revision: u64 = self.node.revision;
        let serial: usize = self.next_footprint_serial;
        let mut ids: Vec<FootprintId> = Vec::new();
        let ghost mut boards: Seq<BoardDoc> = seq![*self];
        let mut k: usize = 0;
        let mut refused: Option<PlacementError> = None;
        let total: usize = shapes.len();
        let mut pending = reversed(shapes);
        assert(all.skip(0) =~= all);
        while k < total && refused.is_none()
            invariant
                before == *old(self),
                before.wf(),
                total == all.len(),
                k <= total,
                templates@.len() == all.len(),
                positions@.len() == all.len(),
                rotations@.len() == all.len(),
                probes@.len() == all.len(),
                verdicts@.len() == all.len(),
                pending@ == all.skip(k as int).reverse(),
                forall|i: int|
                    #![trigger all[i]]
                    0 <= i < all.len() ==> parts_only(all[i].items@) && BoardDoc::probe_fits(
                        all[i],
                        probes@[i],
                    ),
                before.node.has_room_for(item_total(all) as int),
                before.next_footprint_serial + all.len() <= usize::MAX,
                entry_count == before.node.entries@.len(),
                part_count == before.footprints@.len(),
                next == before.node.next,
                revision == before.node.revision,
                serial == before.next_footprint_serial,
                self.wf(),
                self.same_but_parts(&before),
                self.node.entries@.len() >= entry_count,
                self.node.entries@.take(entry_count as int) == before.node.entries@,
                self.footprints@.len() >= part_count,
                self.footprints@.take(part_count as int) == before.footprints@,
                is_placing(
                    boards,
                    targets(templates@),
                    positions@,
                    rotations@,
                    all,
                    probes@,
                    targets(verdicts@),
                    *rules,
                ),
                boards[0] == before,
                boards.last() == *self,
                refused is None ==> {
                    &&& boards.len() == k + 1
                    &&& self.node.next == next + item_total(all.take(k as int))
                    &&& self.node.revision == revision + item_total(all.take(k as int))
                    &&& self.next_footprint_serial == serial + k
                    &&& ids@ == new_ids(serial, k as nat)
                },
                refused matches Some(e) ==> boards.len() <= all.len()
                    && boards.last().place_verdict(
                    *templates@[boards.len() - 1],
                    all[boards.len() - 1],
                    probes@[boards.len() - 1],
                    *verdicts@[boards.len() - 1],
                    *rules,
                ) == Err::<(), PlacementError>(e),
            decreases total - k,
        {
            let ghost now = *self;
            proof {
                assert(pending@.last() == all[k as int]);
                assert(parts_only(all[k as int].items@));
                assert(all.take(k + 1).drop_last() =~= all.take(k as int));
                assert(all.take(k + 1).last() == all[k as int]);
                lemma_item_total_grows(all, k + 1);
            }
            let popped = pending.pop();
            let shape = match popped {
                Some(shape) => shape,
                None => {
                    assert(false);
                    return Err(PlacementError::OffBoard);
                },
            };
            assert(pending@ =~= all.skip(k + 1).reverse());
            match self.try_place_footprint(
                templates[k],
                positions[k],
                rotations[k],
                shape,
                &probes[k],
                verdicts[k],
                rules,
            ) {
                Ok(id) => {
                    ids.push(id);
                    proof {
                        assert(targets(templates@)[k as int] == *templates@[k as int]);
                        assert(targets(verdicts@)[k as int] == *verdicts@[k as int]);
                        lemma_placing_grows(
                            boards,
                            *self,
                            targets(templates@),
                            positions@,
                            rotations@,
                            all,
                            probes@,
                            targets(verdicts@),
                            *rules,
                        );
                        boards = boards.push(*self);
                        assert(self.node.entries@.take(entry_count as int)
                            =~= now.node.entries@.take(entry_count as int));
                        assert(self.footprints@.take(part_count as int) =~= now.footprints@.take(
                            part_count as int,
                        )) by {
                            assert forall|i: int| 0 <= i < part_count implies self.footprints@[i]
                                == now.footprints@[i] by {
                                assert(self.footprints@.drop_last()[i] == now.footprints@[i]);
                            }
                        }
                        assert(ids@ =~= new_ids(serial, (k + 1) as nat));
                    }
                },
                Err(e) => {
                    refused = Some(e);
                },
            }
            k += 1;
        }
        match refused {
            Some(e) => {
                self.node.entries.truncate(entry_count);
                self.node.next = next;
                self.node.revision = revision;
                self.footprints.truncate(part_count);
                self.next_footprint_serial = serial;
                assert(self.node.entries@ =~= before.node.entries@);
                assert(self.footprints@ =~= before.footprints@);
                Err(e)
            },
            None => Ok(ids),
        }
    }

    /// Places a whole batch of parts in order, with every named pin on its net,
    /// or, if a pin is unknown or any member is refused, nothing at all. A net
    /// that nobody has named yet is created. `probes[i]` was measured on the
    /// board with the first `i` members in place, for pads that are on no net
    /// yet; `verdicts` goes by the parts library.
    pub fn place_batch(
        &mut self,
        templates: &[FootprintTemplate],
        steps: &[PlaceStep],
        shapes: Vec<PlacedShape>,
        probes: &[PlacementProbe],
        verdicts: &[TemplateVerdicts],
        rules: &FabRules,
    ) -> (r: Result<Vec<FootprintId>, BatchError>)
        requires
            old(self).wf(),
            verdicts@.len() == templates@.len(),
            steps@.len() == shapes@.len(),
            probes@.len() == shapes@.len(),
            forall|i: int|
                #![trigger steps@[i]]
                0 <= i < steps@.len() ==> steps@[i].template < templates@.len(),
            forall|i: int|
                #![trigger shapes@[i]]
                0 <= i < shapes@.len() ==> {
                    &&& parts_only(shapes@[i].items@)
                    &&& BoardDoc::probe_fits(shapes@[i], probes@[i])
                    &&& pads_in(shapes@[i].items@) == templates@[steps@[i].template as int].pads@.len()
                },
            old(self).node.has_room_for(item_total(shapes@) as int),
            old(self).next_footprint_serial + shapes@.len() <= usize::MAX,
            old(self).next_net_serial + batch_nets(steps@).len() <= u32::MAX,
        ensures
            final(self).wf(),
            match first_missing_pin(templates@, steps@) {
                Some((name, number)) => r matches Err(BatchError::NoSuchPin { template, pin })
                    && template@ == name && pin@ == number,
                None => exists|boards: Seq<BoardDoc>, wired: Seq<PlacedShape>|
                    {
                        &&& #[trigger] is_placing(
                            boards,
                            step_templates(templates@, steps@),
                            step_positions(steps@),
                            step_rotations(steps@),
                            wired,
                            probes@,
                            step_verdicts(verdicts@, steps@),
                            *rules,
                        )
                        &&& boards[0].has_nets_for(old(self), batch_nets(steps@))
                        &&& all_wired(wired, shapes@, templates@, steps@, boards[0].nets@)
                        &&& match r {
                            Ok(_) => boards.len() == steps@.len() + 1 && *final(self)
                                == boards.last(),
                            Err(BatchError::Placement(e)) => boards.len() <= steps@.len()
                                && boards.last().place_verdict(
                                step_templates(templates@, steps@)[boards.len() - 1],
                                wired[boards.len() - 1],
                                probes@[boards.len() - 1],
                                step_verdicts(verdicts@, steps@)[boards.len() - 1],
                                *rules,
                            ) == Err::<(), PlacementError>(e),
                            Err(BatchError::NoSuchPin { .. }) => false,
                        }
                    },
            },
            r matches Ok(ids) ==> {
                let fresh = fresh_names(old(self).nets@, batch_nets(steps@));
                &&& ids@ == new_ids(old(self).next_footprint_serial, steps@.len())
                &&& nets_added(
                    old(self).nets@,
                    final(self).nets@,
                    old(self).next_net_serial as int,
                    fresh,
                )
                &&& final(self).next_net_serial == old(self).next_net_serial + fresh.len()
                &&& forall|i: int|
                    #![trigger steps@[i]]
                    0 <= i < steps@.len() ==> final(self).part_is_joined(
                        ids@[i],
                        templates@[steps@[i].template as int].pads@,
                        pairs_of(steps@[i].pins@),
                    )
            },
            r is Err ==> final(self).same_board(old(self)),
    {
        match find_missing_pin(templates, steps) {
            Some((i, j)) => {
                assert(steps@[i as int].template < templates@.len());
                return Err(
                    BatchError::NoSuchPin {
                        template: templates[steps[i].template].name.clone(),
                        pin: steps[i].pins[j].0.clone(),
                    },
                );
            },
            None => {},
        }
        let ghost before = *self;
        let ghost all = shapes@;
        let net_count: usize = self.nets.len();
        let net_serial: u32 = self.next_net_serial;
        self.add_batch_nets(steps);
        let ghost named = *self;
        let wired = self.wire_shapes(templates, steps, shapes);
        let ghost parts = wired@;
        proof {
            lemma_wired_total(parts, all);
            assert forall|i: int| #![trigger parts[i]] 0 <= i < parts.len() implies parts_only(
                parts[i].items@,
            ) && BoardDoc::probe_fits(parts[i], probes@[i]) by {
                let items = all[i].items@;
                let own = parts[i].items@;
                assert(parts_only(items));
                assert forall|k: int| #![trigger own[k]] 0 <= k < own.len() implies own[k] is Pad
                    || own[k] is Hole by {
                    assert(items[k] is Pad || items[k] is Hole);
                }
            }
        }
        let mut members: Vec<&FootprintTemplate> = Vec::new();
        let mut positions: Vec<Point> = Vec::new();
        let mut rotations: Vec<Angle> = Vec::new();
        let mut said: Vec<&TemplateVerdicts> = Vec::new();
        let mut i: usize = 0;
        while i < steps.len()
            invariant
                i <= steps@.len(),
                verdicts@.len() == templates@.len(),
                forall|i: int|
                    #![trigger steps@[i]]
                    0 <= i < steps@.len() ==> steps@[i].template < templates@.len(),
                members@.len() == i,
                positions@.len() == i,
                rotations@.len() == i,
                said@.len() == i,
                forall|k: int|
                    0 <= k < i ==> *(#[trigger] members@[k]) == templates@[steps@[k].template as int],
                forall|k: int| 0 <= k < i ==> #[trigger] positions@[k] == steps@[k].position,
                forall|k: int| 0 <= k < i ==> #[trigger] rotations@[k] == steps@[k].rotation_deg,
                forall|k: int|
                    0 <= k < i ==> *(#[trigger] said@[k]) == verdicts@[steps@[k].template as int],
            decreases steps@.len() - i,
        {
            let step = &steps[i];
            members.push(&templates[step.template]);
            positions.push(step.position);
            rotations.push(step.rotation_deg);
            said.push(&verdicts[step.template]);
            i += 1;
        }
        proof {
            assert(targets(members@) =~= step_templates(templates@, steps@));
            assert(positions@ =~= step_positions(steps@));
            assert(rotations@ =~= step_rotations(steps@));
            assert(targets(said@) =~= step_verdicts(verdicts@, steps@));
        }
        match self.place_each(&members, &positions, &rotations, wired, probes, &said, rules) {
            Ok(ids) => {
                proof {
                    let boards = choose|boards: Seq<BoardDoc>|
                        {
                            &&& #[trigger] is_placing(
                                boards,
                                targets(members@),
                                positions@,
                                rotations@,
                                parts,
                                probes@,
                                targets(said@),
                                *rules,
                            )
                            &&& boards[0] == named
                            &&& boards.len() == parts.len() + 1
                            &&& *self == boards.last()
                        };
                    lemma_placing_keeps(
                        boards,
                        targets(members@),
                        positions@,
                        rotations@,
                        parts,
                        probes@,
                        targets(said@),
                        *rules,
                        0,
                        boards.len() - 1,
                    );
                    assert forall|i: int| #![trigger steps@[i]] 0 <= i < steps@.len() implies self.part_is_joined(
                        ids@[i],
                        templates@[steps@[i].template as int].pads@,
                        pairs_of(steps@[i].pins@),
                    ) by {
                        lemma_member_is_joined(
                            boards,
                            templates@,
                            steps@,
                            positions@,
                            rotations@,
                            parts,
                            all,
                            probes@,
                            targets(said@),
                            *rules,
                            before,
                            i,
                        );
                    }
                }
                Ok(ids)
            },
            Err(e) => {
                self.nets.truncate(net_count);
                self.next_net_serial = net_serial;
                assert(self.nets@ =~= before.nets@);
                Err(BatchError::Placement(e))
            },
        }
    }

    /// Whether a whole batch of parts may be moved.
    pub fn check_move_batch(
        &self,
        templates: &[FootprintTemplate],
        steps: &[MoveStep],
        shapes: &[PlacedShape],
        probes: &[PlacementProbe],
        among: &MatrixProbe,
        rules: &FabRules,
    ) -> (r: Result<(), PlacementError>)
        requires
            steps@.len() == shapes@.len(),
            probes@.len() == shapes@.len(),
            forall|i: int|
                #![trigger steps@[i]]
                0 <= i < steps@.len() ==> steps@[i].template < templates@.len(),
            forall|i: int|
                #![trigger shapes@[i]]
                0 <= i < shapes@.len() ==> BoardDoc::probe_fits(shapes@[i], probes@[i]),
        ensures
            r == self.move_verdict(templates@, steps@, shapes@, probes@, *among, *rules),
    {
        let mut lifted: Vec<FootprintId> = Vec::new();
        let mut k: usize = 0;
        while k < steps.len()
            invariant
                k <= steps@.len(),
                lifted@.len() == k,
                forall|i: int| 0 <= i < k ==> #[trigger] lifted@[i] == steps@[i].id,
            decreases steps@.len() - k,
        {
            lifted.push(steps[k].id);
            k += 1;
        }
        assert(lifted@ =~= moved_ids(steps@));
        let mut i: usize = 0;
        while i < steps.len()
            invariant
                i <= steps@.len(),
                steps@.len() == shapes@.len(),
                probes@.len() == shapes@.len(),
                lifted@ == moved_ids(steps@),
                forall|i: int|
                    #![trigger steps@[i]]
                    0 <= i < steps@.len() ==> steps@[i].template < templates@.len(),
                forall|i: int|
                    #![trigger shapes@[i]]
                    0 <= i < shapes@.len() ==> BoardDoc::probe_fits(shapes@[i], probes@[i]),
                self.first_move_error(templates@, steps@, shapes@, probes@, *rules, i as int)
                    is None,
            decreases steps@.len() - i,
        {
            assert(BoardDoc::probe_fits(shapes@[i as int], probes@[i as int]));
            assert(steps@[i as int].template < templates@.len());
            match self.check_placement_excluding(
                &templates[steps[i].template],
                &shapes[i],
                &probes[i],
                rules,
                &lifted,
            ) {
                Ok(_) => {},
                Err(e) => {
                    proof {
                        self.lemma_move_error_stays(
                            templates@,
                            steps@,
                            shapes@,
                            probes@,
                            *rules,
                            i + 1,
                            steps@.len() as int,
                        );
                    }
                    return Err(e);
                },
            }
            i += 1;
        }
        match first_member_failure(shapes, among) {
            Some(e) => Err(e),
            None => Ok(()),
        }
    }

    proof fn lemma_move_error_stays(
        &self,
        templates: Seq<FootprintTemplate>,
        steps: Seq<MoveStep>,
        shapes: Seq<PlacedShape>,
        probes: Seq<PlacementProbe>,
        rules: FabRules,
        n: int,
        m: int,
    )
        requires
            n <= m,
            self.first_move_error(templates, steps, shapes, probes, rules, n) is Some,
        ensures
            self.first_move_error(templates, steps, shapes, probes, rules, m)
                == self.first_move_error(templates, steps, shapes, probes, rules, n),
        decreases m - n,
    {
        if n < m {
            self.lemma_move_error_stays(templates, steps, shapes, probes, rules, n, m - 1);
        }
    }

    /// Moves a whole batch of parts in order, or, if any member may not stand
    /// where it is sent, nothing at all. All members count as lifted off the
    /// board while they are checked, so none is in the way of another's move;
    /// where they are sent they must keep clear of each other. `probes` were
    /// measured on the board as it is, `among` between the new poses.
    pub fn move_batch(
        &mut self,
        templates: &[FootprintTemplate],
        steps: &[MoveStep],
        shapes: Vec<PlacedShape>,
        probes: &[PlacementProbe],
        among: &MatrixProbe,
        rules: &FabRules,
    ) -> (r: Result<(), PlacementError>)
        requires
            old(self).wf(),
            steps@.len() == shapes@.len(),
            probes@.len() == shapes@.len(),
            forall|i: int|
                #![trigger steps@[i]]
                0 <= i < steps@.len() ==> steps@[i].template < templates@.len(),
            poses_fit(old(self).footprints@, steps@, shapes@),
            forall|i: int|
                #![trigger shapes@[i]]
                0 <= i < shapes@.len() ==> BoardDoc::probe_fits(shapes@[i], probes@[i]),
            old(self).node.has_room_for(
                (old(self).node.entries@.len() + item_total(shapes@)) as int,
            ),
        ensures
            final(self).wf(),
            r == old(self).move_verdict(templates@, steps@, shapes@, probes@, *among, *rules),
            r is Err ==> *final(self) == *old(self),
            r is Ok ==> exists|boards: Seq<BoardDoc>|
                {
                    &&& #[trigger] is_moving(boards, steps@, shapes@)
                    &&& boards[0] == *old(self)
                    &&& boards.len() == steps@.len() + 1
                    &&& *final(self) == boards.last()
                },
    {
        match self.check_move_batch(templates, steps, &shapes, probes, among, rules) {
            Ok(_) => {},
            Err(e) => {
                return Err(e);
            },
        }
        let ghost before = *self;
        let ghost all = shapes@;
        let ghost mut boards: Seq<BoardDoc> = seq![*self];
        let mut pending = reversed(shapes);
        let mut k: usize = 0;
        assert(all.skip(0) =~= all);
        while k < steps.len()
            invariant
                before == *old(self),
                k <= steps@.len(),
                steps@.len() == all.len(),
                pending@ == all.skip(k as int).reverse(),
                poses_fit(self.footprints@, steps@, all),
                before.node.has_room_for(
                    (before.node.entries@.len() + item_total(all)) as int,
                ),
                self.wf(),
                self.node.next == before.node.next,
                self.node.revision + self.node.entries@.len() <= before.node.revision
                    + before.node.entries@.len() + item_total(all.take(k as int)),
                self.node.entries@.len() <= before.node.entries@.len(),
                is_moving(boards, steps@, all),
                boards[0] == before,
                boards.len() == k + 1,
                boards.last() == *self,
            decreases steps@.len() - k,
        {
            let ghost now = *self;
            proof {
                assert(pending@.last() == all[k as int]);
                assert(all.take(k + 1).drop_last() =~= all.take(k as int));
                assert(all.take(k + 1).last() == all[k as int]);
                lemma_item_total_grows(all, k + 1);
                assert(part_at(self.footprints@, steps@[k as int].id) is Some);
            }
            let popped = pending.pop();
            let shape = match popped {
                Some(shape) => shape,
                None => {
                    assert(false);
                    return Err(PlacementError::OffBoard);
                },
            };
            assert(pending@ =~= all.skip(k + 1).reverse());
            let step = steps[k];
            self.commit_move_footprint(step.id, step.position, step.rotation_deg, shape);
            proof {
                let longer = boards.push(*self);
                assert forall|i: int|
                    #![trigger longer[i]]
                    0 <= i < longer.len() - 1 implies longer[i + 1].has_moved_part(
                    &longer[i],
                    steps@[i].id,
                    steps@[i].position,
                    steps@[i].rotation_deg,
                    all[i],
                ) by {
                    if i < boards.len() - 1 {
                        assert(longer[i] == boards[i]);
                        assert(longer[i + 1] == boards[i + 1]);
                    }
                }
                boards = longer;
                now.lemma_moved_shrinks(*self, step, all[k as int]);
                lemma_poses_still_fit(
                    now.footprints@,
                    self.footprints@,
                    part_at(now.footprints@, step.id)->0,
                    steps@,
                    all,
                    step,
                    shape,
                );
            }
            k += 1;
        }
        assert(all.take(k as int) =~= all);
        Ok(())
    }

    /// A move adds no items.
    proof fn lemma_moved_shrinks(self, after: BoardDoc, step: MoveStep, shape: PlacedShape)
        requires
            after.has_moved_part(&self, step.id, step.position, step.rotation_deg, shape),
        ensures
            after.node.entries@.len() <= self.node.entries@.len(),
            after.node.revision + after.node.entries@.len() <= self.node.revision
                + self.node.entries@.len() + shape.items@.len(),
    {
        let fp = self.footprints@[part_at(self.footprints@, step.id)->0];
        lemma_moved_len(self.node.entries@, fp, shape.items@);
    }
}

/// A board with one more member placed carries a chain on.
proof fn lemma_placing_grows(
    boards: Seq<BoardDoc>,
    next: BoardDoc,
    templates: Seq<FootprintTemplate>,
    positions: Seq<Point>,
    rotations: Seq<Angle>,
    shapes: Seq<PlacedShape>,
    probes: Seq<PlacementProbe>,
    verdicts: Seq<TemplateVerdicts>,
    rules: FabRules,
)
    requires
        is_placing(boards, templates, positions, rotations, shapes, probes, verdicts, rules),
        is_step(
            boards.last(),
            next,
            templates[boards.len() - 1],
            positions[boards.len() - 1],
            rotations[boards.len() - 1],
            shapes[boards.len() - 1],
            probes[boards.len() - 1],
            verdicts[boards.len() - 1],
            rules,
        ),
    ensures
        is_placing(
            boards.push(next),
            templates,
            positions,
            rotations,
            shapes,
            probes,
            verdicts,
            rules,
        ),
{
    let longer = boards.push(next);
    assert forall|i: int|
        #![trigger longer[i]]
        0 <= i < longer.len() - 1 implies is_step(
        longer[i],
        longer[i + 1],
        templates[i],
        positions[i],
        rotations[i],
        shapes[i],
        probes[i],
        verdicts[i],
        rules,
    ) by {
        assert(longer[i] == boards[i]);
        if i < boards.len() - 1 {
            assert(longer[i + 1] == boards[i + 1]);
        }
    }
}

proof fn lemma_wired_total(wired: Seq<PlacedShape>, shapes: Seq<PlacedShape>)
    requires
        wired.len() == shapes.len(),
        forall|i: int|
            #![trigger wired[i]]
            0 <= i < wired.len() ==> wired[i].items@.len() == shapes[i].items@.len(),
    ensures
        item_total(wired) == item_total(shapes),
    decreases wired.len(),
{
    if wired.len() > 0 {
        assert(wired[wired.len() - 1] == wired.last());
        let init = wired.drop_last();
        assert forall|i: int| #![trigger init[i]] 0 <= i < init.len() implies init[i].items@.len()
            == shapes.drop_last()[i].items@.len() by {
            assert(wired[i] == init[i]);
        }
        lemma_wired_total(init, shapes.drop_last());
    }
}

/// What is on a board of a chain is still there on every later one, and the
/// nets stay as they are.
proof fn lemma_placing_keeps(
    boards: Seq<BoardDoc>,
    templates: Seq<FootprintTemplate>,
    positions: Seq<Point>,
    rotations: Seq<Angle>,
    shapes: Seq<PlacedShape>,
    probes: Seq<PlacementProbe>,
    verdicts: Seq<TemplateVerdicts>,
    rules: FabRules,
    i: int,
    m: int,
)
    requires
        is_placing(boards, templates, positions, rotations, shapes, probes, verdicts, rules),
        0 <= i <= m < boards.len(),
    ensures
        boards[m].nets@ == boards[i].nets@,
        boards[m].next_net_serial == boards[i].next_net_serial,
        boards[m].next_footprint_serial == boards[i].next_footprint_serial + (m - i),
        boards[m].footprints@.len() == boards[i].footprints@.len() + (m - i),
        boards[m].node.entries@.len() >= boards[i].node.entries@.len(),
        forall|k: int|
            0 <= k < boards[i].footprints@.len() ==> #[trigger] boards[m].footprints@[k]
                == boards[i].footprints@[k],
        forall|k: int|
            0 <= k < boards[i].node.entries@.len() ==> #[trigger] boards[m].node.entries@[k]
                == boards[i].node.entries@[k],
    decreases m - i,
{
    if i < m {
        lemma_placing_keeps(
            boards,
            templates,
            positions,
            rotations,
            shapes,
            probes,
            verdicts,
            rules,
            i,
            m - 1,
        );
        let last = boards[m - 1];
        assert(boards[m - 1 + 1] == boards[m]);
        assert forall|k: int| 0 <= k < last.footprints@.len() implies #[trigger] boards[m].footprints@[k]
            == last.footprints@[k] by {
            assert(boards[m].footprints@.drop_last()[k] == last.footprints@[k]);
        }
    }
}

/// A member of a batch that was placed is joined as its pin map says.
proof fn lemma_member_is_joined(
    boards: Seq<BoardDoc>,
    templates: Seq<FootprintTemplate>,
    steps: Seq<PlaceStep>,
    positions: Seq<Point>,
    rotations: Seq<Angle>,
    wired: Seq<PlacedShape>,
    shapes: Seq<PlacedShape>,
    probes: Seq<PlacementProbe>,
    verdicts: Seq<TemplateVerdicts>,
    rules: FabRules,
    before: BoardDoc,
    i: int,
)
    requires
        is_placing(
            boards,
            step_templates(templates, steps),
            positions,
            rotations,
            wired,
            probes,
            verdicts,
            rules,
        ),
        boards[0].has_nets_for(&before, batch_nets(steps)),
        boards.len() == steps.len() + 1,
        boards.last().wf(),
        all_wired(wired, shapes, templates, steps, boards[0].nets@),
        wired.len() == steps.len(),
        0 <= i < steps.len(),
        parts_only(shapes[i].items@),
        pads_in(shapes[i].items@) == templates[steps[i].template as int].pads@.len(),
    ensures
        boards.last().part_is_joined(
            FootprintId((before.next_footprint_serial + 1 + i) as usize),
            templates[steps[i].template as int].pads@,
            pairs_of(steps[i].pins@),
        ),
{
    let members = step_templates(templates, steps);
    let m = boards.len() - 1;
    lemma_placing_keeps(boards, members, positions, rotations, wired, probes, verdicts, rules, 0, i);
    lemma_placing_keeps(boards, members, positions, rotations, wired, probes, verdicts, rules, 0, m);
    lemma_placing_keeps(
        boards,
        members,
        positions,
        rotations,
        wired,
        probes,
        verdicts,
        rules,
        i + 1,
        m,
    );
    let doc = boards[m];
    let here = boards[i];
    let next = boards[i + 1];
    let f = here.footprints@.len() as int;
    let at = here.node.entries@.len() as int;
    let first = here.node.next as int;
    let pads = templates[steps[i].template as int].pads@;
    let pins = pairs_of(steps[i].pins@);
    assert(is_step(
        here,
        next,
        members[i],
        positions[i],
        rotations[i],
        wired[i],
        probes[i],
        verdicts[i],
        rules,
    ));
    assert(next.footprints@[f] == next.footprints@.last());
    assert(doc.footprints@[f] == next.footprints@[f]);
    assert forall|p: int| 0 <= p < wired[i].items@.len() implies #[trigger] doc.node.entries@[at + p]
        == (Entry { id: ItemId((first + p) as u64), item: wired[i].items@[p] }) by {
        assert(doc.node.entries@[at + p] == next.node.entries@[at + p]);
    }
    assert forall|k: int| mapped_net(pads, pins, k) is Some implies net_named(
        doc.nets@,
        (#[trigger] mapped_net(pads, pins, k))->0,
    ) is Some by {
        lemma_mapped_nets_are_known(before, boards[0], steps, i, pads, k);
    }
    lemma_part_is_joined(doc, f, at, first, wired[i], shapes[i], pads, pins);
}

/// Where each part is found does not depend on the pose of one of them.
proof fn lemma_part_at_stays(
    before: Seq<PlacedFootprint>,
    after: Seq<PlacedFootprint>,
    id: FootprintId,
)
    requires
        before.len() == after.len(),
        forall|i: int| 0 <= i < before.len() ==> (#[trigger] after[i]).id == before[i].id,
    ensures
        part_at(after, id) == part_at(before, id),
        part_at(before, id) matches Some(f) ==> 0 <= f < before.len(),
    decreases before.len(),
{
    if before.len() > 0 {
        assert(after[0].id == before[0].id);
        if before[0].id != id {
            let a = after.drop_first();
            let b = before.drop_first();
            assert forall|i: int| 0 <= i < b.len() implies (#[trigger] a[i]).id == b[i].id by {
                assert(a[i] == after[i + 1]);
                assert(b[i] == before[i + 1]);
            }
            lemma_part_at_stays(b, a, id);
        }
    }
}

/// What was a pose of its part still is one after another move.
proof fn lemma_poses_still_fit(
    before: Seq<PlacedFootprint>,
    after: Seq<PlacedFootprint>,
    f: int,
    steps: Seq<MoveStep>,
    shapes: Seq<PlacedShape>,
    step: MoveStep,
    shape: PlacedShape,
)
    requires
        poses_fit(before, steps, shapes),
        part_at(before, step.id) == Some(f),
        after == before.update(f, after[f]),
        is_moved_part(before[f], after[f], step.position, step.rotation_deg, shape),
    ensures
        poses_fit(after, steps, shapes),
{
    lemma_part_at_stays(before, before, step.id);
    assert forall|i: int| 0 <= i < before.len() implies (#[trigger] after[i]).id == before[i].id by {
        if i != f {
            assert(after[i] == before.update(f, after[f])[i]);
        }
    }
    assert forall|i: int| #![trigger steps[i]] 0 <= i < steps.len() implies (part_at(
        after,
        steps[i].id,
    ) matches Some(g) && pose_fits(after[g], shapes[i])) by {
        lemma_part_at_stays(before, after, steps[i].id);
        let g = part_at(before, steps[i].id)->0;
        assert(pose_fits(before[g], shapes[i]));
        if g != f {
            assert(after[g] == before.update(f, after[f])[g]);
        }
    }
}

} // verus!
