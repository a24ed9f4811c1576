//! Vias: drill spacing, placing single vias, and stitching a pin to the other
//! side with a via and a short stub.

use vstd::prelude::*;

use crate::board_doc::{half, halved, BoardDoc, PlacedFootprint};
use crate::dfm::{DfmViolation, FabRules};
use crate::footprint::{bottom_of, bounds, left_of, middle, quotient, right_of, top_of};
use crate::geom::{closer, is_closer, is_within, within, Circle, Point, Segment, Unit};
use crate::item::{item_net, item_of, shape_center, Entry, Item, ItemId, NetClass, NetId};
use crate::placement::PlacementError;
use crate::wires::{contains_id, lemma_added_keeps_records};

verus! {

/// Why a stitching via was refused.
#[derive(Debug, Clone, Copy, PartialEq, Eq, Structural)]
pub enum ViaError {
    /// The via itself could not be placed.
    Placement(PlacementError),
    /// The via would touch no copper of its own net.
    Dangling,
}

impl ViaError {
    /// What the error says; `rule` is the wording of a broken fabrication
    /// rule.
    pub open spec fn text(self, rule: Seq<char>) -> Seq<char> {
        match self {
            ViaError::Placement(e) => e.text(rule),
            ViaError::Dangling =>
                "wouldn't touch any existing pad/track/zone on that net -- place it directly on top of one, or route a track to it first"@,
        }
    }

    pub fn message(self, rule: &str) -> (s: String)
        ensures
            s@ == self.text(rule@),
    {
        match self {
            ViaError::Placement(e) => e.message(rule),
            ViaError::Dangling =>
                "wouldn't touch any existing pad/track/zone on that net -- place it directly on top of one, or route a track to it first".to_owned(),
        }
    }
}

/// A via that was stitched to a pin.
#[derive(Debug, Clone, Copy, PartialEq, Eq, Structural)]
pub struct PinStitchingVia {
    pub via_id: ItemId,
    pub center: Point,
}

/// Why no via could be stitched to a pin.
#[derive(Debug, Clone, Copy, PartialEq, Eq, Structural)]
pub enum PinStitchingViaError {
    /// The item is no pad.
    NotAPad,
    /// The pad is on no net yet.
    NoNet,
    /// No via can be placed at the natural spot.
    Via(PlacementError),
    /// A via fits there, but not the stub that connects it.
    NoRoomForStub,
}

impl PinStitchingViaError {
    /// What the error says; `rule` is the wording of a broken fabrication
    /// rule.
    pub open spec fn text(self, rule: Seq<char>) -> Seq<char> {
        match self {
            PinStitchingViaError::NotAPad => "not a pad"@,
            PinStitchingViaError::NoNet => "this pin isn't on a net yet -- connect it first"@,
            PinStitchingViaError::Via(e) => e.text(rule),
            PinStitchingViaError::NoRoomForStub =>
                "a via would fit there, but not the short track needed to connect it back to the pin -- move the part and try again"@,
        }
    }

    pub fn message(self, rule: &str) -> (s: String)
        ensures
            s@ == self.text(rule@),
    {
        match self {
            PinStitchingViaError::NotAPad => "not a pad".to_owned(),
            PinStitchingViaError::NoNet =>
                "this pin isn't on a net yet -- connect it first".to_owned(),
            PinStitchingViaError::Via(e) => e.message(rule),
            PinStitchingViaError::NoRoomForStub =>
                "a via would fit there, but not the short track needed to connect it back to the pin -- move the part and try again".to_owned(),
        }
    }
}

/// What was measured of a via at some spot: the fabrication rule its size
/// breaks, whether it keeps its distance from the board edge, and how many
/// items it collides with.
#[derive(Debug, Clone, Copy, PartialEq, Eq, Structural)]
pub struct ViaProbe {
    pub dfm: Option<DfmViolation>,
    pub on_board: bool,
    pub hits: usize,
}

/// A hole drilled into the board: its centre, diameter and net.
pub open spec fn drilled(item: Item) -> Option<(Point, Unit, Option<NetId>)> {
    match item {
        Item::Via { shape, drill, net } => Some((shape.center, drill, net)),
        Item::Hole { position, drill } => Some((position, drill, None)),
        _ => None,
    }
}

/// Two drills stand closer, wall to wall, than the rules allow for their
/// nets.
pub open spec fn drills_crowd(
    rules: FabRules,
    center: Point,
    drill: Unit,
    net: Option<NetId>,
    other: (Point, Unit, Option<NetId>),
) -> bool {
    closer(center, other.0, quotient(drill + other.1, 2) + rules.hole_spacing(net, other.2))
}

/// Some drill on the board stands too close to a new one.
pub open spec fn crowds_a_drill(
    entries: Seq<Entry>,
    rules: FabRules,
    center: Point,
    drill: Unit,
    net: Option<NetId>,
) -> bool {
    exists|i: int|
        0 <= i < entries.len() && (drilled((#[trigger] entries[i]).item) matches Some(other)
            && drills_crowd(rules, center, drill, net, other))
}

/// The verdict on a via at some spot, in the order in which it is reached:
/// its own size, the board edge, the spacing of drills, collisions.
pub open spec fn via_verdict(
    entries: Seq<Entry>,
    rules: FabRules,
    center: Point,
    net: NetId,
    drill: Unit,
    probe: ViaProbe,
) -> Result<(), PlacementError> {
    match probe.dfm {
        Some(v) => Err(PlacementError::Dfm(v)),
        None => if !probe.on_board {
            Err(PlacementError::OffBoard)
        } else if crowds_a_drill(entries, rules, center, drill, Some(net)) {
            Err(PlacementError::Dfm(DfmViolation::HoleToHoleBelowMin))
        } else if probe.hits > 0 {
            Err(PlacementError::Collision(probe.hits))
        } else {
            Ok(())
        },
    }
}

/// A via of the given size.
pub open spec fn via_item(center: Point, net: NetId, diameter: Unit, drill: Unit) -> Item {
    Item::Via {
        shape: Circle { center, radius: half(diameter as int) as Unit },
        drill,
        net: Some(net),
    }
}

impl BoardDoc {
    /// Whether a new drill would stand closer to an existing via or
    /// mechanical hole, wall to wall, than the drill process allows.
    pub fn violates_hole_to_hole(
        &self,
        center: Point,
        drill: Unit,
        net: Option<NetId>,
        rules: &FabRules,
    ) -> (r: bool)
        ensures
            r == crowds_a_drill(self.node.entries@, *rules, center, drill, net),
    {
        let mut i: usize = 0;
        while i < self.node.entries.len()
            invariant
                i <= self.node.entries@.len(),
                forall|k: int|
                    0 <= k < i ==> !(drilled((#[trigger] self.node.entries@[k]).item) matches Some(
                        other,
                    ) && drills_crowd(*rules, center, drill, net, other)),
            decreases self.node.entries@.len() - i,
        {
            let other: Option<(Point, Unit, Option<NetId>)> = match &self.node.entries[i].item {
                Item::Via { shape, drill: d, net: n } => Some((shape.center, *d, *n)),
                Item::Hole { position, drill: d } => Some((*position, *d, None)),
                _ => None,
            };
            match other {
                Some((at, d, n)) => {
                    let both: i128 = drill as i128 + d as i128;
                    let walls: i128 = if both >= 0 {
                        both / 2
                    } else {
                        -((-both) / 2)
                    };
                    let required: Unit = rules.required_hole_to_hole(net, n);
                    if is_closer(center, at, walls + required as i128) {
                        assert(drilled(self.node.entries@[i as int].item) == Some((at, d, n)));
                        return true;
                    }
                },
                None => {},
            }
            i += 1;
        }
        false
    }

    /// Whether a via may stand at a spot.
    pub fn check_via(
        &self,
        center: Point,
        net: NetId,
        drill: Unit,
        probe: &ViaProbe,
        rules: &FabRules,
    ) -> (r: Result<(), PlacementError>)
        ensures
            r == via_verdict(self.node.entries@, *rules, center, net, drill, *probe),
    {
        match probe.dfm {
            Some(v) => {
                return Err(PlacementError::Dfm(v));
            },
            None => {},
        }
        if !probe.on_board {
            return Err(PlacementError::OffBoard);
        }
        if self.violates_hole_to_hole(center, drill, Some(net), rules) {
            return Err(PlacementError::Dfm(DfmViolation::HoleToHoleBelowMin));
        }
        if probe.hits > 0 {
            return Err(PlacementError::Collision(probe.hits));
        }
        Ok(())
    }

    /// Places a through-hole via; nothing changes if it is refused.
    pub fn try_add_via(
        &mut self,
        center: Point,
        net: NetId,
        diameter: Unit,
        drill: Unit,
        probe: &ViaProbe,
        rules: &FabRules,
    ) -> (r: Result<ItemId, PlacementError>)
        requires
            old(self).wf(),
            old(self).node.has_room_for(1),
        ensures
            final(self).wf(),
            match via_verdict(old(self).node.entries@, *rules, center, net, drill, *probe) {
                Ok(_) => {
                    &&& r == Ok::<ItemId, PlacementError>(ItemId(old(self).node.next))
                    &&& final(self).same_but_node(old(self))
                    &&& final(self).node.entries@ == old(self).node.entries@.push(
                        Entry {
                            id: ItemId(old(self).node.next),
                            item: via_item(center, net, diameter, drill),
                        },
                    )
                    &&& final(self).node.next == old(self).node.next + 1
                    &&& final(self).node.revision == old(self).node.revision + 1
                },
                Err(e) => r == Err::<ItemId, PlacementError>(e) && *final(self) == *old(self),
            },
    {
        match self.check_via(center, net, drill, probe, rules) {
            Ok(_) => {},
            Err(e) => {
                return Err(e);
            },
        }
        let ghost before = self.node.entries@;
        let via = Item::Via {
            shape: Circle::new(center, halved(diameter)),
            drill,
            net: Some(net),
        };
        let id = self.node.add(via);
        proof {
            lemma_added_keeps_records(self, before, Entry { id, item: via });
        }
        Ok(id)
    }

    /// Whether a via would fit, as a live preview asks it: on the board and
    /// clear of everything, whatever its drill.
    pub fn via_would_fit(on_board: bool, colliding: bool) -> (r: bool)
        ensures
            r == (on_board && !colliding),
    {
        on_board && !colliding
    }

    /// Places a via that has to touch copper of its own net: `touches` says
    /// whether it would. The board is as before if it is refused.
    pub fn try_add_stitching_via(
        &mut self,
        center: Point,
        net: NetId,
        diameter: Unit,
        drill: Unit,
        probe: &ViaProbe,
        touches: bool,
        rules: &FabRules,
    ) -> (r: Result<ItemId, ViaError>)
        requires
            old(self).wf(),
            old(self).node.has_room_for(1),
        ensures
            final(self).wf(),
            match via_verdict(old(self).node.entries@, *rules, center, net, drill, *probe) {
                Ok(_) => if touches {
                    &&& r == Ok::<ItemId, ViaError>(ItemId(old(self).node.next))
                    &&& final(self).same_but_node(old(self))
                    &&& final(self).node.entries@ == old(self).node.entries@.push(
                        Entry {
                            id: ItemId(old(self).node.next),
                            item: via_item(center, net, diameter, drill),
                        },
                    )
                    &&& final(self).node.next == old(self).node.next + 1
                    &&& final(self).node.revision == old(self).node.revision + 1
                } else {
                    r == Err::<ItemId, ViaError>(ViaError::Dangling) && *final(self) == *old(self)
                },
                Err(e) => r == Err::<ItemId, ViaError>(ViaError::Placement(e)) && *final(self)
                    == *old(self),
            },
    {
        match self.check_via(center, net, drill, probe, rules) {
            Ok(_) => {},
            Err(e) => {
                return Err(ViaError::Placement(e));
            },
        }
        if !touches {
            return Err(ViaError::Dangling);
        }
        match self.try_add_via(center, net, diameter, drill, probe, rules) {
            Ok(id) => Ok(id),
            Err(e) => Err(ViaError::Placement(e)),
        }
    }

    /// Where a stitching via for a pin belongs: outward from the body of the
    /// part that owns the pin, at the distance that clears the pad. None if
    /// the item is no pad.
    pub fn pin_stitching_via_plan(
        &self,
        pad_id: ItemId,
        pad_radius: Unit,
        pad_clearance: Unit,
        diameter: Unit,
    ) -> (r: Option<StitchPlan>)
        ensures
            match self.node.item(pad_id) {
                Some(Item::Pad { shape, .. }) => r matches Some(plan) && {
                    &&& plan.pad_center == shape_center(shape)
                    &&& (plan.out_x as int, plan.out_y as int) == outward(
                        shape_center(shape),
                        body_of_pad(self.footprints@, pad_id),
                    )
                    &&& plan.gap == pad_radius + pad_clearance + half(diameter as int) + 1_000
                    &&& plan.degrees@ == sweep()
                },
                _ => r is None,
            },
    {
        let center = match self.node.get(pad_id) {
            Some(Item::Pad { shape, .. }) => shape.center(),
            _ => {
                return None;
            },
        };
        let mut out_x: i128 = 1;
        let mut out_y: i128 = 0;
        match self.body_center_of(pad_id) {
            Some(body) => {
                let dx: i128 = center.x as i128 - body.x as i128;
                let dy: i128 = center.y as i128 - body.y as i128;
                if dx != 0 || dy != 0 {
                    out_x = dx;
                    out_y = dy;
                }
            },
            None => {},
        }
        let gap: i128 = pad_radius as i128 + pad_clearance as i128 + halved(diameter) as i128
            + 1_000;
        Some(
            StitchPlan { pad_center: center, out_x, out_y, gap, degrees: sweep_degrees() },
        )
    }

    /// The middle of the body of the part that owns a pad.
    fn body_center_of(&self, pad_id: ItemId) -> (r: Option<Point>)
        ensures
            r == body_of_pad(self.footprints@, pad_id),
    {
        let mut f: usize = 0;
        assert(self.footprints@.skip(0) =~= self.footprints@);
        while f < self.footprints.len()
            invariant
                f <= self.footprints@.len(),
                body_of_pad(self.footprints@, pad_id) == body_of_pad(
                    self.footprints@.skip(f as int),
                    pad_id,
                ),
            decreases self.footprints@.len() - f,
        {
            assert(self.footprints@.skip(f as int)[0] == self.footprints@[f as int]);
            assert(self.footprints@.skip(f as int).drop_first() =~= self.footprints@.skip(f + 1));
            if contains_id(&self.footprints[f].pad_item_ids, pad_id) {
                let points: &Vec<Point> = &self.footprints[f].courtyard.points;
                if points.len() == 0 {
                    return None;
                }
                let (min, max) = bounds(points);
                return Some(Point::new(middle(min.x, max.x), middle(min.y, max.y)));
            }
            f += 1;
        }
        None
    }

    /// Stitches a via to a pin: the first candidate where both the via and
    /// its stub fit is committed, together with the stub. If none does, the
    /// error is that of the first, the natural one, and nothing changes.
    /// `stub_dfm` is the fabrication rule that the stub's width breaks.
    pub fn try_add_pin_stitching_via(
        &mut self,
        pad_id: ItemId,
        diameter: Unit,
        drill: Unit,
        stub_width: Unit,
        stub_dfm: Option<DfmViolation>,
        candidates: &[StitchCandidate],
        rules: &FabRules,
    ) -> (r: Result<PinStitchingVia, PinStitchingViaError>)
        requires
            old(self).wf(),
            old(self).node.has_room_for(2),
            stub_dfm is None && (old(self).node.item(pad_id) matches Some(item) && item is Pad
                && item_net(item) is Some) ==> candidates@.len() > 0,
        ensures
            final(self).wf(),
            r is Err ==> *final(self) == *old(self),
            match stitch_verdict(
                old(self).node.entries@,
                *rules,
                pad_id,
                drill,
                stub_dfm,
                candidates@,
            ) {
                Err(e) => r == Err::<PinStitchingVia, PinStitchingViaError>(e),
                Ok(k) => {
                    let pad = old(self).node.item(pad_id)->0;
                    let net = item_net(pad)->0;
                    let via_id = ItemId(old(self).node.next);
                    let center = candidates@[k].center;
                    &&& r == Ok::<PinStitchingVia, PinStitchingViaError>(
                        PinStitchingVia { via_id, center },
                    )
                    &&& final(self).same_but_node(old(self))
                    &&& final(self).node.entries@ == old(self).node.entries@.push(
                        Entry { id: via_id, item: via_item(center, net, diameter, drill) },
                    ).push(
                        Entry {
                            id: ItemId((old(self).node.next + 1) as u64),
                            item: stub_item(pad, center, stub_width),
                        },
                    )
                    &&& final(self).node.next == old(self).node.next + 2
                    &&& final(self).node.revision == old(self).node.revision + 2
                },
            },
    {
        match stub_dfm {
            Some(v) => {
                return Err(PinStitchingViaError::Via(PlacementError::Dfm(v)));
            },
            None => {},
        }
        let (center, layer, net) = match self.pad_endpoint(pad_id) {
            Some(end) => end,
            None => {
                return Err(PinStitchingViaError::NotAPad);
            },
        };
        let net = match net {
            Some(net) => net,
            None => {
                return Err(PinStitchingViaError::NoNet);
            },
        };
        let ghost before = self.node.entries@;
        let mut first_err: Option<PinStitchingViaError> = None;
        let mut k: usize = 0;
        assert(candidates@.skip(0) =~= candidates@);
        while k < candidates.len()
            invariant
                *self == *old(self),
                self.wf(),
                before == self.node.entries@,
                self.node.has_room_for(2),
                candidates@.len() > 0,
                k <= candidates@.len(),
                stub_dfm is None,
                self.node.item(pad_id) matches Some(Item::Pad { shape, net: n, layer: l, .. })
                    && n == Some(net) && l == layer && shape_center(shape) == center,
                first_fit(before, *rules, net, drill, candidates@) == (match first_fit(
                    before,
                    *rules,
                    net,
                    drill,
                    candidates@.skip(k as int),
                ) {
                    Some(m) => Some(m + k),
                    None => None,
                }),
                k > 0 ==> first_err == candidate_error(before, *rules, candidates@[0], net, drill)
                    && first_err is Some,
                k == 0 ==> first_err is None,
            decreases candidates@.len() - k,
        {
            let ghost rest = candidates@.skip(k as int);
            assert(rest[0] == candidates@[k as int]);
            assert(rest.drop_first() =~= candidates@.skip(k + 1));
            let candidate = candidates[k];
            let failure = match self.check_via(
                candidate.center,
                net,
                drill,
                &candidate.via,
                rules,
            ) {
                Err(e) => Some(PinStitchingViaError::Via(e)),
                Ok(_) => if candidate.stub_clear {
                    None
                } else {
                    Some(PinStitchingViaError::NoRoomForStub)
                },
            };
            match failure {
                Some(e) => {
                    if first_err.is_none() {
                        first_err = Some(e);
                    }
                },
                None => {
                    let added = self.try_add_via(
                        candidate.center,
                        net,
                        diameter,
                        drill,
                        &candidate.via,
                        rules,
                    );
                    let via_id = match added {
                        Ok(id) => id,
                        Err(e) => {
                            return Err(PinStitchingViaError::Via(e));
                        },
                    };
                    let ghost with_via = self.node.entries@;
                    let stub = Item::Track {
                        shape: Segment::new(center, candidate.center, stub_width),
                        net: Some(net),
                        layer,
                        class: NetClass::C,
                    };
                    let stub_id = self.node.add(stub);
                    proof {
                        lemma_added_keeps_records(self, with_via, Entry { id: stub_id, item: stub });
                    }
                    return Ok(PinStitchingVia { via_id, center: candidate.center });
                },
            }
            k += 1;
        }
        match first_err {
            Some(e) => Err(e),
            None => Err(PinStitchingViaError::NotAPad),
        }
    }

    /// The first via whose copper, widened by `tolerance`, holds the point.
    pub fn via_at(&self, point: Point, tolerance: Unit) -> (r: Option<ItemId>)
        ensures
            match r {
                Some(id) => exists|i: int|
                    #![trigger self.node.entries@[i]]
                    0 <= i < self.node.entries@.len() && self.node.entries@[i].id == id && via_holds(
                        self.node.entries@[i].item,
                        point,
                        tolerance,
                    ) && forall|k: int|
                        #![trigger self.node.entries@[k]]
                        0 <= k < i ==> !via_holds(self.node.entries@[k].item, point, tolerance),
                None => forall|k: int|
                    #![trigger self.node.entries@[k]]
                    0 <= k < self.node.entries@.len() ==> !via_holds(
                        self.node.entries@[k].item,
                        point,
                        tolerance,
                    ),
            },
    {
        let mut i: usize = 0;
        while i < self.node.entries.len()
            invariant
                i <= self.node.entries@.len(),
                forall|k: int|
                    #![trigger self.node.entries@[k]]
                    0 <= k < i ==> !via_holds(self.node.entries@[k].item, point, tolerance),
            decreases self.node.entries@.len() - i,
        {
            let hit = match &self.node.entries[i].item {
                Item::Via { shape, .. } => is_within(
                    shape.center,
                    point,
                    shape.radius as i128 + tolerance as i128,
                ),
                _ => false,
            };
            if hit {
                return Some(self.node.entries[i].id);
            }
            i += 1;
        }
        None
    }
}

/// The copper of a via, widened by `tolerance`, holds the point.
pub open spec fn via_holds(item: Item, point: Point, tolerance: Unit) -> bool {
    match item {
        Item::Via { shape, .. } => within(shape.center, point, shape.radius + tolerance),
        _ => false,
    }
}

/// Where the candidates for a stitching via lie: on the circle of radius
/// `gap` around the pad, in the direction `(out_x, out_y)` turned by each of
/// `degrees` in order.
#[derive(Debug, Clone)]
pub struct StitchPlan {
    pub pad_center: Point,
    pub out_x: i128,
    pub out_y: i128,
    pub gap: i128,
    pub degrees: Vec<i32>,
}

/// A spot for a stitching via, and what was measured there: the via itself,
/// and whether the stub from the pad is clear.
#[derive(Debug, Clone, Copy, PartialEq, Eq, Structural)]
pub struct StitchCandidate {
    pub center: Point,
    pub via: ViaProbe,
    pub stub_clear: bool,
}

/// The deviations from the natural direction, in the order they are tried:
/// straight out, then ever wider to alternating sides up to a right angle.
pub open spec fn sweep() -> Seq<i32> {
    Seq::new(
        13,
        |k: int|
            if k % 2 == 1 {
                (15 * ((k + 1) / 2)) as i32
            } else {
                (-15 * (k / 2)) as i32
            },
    )
}

fn sweep_degrees() -> (r: Vec<i32>)
    ensures
        r@ == sweep(),
{
    let mut r: Vec<i32> = Vec::new();
    r.push(0);
    let mut step: i32 = 1;
    while step <= 6
        invariant
            1 <= step <= 7,
            r@ == sweep().take(2 * step - 1),
        decreases 7 - step,
    {
        r.push(15 * step);
        let wide: i32 = 15 * step;
        r.push(-wide);
        step += 1;
        assert(r@ =~= sweep().take(2 * step - 1));
    }
    assert(r@ =~= sweep());
    r
}

/// The middle of the body of the part that owns a pad; none if no part owns
/// it.
pub open spec fn body_of_pad(fps: Seq<PlacedFootprint>, pad: ItemId) -> Option<Point>
    decreases fps.len(),
{
    if fps.len() == 0 {
        None
    } else if fps[0].pad_item_ids@.contains(pad) {
        let corners = fps[0].courtyard.points@;
        if corners.len() == 0 {
            None
        } else {
            Some(
                Point {
                    x: quotient(left_of(corners) + right_of(corners), 2) as Unit,
                    y: quotient(top_of(corners) + bottom_of(corners), 2) as Unit,
                },
            )
        }
    } else {
        body_of_pad(fps.drop_first(), pad)
    }
}

/// The direction from a body's middle to a pad; along +x where there is none.
pub open spec fn outward(pad: Point, body: Option<Point>) -> (int, int) {
    match body {
        Some(c) => if pad == c {
            (1, 0)
        } else {
            (pad.x - c.x, pad.y - c.y)
        },
        None => (1, 0),
    }
}

/// What is wrong with a candidate for a stitching via.
pub open spec fn candidate_error(
    entries: Seq<Entry>,
    rules: FabRules,
    candidate: StitchCandidate,
    net: NetId,
    drill: Unit,
) -> Option<PinStitchingViaError> {
    match via_verdict(entries, rules, candidate.center, net, drill, candidate.via) {
        Err(e) => Some(PinStitchingViaError::Via(e)),
        Ok(_) => if candidate.stub_clear {
            None
        } else {
            Some(PinStitchingViaError::NoRoomForStub)
        },
    }
}

/// The first candidate that nothing is wrong with.
pub open spec fn first_fit(
    entries: Seq<Entry>,
    rules: FabRules,
    net: NetId,
    drill: Unit,
    candidates: Seq<StitchCandidate>,
) -> Option<int>
    decreases candidates.len(),
{
    if candidates.len() == 0 {
        None
    } else if candidate_error(entries, rules, candidates[0], net, drill) is None {
        Some(0)
    } else {
        match first_fit(entries, rules, net, drill, candidates.drop_first()) {
            Some(k) => Some(k + 1),
            None => None,
        }
    }
}

/// Which candidate a pin is stitched at, or why it is at none.
pub open spec fn stitch_verdict(
    entries: Seq<Entry>,
    rules: FabRules,
    pad_id: ItemId,
    drill: Unit,
    stub_dfm: Option<DfmViolation>,
    candidates: Seq<StitchCandidate>,
) -> Result<int, PinStitchingViaError> {
    match stub_dfm {
        Some(v) => Err(PinStitchingViaError::Via(PlacementError::Dfm(v))),
        None => match item_of(entries, pad_id) {
            Some(Item::Pad { net: Some(net), .. }) => match first_fit(
                entries,
                rules,
                net,
                drill,
                candidates,
            ) {
                Some(k) => Ok(k),
                None => Err(candidate_error(entries, rules, candidates[0], net, drill)->0),
            },
            Some(Item::Pad { net: None, .. }) => Err(PinStitchingViaError::NoNet),
            _ => Err(PinStitchingViaError::NotAPad),
        },
    }
}

/// The stub from a pad to its stitching via.
pub open spec fn stub_item(pad: Item, center: Point, width: Unit) -> Item {
    match pad {
        Item::Pad { shape, net, layer, .. } => Item::Track {
            shape: Segment { a: shape_center(shape), b: center, width },
            net,
            layer,
            class: NetClass::C,
        },
        _ => pad,
    }
}

} // verus!
