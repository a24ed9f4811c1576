//! Placing parts: the legality of a pose, and the operations that commit,
//! move and remove footprints.
//!
//! What a shape collides with is measured outside; the measurements arrive
//! here as plain facts about pairs of things on the board (a
//! [`PlacementProbe`]), and the rules that turn them into a verdict are
//! stated and checked here.

use vstd::prelude::*;

use crate::board_doc::{dot_disc, marker_disc, BoardDoc, FootprintId, PlacedFootprint};
use crate::dfm::{DfmViolation, FabRules};
use crate::footprint::FootprintTemplate;
use crate::geom::{circles_touch, discs_touch, Circle, Point, Polygon, Unit};
use crate::item::{shape_center, Item, ItemId, LayerId, PadShape};
use crate::text::{decimal, decimal_string};
use crate::wires::contains_id;

verus! {

/// Why a placement or a move was refused.
#[derive(Debug, Clone, Copy, PartialEq, Eq, Structural)]
pub enum PlacementError {
    /// A pad or hole leaves the board, or comes too close to its edge.
    OffBoard,
    /// So many pairs of a new pad and an existing item collide.
    Collision(usize),
    /// The part's body comes too close to another part's body.
    BodyOverlap,
    /// The part's body comes too close to the board edge.
    BodyOffBoard,
    /// A pad or the body lands on a silkscreen text.
    OverSilkText,
    /// A pad or the body lands on a silkscreen dot or a pin-1 marker.
    OverSilkDot,
    /// A surface-mount pad and a drill of another part come too close.
    LeadToHole,
    /// The item's own geometry breaks a fabrication rule.
    Dfm(DfmViolation),
}

impl PlacementError {
    /// What the error says; `rule` is the wording of the fabrication rule, in
    /// case one is broken.
    pub open spec fn text(self, rule: Seq<char>) -> Seq<char> {
        match self {
            PlacementError::OffBoard =>
                "would leave the board outline, or come closer to its edge than JLCPCB can manufacture"@,
            PlacementError::Collision(n) => "would collide with "@ + decimal(n as nat)
                + " existing pad/item(s)"@,
            PlacementError::BodyOverlap =>
                "would place bodies closer than JLCPCB's required 0.30mm assembly clearance"@,
            PlacementError::BodyOffBoard =>
                "would place the component's body within JLCPCB's required 2.5mm assembly clearance of the board edge"@,
            PlacementError::OverSilkText =>
                "would put a pad on top of (or too close to) existing silkscreen text -- JLCPCB does not print silk over exposed copper"@,
            PlacementError::OverSilkDot =>
                "would put a pad or the part's body on top of a silkscreen dot/pin-1 marker"@,
            PlacementError::LeadToHole =>
                "would place an SMD pad within JLCPCB's required 0.30mm lead-to-hole clearance of another part's drill"@,
            PlacementError::Dfm(_) => rule,
        }
    }

    pub fn message(self, rule: &str) -> (s: String)
        ensures
            s@ == self.text(rule@),
    {
        match self {
            PlacementError::OffBoard =>
                "would leave the board outline, or come closer to its edge than JLCPCB can manufacture".to_owned(),
            PlacementError::Collision(n) => {
                let mut s = "would collide with ".to_owned();
                let count = decimal_string(n as u64);
                s.append(&count);
                s.append(" existing pad/item(s)");
                s
            },
            PlacementError::BodyOverlap =>
                "would place bodies closer than JLCPCB's required 0.30mm assembly clearance".to_owned(),
            PlacementError::BodyOffBoard =>
                "would place the component's body within JLCPCB's required 2.5mm assembly clearance of the board edge".to_owned(),
            PlacementError::OverSilkText =>
                "would put a pad on top of (or too close to) existing silkscreen text -- JLCPCB does not print silk over exposed copper".to_owned(),
            PlacementError::OverSilkDot =>
                "would put a pad or the part's body on top of a silkscreen dot/pin-1 marker".to_owned(),
            PlacementError::LeadToHole =>
                "would place an SMD pad within JLCPCB's required 0.30mm lead-to-hole clearance of another part's drill".to_owned(),
            PlacementError::Dfm(_) => rule.to_owned(),
        }
    }
}

/// A template at a pose, in world space: its pads and then its holes, its
/// body, its drills, and where the pose puts the pin-1 marker it carries.
#[derive(Debug, Clone)]
pub struct PlacedShape {
    pub items: Vec<Item>,
    pub courtyard: Polygon,
    pub drills: Vec<Circle>,
    pub marker: Option<Point>,
}

/// What printed ink a shape comes too close to, by the board's own lists:
/// `texts[i]` for silk text `i`, `dots[i]` for silk dot `i`, `markers[i]` for
/// the pin-1 marker of footprint `i`.
#[derive(Debug, Clone)]
pub struct InkProbe {
    pub texts: Vec<bool>,
    pub dots: Vec<bool>,
    pub markers: Vec<bool>,
}

/// What was measured of one item of a candidate: whether it keeps its distance
/// from the board edge, which live items it collides with, and which ink it
/// comes too close to. A pour collides with nothing: it is refilled round
/// whatever stands on the board.
#[derive(Debug, Clone)]
pub struct ItemProbe {
    pub on_board: bool,
    pub hits: Vec<ItemId>,
    pub ink: InkProbe,
}

/// What was measured between a candidate and one placed footprint, where a
/// shape is a polygon: `drills[d][s]` for the footprint's drill `d` and the
/// candidate's pad `s`, `pads[d][p]` for the candidate's drill `d` and the
/// footprint's pad `p`.
#[derive(Debug, Clone)]
pub struct LeadProbe {
    pub drills: Vec<Vec<bool>>,
    pub pads: Vec<Vec<bool>>,
}

/// Everything that was measured of a candidate: item by item, against each
/// placed footprint's leads and body, and of its own body.
#[derive(Debug, Clone)]
pub struct PlacementProbe {
    pub items: Vec<ItemProbe>,
    pub leads: Vec<LeadProbe>,
    pub bodies: Vec<bool>,
    pub body_ink: InkProbe,
    pub body_on_board: bool,
}

/// The flag at place `i`; past the end nothing was measured to be hit.
pub open spec fn flag(flags: Seq<bool>, i: int) -> bool {
    0 <= i < flags.len() && flags[i]
}

/// The flag at row `i`, column `j`.
pub open spec fn flag2(rows: Seq<Vec<bool>>, i: int, j: int) -> bool {
    0 <= i < rows.len() && flag(rows[i]@, j)
}

/// The flag at place `i`; past the end nothing was measured to be hit.
pub fn flag_at(flags: &[bool], i: usize) -> (r: bool)
    ensures
        r == flag(flags@, i as int),
{
    i < flags.len() && flags[i]
}

/// The flag at row `i`, column `j`.
pub fn flag2_at(rows: &[Vec<bool>], i: usize, j: usize) -> (r: bool)
    ensures
        r == flag2(rows@, i as int, j as int),
{
    i < rows.len() && flag_at(&rows[i], j)
}

/// A pad comes closer than `clearance` to a disc: computed for a round pad,
/// measured for a polygon.
pub open spec fn pad_near_disc(
    shape: PadShape,
    disc: Circle,
    clearance: int,
    measured: bool,
) -> bool {
    match shape {
        PadShape::Circle(c) => discs_touch(disc, c, clearance),
        PadShape::Polygon { .. } => measured,
    }
}

/// Whether a pad comes closer than `clearance` to a disc.
pub fn pad_shape_hits_circle(
    shape: &PadShape,
    circle: &Circle,
    clearance: Unit,
    measured: bool,
) -> (r: bool)
    ensures
        r == pad_near_disc(*shape, *circle, clearance as int, measured),
{
    match shape {
        PadShape::Circle(c) => circles_touch(circle, c, clearance),
        PadShape::Polygon { .. } => measured,
    }
}

/// `id` belongs to one of the footprints in `excluding`.
pub open spec fn is_excluded(
    fps: Seq<PlacedFootprint>,
    excluding: Seq<FootprintId>,
    id: ItemId,
) -> bool {
    exists|f: int|
        0 <= f < fps.len() && excluding.contains((#[trigger] fps[f]).id) && (
        fps[f].pad_item_ids@.contains(id) || fps[f].hole_item_ids@.contains(id))
}

/// How many of `hits` belong to none of the footprints in `excluding`.
pub open spec fn free_hits(
    fps: Seq<PlacedFootprint>,
    excluding: Seq<FootprintId>,
    hits: Seq<ItemId>,
) -> nat
    decreases hits.len(),
{
    if hits.len() == 0 {
        0
    } else {
        free_hits(fps, excluding, hits.drop_last()) + if is_excluded(fps, excluding, hits.last()) {
            0nat
        } else {
            1
        }
    }
}

/// How many collisions there are in all, leaving out the footprints in
/// `excluding`.
pub open spec fn collisions(
    fps: Seq<PlacedFootprint>,
    excluding: Seq<FootprintId>,
    items: Seq<ItemProbe>,
) -> nat
    decreases items.len(),
{
    if items.len() == 0 {
        0
    } else {
        collisions(fps, excluding, items.drop_last()) + free_hits(
            fps,
            excluding,
            items.last().hits@,
        )
    }
}

/// How many hits were measured in all.
pub open spec fn hit_total(items: Seq<ItemProbe>) -> nat
    decreases items.len(),
{
    if items.len() == 0 {
        0
    } else {
        hit_total(items.drop_last()) + items.last().hits@.len()
    }
}

proof fn lemma_free_hits_few(
    fps: Seq<PlacedFootprint>,
    excluding: Seq<FootprintId>,
    hits: Seq<ItemId>,
)
    ensures
        free_hits(fps, excluding, hits) <= hits.len(),
    decreases hits.len(),
{
    if hits.len() > 0 {
        lemma_free_hits_few(fps, excluding, hits.drop_last());
    }
}

proof fn lemma_collisions_few(
    fps: Seq<PlacedFootprint>,
    excluding: Seq<FootprintId>,
    items: Seq<ItemProbe>,
)
    ensures
        collisions(fps, excluding, items) <= hit_total(items),
    decreases items.len(),
{
    if items.len() > 0 {
        lemma_collisions_few(fps, excluding, items.drop_last());
        lemma_free_hits_few(fps, excluding, items.last().hits@);
    }
}

proof fn lemma_hit_total_grows(items: Seq<ItemProbe>, k: int)
    requires
        0 <= k <= items.len(),
    ensures
        hit_total(items.take(k)) <= hit_total(items),
    decreases items.len(),
{
    if k < items.len() {
        assert(items.drop_last().take(k) =~= items.take(k));
        lemma_hit_total_grows(items.drop_last(), k);
    } else {
        assert(items.take(k) =~= items);
    }
}

/// Whether `id` is in the list.
pub fn contains_footprint(ids: &[FootprintId], id: FootprintId) -> (r: bool)
    ensures
        r == ids@.contains(id),
{
    let mut k: usize = 0;
    while k < ids.len()
        invariant
            k <= ids@.len(),
            forall|j: int| 0 <= j < k ==> ids@[j] != id,
        decreases ids@.len() - k,
    {
        if ids[k] == id {
            assert(ids@[k as int] == id);
            return true;
        }
        k += 1;
    }
    false
}

/// The candidate's item `s` is a surface-mount lead.
pub open spec fn is_lead(template: FootprintTemplate, items: Seq<Item>, s: int) -> bool {
    0 <= s < template.pads@.len() && s < items.len() && template.pads@[s].hole_diameter is None
        && items[s] is Pad
}

/// The shape of a pad.
pub open spec fn pad_shape(item: Item) -> PadShape
    recommends
        item is Pad,
{
    match item {
        Item::Pad { shape, .. } => shape,
        _ => arbitrary(),
    }
}

impl BoardDoc {
    /// A silk text on the side `layer` is among the ink that was hit.
    pub open spec fn hits_text(&self, layer: LayerId, ink: InkProbe) -> bool {
        exists|t: int|
            0 <= t < self.silk_texts@.len() && (#[trigger] self.silk_texts@[t]).layer == layer
                && flag(ink.texts@, t)
    }

    /// A pad on the side `layer` comes too close to a silk dot, or to the
    /// pin-1 marker of a footprint that is not in `excluding`; markers exist
    /// on the front only.
    pub open spec fn pad_over_dot(
        &self,
        shape: PadShape,
        layer: LayerId,
        ink: InkProbe,
        excluding: Seq<FootprintId>,
        clearance: int,
    ) -> bool {
        ||| exists|d: int|
            0 <= d < self.silk_dots@.len() && (#[trigger] self.silk_dots@[d]).layer == layer
                && pad_near_disc(shape, dot_disc(self.silk_dots@[d]), clearance, flag(ink.dots@, d))
        ||| layer == LayerId::FCu && exists|f: int|
            0 <= f < self.footprints@.len() && !excluding.contains(
                (#[trigger] self.footprints@[f]).id,
            ) && (marker_disc(self.footprints@[f]) matches Some(disc) && pad_near_disc(
                shape,
                disc,
                clearance,
                flag(ink.markers@, f),
            ))
    }

    /// The body covers a silk dot on the front, or the pin-1 marker of a
    /// footprint that is not in `excluding`.
    pub open spec fn body_over_dot(&self, ink: InkProbe, excluding: Seq<FootprintId>) -> bool {
        ||| exists|d: int|
            0 <= d < self.silk_dots@.len() && (#[trigger] self.silk_dots@[d]).layer == LayerId::FCu
                && flag(ink.dots@, d)
        ||| exists|f: int|
            0 <= f < self.footprints@.len() && !excluding.contains(
                (#[trigger] self.footprints@[f]).id,
            ) && self.footprints@[f].pin1_marker is Some && flag(ink.markers@, f)
    }

    /// What is wrong with one candidate item on top of printed ink.
    pub open spec fn ink_error(
        &self,
        item: Item,
        ink: InkProbe,
        rules: FabRules,
        excluding: Seq<FootprintId>,
    ) -> Option<PlacementError> {
        match item {
            Item::Pad { shape, layer, .. } => if self.hits_text(layer, ink) {
                Some(PlacementError::OverSilkText)
            } else if self.pad_over_dot(shape, layer, ink, excluding, rules.silk_to_pad as int) {
                Some(PlacementError::OverSilkDot)
            } else {
                None
            },
            _ => None,
        }
    }

    /// What is wrong with the first of the first `n` candidate items that
    /// lands on printed ink.
    pub open spec fn first_ink_error(
        &self,
        items: Seq<Item>,
        probes: Seq<ItemProbe>,
        rules: FabRules,
        excluding: Seq<FootprintId>,
        n: nat,
    ) -> Option<PlacementError>
        decreases n,
    {
        if n == 0 {
            None
        } else {
            match self.first_ink_error(items, probes, rules, excluding, (n - 1) as nat) {
                Some(e) => Some(e),
                None => self.ink_error(items[n - 1], probes[n - 1].ink, rules, excluding),
            }
        }
    }

    /// One of the candidate's leads comes too close to a drill of `fp`.
    pub open spec fn lead_near_drill_of(
        &self,
        fp: PlacedFootprint,
        template: FootprintTemplate,
        items: Seq<Item>,
        measured: Seq<Vec<bool>>,
        clearance: int,
    ) -> bool {
        exists|d: int, s: int|
            0 <= d < fp.assembly_drills@.len() && #[trigger] is_lead(template, items, s)
                && pad_near_disc(
                pad_shape(items[s]),
                #[trigger] fp.assembly_drills@[d],
                clearance,
                flag2(measured, d, s),
            )
    }

    /// A pad of `fp` that is no through-hole pad of its own, at place `p`.
    pub open spec fn is_lead_of(&self, fp: PlacedFootprint, p: int) -> bool {
        &&& 0 <= p < fp.pad_item_ids@.len()
        &&& self.node.item(fp.pad_item_ids@[p]) matches Some(item) && item is Pad && !(exists|d:
            int|
            0 <= d < fp.assembly_drills@.len() && (#[trigger] fp.assembly_drills@[d]).center
                == shape_center(pad_shape(item)))
    }

    /// One of the candidate's drills comes too close to a lead of `fp`.
    pub open spec fn drill_near_lead_of(
        &self,
        fp: PlacedFootprint,
        drills: Seq<Circle>,
        measured: Seq<Vec<bool>>,
        clearance: int,
    ) -> bool {
        exists|d: int, p: int|
            0 <= d < drills.len() && #[trigger] self.is_lead_of(fp, p) && pad_near_disc(
                pad_shape(self.node.item(fp.pad_item_ids@[p])->0),
                #[trigger] drills[d],
                clearance,
                flag2(measured, d, p),
            )
    }

    /// Some lead comes too close to a drill of another part, the candidate's
    /// to a placed part's or the other way round.
    pub open spec fn lead_to_hole(
        &self,
        template: FootprintTemplate,
        shape: PlacedShape,
        leads: Seq<LeadProbe>,
        rules: FabRules,
        excluding: Seq<FootprintId>,
    ) -> bool {
        exists|f: int|
            0 <= f < self.footprints@.len() && !excluding.contains(
                (#[trigger] self.footprints@[f]).id,
            ) && self.lead_trouble_with(f, template, shape, leads, rules)
    }

    /// Leads and drills of the candidate and of footprint `f` come too close.
    pub open spec fn lead_trouble_with(
        &self,
        f: int,
        template: FootprintTemplate,
        shape: PlacedShape,
        leads: Seq<LeadProbe>,
        rules: FabRules,
    ) -> bool {
        let measured_drills = if f < leads.len() {
            leads[f].drills@
        } else {
            Seq::empty()
        };
        let measured_pads = if f < leads.len() {
            leads[f].pads@
        } else {
            Seq::empty()
        };
        ||| self.lead_near_drill_of(
            self.footprints@[f],
            template,
            shape.items@,
            measured_drills,
            rules.lead_to_hole as int,
        )
        ||| self.drill_near_lead_of(
            self.footprints@[f],
            shape.drills@,
            measured_pads,
            rules.lead_to_hole as int,
        )
    }

    /// The body comes too close to that of a footprint not in `excluding`.
    pub open spec fn body_overlap(&self, bodies: Seq<bool>, excluding: Seq<FootprintId>) -> bool {
        exists|f: int|
            0 <= f < self.footprints@.len() && !excluding.contains(
                (#[trigger] self.footprints@[f]).id,
            ) && flag(bodies, f)
    }

    /// The verdict on a candidate: the first rule it breaks, in the order in
    /// which they are reported.
    pub open spec fn placement_verdict(
        &self,
        template: FootprintTemplate,
        shape: PlacedShape,
        probe: PlacementProbe,
        rules: FabRules,
        excluding: Seq<FootprintId>,
    ) -> Result<(), PlacementError> {
        let hits = collisions(self.footprints@, excluding, probe.items@);
        if exists|i: int| 0 <= i < probe.items@.len() && !(#[trigger] probe.items@[i]).on_board {
            Err(PlacementError::OffBoard)
        } else if hits > 0 {
            Err(PlacementError::Collision(hits as usize))
        } else {
            match self.first_ink_error(
                shape.items@,
                probe.items@,
                rules,
                excluding,
                shape.items@.len(),
            ) {
                Some(e) => Err(e),
                None => if self.lead_to_hole(template, shape, probe.leads@, rules, excluding) {
                    Err(PlacementError::LeadToHole)
                } else if self.body_overlap(probe.bodies@, excluding) {
                    Err(PlacementError::BodyOverlap)
                } else if self.hits_text(LayerId::FCu, probe.body_ink) {
                    Err(PlacementError::OverSilkText)
                } else if self.body_over_dot(probe.body_ink, excluding) {
                    Err(PlacementError::OverSilkDot)
                } else if !probe.body_on_board {
                    Err(PlacementError::BodyOffBoard)
                } else {
                    Ok(())
                },
            }
        }
    }

    /// A probe that fits a candidate: one measurement per item, and no more
    /// hits in all than can be counted.
    pub open spec fn probe_fits(shape: PlacedShape, probe: PlacementProbe) -> bool {
        &&& probe.items@.len() == shape.items@.len()
        &&& hit_total(probe.items@) <= usize::MAX
    }

    fn is_excluded_item(&self, excluding: &[FootprintId], id: ItemId) -> (r: bool)
        ensures
            r == is_excluded(self.footprints@, excluding@, id),
    {
        let mut f: usize = 0;
        while f < self.footprints.len()
            invariant
                f <= self.footprints@.len(),
                forall|k: int|
                    0 <= k < f ==> !(excluding@.contains((#[trigger] self.footprints@[k]).id) && (
                    self.footprints@[k].pad_item_ids@.contains(id)
                        || self.footprints@[k].hole_item_ids@.contains(id))),
            decreases self.footprints@.len() - f,
        {
            let fp = &self.footprints[f];
            if contains_footprint(excluding, fp.id) && (contains_id(&fp.pad_item_ids, id)
                || contains_id(&fp.hole_item_ids, id)) {
                assert(excluding@.contains(self.footprints@[f as int].id));
                return true;
            }
            f += 1;
        }
        false
    }

    fn count_free_hits(&self, excluding: &[FootprintId], hits: &[ItemId]) -> (n: usize)
        ensures
            n == free_hits(self.footprints@, excluding@, hits@),
            n <= hits@.len(),
    {
        let mut n: usize = 0;
        let mut i: usize = 0;
        while i < hits.len()
            invariant
                i <= hits@.len(),
                n <= i,
                n == free_hits(self.footprints@, excluding@, hits@.take(i as int)),
            decreases hits@.len() - i,
        {
            assert(hits@.take(i + 1).drop_last() =~= hits@.take(i as int));
            assert(hits@.take(i + 1).last() == hits@[i as int]);
            if !self.is_excluded_item(excluding, hits[i]) {
                n += 1;
            }
            i += 1;
        }
        assert(hits@.take(i as int) =~= hits@);
        n
    }

    fn lands_on_text(&self, layer: LayerId, ink: &InkProbe) -> (r: bool)
        ensures
            r == self.hits_text(layer, *ink),
    {
        let mut t: usize = 0;
        while t < self.silk_texts.len()
            invariant
                t <= self.silk_texts@.len(),
                forall|k: int|
                    0 <= k < t ==> !((#[trigger] self.silk_texts@[k]).layer == layer && flag(
                        ink.texts@,
                        k,
                    )),
            decreases self.silk_texts@.len() - t,
        {
            if self.silk_texts[t].layer == layer && flag_at(&ink.texts, t) {
                assert(self.silk_texts@[t as int].layer == layer);
                return true;
            }
            t += 1;
        }
        false
    }

    fn pad_lands_on_dot(
        &self,
        shape: &PadShape,
        layer: LayerId,
        ink: &InkProbe,
        excluding: &[FootprintId],
        clearance: Unit,
    ) -> (r: bool)
        ensures
            r == self.pad_over_dot(*shape, layer, *ink, excluding@, clearance as int),
    {
        let mut d: usize = 0;
        while d < self.silk_dots.len()
            invariant
                d <= self.silk_dots@.len(),
                forall|k: int|
                    0 <= k < d ==> !((#[trigger] self.silk_dots@[k]).layer == layer
                        && pad_near_disc(
                        *shape,
                        dot_disc(self.silk_dots@[k]),
                        clearance as int,
                        flag(ink.dots@, k),
                    )),
            decreases self.silk_dots@.len() - d,
        {
            let disc = self.silk_dots[d].circle();
            if self.silk_dots[d].layer == layer && pad_shape_hits_circle(
                shape,
                &disc,
                clearance,
                flag_at(&ink.dots, d),
            ) {
                assert(self.silk_dots@[d as int].layer == layer);
                return true;
            }
            d += 1;
        }
        if layer != LayerId::FCu {
            return false;
        }
        let mut f: usize = 0;
        while f < self.footprints.len()
            invariant
                f <= self.footprints@.len(),
                layer == LayerId::FCu,
                forall|k: int|
                    0 <= k < f ==> !(!excluding@.contains((#[trigger] self.footprints@[k]).id) && (
                    marker_disc(self.footprints@[k]) matches Some(disc) && pad_near_disc(
                        *shape,
                        disc,
                        clearance as int,
                        flag(ink.markers@, k),
                    ))),
            decreases self.footprints@.len() - f,
        {
            match self.footprints[f].pin1_marker_circle() {
                Some(disc) => {
                    if !contains_footprint(excluding, self.footprints[f].id)
                        && pad_shape_hits_circle(shape, &disc, clearance, flag_at(&ink.markers, f)) {
                        assert(!excluding@.contains(self.footprints@[f as int].id));
                        return true;
                    }
                },
                None => {},
            }
            f += 1;
        }
        false
    }

    fn body_lands_on_dot(&self, ink: &InkProbe, excluding: &[FootprintId]) -> (r: bool)
        ensures
            r == self.body_over_dot(*ink, excluding@),
    {
        let mut d: usize = 0;
        while d < self.silk_dots.len()
            invariant
                d <= self.silk_dots@.len(),
                forall|k: int|
                    0 <= k < d ==> !((#[trigger] self.silk_dots@[k]).layer == LayerId::FCu && flag(
                        ink.dots@,
                        k,
                    )),
            decreases self.silk_dots@.len() - d,
        {
            if self.silk_dots[d].layer == LayerId::FCu && flag_at(&ink.dots, d) {
                assert(self.silk_dots@[d as int].layer == LayerId::FCu);
                return true;
            }
            d += 1;
        }
        let mut f: usize = 0;
        while f < self.footprints.len()
            invariant
                f <= self.footprints@.len(),
                forall|k: int|
                    0 <= k < f ==> !(!excluding@.contains((#[trigger] self.footprints@[k]).id)
                        && self.footprints@[k].pin1_marker is Some && flag(ink.markers@, k)),
            decreases self.footprints@.len() - f,
        {
            if self.footprints[f].pin1_marker.is_some() && !contains_footprint(
                excluding,
                self.footprints[f].id,
            ) && flag_at(&ink.markers, f) {
                assert(!excluding@.contains(self.footprints@[f as int].id));
                return true;
            }
            f += 1;
        }
        false
    }

    fn body_overlaps(&self, bodies: &[bool], excluding: &[FootprintId]) -> (r: bool)
        ensures
            r == self.body_overlap(bodies@, excluding@),
    {
        let mut f: usize = 0;
        while f < self.footprints.len()
            invariant
                f <= self.footprints@.len(),
                forall|k: int|
                    0 <= k < f ==> !(!excluding@.contains((#[trigger] self.footprints@[k]).id)
                        && flag(bodies@, k)),
            decreases self.footprints@.len() - f,
        {
            if !contains_footprint(excluding, self.footprints[f].id) && flag_at(bodies, f) {
                assert(!excluding@.contains(self.footprints@[f as int].id));
                return true;
            }
            f += 1;
        }
        false
    }

    fn lead_hits_drill_of(
        &self,
        fp: &PlacedFootprint,
        template: &FootprintTemplate,
        items: &[Item],
        measured: &[Vec<bool>],
        clearance: Unit,
    ) -> (r: bool)
        ensures
            r == self.lead_near_drill_of(*fp, *template, items@, measured@, clearance as int),
    {
        let mut s: usize = 0;
        while s < template.pads.len() && s < items.len()
            invariant
                s <= template.pads@.len(),
                s <= items@.len(),
                forall|d: int, k: int|
                    0 <= d < fp.assembly_drills@.len() && k < s && #[trigger] is_lead(
                        *template,
                        items@,
                        k,
                    ) ==> !pad_near_disc(
                        pad_shape(items@[k]),
                        #[trigger] fp.assembly_drills@[d],
                        clearance as int,
                        flag2(measured@, d, k),
                    ),
            decreases items@.len() - s,
        {
            if template.pads[s].hole_diameter.is_none() {
                match &items[s] {
                    Item::Pad { shape, .. } => {
                        let mut d: usize = 0;
                        while d < fp.assembly_drills.len()
                            invariant
                                d <= fp.assembly_drills@.len(),
                                s < template.pads@.len(),
                                s < items@.len(),
                                items@[s as int] is Pad,
                                *shape == pad_shape(items@[s as int]),
                                is_lead(*template, items@, s as int),
                                forall|k: int|
                                    0 <= k < d ==> !pad_near_disc(
                                        *shape,
                                        #[trigger] fp.assembly_drills@[k],
                                        clearance as int,
                                        flag2(measured@, k, s as int),
                                    ),
                            decreases fp.assembly_drills@.len() - d,
                        {
                            if pad_shape_hits_circle(
                                shape,
                                &fp.assembly_drills[d],
                                clearance,
                                flag2_at(measured, d, s),
                            ) {
                                assert(is_lead(*template, items@, s as int));
                                assert(pad_near_disc(
                                    pad_shape(items@[s as int]),
                                    fp.assembly_drills@[d as int],
                                    clearance as int,
                                    flag2(measured@, d as int, s as int),
                                ));
                                return true;
                            }
                            d += 1;
                        }
                    },
                    _ => {},
                }
            }
            s += 1;
        }
        false
    }

    fn is_own_lead(&self, fp: &PlacedFootprint, p: usize) -> (r: bool)
        requires
            p < fp.pad_item_ids@.len(),
        ensures
            r == self.is_lead_of(*fp, p as int),
    {
        match self.node.get(fp.pad_item_ids[p]) {
            Some(Item::Pad { shape, .. }) => {
                let center = shape.center();
                let mut d: usize = 0;
                while d < fp.assembly_drills.len()
                    invariant
                        d <= fp.assembly_drills@.len(),
                        self.node.item(fp.pad_item_ids@[p as int]) matches Some(item) && item is Pad
                            && center == shape_center(pad_shape(item)),
                        forall|k: int|
                            0 <= k < d ==> (#[trigger] fp.assembly_drills@[k]).center != center,
                    decreases fp.assembly_drills@.len() - d,
                {
                    if fp.assembly_drills[d].center == center {
                        assert(fp.assembly_drills@[d as int].center == center);
                        return false;
                    }
                    d += 1;
                }
                true
            },
            _ => false,
        }
    }

    fn drill_hits_lead_of(
        &self,
        fp: &PlacedFootprint,
        drills: &[Circle],
        measured: &[Vec<bool>],
        clearance: Unit,
    ) -> (r: bool)
        ensures
            r == self.drill_near_lead_of(*fp, drills@, measured@, clearance as int),
    {
        let mut p: usize = 0;
        while p < fp.pad_item_ids.len()
            invariant
                p <= fp.pad_item_ids@.len(),
                forall|d: int, k: int|
                    0 <= d < drills@.len() && k < p && #[trigger] self.is_lead_of(*fp, k)
                        ==> !pad_near_disc(
                        pad_shape(self.node.item(fp.pad_item_ids@[k])->0),
                        #[trigger] drills@[d],
                        clearance as int,
                        flag2(measured@, d, k),
                    ),
            decreases fp.pad_item_ids@.len() - p,
        {
            if self.is_own_lead(fp, p) {
                match self.node.get(fp.pad_item_ids[p]) {
                    Some(Item::Pad { shape, .. }) => {
                        let mut d: usize = 0;
                        while d < drills.len()
                            invariant
                                d <= drills@.len(),
                                self.is_lead_of(*fp, p as int),
                                *shape == pad_shape(
                                    self.node.item(fp.pad_item_ids@[p as int])->0,
                                ),
                                forall|k: int|
                                    0 <= k < d ==> !pad_near_disc(
                                        *shape,
                                        #[trigger] drills@[k],
                                        clearance as int,
                                        flag2(measured@, k, p as int),
                                    ),
                            decreases drills@.len() - d,
                        {
                            if pad_shape_hits_circle(
                                shape,
                                &drills[d],
                                clearance,
                                flag2_at(measured, d, p),
                            ) {
                                assert(pad_near_disc(
                                    pad_shape(self.node.item(fp.pad_item_ids@[p as int])->0),
                                    drills@[d as int],
                                    clearance as int,
                                    flag2(measured@, d as int, p as int),
                                ));
                                return true;
                            }
                            d += 1;
                        }
                    },
                    _ => {},
                }
            }
            p += 1;
        }
        false
    }

    /// Whether a lead of the candidate comes too close to a drill of a placed
    /// part, or a drill of the candidate to a lead of a placed part.
    pub fn lead_to_hole_violated(
        &self,
        template: &FootprintTemplate,
        shape: &PlacedShape,
        leads: &[LeadProbe],
        rules: &FabRules,
        excluding: &[FootprintId],
    ) -> (r: bool)
        ensures
            r == self.lead_to_hole(*template, *shape, leads@, *rules, excluding@),
    {
        let mut f: usize = 0;
        while f < self.footprints.len()
            invariant
                f <= self.footprints@.len(),
                forall|k: int|
                    0 <= k < f ==> !(!excluding@.contains((#[trigger] self.footprints@[k]).id)
                        && self.lead_trouble_with(k, *template, *shape, leads@, *rules)),
            decreases self.footprints@.len() - f,
        {
            if !contains_footprint(excluding, self.footprints[f].id) {
                let fp = &self.footprints[f];
                let trouble = if f < leads.len() {
                    self.lead_hits_drill_of(
                        fp,
                        template,
                        &shape.items,
                        &leads[f].drills,
                        rules.lead_to_hole,
                    ) || self.drill_hits_lead_of(
                        fp,
                        &shape.drills,
                        &leads[f].pads,
                        rules.lead_to_hole,
                    )
                } else {
                    let none: Vec<Vec<bool>> = Vec::new();
                    assert(none@ =~= Seq::<Vec<bool>>::empty());
                    self.lead_hits_drill_of(fp, template, &shape.items, &none, rules.lead_to_hole)
                        || self.drill_hits_lead_of(fp, &shape.drills, &none, rules.lead_to_hole)
                };
                if trouble {
                    assert(!excluding@.contains(self.footprints@[f as int].id));
                    return true;
                }
            }
            f += 1;
        }
        false
    }

    /// Whether a template may stand at a pose, where the footprints in
    /// `excluding` count as lifted off the board.
    pub fn check_placement_excluding(
        &self,
        template: &FootprintTemplate,
        shape: &PlacedShape,
        probe: &PlacementProbe,
        rules: &FabRules,
        excluding: &[FootprintId],
    ) -> (r: Result<(), PlacementError>)
        requires
            BoardDoc::probe_fits(*shape, *probe),
        ensures
            r == self.placement_verdict(*template, *shape, *probe, *rules, excluding@),
            r is Ok ==> probe.body_on_board && forall|t: int|
                0 <= t < self.silk_texts@.len() && t < probe.body_ink.texts@.len() && (
                #[trigger] self.silk_texts@[t]).layer == LayerId::FCu ==> !probe.body_ink.texts@[t],
    {
        let mut colliding: usize = 0;
        let mut i: usize = 0;
        while i < probe.items.len()
            invariant
                i <= probe.items@.len(),
                hit_total(probe.items@) <= usize::MAX,
                colliding == collisions(
                    self.footprints@,
                    excluding@,
                    probe.items@.take(i as int),
                ),
                forall|k: int| 0 <= k < i ==> (#[trigger] probe.items@[k]).on_board,
            decreases probe.items@.len() - i,
        {
            if !probe.items[i].on_board {
                assert(!probe.items@[i as int].on_board);
                return Err(PlacementError::OffBoard);
            }
            proof {
                assert(probe.items@.take(i + 1).drop_last() =~= probe.items@.take(i as int));
                assert(probe.items@.take(i + 1).last() == probe.items@[i as int]);
                lemma_collisions_few(self.footprints@, excluding@, probe.items@.take(i + 1));
                lemma_hit_total_grows(probe.items@, i + 1);
            }
            colliding += self.count_free_hits(excluding, &probe.items[i].hits);
            i += 1;
        }
        assert(probe.items@.take(i as int) =~= probe.items@);
        if colliding > 0 {
            return Err(PlacementError::Collision(colliding));
        }
        let mut j: usize = 0;
        while j < shape.items.len()
            invariant
                j <= shape.items@.len(),
                probe.items@.len() == shape.items@.len(),
                self.first_ink_error(shape.items@, probe.items@, *rules, excluding@, j as nat)
                    is None,
                self.placement_verdict(*template, *shape, *probe, *rules, excluding@) == (
                match self.first_ink_error(
                    shape.items@,
                    probe.items@,
                    *rules,
                    excluding@,
                    shape.items@.len(),
                ) {
                    Some(e) => Err::<(), PlacementError>(e),
                    None => self.placement_verdict(*template, *shape, *probe, *rules, excluding@),
                }),
            decreases shape.items@.len() - j,
        {
            match &shape.items[j] {
                Item::Pad { shape: pad, layer, .. } => {
                    let ink = &probe.items[j].ink;
                    let text = self.lands_on_text(*layer, ink);
                    if text || self.pad_lands_on_dot(pad, *layer, ink, excluding, rules.silk_to_pad) {
                        let e = if text {
                            PlacementError::OverSilkText
                        } else {
                            PlacementError::OverSilkDot
                        };
                        proof {
                            self.lemma_first_ink_error_stays(
                                shape.items@,
                                probe.items@,
                                *rules,
                                excluding@,
                                (j + 1) as nat,
                                shape.items@.len(),
                            );
                        }
                        return Err(e);
                    }
                },
                _ => {},
            }
            j += 1;
        }
        if self.lead_to_hole_violated(template, shape, &probe.leads, rules, excluding) {
            return Err(PlacementError::LeadToHole);
        }
        if self.body_overlaps(&probe.bodies, excluding) {
            return Err(PlacementError::BodyOverlap);
        }
        if self.lands_on_text(LayerId::FCu, &probe.body_ink) {
            return Err(PlacementError::OverSilkText);
        }
        if self.body_lands_on_dot(&probe.body_ink, excluding) {
            return Err(PlacementError::OverSilkDot);
        }
        if !probe.body_on_board {
            return Err(PlacementError::BodyOffBoard);
        }
        Ok(())
    }

    /// The first error of a prefix is the first error of every longer one.
    proof fn lemma_first_ink_error_stays(
        &self,
        items: Seq<Item>,
        probes: Seq<ItemProbe>,
        rules: FabRules,
        excluding: Seq<FootprintId>,
        n: nat,
        m: nat,
    )
        requires
            n <= m,
            self.first_ink_error(items, probes, rules, excluding, n) is Some,
        ensures
            self.first_ink_error(items, probes, rules, excluding, m) == self.first_ink_error(
                items,
                probes,
                rules,
                excluding,
                n,
            ),
        decreases m,
    {
        if n < m {
            self.lemma_first_ink_error_stays(items, probes, rules, excluding, n, (m - 1) as nat);
        }
    }

    /// Whether a template may stand at a pose; `moving` names the footprint
    /// that is being dragged there, which does not collide with itself.
    pub fn check_placement(
        &self,
        template: &FootprintTemplate,
        shape: &PlacedShape,
        probe: &PlacementProbe,
        rules: &FabRules,
        moving: Option<FootprintId>,
    ) -> (r: Result<(), PlacementError>)
        requires
            BoardDoc::probe_fits(*shape, *probe),
        ensures
            r == self.placement_verdict(*template, *shape, *probe, *rules, lifted(moving)),
    {
        let mut excluding: Vec<FootprintId> = Vec::new();
        match moving {
            Some(id) => {
                excluding.push(id);
            },
            None => {},
        }
        assert(excluding@ =~= lifted(moving));
        self.check_placement_excluding(template, shape, probe, rules, &excluding)
    }
}

/// The footprints that count as lifted off the board during a move.
pub open spec fn lifted(moving: Option<FootprintId>) -> Seq<FootprintId> {
    match moving {
        Some(id) => seq![id],
        None => Seq::empty(),
    }
}

/// A part that is being moved never collides with itself: hits on its own pads
/// and holes do not count.
pub proof fn law_a_part_never_collides_with_itself(
    fps: Seq<PlacedFootprint>,
    f: int,
    hits: Seq<ItemId>,
)
    requires
        0 <= f < fps.len(),
        forall|h: int|
            0 <= h < hits.len() ==> fps[f].pad_item_ids@.contains(#[trigger] hits[h])
                || fps[f].hole_item_ids@.contains(hits[h]),
    ensures
        free_hits(fps, seq![fps[f].id], hits) == 0,
    decreases hits.len(),
{
    if hits.len() > 0 {
        let init = hits.drop_last();
        assert forall|h: int| 0 <= h < init.len() implies fps[f].pad_item_ids@.contains(
            #[trigger] init[h],
        ) || fps[f].hole_item_ids@.contains(init[h]) by {
            assert(init[h] == hits[h]);
        }
        law_a_part_never_collides_with_itself(fps, f, init);
        assert(seq![fps[f].id][0] == fps[f].id);
        assert(seq![fps[f].id].contains(fps[f].id));
        assert(hits[hits.len() - 1] == hits.last());
        assert(is_excluded(fps, seq![fps[f].id], hits.last()));
    }
}

} // verus!
