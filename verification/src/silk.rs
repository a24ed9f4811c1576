//! Silkscreen: free-standing texts and dots, the pin-1 markers of parts, and
//! the rules for where ink may be printed.
//!
//! What strokes and polygons touch is measured outside and arrives as plain
//! facts, place by place along the board's own lists; discs against discs are
//! computed here.

use vstd::prelude::*;

use crate::board_doc::{
    dot_disc, half, halved, marker_disc, silk_dot_ids_ok, silk_text_ids_ok, BoardDoc, FootprintId,
    Pin1Marker, PlacedFootprint, SilkDot, SilkDotId, SilkText, SilkTextId, DEFAULT_SILK_LINE_WIDTH,
    PIN1_MARKER_DIAMETER,
};
use crate::dfm::FabRules;
use crate::footprint::{larger, FootprintTemplate, PadShapeKind, PadTemplate};
use crate::geom::{
    circles_touch, closer, discs_touch, is_closer, law_discs_touch_is_symmetric, Angle, Circle, Point,
    Unit,
};
use crate::item::{Entry, Item, LayerId, PadShape};
use crate::parts::{find_pad_number, lemma_same_ids, lemma_same_owners, pad_numbered, part_at};
use crate::placement::{flag, flag_at, pad_near_disc, pad_shape_hits_circle};
use crate::text::{trim, trimmed};

verus! {

/// Why a silkscreen text was refused.
#[derive(Debug, Clone, Copy, PartialEq, Eq, Structural)]
pub enum SilkTextError {
    /// There is nothing to print.
    EmptyText,
    /// Too close to a pad on the same side.
    TooCloseToPad,
    /// Ink over the ink of another text on the same side.
    OverlapsAnotherText,
    /// Off the board, or too close to its edge.
    OffBoard,
    /// There is no such text.
    NotFound,
    /// Under the body of a part.
    UnderComponentBody,
    /// Ink over a dot or a pin-1 marker on the same side.
    OverlapsDot,
}

impl SilkTextError {
    pub open spec fn text(self) -> Seq<char> {
        match self {
            SilkTextError::EmptyText => "silk text can't be empty"@,
            SilkTextError::TooCloseToPad =>
                "too close to a pad on this side -- would print silk over copper"@,
            SilkTextError::OverlapsAnotherText => "overlaps another silk text on this side"@,
            SilkTextError::OffBoard => "would leave the board, or hug its edge too closely"@,
            SilkTextError::NotFound => "no such silk text"@,
            SilkTextError::UnderComponentBody =>
                "would print the text underneath a component's body, where it can never be read"@,
            SilkTextError::OverlapsDot => "overlaps a silkscreen dot on this side"@,
        }
    }

    pub fn message(self) -> (s: String)
        ensures
            s@ == self.text(),
    {
        match self {
            SilkTextError::EmptyText => "silk text can't be empty".to_owned(),
            SilkTextError::TooCloseToPad =>
                "too close to a pad on this side -- would print silk over copper".to_owned(),
            SilkTextError::OverlapsAnotherText =>
                "overlaps another silk text on this side".to_owned(),
            SilkTextError::OffBoard =>
                "would leave the board, or hug its edge too closely".to_owned(),
            SilkTextError::NotFound => "no such silk text".to_owned(),
            SilkTextError::UnderComponentBody =>
                "would print the text underneath a component's body, where it can never be read".to_owned(),
            SilkTextError::OverlapsDot => "overlaps a silkscreen dot on this side".to_owned(),
        }
    }
}

/// Why a silkscreen dot or a pin-1 marker was refused.
#[derive(Debug, Clone, Copy, PartialEq, Eq, Structural)]
pub enum SilkDotError {
    /// Too close to a pad on the same side.
    TooCloseToPad,
    /// Over other ink on the same side.
    OverlapsSilk,
    /// Off the board, or too close to its edge.
    OffBoard,
    /// Under the body of a part.
    UnderComponentBody,
    /// There is no such dot, or no such part.
    NotFound,
    /// No spot around pad 1 is free.
    NoRoomNearPin1,
}

impl SilkDotError {
    pub open spec fn text(self) -> Seq<char> {
        match self {
            SilkDotError::TooCloseToPad =>
                "too close to a pad on this side -- would print silk over copper"@,
            SilkDotError::OverlapsSilk =>
                "overlaps other silkscreen (a text, dot, or pin-1 marker) on this side"@,
            SilkDotError::OffBoard => "would leave the board, or hug its edge too closely"@,
            SilkDotError::UnderComponentBody =>
                "would print the dot underneath a component's body, where it can never be seen"@,
            SilkDotError::NotFound => "no such silk dot"@,
            SilkDotError::NoRoomNearPin1 =>
                "no legal spot for a pin-1 dot anywhere around this part's pad 1"@,
        }
    }

    pub fn message(self) -> (s: String)
        ensures
            s@ == self.text(),
    {
        match self {
            SilkDotError::TooCloseToPad =>
                "too close to a pad on this side -- would print silk over copper".to_owned(),
            SilkDotError::OverlapsSilk =>
                "overlaps other silkscreen (a text, dot, or pin-1 marker) on this side".to_owned(),
            SilkDotError::OffBoard =>
                "would leave the board, or hug its edge too closely".to_owned(),
            SilkDotError::UnderComponentBody =>
                "would print the dot underneath a component's body, where it can never be seen".to_owned(),
            SilkDotError::NotFound => "no such silk dot".to_owned(),
            SilkDotError::NoRoomNearPin1 =>
                "no legal spot for a pin-1 dot anywhere around this part's pad 1".to_owned(),
        }
    }
}

/// What was measured of a text's strokes: whether its box keeps its distance
/// from the board edge, and what the strokes come too close to: item `i` of
/// the world, the body and the marker of part `i`, text `i`, dot `i`.
#[derive(Debug, Clone)]
pub struct SilkTextProbe {
    pub on_board: bool,
    pub pads: Vec<bool>,
    pub bodies: Vec<bool>,
    pub texts: Vec<bool>,
    pub dots: Vec<bool>,
    pub markers: Vec<bool>,
}

/// What was measured of a dot: whether it keeps its distance from the board
/// edge, and which polygon pads, bodies and text strokes it comes too close
/// to.
#[derive(Debug, Clone)]
pub struct SilkDotProbe {
    pub on_board: bool,
    pub pads: Vec<bool>,
    pub bodies: Vec<bool>,
    pub texts: Vec<bool>,
}

/// A pad on the side `layer` is among what was hit.
pub open spec fn hits_pad(entries: Seq<Entry>, layer: LayerId, flags: Seq<bool>) -> bool {
    exists|i: int|
        0 <= i < entries.len() && ((#[trigger] entries[i]).item matches Item::Pad { layer: l, .. } && l
            == layer) && flag(flags, i)
}

/// A part's body is among what was hit.
pub open spec fn hits_body(fps: Seq<PlacedFootprint>, flags: Seq<bool>) -> bool {
    exists|f: int| 0 <= f < fps.len() && #[trigger] flag(flags, f)
}

/// A text on the side `layer`, other than `ignore`, is among what was hit.
pub open spec fn hits_other_text(
    texts: Seq<SilkText>,
    layer: LayerId,
    ignore: Option<SilkTextId>,
    flags: Seq<bool>,
) -> bool {
    exists|t: int|
        0 <= t < texts.len() && Some((#[trigger] texts[t]).id) != ignore && texts[t].layer == layer
            && flag(flags, t)
}

/// A dot or marker on the side `layer` is among what was hit.
pub open spec fn hits_round_ink(board: BoardDoc, layer: LayerId, probe: SilkTextProbe) -> bool {
    ||| exists|d: int|
        0 <= d < board.silk_dots@.len() && (#[trigger] board.silk_dots@[d]).layer == layer && flag(
            probe.dots@,
            d,
        )
    ||| layer == LayerId::FCu && exists|f: int|
        0 <= f < board.footprints@.len() && (#[trigger] board.footprints@[f]).pin1_marker is Some
            && flag(probe.markers@, f)
}

/// The verdict on a text, in the order in which it is reached.
pub open spec fn text_verdict(
    board: BoardDoc,
    layer: LayerId,
    ignore: Option<SilkTextId>,
    probe: SilkTextProbe,
) -> Result<(), SilkTextError> {
    if !probe.on_board {
        Err(SilkTextError::OffBoard)
    } else if hits_pad(board.node.entries@, layer, probe.pads@) {
        Err(SilkTextError::TooCloseToPad)
    } else if layer == LayerId::FCu && hits_body(board.footprints@, probe.bodies@) {
        Err(SilkTextError::UnderComponentBody)
    } else if hits_other_text(board.silk_texts@, layer, ignore, probe.texts@) {
        Err(SilkTextError::OverlapsAnotherText)
    } else if hits_round_ink(board, layer, probe) {
        Err(SilkTextError::OverlapsDot)
    } else {
        Ok(())
    }
}

/// The verdict on a new text: there must be something to print, and room for
/// its ink.
pub open spec fn new_text_verdict(
    board: BoardDoc,
    text: Seq<char>,
    layer: LayerId,
    probe: SilkTextProbe,
) -> Result<(), SilkTextError> {
    if trimmed(text).len() == 0 {
        Err(SilkTextError::EmptyText)
    } else {
        text_verdict(board, layer, None, probe)
    }
}

/// A dot comes too close to a pad on its side.
pub open spec fn dot_near_pad(
    entries: Seq<Entry>,
    circle: Circle,
    layer: LayerId,
    clearance: int,
    measured: Seq<bool>,
) -> bool {
    exists|i: int|
        0 <= i < entries.len() && ((#[trigger] entries[i]).item matches Item::Pad {
            shape,
            layer: l,
            ..
        } && l == layer && pad_near_disc(shape, circle, clearance, flag(measured, i)))
}

/// A dot touches another dot or marker on its side.
pub open spec fn dot_near_dot(
    board: BoardDoc,
    circle: Circle,
    layer: LayerId,
    ignore_dot: Option<SilkDotId>,
    ignore_marker_of: Option<FootprintId>,
) -> bool {
    ||| exists|d: int|
        0 <= d < board.silk_dots@.len() && (#[trigger] board.silk_dots@[d]).layer == layer && Some(
            board.silk_dots@[d].id,
        ) != ignore_dot && discs_touch(circle, dot_disc(board.silk_dots@[d]), 0)
    ||| layer == LayerId::FCu && exists|f: int|
        0 <= f < board.footprints@.len() && Some((#[trigger] board.footprints@[f]).id)
            != ignore_marker_of && (marker_disc(board.footprints@[f]) matches Some(disc)
            && discs_touch(circle, disc, 0))
}

/// The verdict on a dot, in the order in which it is reached.
pub open spec fn dot_verdict(
    board: BoardDoc,
    circle: Circle,
    layer: LayerId,
    ignore_dot: Option<SilkDotId>,
    ignore_marker_of: Option<FootprintId>,
    probe: SilkDotProbe,
    rules: FabRules,
) -> Result<(), SilkDotError> {
    if !probe.on_board {
        Err(SilkDotError::OffBoard)
    } else if dot_near_pad(
        board.node.entries@,
        circle,
        layer,
        rules.silk_to_pad as int,
        probe.pads@,
    ) {
        Err(SilkDotError::TooCloseToPad)
    } else if layer == LayerId::FCu && hits_body(board.footprints@, probe.bodies@) {
        Err(SilkDotError::UnderComponentBody)
    } else if hits_other_text(board.silk_texts@, layer, None, probe.texts@) {
        Err(SilkDotError::OverlapsSilk)
    } else if dot_near_dot(board, circle, layer, ignore_dot, ignore_marker_of) {
        Err(SilkDotError::OverlapsSilk)
    } else {
        Ok(())
    }
}

/// Where the text with this id stands.
pub open spec fn text_place(texts: Seq<SilkText>, id: SilkTextId) -> Option<int>
    decreases texts.len(),
{
    if texts.len() == 0 {
        None
    } else if texts[0].id == id {
        Some(0)
    } else {
        match text_place(texts.drop_first(), id) {
            Some(k) => Some(k + 1),
            None => None,
        }
    }
}

/// Where the dot with this id stands.
pub open spec fn dot_place(dots: Seq<SilkDot>, id: SilkDotId) -> Option<int>
    decreases dots.len(),
{
    if dots.len() == 0 {
        None
    } else if dots[0].id == id {
        Some(0)
    } else {
        match dot_place(dots.drop_first(), id) {
            Some(k) => Some(k + 1),
            None => None,
        }
    }
}

fn body_hit(count: usize, flags: &[bool]) -> (r: bool)
    ensures
        r == (exists|f: int| 0 <= f < count && #[trigger] flag(flags@, f)),
{
    let mut f: usize = 0;
    while f < count
        invariant
            f <= count,
            forall|k: int| 0 <= k < f ==> !#[trigger] flag(flags@, k),
        decreases count - f,
    {
        if flag_at(flags, f) {
            assert(flag(flags@, f as int));
            return true;
        }
        f += 1;
    }
    false
}

impl BoardDoc {
    /// Everything but the texts is as in `other`.
    pub open spec fn same_but_texts(&self, other: &BoardDoc) -> bool {
        &&& self.same_but_silk(other)
        &&& self.silk_dots == other.silk_dots
        &&& self.next_silk_dot_serial == other.next_silk_dot_serial
        &&& self.footprints == other.footprints
    }

    /// `self` is `before` with one more text, under the next serial.
    pub open spec fn has_new_text(
        &self,
        before: &BoardDoc,
        text: Seq<char>,
        position: Point,
        rotation_deg: Angle,
        layer: LayerId,
        height: Unit,
    ) -> bool {
        let new = self.silk_texts@.last();
        &&& self.same_but_texts(before)
        &&& self.next_silk_text_serial == before.next_silk_text_serial + 1
        &&& self.silk_texts@.len() == before.silk_texts@.len() + 1
        &&& self.silk_texts@.drop_last() == before.silk_texts@
        &&& new.id == SilkTextId(before.next_silk_text_serial)
        &&& new.text@ == text
        &&& new.position == position
        &&& new.rotation_deg == rotation_deg
        &&& new.layer == layer
        &&& new.height == height
        &&& new.line_width == DEFAULT_SILK_LINE_WIDTH
    }

    /// Everything but the dots is as in `other`.
    pub open spec fn same_but_dots(&self, other: &BoardDoc) -> bool {
        &&& self.same_but_silk(other)
        &&& self.silk_texts == other.silk_texts
        &&& self.next_silk_text_serial == other.next_silk_text_serial
        &&& self.footprints == other.footprints
    }

    /// Everything that carries no ink is as in `other`.
    pub open spec fn same_but_silk(&self, other: &BoardDoc) -> bool {
        &&& self.outline == other.outline
        &&& self.layer_count == other.layer_count
        &&& self.copper_weight == other.copper_weight
        &&& self.node == other.node
        &&& self.next_footprint_serial == other.next_footprint_serial
        &&& self.nets == other.nets
        &&& self.next_net_serial == other.next_net_serial
        &&& self.zones == other.zones
        &&& self.next_zone_serial == other.next_zone_serial
    }

    fn ink_hits_pad(&self, layer: LayerId, flags: &[bool]) -> (r: bool)
        ensures
            r == hits_pad(self.node.entries@, layer, flags@),
    {
        let mut i: usize = 0;
        while i < self.node.entries.len()
            invariant
                i <= self.node.entries@.len(),
                forall|k: int|
                    0 <= k < i ==> !(((#[trigger] self.node.entries@[k]).item matches Item::Pad {
                        layer: l,
                        ..
                    } && l == layer) && flag(flags@, k)),
            decreases self.node.entries@.len() - i,
        {
            let on_side = match &self.node.entries[i].item {
                Item::Pad { layer: l, .. } => *l == layer,
                _ => false,
            };
            if on_side && flag_at(flags, i) {
                assert(self.node.entries@[i as int].item matches Item::Pad { layer: l, .. } && l
                    == layer);
                return true;
            }
            i += 1;
        }
        false
    }

    fn ink_hits_text(
        &self,
        layer: LayerId,
        ignore: Option<SilkTextId>,
        flags: &[bool],
    ) -> (r: bool)
        ensures
            r == hits_other_text(self.silk_texts@, layer, ignore, flags@),
    {
        let mut t: usize = 0;
        while t < self.silk_texts.len()
            invariant
                t <= self.silk_texts@.len(),
                forall|k: int|
                    0 <= k < t ==> !(Some((#[trigger] self.silk_texts@[k]).id) != ignore
                        && self.silk_texts@[k].layer == layer && flag(flags@, k)),
            decreases self.silk_texts@.len() - t,
        {
            let ignored = match ignore {
                Some(id) => self.silk_texts[t].id == id,
                None => false,
            };
            if !ignored && self.silk_texts[t].layer == layer && flag_at(flags, t) {
                assert(self.silk_texts@[t as int].layer == layer);
                return true;
            }
            t += 1;
        }
        false
    }

    fn ink_hits_round_ink(&self, layer: LayerId, probe: &SilkTextProbe) -> (r: bool)
        ensures
            r == hits_round_ink(*self, layer, *probe),
    {
        let mut d: usize = 0;
        while d < self.silk_dots.len()
            invariant
                d <= self.silk_dots@.len(),
                forall|k: int|
                    0 <= k < d ==> !((#[trigger] self.silk_dots@[k]).layer == layer && flag(
                        probe.dots@,
                        k,
                    )),
            decreases self.silk_dots@.len() - d,
        {
            if self.silk_dots[d].layer == layer && flag_at(&probe.dots, d) {
                assert(self.silk_dots@[d as int].layer == layer);
                return true;
            }
            d += 1;
        }
        if layer != LayerId::FCu {
            return false;
        }
        let mut f: usize = 0;
        while f < self.footprints.len()
            invariant
                layer == LayerId::FCu,
                f <= self.footprints@.len(),
                forall|k: int|
                    0 <= k < f ==> !((#[trigger] self.footprints@[k]).pin1_marker is Some && flag(
                        probe.markers@,
                        k,
                    )),
            decreases self.footprints@.len() - f,
        {
            if self.footprints[f].pin1_marker.is_some() && flag_at(&probe.markers, f) {
                assert(self.footprints@[f as int].pin1_marker is Some);
                return true;
            }
            f += 1;
        }
        false
    }

    /// Whether a text on the side `layer` may be printed; `ignore` names the
    /// text that is being moved, which does not collide with itself.
    pub fn silk_text_fits(
        &self,
        layer: LayerId,
        ignore: Option<SilkTextId>,
        probe: &SilkTextProbe,
    ) -> (r: Result<(), SilkTextError>)
        ensures
            r == text_verdict(*self, layer, ignore, *probe),
    {
        if !probe.on_board {
            return Err(SilkTextError::OffBoard);
        }
        if self.ink_hits_pad(layer, &probe.pads) {
            return Err(SilkTextError::TooCloseToPad);
        }
        if layer == LayerId::FCu && body_hit(self.footprints.len(), &probe.bodies) {
            return Err(SilkTextError::UnderComponentBody);
        }
        if self.ink_hits_text(layer, ignore, &probe.texts) {
            return Err(SilkTextError::OverlapsAnotherText);
        }
        if self.ink_hits_round_ink(layer, probe) {
            return Err(SilkTextError::OverlapsDot);
        }
        Ok(())
    }

    /// Whether a new text may be printed.
    pub fn check_silk_text_placement(
        &self,
        text: &str,
        layer: LayerId,
        probe: &SilkTextProbe,
    ) -> (r: Result<(), SilkTextError>)
        ensures
            r == new_text_verdict(*self, text@, layer, *probe),
    {
        let bare = trim(text);
        if bare.as_str().is_empty() {
            return Err(SilkTextError::EmptyText);
        }
        self.silk_text_fits(layer, None, probe)
    }

    /// Prints a new text; nothing changes if it is refused.
    pub fn try_place_silk_text(
        &mut self,
        text: &str,
        position: Point,
        rotation_deg: Angle,
        layer: LayerId,
        height: Unit,
        probe: &SilkTextProbe,
    ) -> (r: Result<SilkTextId, SilkTextError>)
        requires
            old(self).wf(),
            old(self).next_silk_text_serial < usize::MAX,
        ensures
            final(self).wf(),
            match new_text_verdict(*old(self), text@, layer, *probe) {
                Ok(_) => {
                    &&& r == Ok::<SilkTextId, SilkTextError>(
                        SilkTextId(old(self).next_silk_text_serial),
                    )
                    &&& final(self).has_new_text(
                        old(self),
                        text@,
                        position,
                        rotation_deg,
                        layer,
                        height,
                    )
                },
                Err(e) => r == Err::<SilkTextId, SilkTextError>(e) && *final(self) == *old(self),
            },
    {
        match self.check_silk_text_placement(text, layer, probe) {
            Ok(_) => {},
            Err(e) => {
                return Err(e);
            },
        }
        let ghost before = self.silk_texts@;
        let id = SilkTextId(self.next_silk_text_serial);
        self.next_silk_text_serial = self.next_silk_text_serial + 1;
        self.silk_texts.push(
            SilkText {
                id,
                text: text.to_owned(),
                position,
                rotation_deg,
                layer,
                height,
                line_width: DEFAULT_SILK_LINE_WIDTH,
            },
        );
        assert(self.silk_texts@.drop_last() =~= before);
        Ok(id)
    }

    fn text_index(&self, id: SilkTextId) -> (r: Option<usize>)
        ensures
            match r {
                Some(k) => k < self.silk_texts@.len() && text_place(self.silk_texts@, id) == Some(
                    k as int,
                ) && self.silk_texts@[k as int].id == id,
                None => text_place(self.silk_texts@, id) is None,
            },
    {
        let mut i: usize = 0;
        assert(self.silk_texts@.skip(0) =~= self.silk_texts@);
        while i < self.silk_texts.len()
            invariant
                i <= self.silk_texts@.len(),
                text_place(self.silk_texts@, id) == (match text_place(
                    self.silk_texts@.skip(i as int),
                    id,
                ) {
                    Some(k) => Some(k + i),
                    None => None,
                }),
            decreases self.silk_texts@.len() - i,
        {
            assert(self.silk_texts@.skip(i as int)[0] == self.silk_texts@[i as int]);
            assert(self.silk_texts@.skip(i as int).drop_first() =~= self.silk_texts@.skip(i + 1));
            if self.silk_texts[i].id == id {
                return Some(i);
            }
            i += 1;
        }
        None
    }

    /// The verdict on changing a text in place.
    pub open spec fn text_change_verdict(
        &self,
        id: SilkTextId,
        probe: SilkTextProbe,
    ) -> Result<(), SilkTextError> {
        match text_place(self.silk_texts@, id) {
            Some(k) => text_verdict(*self, self.silk_texts@[k].layer, Some(id), probe),
            None => Err(SilkTextError::NotFound),
        }
    }

    /// Whether a text may be moved or resized as measured.
    pub fn check_silk_text_move(&self, id: SilkTextId, probe: &SilkTextProbe) -> (r: Result<
        (),
        SilkTextError,
    >)
        ensures
            r == self.text_change_verdict(id, *probe),
    {
        match self.text_index(id) {
            Some(k) => self.silk_text_fits(self.silk_texts[k].layer, Some(id), probe),
            None => Err(SilkTextError::NotFound),
        }
    }

    /// Moves and turns a text; nothing changes if it is refused.
    pub fn try_move_silk_text(
        &mut self,
        id: SilkTextId,
        position: Point,
        rotation_deg: Angle,
        probe: &SilkTextProbe,
    ) -> (r: Result<(), SilkTextError>)
        requires
            old(self).wf(),
        ensures
            final(self).wf(),
            r == old(self).text_change_verdict(id, *probe),
            r is Err ==> *final(self) == *old(self),
            r is Ok ==> {
                let k = text_place(old(self).silk_texts@, id)->0;
                &&& final(self).same_but_texts(old(self))
                &&& final(self).next_silk_text_serial == old(self).next_silk_text_serial
                &&& final(self).silk_texts@ == old(self).silk_texts@.update(
                    k,
                    SilkText { position, rotation_deg, ..old(self).silk_texts@[k] },
                )
            },
    {
        match self.check_silk_text_move(id, probe) {
            Ok(_) => {},
            Err(e) => {
                return Err(e);
            },
        }
        match self.text_index(id) {
            Some(k) => {
                let ghost before = self.silk_texts@;
                self.silk_texts[k].position = position;
                self.silk_texts[k].rotation_deg = rotation_deg;
                proof {
                    assert(self.silk_texts@ =~= before.update(
                        k as int,
                        SilkText { position, rotation_deg, ..before[k as int] },
                    ));
                    lemma_text_ids_stay(before, self.silk_texts@, self.next_silk_text_serial as int);
                }
            },
            None => {},
        }
        Ok(())
    }

    /// Changes the size of a text; nothing changes if it is refused.
    pub fn try_resize_silk_text(
        &mut self,
        id: SilkTextId,
        height: Unit,
        probe: &SilkTextProbe,
    ) -> (r: Result<(), SilkTextError>)
        requires
            old(self).wf(),
        ensures
            final(self).wf(),
            r == old(self).text_change_verdict(id, *probe),
            r is Err ==> *final(self) == *old(self),
            r is Ok ==> {
                let k = text_place(old(self).silk_texts@, id)->0;
                &&& final(self).same_but_texts(old(self))
                &&& final(self).next_silk_text_serial == old(self).next_silk_text_serial
                &&& final(self).silk_texts@ == old(self).silk_texts@.update(
                    k,
                    SilkText { height, ..old(self).silk_texts@[k] },
                )
            },
    {
        match self.check_silk_text_move(id, probe) {
            Ok(_) => {},
            Err(e) => {
                return Err(e);
            },
        }
        match self.text_index(id) {
            Some(k) => {
                let ghost before = self.silk_texts@;
                self.silk_texts[k].height = height;
                proof {
                    assert(self.silk_texts@ =~= before.update(
                        k as int,
                        SilkText { height, ..before[k as int] },
                    ));
                    lemma_text_ids_stay(before, self.silk_texts@, self.next_silk_text_serial as int);
                }
            },
            None => {},
        }
        Ok(())
    }

    /// The latest text whose box holds a click: `inside[i]` says so of text
    /// `i`.
    pub fn silk_text_at(&self, inside: &[bool]) -> (r: Option<SilkTextId>)
        ensures
            match r {
                Some(id) => exists|k: int|
                    #![trigger self.silk_texts@[k]]
                    0 <= k < self.silk_texts@.len() && self.silk_texts@[k].id == id && flag(
                        inside@,
                        k,
                    ) && forall|m: int| k < m < self.silk_texts@.len() ==> !#[trigger] flag(inside@, m),
                None => forall|m: int|
                    0 <= m < self.silk_texts@.len() ==> !#[trigger] flag(inside@, m),
            },
    {
        let mut k: usize = self.silk_texts.len();
        while k > 0
            invariant
                k <= self.silk_texts@.len(),
                forall|m: int| k <= m < self.silk_texts@.len() ==> !#[trigger] flag(inside@, m),
            decreases k,
        {
            k -= 1;
            if flag_at(inside, k) {
                return Some(self.silk_texts[k].id);
            }
        }
        None
    }

    /// Deletes a text; says whether there was one.
    pub fn remove_silk_text(&mut self, id: SilkTextId) -> (r: bool)
        requires
            old(self).wf(),
        ensures
            final(self).wf(),
            match text_place(old(self).silk_texts@, id) {
                Some(k) => {
                    &&& r
                    &&& final(self).same_but_texts(old(self))
                    &&& final(self).next_silk_text_serial == old(self).next_silk_text_serial
                    &&& final(self).silk_texts@ == old(self).silk_texts@.remove(k)
                },
                None => !r && *final(self) == *old(self),
            },
    {
        match self.text_index(id) {
            Some(k) => {
                let ghost before = self.silk_texts@;
                self.silk_texts.remove(k);
                proof {
                    lemma_text_ids_less(before, k as int, self.next_silk_text_serial as int);
                }
                true
            },
            None => false,
        }
    }

    fn dot_hits_pad(
        &self,
        circle: &Circle,
        layer: LayerId,
        clearance: Unit,
        measured: &[bool],
    ) -> (r: bool)
        ensures
            r == dot_near_pad(self.node.entries@, *circle, layer, clearance as int, measured@),
    {
        let mut i: usize = 0;
        while i < self.node.entries.len()
            invariant
                i <= self.node.entries@.len(),
                forall|k: int|
                    0 <= k < i ==> !((#[trigger] self.node.entries@[k]).item matches Item::Pad {
                        shape,
                        layer: l,
                        ..
                    } && l == layer && pad_near_disc(
                        shape,
                        *circle,
                        clearance as int,
                        flag(measured@, k),
                    )),
            decreases self.node.entries@.len() - i,
        {
            let near = match &self.node.entries[i].item {
                Item::Pad { shape, layer: l, .. } => *l == layer && pad_shape_hits_circle(
                    shape,
                    circle,
                    clearance,
                    flag_at(measured, i),
                ),
                _ => false,
            };
            if near {
                assert(self.node.entries@[i as int].item matches Item::Pad { layer: l, .. } && l
                    == layer);
                return true;
            }
            i += 1;
        }
        false
    }

    fn dot_hits_dot(
        &self,
        circle: &Circle,
        layer: LayerId,
        ignore_dot: Option<SilkDotId>,
        ignore_marker_of: Option<FootprintId>,
    ) -> (r: bool)
        ensures
            r == dot_near_dot(*self, *circle, layer, ignore_dot, ignore_marker_of),
    {
        let mut d: usize = 0;
        while d < self.silk_dots.len()
            invariant
                d <= self.silk_dots@.len(),
                forall|k: int|
                    0 <= k < d ==> !((#[trigger] self.silk_dots@[k]).layer == layer && Some(
                        self.silk_dots@[k].id,
                    ) != ignore_dot && discs_touch(*circle, dot_disc(self.silk_dots@[k]), 0)),
            decreases self.silk_dots@.len() - d,
        {
            let ignored = match ignore_dot {
                Some(id) => self.silk_dots[d].id == id,
                None => false,
            };
            let other = self.silk_dots[d].circle();
            if self.silk_dots[d].layer == layer && !ignored && circles_touch(circle, &other, 0) {
                assert(self.silk_dots@[d as int].layer == layer);
                return true;
            }
            d += 1;
        }
        if layer != LayerId::FCu {
            return false;
        }
        let mut f: usize = 0;
        while f < self.footprints.len()
            invariant
                layer == LayerId::FCu,
                f <= self.footprints@.len(),
                forall|k: int|
                    0 <= k < f ==> !(Some((#[trigger] self.footprints@[k]).id) != ignore_marker_of && (
                    marker_disc(self.footprints@[k]) matches Some(disc) && discs_touch(
                        *circle,
                        disc,
                        0,
                    ))),
            decreases self.footprints@.len() - f,
        {
            let ignored = match ignore_marker_of {
                Some(id) => self.footprints[f].id == id,
                None => false,
            };
            match self.footprints[f].pin1_marker_circle() {
                Some(other) => {
                    if !ignored && circles_touch(circle, &other, 0) {
                        assert(Some(self.footprints@[f as int].id) != ignore_marker_of);
                        return true;
                    }
                },
                None => {},
            }
            f += 1;
        }
        false
    }

    /// Whether a dot (or a marker) may be printed; the ignored dot and the
    /// ignored part's marker do not count.
    pub fn silk_circle_fits(
        &self,
        circle: &Circle,
        layer: LayerId,
        ignore_dot: Option<SilkDotId>,
        ignore_marker_of: Option<FootprintId>,
        probe: &SilkDotProbe,
        rules: &FabRules,
    ) -> (r: Result<(), SilkDotError>)
        ensures
            r == dot_verdict(*self, *circle, layer, ignore_dot, ignore_marker_of, *probe, *rules),
    {
        if !probe.on_board {
            return Err(SilkDotError::OffBoard);
        }
        if self.dot_hits_pad(circle, layer, rules.silk_to_pad, &probe.pads) {
            return Err(SilkDotError::TooCloseToPad);
        }
        if layer == LayerId::FCu && body_hit(self.footprints.len(), &probe.bodies) {
            return Err(SilkDotError::UnderComponentBody);
        }
        if self.ink_hits_text(layer, None, &probe.texts) {
            return Err(SilkDotError::OverlapsSilk);
        }
        if self.dot_hits_dot(circle, layer, ignore_dot, ignore_marker_of) {
            return Err(SilkDotError::OverlapsSilk);
        }
        Ok(())
    }

    /// Whether a new dot may be printed.
    pub fn check_silk_dot_placement(
        &self,
        position: Point,
        diameter: Unit,
        layer: LayerId,
        probe: &SilkDotProbe,
        rules: &FabRules,
    ) -> (r: Result<(), SilkDotError>)
        ensures
            r == dot_verdict(
                *self,
                disc_of(position, printable(diameter, *rules)),
                layer,
                None,
                None,
                *probe,
                *rules,
            ),
    {
        let circle = Circle::new(position, halved(printable_diameter(diameter, rules)));
        self.silk_circle_fits(&circle, layer, None, None, probe, rules)
    }

    /// Prints a new dot, at least as wide as the thinnest stroke; nothing
    /// changes if it is refused.
    pub fn try_place_silk_dot(
        &mut self,
        position: Point,
        diameter: Unit,
        layer: LayerId,
        probe: &SilkDotProbe,
        rules: &FabRules,
    ) -> (r: Result<SilkDotId, SilkDotError>)
        requires
            old(self).wf(),
            old(self).next_silk_dot_serial < usize::MAX,
        ensures
            final(self).wf(),
            r is Err ==> *final(self) == *old(self),
            r == (match dot_verdict(
                *old(self),
                disc_of(position, printable(diameter, *rules)),
                layer,
                None,
                None,
                *probe,
                *rules,
            ) {
                Err(e) => Err::<SilkDotId, SilkDotError>(e),
                Ok(_) => Ok(SilkDotId(old(self).next_silk_dot_serial)),
            }),
            r matches Ok(id) ==> {
                &&& final(self).same_but_dots(old(self))
                &&& final(self).next_silk_dot_serial == old(self).next_silk_dot_serial + 1
                &&& final(self).silk_dots@ == old(self).silk_dots@.push(
                    SilkDot { id, position, diameter: printable(diameter, *rules), layer },
                )
            },
    {
        match self.check_silk_dot_placement(position, diameter, layer, probe, rules) {
            Ok(_) => {},
            Err(e) => {
                return Err(e);
            },
        }
        let id = SilkDotId(self.next_silk_dot_serial);
        self.next_silk_dot_serial = self.next_silk_dot_serial + 1;
        self.silk_dots.push(
            SilkDot { id, position, diameter: printable_diameter(diameter, rules), layer },
        );
        Ok(id)
    }

    fn dot_index(&self, id: SilkDotId) -> (r: Option<usize>)
        ensures
            match r {
                Some(k) => k < self.silk_dots@.len() && dot_place(self.silk_dots@, id) == Some(
                    k as int,
                ) && self.silk_dots@[k as int].id == id,
                None => dot_place(self.silk_dots@, id) is None,
            },
    {
        let mut i: usize = 0;
        assert(self.silk_dots@.skip(0) =~= self.silk_dots@);
        while i < self.silk_dots.len()
            invariant
                i <= self.silk_dots@.len(),
                dot_place(self.silk_dots@, id) == (match dot_place(
                    self.silk_dots@.skip(i as int),
                    id,
                ) {
                    Some(k) => Some(k + i),
                    None => None,
                }),
            decreases self.silk_dots@.len() - i,
        {
            assert(self.silk_dots@.skip(i as int)[0] == self.silk_dots@[i as int]);
            assert(self.silk_dots@.skip(i as int).drop_first() =~= self.silk_dots@.skip(i + 1));
            if self.silk_dots[i].id == id {
                return Some(i);
            }
            i += 1;
        }
        None
    }

    /// The verdict on moving a dot.
    pub open spec fn dot_move_verdict(
        &self,
        id: SilkDotId,
        position: Point,
        probe: SilkDotProbe,
        rules: FabRules,
    ) -> Result<(), SilkDotError> {
        match dot_place(self.silk_dots@, id) {
            Some(k) => dot_verdict(
                *self,
                disc_of(position, self.silk_dots@[k].diameter),
                self.silk_dots@[k].layer,
                Some(id),
                None,
                probe,
                rules,
            ),
            None => Err(SilkDotError::NotFound),
        }
    }

    /// Whether a dot may be moved.
    pub fn check_silk_dot_move(
        &self,
        id: SilkDotId,
        position: Point,
        probe: &SilkDotProbe,
        rules: &FabRules,
    ) -> (r: Result<(), SilkDotError>)
        ensures
            r == self.dot_move_verdict(id, position, *probe, *rules),
    {
        match self.dot_index(id) {
            Some(k) => {
                let circle = Circle::new(position, halved(self.silk_dots[k].diameter));
                self.silk_circle_fits(
                    &circle,
                    self.silk_dots[k].layer,
                    Some(id),
                    None,
                    probe,
                    rules,
                )
            },
            None => Err(SilkDotError::NotFound),
        }
    }

    /// Moves a dot; nothing changes if it is refused.
    pub fn try_move_silk_dot(
        &mut self,
        id: SilkDotId,
        position: Point,
        probe: &SilkDotProbe,
        rules: &FabRules,
    ) -> (r: Result<(), SilkDotError>)
        requires
            old(self).wf(),
        ensures
            final(self).wf(),
            r == old(self).dot_move_verdict(id, position, *probe, *rules),
            r is Err ==> *final(self) == *old(self),
            r is Ok ==> {
                let k = dot_place(old(self).silk_dots@, id)->0;
                &&& final(self).same_but_dots(old(self))
                &&& final(self).next_silk_dot_serial == old(self).next_silk_dot_serial
                &&& final(self).silk_dots@ == old(self).silk_dots@.update(
                    k,
                    SilkDot { position, ..old(self).silk_dots@[k] },
                )
            },
    {
        match self.check_silk_dot_move(id, position, probe, rules) {
            Ok(_) => {},
            Err(e) => {
                return Err(e);
            },
        }
        match self.dot_index(id) {
            Some(k) => {
                let ghost before = self.silk_dots@;
                self.silk_dots[k].position = position;
                proof {
                    assert(self.silk_dots@ =~= before.update(
                        k as int,
                        SilkDot { position, ..before[k as int] },
                    ));
                    lemma_dot_ids_stay(before, self.silk_dots@, self.next_silk_dot_serial as int);
                }
            },
            None => {},
        }
        Ok(())
    }

    /// Changes the size of a dot, which never gets thinner than the thinnest
    /// stroke; nothing changes if it is refused.
    pub fn try_resize_silk_dot(
        &mut self,
        id: SilkDotId,
        diameter: Unit,
        probe: &SilkDotProbe,
        rules: &FabRules,
    ) -> (r: Result<(), SilkDotError>)
        requires
            old(self).wf(),
        ensures
            final(self).wf(),
            r is Err ==> *final(self) == *old(self),
            match dot_place(old(self).silk_dots@, id) {
                Some(k) => {
                    let was = old(self).silk_dots@[k];
                    &&& r == dot_verdict(
                        *old(self),
                        disc_of(was.position, printable(diameter, *rules)),
                        was.layer,
                        Some(id),
                        None,
                        *probe,
                        *rules,
                    )
                    &&& r is Ok ==> {
                        &&& final(self).same_but_dots(old(self))
                        &&& final(self).next_silk_dot_serial == old(self).next_silk_dot_serial
                        &&& final(self).silk_dots@ == old(self).silk_dots@.update(
                            k,
                            SilkDot { diameter: printable(diameter, *rules), ..was },
                        )
                    }
                },
                None => r == Err::<(), SilkDotError>(SilkDotError::NotFound),
            },
    {
        let k: usize = match self.dot_index(id) {
            Some(k) => k,
            None => {
                return Err(SilkDotError::NotFound);
            },
        };
        let clamped: Unit = printable_diameter(diameter, rules);
        let circle = Circle::new(self.silk_dots[k].position, halved(clamped));
        match self.silk_circle_fits(
            &circle,
            self.silk_dots[k].layer,
            Some(id),
            None,
            probe,
            rules,
        ) {
            Ok(_) => {},
            Err(e) => {
                return Err(e);
            },
        }
        let ghost before = self.silk_dots@;
        self.silk_dots[k].diameter = clamped;
        proof {
            assert(self.silk_dots@ =~= before.update(
                k as int,
                SilkDot { diameter: clamped, ..before[k as int] },
            ));
            lemma_dot_ids_stay(before, self.silk_dots@, self.next_silk_dot_serial as int);
        }
        Ok(())
    }

    /// The latest dot under a click; the smallest dots can be hit within a
    /// quarter of a millimetre.
    pub fn silk_dot_at(&self, point: Point) -> (r: Option<SilkDotId>)
        ensures
            match r {
                Some(id) => exists|k: int|
                    #![trigger self.silk_dots@[k]]
                    0 <= k < self.silk_dots@.len() && self.silk_dots@[k].id == id && dot_under(
                        self.silk_dots@[k],
                        point,
                    ) && forall|m: int|
                        #![trigger self.silk_dots@[m]]
                        k < m < self.silk_dots@.len() ==> !dot_under(self.silk_dots@[m], point),
                None => forall|m: int|
                    #![trigger self.silk_dots@[m]]
                    0 <= m < self.silk_dots@.len() ==> !dot_under(self.silk_dots@[m], point),
            },
    {
        let mut k: usize = self.silk_dots.len();
        while k > 0
            invariant
                k <= self.silk_dots@.len(),
                forall|m: int|
                    #![trigger self.silk_dots@[m]]
                    k <= m < self.silk_dots@.len() ==> !dot_under(self.silk_dots@[m], point),
            decreases k,
        {
            k -= 1;
            let radius: Unit = halved(self.silk_dots[k].diameter);
            let hit_radius: Unit = if radius >= 250_000 {
                radius
            } else {
                250_000
            };
            if is_closer(self.silk_dots[k].position, point, hit_radius as i128) {
                return Some(self.silk_dots[k].id);
            }
        }
        None
    }

    /// Deletes a dot; says whether there was one.
    pub fn remove_silk_dot(&mut self, id: SilkDotId) -> (r: bool)
        requires
            old(self).wf(),
        ensures
            final(self).wf(),
            match dot_place(old(self).silk_dots@, id) {
                Some(k) => {
                    &&& r
                    &&& final(self).same_but_dots(old(self))
                    &&& final(self).next_silk_dot_serial == old(self).next_silk_dot_serial
                    &&& final(self).silk_dots@ == old(self).silk_dots@.remove(k)
                },
                None => !r && *final(self) == *old(self),
            },
    {
        match self.dot_index(id) {
            Some(k) => {
                let ghost before = self.silk_dots@;
                self.silk_dots.remove(k);
                proof {
                    lemma_dot_ids_less(before, k as int, self.next_silk_dot_serial as int);
                }
                true
            },
            None => false,
        }
    }

    /// Turns on a part's pin-1 marker at the first candidate spot where it may
    /// be printed; nothing changes if there is none.
    pub fn try_enable_pin1_marker(
        &mut self,
        id: FootprintId,
        template: &FootprintTemplate,
        candidates: &[MarkerCandidate],
        rules: &FabRules,
    ) -> (r: Result<(), SilkDotError>)
        requires
            old(self).wf(),
        ensures
            final(self).wf(),
            r is Err ==> *final(self) == *old(self),
            r == (match part_at(old(self).footprints@, id) {
                None => Err::<(), SilkDotError>(SilkDotError::NotFound),
                Some(_) => if template.pads@.len() == 0 || first_spot(
                    *old(self),
                    id,
                    candidates@,
                    *rules,
                ) is None {
                    Err(SilkDotError::NoRoomNearPin1)
                } else {
                    Ok(())
                },
            }),
            r is Ok ==> {
                let f = part_at(old(self).footprints@, id)->0;
                let c = candidates@[first_spot(*old(self), id, candidates@, *rules)->0];
                &&& final(self).same_but_silk(old(self))
                &&& final(self).silk_texts == old(self).silk_texts
                &&& final(self).next_silk_text_serial == old(self).next_silk_text_serial
                &&& final(self).silk_dots == old(self).silk_dots
                &&& final(self).next_silk_dot_serial == old(self).next_silk_dot_serial
                &&& final(self).footprints@ == old(self).footprints@.update(
                    f,
                    PlacedFootprint {
                        pin1_marker: Some(Pin1Marker { offset: c.offset, center: c.center }),
                        ..old(self).footprints@[f]
                    },
                )
            },
    {
        let f: usize = match self.footprint_index(id) {
            Some(k) => k,
            None => {
                return Err(SilkDotError::NotFound);
            },
        };
        if template.pads.len() == 0 {
            return Err(SilkDotError::NoRoomNearPin1);
        }
        let mut k: usize = 0;
        assert(candidates@.skip(0) =~= candidates@);
        while k < candidates.len()
            invariant
                *self == *old(self),
                self.wf(),
                k <= candidates@.len(),
                f < self.footprints@.len(),
                part_at(self.footprints@, id) == Some(f as int),
                template.pads@.len() > 0,
                first_spot(*self, id, candidates@, *rules) == (match first_spot(
                    *self,
                    id,
                    candidates@.skip(k as int),
                    *rules,
                ) {
                    Some(m) => Some(m + k),
                    None => None,
                }),
            decreases candidates@.len() - k,
        {
            let ghost rest = candidates@.skip(k as int);
            assert(rest[0] == candidates@[k as int]);
            assert(rest.drop_first() =~= candidates@.skip(k + 1));
            let candidate = &candidates[k];
            let circle = Circle::new(candidate.center, PIN1_MARKER_DIAMETER / 2);
            if self.silk_circle_fits(
                &circle,
                LayerId::FCu,
                None,
                Some(id),
                &candidate.probe,
                rules,
            ).is_ok() {
                let ghost before = *self;
                self.footprints[f].pin1_marker = Some(
                    Pin1Marker { offset: candidate.offset, center: candidate.center },
                );
                proof {
                    assert(self.footprints@ =~= before.footprints@.update(
                        f as int,
                        self.footprints@[f as int],
                    ));
                    lemma_same_owners(
                        before.footprints@,
                        self.footprints@,
                        self.node.entries@,
                    );
                    lemma_same_ids(
                        before.footprints@,
                        self.footprints@,
                        self.next_footprint_serial as int,
                    );
                }
                return Ok(());
            }
            k += 1;
        }
        Err(SilkDotError::NoRoomNearPin1)
    }

    /// Turns a part's pin-1 marker off; says whether there is such a part.
    pub fn disable_pin1_marker(&mut self, id: FootprintId) -> (r: bool)
        requires
            old(self).wf(),
        ensures
            final(self).wf(),
            match part_at(old(self).footprints@, id) {
                Some(f) => {
                    &&& r
                    &&& final(self).same_but_silk(old(self))
                    &&& final(self).silk_texts == old(self).silk_texts
                    &&& final(self).next_silk_text_serial == old(self).next_silk_text_serial
                    &&& final(self).silk_dots == old(self).silk_dots
                    &&& final(self).next_silk_dot_serial == old(self).next_silk_dot_serial
                    &&& final(self).footprints@ == old(self).footprints@.update(
                        f,
                        PlacedFootprint { pin1_marker: None, ..old(self).footprints@[f] },
                    )
                },
                None => !r && *final(self) == *old(self),
            },
    {
        match self.footprint_index(id) {
            Some(f) => {
                let ghost before = *self;
                self.footprints[f].pin1_marker = None;
                proof {
                    assert(self.footprints@ =~= before.footprints@.update(
                        f as int,
                        self.footprints@[f as int],
                    ));
                    lemma_same_owners(
                        before.footprints@,
                        self.footprints@,
                        self.node.entries@,
                    );
                    lemma_same_ids(
                        before.footprints@,
                        self.footprints@,
                        self.next_footprint_serial as int,
                    );
                }
                true
            },
            None => false,
        }
    }
}

/// A spot for a pin-1 marker: its offset in the part's frame, where that is on
/// the board, and what was measured there.
#[derive(Debug, Clone)]
pub struct MarkerCandidate {
    pub offset: Point,
    pub center: Point,
    pub probe: SilkDotProbe,
}

/// The first spot where the marker of a part may be printed.
pub open spec fn first_spot(
    board: BoardDoc,
    id: FootprintId,
    candidates: Seq<MarkerCandidate>,
    rules: FabRules,
) -> Option<int>
    decreases candidates.len(),
{
    if candidates.len() == 0 {
        None
    } else if dot_verdict(
        board,
        Circle { center: candidates[0].center, radius: 200_000 },
        LayerId::FCu,
        None,
        Some(id),
        candidates[0].probe,
        rules,
    ) is Ok {
        Some(0)
    } else {
        match first_spot(board, id, candidates.drop_first(), rules) {
            Some(k) => Some(k + 1),
            None => None,
        }
    }
}

/// The directions in which a spot for a pin-1 marker is sought, in degrees:
/// `first`, then ever farther to either side of it.
pub open spec fn marker_sweep(first: int) -> Seq<int> {
    seq![
        first,
        first + 30,
        first - 30,
        first + 60,
        first - 60,
        first + 90,
        first - 90,
        first + 120,
        first - 120,
        first + 150,
        first - 150,
        first + 180,
    ]
}

/// Where spots for a pin-1 marker lie: at `distance` from the offset of pad
/// `pad`, in the direction of that offset turned by each of `degrees`. A pad
/// at the origin has no direction of its own: there the degrees count from the
/// x axis, and the search begins up and to the left.
#[derive(Debug, Clone)]
pub struct MarkerPlan {
    pub pad: usize,
    pub offset: Point,
    pub at_origin: bool,
    pub distance: i128,
    pub degrees: Vec<i32>,
}

/// Which pad a marker belongs to: the one numbered 1, else the first.
pub open spec fn pin1_of(pads: Seq<PadTemplate>) -> Option<int> {
    match pad_numbered(pads, "1"@) {
        Some(k) => Some(k),
        None => if pads.len() > 0 {
            Some(0int)
        } else {
            None
        },
    }
}

/// Whether `r` is half of the diagonal of a rectangle, rounded.
pub open spec fn is_half_diagonal(r: int, width: int, height: int) -> bool {
    &&& r >= 0
    &&& r > 0 ==> (2 * r - 1) * (2 * r - 1) <= width * width + height * height
    &&& width * width + height * height < (2 * r + 1) * (2 * r + 1)
}

/// How far the copper of a pad reaches from its centre.
pub open spec fn reach_of(pad: PadTemplate) -> int {
    match pad.shape {
        PadShapeKind::Circle => pad.radius as int,
        PadShapeKind::Rect { width, height } => choose|r: int|
            is_half_diagonal(r, width as int, height as int),
        PadShapeKind::Oval { width, height } => choose|r: int|
            is_half_diagonal(r, width as int, height as int),
    }
}

/// There is one half diagonal.
pub proof fn law_half_diagonal_is_unique(a: int, b: int, width: int, height: int)
    requires
        is_half_diagonal(a, width, height),
        is_half_diagonal(b, width, height),
    ensures
        a == b,
{
    let s = width * width + height * height;
    assert(a < b ==> false) by (nonlinear_arith)
        requires
            a >= 0,
            b > 0 ==> (2 * b - 1) * (2 * b - 1) <= s,
            s < (2 * a + 1) * (2 * a + 1),
    ;
    assert(b < a ==> false) by (nonlinear_arith)
        requires
            b >= 0,
            a > 0 ==> (2 * a - 1) * (2 * a - 1) <= s,
            s < (2 * b + 1) * (2 * b + 1),
    ;
}

fn half_diagonal(width: Unit, height: Unit) -> (r: Unit)
    ensures
        is_half_diagonal(r as int, width as int, height as int),
{
    let w: i128 = width as i128;
    let h: i128 = height as i128;
    assert(0 <= w * w <= 0x4000_0000_0000_0000_0000_0000_0000_0000) by (nonlinear_arith)
        requires
            -0x8000_0000_0000_0000 <= w <= 0x8000_0000_0000_0000,
    ;
    assert(0 <= h * h <= 0x4000_0000_0000_0000_0000_0000_0000_0000) by (nonlinear_arith)
        requires
            -0x8000_0000_0000_0000 <= h <= 0x8000_0000_0000_0000,
    ;
    let s: u128 = (w * w) as u128 + (h * h) as u128;
    let mut low: u128 = 0;
    let mut high: u128 = 0x7fff_ffff_ffff_ffff;
    assert((2 * high - 1) * (2 * high - 1) > s) by (nonlinear_arith)
        requires
            high == 0x7fff_ffff_ffff_ffff,
            s <= 0x8000_0000_0000_0000_0000_0000_0000_0000,
    ;
    while high - low > 1
        invariant
            low < high <= 0x7fff_ffff_ffff_ffff,
            low > 0 ==> (2 * low - 1) * (2 * low - 1) <= s,
            s < (2 * high - 1) * (2 * high - 1),
        decreases high - low,
    {
        let middle: u128 = low + (high - low) / 2;
        let odd: u128 = 2 * middle - 1;
        assert(0 <= odd * odd <= 0xffff_ffff_ffff_ffff_ffff_ffff_ffff_ffff) by (nonlinear_arith)
            requires
                0 <= odd <= 0xffff_ffff_ffff_ffff,
        ;
        if odd * odd <= s {
            low = middle;
        } else {
            high = middle;
        }
    }
    assert(2 * high - 1 == 2 * low + 1);
    low as Unit
}

/// How far the copper of a pad reaches from its centre.
pub fn pad_template_reach(pad: &PadTemplate) -> (r: Unit)
    ensures
        r == reach_of(*pad),
        match pad.shape {
            PadShapeKind::Circle => r == pad.radius,
            PadShapeKind::Rect { width, height } => is_half_diagonal(
                r as int,
                width as int,
                height as int,
            ),
            PadShapeKind::Oval { width, height } => is_half_diagonal(
                r as int,
                width as int,
                height as int,
            ),
        },
{
    match pad.shape {
        PadShapeKind::Circle => pad.radius,
        PadShapeKind::Rect { width, height } | PadShapeKind::Oval { width, height } => {
            let r: Unit = half_diagonal(width, height);
            proof {
                let chosen = choose|r: int| is_half_diagonal(r, width as int, height as int);
                law_half_diagonal_is_unique(r as int, chosen, width as int, height as int);
            }
            r
        },
    }
}

/// Where to look for a spot for a part's pin-1 marker; none if the part has no
/// pad.
pub fn pin1_marker_plan(template: &FootprintTemplate, rules: &FabRules) -> (r: Option<MarkerPlan>)
    ensures
        match pin1_of(template.pads@) {
            Some(k) => r matches Some(plan) && {
                &&& plan.pad == k
                &&& plan.offset == template.pads@[k].offset
                &&& plan.at_origin == (plan.offset == Point { x: 0, y: 0 })
                &&& plan.distance == reach_of(template.pads@[k]) + rules.silk_to_pad + 200_000
                    + 50_000
                &&& plan.degrees@.map_values(|d: i32| d as int) == marker_sweep(
                    if plan.at_origin {
                        -135
                    } else {
                        0
                    },
                )
            },
            None => r is None,
        },
{
    let pad: usize = match find_pad_number(&template.pads, "1") {
        Some(k) => k,
        None => if template.pads.len() > 0 {
            0
        } else {
            return None;
        },
    };
    let offset = template.pads[pad].offset;
    let reach: Unit = pad_template_reach(&template.pads[pad]);
    let distance: i128 = reach as i128 + rules.silk_to_pad as i128 + 200_000 + 50_000;
    let at_origin = offset.x == 0 && offset.y == 0;
    let first: i32 = if at_origin {
        -135
    } else {
        0
    };
    let degrees: Vec<i32> = vec![
        first,
        first + 30,
        first - 30,
        first + 60,
        first - 60,
        first + 90,
        first - 90,
        first + 120,
        first - 120,
        first + 150,
        first - 150,
        first + 180,
    ];
    assert(degrees@.map_values(|d: i32| d as int) =~= marker_sweep(first as int));
    Some(MarkerPlan { pad, offset, at_origin, distance, degrees })
}

/// A diameter that can be printed: at least that of the thinnest stroke.
pub open spec fn printable(diameter: Unit, rules: FabRules) -> Unit {
    larger(diameter as int, rules.min_silk_line_width as int) as Unit
}

fn printable_diameter(diameter: Unit, rules: &FabRules) -> (r: Unit)
    ensures
        r == printable(diameter, *rules),
{
    if diameter >= rules.min_silk_line_width {
        diameter
    } else {
        rules.min_silk_line_width
    }
}

/// The disc of a dot.
pub open spec fn disc_of(position: Point, diameter: Unit) -> Circle {
    Circle { center: position, radius: half(diameter as int) as Unit }
}

/// A click hits a dot.
pub open spec fn dot_under(dot: SilkDot, point: Point) -> bool {
    closer(dot.position, point, larger(half(dot.diameter as int), 250_000))
}

proof fn lemma_text_ids_stay(before: Seq<SilkText>, after: Seq<SilkText>, next: int)
    requires
        silk_text_ids_ok(before, next),
        after.len() == before.len(),
        forall|k: int| #![trigger after[k]] 0 <= k < after.len() ==> after[k].id == before[k].id,
    ensures
        silk_text_ids_ok(after, next),
{
    assert forall|i: int, j: int| #![trigger after[i], after[j]] 0 <= i < j < after.len() implies
        after[i].id != after[j].id by {
        assert(before[i].id != before[j].id);
    }
    assert forall|i: int| #![trigger after[i]] 0 <= i < after.len() implies after[i].id.0 < next by {
        assert(before[i].id.0 < next);
    }
}

proof fn lemma_text_ids_less(texts: Seq<SilkText>, k: int, next: int)
    requires
        silk_text_ids_ok(texts, next),
        0 <= k < texts.len(),
    ensures
        silk_text_ids_ok(texts.remove(k), next),
{
    let rest = texts.remove(k);
    assert forall|i: int, j: int| #![trigger rest[i], rest[j]] 0 <= i < j < rest.len() implies
        rest[i].id != rest[j].id by {
        let a = if i < k {
            i
        } else {
            i + 1
        };
        let b = if j < k {
            j
        } else {
            j + 1
        };
        assert(texts[a].id != texts[b].id);
    }
    assert forall|i: int| #![trigger rest[i]] 0 <= i < rest.len() implies rest[i].id.0 < next by {
        let a = if i < k {
            i
        } else {
            i + 1
        };
        assert(texts[a].id.0 < next);
    }
}

proof fn lemma_dot_ids_stay(before: Seq<SilkDot>, after: Seq<SilkDot>, next: int)
    requires
        silk_dot_ids_ok(before, next),
        after.len() == before.len(),
        forall|k: int| #![trigger after[k]] 0 <= k < after.len() ==> after[k].id == before[k].id,
    ensures
        silk_dot_ids_ok(after, next),
{
    assert forall|i: int, j: int| #![trigger after[i], after[j]] 0 <= i < j < after.len() implies
        after[i].id != after[j].id by {
        assert(before[i].id != before[j].id);
    }
    assert forall|i: int| #![trigger after[i]] 0 <= i < after.len() implies after[i].id.0 < next by {
        assert(before[i].id.0 < next);
    }
}

proof fn lemma_dot_ids_less(dots: Seq<SilkDot>, k: int, next: int)
    requires
        silk_dot_ids_ok(dots, next),
        0 <= k < dots.len(),
    ensures
        silk_dot_ids_ok(dots.remove(k), next),
{
    let rest = dots.remove(k);
    assert forall|i: int, j: int| #![trigger rest[i], rest[j]] 0 <= i < j < rest.len() implies
        rest[i].id != rest[j].id by {
        let a = if i < k {
            i
        } else {
            i + 1
        };
        let b = if j < k {
            j
        } else {
            j + 1
        };
        assert(dots[a].id != dots[b].id);
    }
    assert forall|i: int| #![trigger rest[i]] 0 <= i < rest.len() implies rest[i].id.0 < next by {
        let a = if i < k {
            i
        } else {
            i + 1
        };
        assert(dots[a].id.0 < next);
    }
}

/// A round pad and a round dot are too close to each other or not, whichever
/// of them was there first.
pub proof fn law_round_pads_and_dots_agree(pad: Circle, dot: Circle, clearance: int, measured: bool)
    ensures
        pad_near_disc(PadShape::Circle(pad), dot, clearance, measured) == discs_touch(
            pad,
            dot,
            clearance,
        ),
{
    law_discs_touch_is_symmetric(pad, dot, clearance);
}

/// A text never collides with its own ink: the verdict on moving it does not
/// depend on whether it touches where it stands now.
pub proof fn law_text_ignores_its_own_ink(
    board: BoardDoc,
    k: int,
    layer: LayerId,
    one: SilkTextProbe,
    other: SilkTextProbe,
)
    requires
        board.wf(),
        0 <= k < board.silk_texts@.len(),
        one.on_board == other.on_board,
        one.pads == other.pads,
        one.bodies == other.bodies,
        one.dots == other.dots,
        one.markers == other.markers,
        forall|t: int| t != k ==> #[trigger] flag(one.texts@, t) == flag(other.texts@, t),
    ensures
        text_verdict(board, layer, Some(board.silk_texts@[k].id), one) == text_verdict(
            board,
            layer,
            Some(board.silk_texts@[k].id),
            other,
        ),
{
    let texts = board.silk_texts@;
    let ignore = Some(texts[k].id);
    assert(hits_other_text(texts, layer, ignore, one.texts@) == hits_other_text(
        texts,
        layer,
        ignore,
        other.texts@,
    )) by {
        assert forall|t: int| 0 <= t < texts.len() && Some((#[trigger] texts[t]).id) != ignore implies
            flag(one.texts@, t) == flag(other.texts@, t) by {
        }
    }
    assert(hits_round_ink(board, layer, one) == hits_round_ink(board, layer, other));
}

/// Checking a text and printing it agree: with `checked` the answer of the
/// check and `placed` the outcome of printing on the same board, the text is
/// printed if and only if the check passes, and otherwise refused for the same
/// reason with the board as it was. Only blank text is refused as empty. A
/// printed text stands last, under an id that no other text on the board has,
/// and the other texts are as they were.
pub proof fn law_a_text_is_printed_as_checked(
    before: BoardDoc,
    after: BoardDoc,
    text: Seq<char>,
    position: Point,
    rotation_deg: Angle,
    layer: LayerId,
    height: Unit,
    probe: SilkTextProbe,
    checked: Result<(), SilkTextError>,
    placed: Result<SilkTextId, SilkTextError>,
)
    requires
        before.wf(),
        checked == new_text_verdict(before, text, layer, probe),
        match new_text_verdict(before, text, layer, probe) {
            Ok(_) => placed == Ok::<SilkTextId, SilkTextError>(
                SilkTextId(before.next_silk_text_serial),
            ) && after.has_new_text(&before, text, position, rotation_deg, layer, height),
            Err(e) => placed == Err::<SilkTextId, SilkTextError>(e) && after == before,
        },
    ensures
        placed is Ok <==> checked is Ok,
        placed matches Err(e) ==> checked == Err::<(), SilkTextError>(e) && after == before,
        checked == Err::<(), SilkTextError>(SilkTextError::EmptyText) <==> trimmed(text).len() == 0,
        placed matches Ok(id) ==> {
            &&& after.silk_texts@.len() == before.silk_texts@.len() + 1
            &&& after.silk_texts@.last().id == id
            &&& after.silk_texts@.last().text@ == text
            &&& forall|t: int|
                0 <= t < before.silk_texts@.len() ==> (#[trigger] after.silk_texts@[t])
                    == before.silk_texts@[t] && after.silk_texts@[t].id != id
            &&& after.same_but_texts(&before)
        },
{
    if placed is Ok {
        assert forall|t: int| 0 <= t < before.silk_texts@.len() implies (
        #[trigger] after.silk_texts@[t]) == before.silk_texts@[t] && after.silk_texts@[t].id
            != placed->Ok_0 by {
            assert(after.silk_texts@.drop_last()[t] == after.silk_texts@[t]);
            assert(before.silk_texts@[t].id.0 < before.next_silk_text_serial);
        }
    }
}

/// One step of a board's life, as far as text ids go: a text is printed, or
/// the serial stays. Every other operation leaves it alone.
pub open spec fn is_text_step(before: BoardDoc, after: BoardDoc) -> bool {
    ||| prints_a_text(before, after)
    ||| after.next_silk_text_serial == before.next_silk_text_serial
}

/// A text was printed.
pub open spec fn prints_a_text(before: BoardDoc, after: BoardDoc) -> bool {
    exists|text: Seq<char>, position: Point, rotation_deg: Angle, layer: LayerId, height: Unit|
        #[trigger]
        after.has_new_text(&before, text, position, rotation_deg, layer, height)
}

/// The serial of texts never falls.
proof fn lemma_text_serial_grows(history: Seq<BoardDoc>, i: int, j: int)
    requires
        0 <= i <= j < history.len(),
        forall|k: int|
            0 <= k < history.len() - 1 ==> is_text_step(#[trigger] history[k], history[k + 1]),
    ensures
        history[i].next_silk_text_serial <= history[j].next_silk_text_serial,
    decreases j - i,
{
    if i < j {
        lemma_text_serial_grows(history, i, j - 1);
        let k = j - 1;
        assert(is_text_step(history[k], history[k + 1]));
    }
}

/// The id of a text is never given again, whatever is printed, moved, edited
/// or removed in between.
pub proof fn law_a_text_id_is_never_given_again(history: Seq<BoardDoc>, i: int, j: int)
    requires
        0 <= i < j < history.len() - 1,
        forall|k: int|
            0 <= k < history.len() - 1 ==> is_text_step(#[trigger] history[k], history[k + 1]),
        prints_a_text(history[i], history[i + 1]),
        prints_a_text(history[j], history[j + 1]),
    ensures
        history[i + 1].silk_texts@.last().id != history[j + 1].silk_texts@.last().id,
{
    lemma_text_serial_grows(history, i + 1, j);
}

} // verus!
