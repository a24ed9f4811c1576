//! The board document: an outline, the world of copper items, and the
//! records of what was placed on it (footprints, nets, zones, silkscreen).
//!
//! The operations live beside it, by what they act on: `nets`, `wires`,
//! `vias`, `placement`, `silk` and `zones`.

use vstd::prelude::*;

use crate::geom::{Angle, Circle, Point, Polygon, Unit};
use crate::item::{item_of, Entry, ItemId, LayerId, NetId, Node};
use crate::text::{decimal, decimal_string, joined, same_text};

verus! {

/// How many copper layers a board has.
#[derive(Debug, Clone, Copy, PartialEq, Eq, Structural)]
pub enum LayerCount {
    One,
    Two,
}

impl LayerCount {
    /// Every layer count, in the order a menu lists them.
    pub const ALL: [LayerCount; 2] = [LayerCount::One, LayerCount::Two];

    pub open spec fn number(self) -> nat {
        match self {
            LayerCount::One => 1,
            LayerCount::Two => 2,
        }
    }

    pub fn as_u8(self) -> (n: u8)
        ensures
            n == self.number(),
    {
        match self {
            LayerCount::One => 1,
            LayerCount::Two => 2,
        }
    }

    /// The count as a menu or a command line writes it.
    pub open spec fn label_text(self) -> Seq<char> {
        decimal(self.number())
    }

    /// The count that a text stands for.
    pub open spec fn read(s: Seq<char>) -> Option<LayerCount> {
        if s == "1"@ {
            Some(LayerCount::One)
        } else if s == "2"@ {
            Some(LayerCount::Two)
        } else {
            None
        }
    }

    /// The count as a menu or a command line writes it.
    pub fn label(self) -> (s: String)
        ensures
            s@ == self.label_text(),
    {
        decimal_string(self.as_u8() as u64)
    }

    /// Reads what [`Self::label`] writes; anything else is an error that
    /// quotes the text.
    pub fn parse(s: &str) -> (r: Result<LayerCount, String>)
        ensures
            match r {
                Ok(count) => LayerCount::read(s@) == Some(count),
                Err(e) => LayerCount::read(s@) is None && e@ == "invalid layer count \""@ + s@
                    + "\" -- must be 1 or 2"@,
            },
    {
        if same_text(s, "1") {
            return Ok(LayerCount::One);
        }
        if same_text(s, "2") {
            return Ok(LayerCount::Two);
        }
        let mut e = joined("invalid layer count \"", s);
        e.append("\" -- must be 1 or 2");
        Err(e)
    }
}

impl std::str::FromStr for LayerCount {
    type Err = String;

    fn from_str(s: &str) -> (r: Result<Self, Self::Err>)
        ensures
            match r {
                Ok(count) => LayerCount::read(s@) == Some(count),
                Err(e) => LayerCount::read(s@) is None && e@ == "invalid layer count \""@ + s@
                    + "\" -- must be 1 or 2"@,
            },
    {
        LayerCount::parse(s)
    }
}

/// A layer count reads back from its own label, and from no other text.
pub proof fn law_layer_count_round_trips(count: LayerCount, text: Seq<char>)
    ensures
        LayerCount::read(text) == Some(count) <==> text == count.label_text(),
{
    reveal_strlit("1");
    reveal_strlit("2");
    assert(decimal(1) =~= "1"@);
    assert(decimal(2) =~= "2"@);
    assert("1"@[0] != "2"@[0]);
}

/// The copper thickness of the outer layers, which picks the fabrication
/// profile of the board.
#[derive(Debug, Clone, Copy, PartialEq, Eq, Structural)]
pub enum CopperWeight {
    OneOz,
    TwoOz,
}

impl CopperWeight {
    /// Every copper weight, in the order a menu lists them.
    pub const ALL: [CopperWeight; 2] = [CopperWeight::OneOz, CopperWeight::TwoOz];

    pub open spec fn ounces(self) -> nat {
        match self {
            CopperWeight::OneOz => 1,
            CopperWeight::TwoOz => 2,
        }
    }

    pub fn as_oz(self) -> (n: u8)
        ensures
            n == self.ounces(),
    {
        match self {
            CopperWeight::OneOz => 1,
            CopperWeight::TwoOz => 2,
        }
    }

    /// The weight as a menu writes it, with its unit.
    pub open spec fn label_text(self) -> Seq<char> {
        decimal(self.ounces()) + "oz"@
    }

    /// The weight that a text stands for: the bare number, or the label.
    pub open spec fn read(s: Seq<char>) -> Option<CopperWeight> {
        if s == "1"@ || s == "1oz"@ {
            Some(CopperWeight::OneOz)
        } else if s == "2"@ || s == "2oz"@ {
            Some(CopperWeight::TwoOz)
        } else {
            None
        }
    }

    /// The weight as a menu writes it, with its unit.
    pub fn label(self) -> (s: String)
        ensures
            s@ == self.label_text(),
    {
        let number = decimal_string(self.as_oz() as u64);
        joined(&number, "oz")
    }

    /// Reads a weight as a command line gives it (the bare number) or as
    /// [`Self::label`] writes it; anything else is an error that quotes the
    /// text.
    pub fn parse(s: &str) -> (r: Result<CopperWeight, String>)
        ensures
            match r {
                Ok(weight) => CopperWeight::read(s@) == Some(weight),
                Err(e) => CopperWeight::read(s@) is None && e@ == "invalid copper weight \""@ + s@
                    + "\" -- must be 1 or 2 (oz)"@,
            },
    {
        if same_text(s, "1") || same_text(s, "1oz") {
            return Ok(CopperWeight::OneOz);
        }
        if same_text(s, "2") || same_text(s, "2oz") {
            return Ok(CopperWeight::TwoOz);
        }
        let mut e = joined("invalid copper weight \"", s);
        e.append("\" -- must be 1 or 2 (oz)");
        Err(e)
    }
}

impl std::str::FromStr for CopperWeight {
    type Err = String;

    fn from_str(s: &str) -> (r: Result<Self, Self::Err>)
        ensures
            match r {
                Ok(weight) => CopperWeight::read(s@) == Some(weight),
                Err(e) => CopperWeight::read(s@) is None && e@ == "invalid copper weight \""@ + s@
                    + "\" -- must be 1 or 2 (oz)"@,
            },
    {
        CopperWeight::parse(s)
    }
}

/// A copper weight reads back from its own label and from its bare number, and
/// from no other text.
pub proof fn law_copper_weight_round_trips(weight: CopperWeight, text: Seq<char>)
    ensures
        CopperWeight::read(text) == Some(weight) <==> text == weight.label_text() || text
            == decimal(weight.ounces()),
{
    reveal_strlit("1");
    reveal_strlit("2");
    reveal_strlit("1oz");
    reveal_strlit("2oz");
    reveal_strlit("oz");
    assert(decimal(1) =~= "1"@);
    assert(decimal(2) =~= "2"@);
    assert("1"@[0] != "2"@[0]);
    assert(decimal(1) + "oz"@ =~= "1oz"@);
    assert(decimal(2) + "oz"@ =~= "2oz"@);
    assert("1oz"@[0] != "2oz"@[0]);
    assert("1"@.len() != "2oz"@.len());
    assert("2"@.len() != "1oz"@.len());
}

/// What a "new board" dialog asks for, in [`Unit`]s.
#[derive(Debug, Clone, Copy, PartialEq, Eq, Structural)]
pub struct NewBoardParams {
    pub width: Unit,
    pub height: Unit,
    pub layer_count: LayerCount,
    pub copper_weight: CopperWeight,
    pub corner_radius: Unit,
}

impl Default for NewBoardParams {
    fn default() -> (p: Self)
        ensures
            p == (NewBoardParams {
                width: 50_000_000,
                height: 30_000_000,
                layer_count: LayerCount::Two,
                copper_weight: CopperWeight::OneOz,
                corner_radius: 1_000_000,
            }),
    {
        NewBoardParams {
            width: 50_000_000,
            height: 30_000_000,
            layer_count: LayerCount::Two,
            copper_weight: CopperWeight::OneOz,
            corner_radius: 1_000_000,
        }
    }
}

impl NewBoardParams {
    /// Whether these describe a physically sane board: a positive size, and
    /// corners that do not swallow it.
    pub fn is_valid(&self) -> (r: bool)
        ensures
            r == (self.width > 0 && self.height > 0 && self.corner_radius >= 0 && self.corner_radius
                * 2 <= self.width && self.corner_radius * 2 <= self.height),
    {
        self.width > 0 && self.height > 0 && self.corner_radius >= 0 && self.corner_radius
            <= self.width / 2 && self.corner_radius <= self.height / 2
    }

    /// An empty board inside `rounded_rect`, the rectangle of this size with
    /// these corners.
    pub fn create(&self, rounded_rect: Polygon) -> (doc: BoardDoc)
        ensures
            doc.wf(),
            doc.is_empty_board(rounded_rect, self.layer_count, self.copper_weight),
    {
        NewBoardParams::board_from_outline(rounded_rect, self.layer_count, self.copper_weight)
    }

    /// An empty board inside an outline that already exists; the size and the
    /// corners asked for are ignored, the polygon is the board.
    pub fn create_with_outline(&self, outline: Polygon) -> (doc: BoardDoc)
        ensures
            doc.wf(),
            doc.is_empty_board(outline, self.layer_count, self.copper_weight),
    {
        NewBoardParams::board_from_outline(outline, self.layer_count, self.copper_weight)
    }

    fn board_from_outline(
        outline: Polygon,
        layer_count: LayerCount,
        copper_weight: CopperWeight,
    ) -> (doc: BoardDoc)
        ensures
            doc.wf(),
            doc.is_empty_board(outline, layer_count, copper_weight),
    {
        let mut outlines: Vec<Polygon> = Vec::new();
        outlines.push(outline);
        assert(outlines@ =~= seq![outline]);
        BoardDoc {
            outline: outlines,
            layer_count,
            copper_weight,
            node: Node::new(),
            footprints: Vec::new(),
            next_footprint_serial: 0,
            nets: Vec::new(),
            next_net_serial: 0,
            zones: Vec::new(),
            next_zone_serial: 0,
            silk_texts: Vec::new(),
            next_silk_text_serial: 0,
            silk_dots: Vec::new(),
            next_silk_dot_serial: 0,
        }
    }
}

/// Identifies one placed footprint.
#[derive(Debug, Clone, Copy, PartialEq, Eq, Hash, Structural)]
pub struct FootprintId(pub usize);

/// A part's pin-1 dot: where it sits in the footprint's own frame before
/// rotation, and where that puts it on the board.
#[derive(Debug, Clone, Copy, PartialEq, Eq, Structural)]
pub struct Pin1Marker {
    pub offset: Point,
    pub center: Point,
}

/// A part on the board. The pads and holes of `pad_item_ids` and
/// `hole_item_ids` stand in the order of its template; `courtyard`,
/// `assembly_drills` and the marker's centre are already in world space at
/// this position and rotation.
#[derive(Debug, Clone)]
pub struct PlacedFootprint {
    pub id: FootprintId,
    pub reference: String,
    pub template_name: String,
    pub position: Point,
    pub rotation_deg: Angle,
    pub pad_item_ids: Vec<ItemId>,
    pub hole_item_ids: Vec<ItemId>,
    pub courtyard: Polygon,
    pub assembly_drills: Vec<Circle>,
    pub pin1_marker: Option<Pin1Marker>,
}

/// Diameter of every pin-1 marker.
pub const PIN1_MARKER_DIAMETER: Unit = 400_000;

/// The printed ink of a footprint's marker.
pub open spec fn marker_disc(fp: PlacedFootprint) -> Option<Circle> {
    match fp.pin1_marker {
        Some(marker) => Some(Circle { center: marker.center, radius: 200_000 }),
        None => None,
    }
}

impl PlacedFootprint {
    /// The marker's printed ink in world space, if it is on.
    pub fn pin1_marker_circle(&self) -> (c: Option<Circle>)
        ensures
            c == marker_disc(*self),
    {
        match self.pin1_marker {
            Some(marker) => Some(Circle::new(marker.center, PIN1_MARKER_DIAMETER / 2)),
            None => None,
        }
    }
}

/// Identifies one silkscreen text.
#[derive(Debug, Clone, Copy, PartialEq, Eq, Hash, Structural)]
pub struct SilkTextId(pub usize);

/// A free-standing silkscreen text. Silk is not copper, so it is no item of
/// the board's world.
#[derive(Debug, Clone)]
pub struct SilkText {
    pub id: SilkTextId,
    pub text: String,
    pub position: Point,
    pub rotation_deg: Angle,
    pub layer: LayerId,
    pub height: Unit,
    pub line_width: Unit,
}

/// Character height of a text whose size was not chosen.
pub const DEFAULT_SILK_TEXT_HEIGHT: Unit = 1_000_000;

/// Stroke width of every new text.
pub const DEFAULT_SILK_LINE_WIDTH: Unit = 200_000;

/// Identifies one silkscreen dot.
#[derive(Debug, Clone, Copy, PartialEq, Eq, Hash, Structural)]
pub struct SilkDotId(pub usize);

/// A filled silkscreen dot.
#[derive(Debug, Clone, Copy, PartialEq, Eq, Structural)]
pub struct SilkDot {
    pub id: SilkDotId,
    pub position: Point,
    pub diameter: Unit,
    pub layer: LayerId,
}

/// Half of `n`, rounded towards zero.
pub open spec fn half(n: int) -> int {
    if n >= 0 {
        n / 2
    } else {
        -((-n) / 2)
    }
}

/// The printed ink of a dot.
pub open spec fn dot_disc(dot: SilkDot) -> Circle {
    Circle { center: dot.position, radius: half(dot.diameter as int) as Unit }
}

/// Half of `n`, rounded towards zero.
pub fn halved(n: Unit) -> (h: Unit)
    ensures
        h == half(n as int),
{
    if n >= 0 {
        n / 2
    } else if n == Unit::MIN {
        -0x4000_0000_0000_0000
    } else {
        -((-n) / 2)
    }
}

impl SilkDot {
    /// The dot's printed ink: the shape every check and renderer shares.
    pub fn circle(&self) -> (c: Circle)
        ensures
            c == dot_disc(*self),
    {
        Circle::new(self.position, halved(self.diameter))
    }
}

/// Diameter of a dot whose size was not chosen.
pub const DEFAULT_SILK_DOT_DIAMETER: Unit = 400_000;

/// Identifies one copper zone.
#[derive(Debug, Clone, Copy, PartialEq, Eq, Hash, Structural)]
pub struct ZoneId(pub usize);

/// A pour as it was drawn, and the islands its latest fill produced.
/// `filled_at_revision` is the world's revision that fill was computed
/// against.
#[derive(Debug, Clone)]
pub struct ZoneRecord {
    pub id: ZoneId,
    pub outline: Polygon,
    pub layer: LayerId,
    pub net: NetId,
    pub item_ids: Vec<ItemId>,
    pub filled_at_revision: u64,
}

/// The name of a net.
#[derive(Debug, Clone)]
pub struct NetRecord {
    pub id: NetId,
    pub name: String,
}

/// Outer diameter of a via whose size was not chosen.
pub const DEFAULT_VIA_DIAMETER: Unit = 600_000;

/// Drill of a via whose size was not chosen.
pub const DEFAULT_VIA_DRILL: Unit = 300_000;

/// A board open for editing.
#[derive(Debug, Clone)]
pub struct BoardDoc {
    pub outline: Vec<Polygon>,
    pub layer_count: LayerCount,
    pub copper_weight: CopperWeight,
    pub node: Node,
    pub footprints: Vec<PlacedFootprint>,
    pub next_footprint_serial: usize,
    pub nets: Vec<NetRecord>,
    pub next_net_serial: u32,
    pub zones: Vec<ZoneRecord>,
    pub next_zone_serial: usize,
    pub silk_texts: Vec<SilkText>,
    pub next_silk_text_serial: usize,
    pub silk_dots: Vec<SilkDot>,
    pub next_silk_dot_serial: usize,
}

/// Every footprint has its own id, none of them above `last`.
pub open spec fn footprint_ids_ok(fps: Seq<PlacedFootprint>, last: int) -> bool {
    &&& forall|i: int, j: int|
        #![trigger fps[i], fps[j]]
        0 <= i < j < fps.len() ==> fps[i].id != fps[j].id
    &&& forall|i: int| #![trigger fps[i]] 0 <= i < fps.len() ==> fps[i].id.0 <= last
}

/// Every pad id of every footprint names a live pad, every hole id a live
/// hole.
pub open spec fn footprint_items_live(fps: Seq<PlacedFootprint>, entries: Seq<Entry>) -> bool {
    &&& forall|i: int, k: int|
        #![trigger fps[i].pad_item_ids@[k]]
        0 <= i < fps.len() && 0 <= k < fps[i].pad_item_ids@.len() ==> (item_of(
            entries,
            fps[i].pad_item_ids@[k],
        ) matches Some(item) && item is Pad)
    &&& forall|i: int, k: int|
        #![trigger fps[i].hole_item_ids@[k]]
        0 <= i < fps.len() && 0 <= k < fps[i].hole_item_ids@.len() ==> (item_of(
            entries,
            fps[i].hole_item_ids@[k],
        ) matches Some(item) && item is Hole)
}

/// No pad and no hole belongs to two footprints, or twice to one.
pub open spec fn footprint_items_distinct(fps: Seq<PlacedFootprint>) -> bool {
    &&& forall|i: int, k: int, j: int, l: int|
        #![trigger fps[i].pad_item_ids@[k], fps[j].pad_item_ids@[l]]
        0 <= i < fps.len() && 0 <= k < fps[i].pad_item_ids@.len() && 0 <= j < fps.len() && 0 <= l
            < fps[j].pad_item_ids@.len() && (i != j || k != l) ==> fps[i].pad_item_ids@[k]
            != fps[j].pad_item_ids@[l]
    &&& forall|i: int, k: int, j: int, l: int|
        #![trigger fps[i].hole_item_ids@[k], fps[j].hole_item_ids@[l]]
        0 <= i < fps.len() && 0 <= k < fps[i].hole_item_ids@.len() && 0 <= j < fps.len() && 0 <= l
            < fps[j].hole_item_ids@.len() && (i != j || k != l) ==> fps[i].hole_item_ids@[k]
            != fps[j].hole_item_ids@[l]
}

/// Every net has its own id, none of them above `last`.
pub open spec fn net_ids_ok(nets: Seq<NetRecord>, last: int) -> bool {
    &&& forall|i: int, j: int|
        #![trigger nets[i], nets[j]]
        0 <= i < j < nets.len() ==> nets[i].id != nets[j].id
    &&& forall|i: int| #![trigger nets[i]] 0 <= i < nets.len() ==> nets[i].id.0 <= last
}

/// Every zone has its own id, none of them above `last`.
pub open spec fn zone_ids_ok(zones: Seq<ZoneRecord>, last: int) -> bool {
    &&& forall|i: int, j: int|
        #![trigger zones[i], zones[j]]
        0 <= i < j < zones.len() ==> zones[i].id != zones[j].id
    &&& forall|i: int| #![trigger zones[i]] 0 <= i < zones.len() ==> zones[i].id.0 <= last
}

/// Every island of every zone is live pour copper, and belongs to that zone
/// alone.
pub open spec fn zone_items_ok(zones: Seq<ZoneRecord>, entries: Seq<Entry>) -> bool {
    &&& forall|i: int, k: int|
        #![trigger zones[i].item_ids@[k]]
        0 <= i < zones.len() && 0 <= k < zones[i].item_ids@.len() ==> (item_of(
            entries,
            zones[i].item_ids@[k],
        ) matches Some(item) && item is Zone)
    &&& forall|i: int, k: int, j: int, l: int|
        #![trigger zones[i].item_ids@[k], zones[j].item_ids@[l]]
        0 <= i < zones.len() && 0 <= k < zones[i].item_ids@.len() && 0 <= j < zones.len() && 0 <= l
            < zones[j].item_ids@.len() && (i != j || k != l) ==> zones[i].item_ids@[k]
            != zones[j].item_ids@[l]
}

/// Every silk text has its own id, all of them below `next`.
pub open spec fn silk_text_ids_ok(texts: Seq<SilkText>, next: int) -> bool {
    &&& forall|i: int, j: int|
        #![trigger texts[i], texts[j]]
        0 <= i < j < texts.len() ==> texts[i].id != texts[j].id
    &&& forall|i: int| #![trigger texts[i]] 0 <= i < texts.len() ==> texts[i].id.0 < next
}

/// Every silk dot has its own id, all of them below `next`.
pub open spec fn silk_dot_ids_ok(dots: Seq<SilkDot>, next: int) -> bool {
    &&& forall|i: int, j: int|
        #![trigger dots[i], dots[j]]
        0 <= i < j < dots.len() ==> dots[i].id != dots[j].id
    &&& forall|i: int| #![trigger dots[i]] 0 <= i < dots.len() ==> dots[i].id.0 < next
}

impl BoardDoc {
    /// What every operation keeps: ids are unique and never above their
    /// counter, and every recorded pad, hole and island is live, of its kind,
    /// and owned once.
    pub open spec fn wf(&self) -> bool {
        &&& self.node.wf()
        &&& footprint_ids_ok(self.footprints@, self.next_footprint_serial as int)
        &&& footprint_items_live(self.footprints@, self.node.entries@)
        &&& footprint_items_distinct(self.footprints@)
        &&& net_ids_ok(self.nets@, self.next_net_serial as int)
        &&& zone_ids_ok(self.zones@, self.next_zone_serial as int)
        &&& zone_items_ok(self.zones@, self.node.entries@)
        &&& silk_text_ids_ok(self.silk_texts@, self.next_silk_text_serial as int)
        &&& silk_dot_ids_ok(self.silk_dots@, self.next_silk_dot_serial as int)
    }

    /// A board with nothing on it, inside one outline.
    pub open spec fn is_empty_board(
        &self,
        outline: Polygon,
        layer_count: LayerCount,
        copper_weight: CopperWeight,
    ) -> bool {
        &&& self.outline@ == seq![outline]
        &&& self.layer_count == layer_count
        &&& self.copper_weight == copper_weight
        &&& self.node.entries@.len() == 0
        &&& self.node.next == 0
        &&& self.node.revision == 0
        &&& self.footprints@.len() == 0
        &&& self.next_footprint_serial == 0
        &&& self.nets@.len() == 0
        &&& self.next_net_serial == 0
        &&& self.zones@.len() == 0
        &&& self.next_zone_serial == 0
        &&& self.silk_texts@.len() == 0
        &&& self.next_silk_text_serial == 0
        &&& self.silk_dots@.len() == 0
        &&& self.next_silk_dot_serial == 0
    }

    /// Everything but the item world is as in `other`.
    pub open spec fn same_but_node(&self, other: &BoardDoc) -> bool {
        &&& self.same_but_node_and_nets(other)
        &&& self.nets == other.nets
        &&& self.next_net_serial == other.next_net_serial
    }

    /// Everything but the item world and the nets is as in `other`.
    pub open spec fn same_but_node_and_nets(&self, other: &BoardDoc) -> bool {
        &&& self.outline == other.outline
        &&& self.layer_count == other.layer_count
        &&& self.copper_weight == other.copper_weight
        &&& self.footprints == other.footprints
        &&& self.next_footprint_serial == other.next_footprint_serial
        &&& self.zones == other.zones
        &&& self.next_zone_serial == other.next_zone_serial
        &&& self.silk_texts == other.silk_texts
        &&& self.next_silk_text_serial == other.next_silk_text_serial
        &&& self.silk_dots == other.silk_dots
        &&& self.next_silk_dot_serial == other.next_silk_dot_serial
    }
}

/// Every pad, hole and island that is live in `before` is live in `after`,
/// as the same kind of item.
pub open spec fn keeps_kinds(before: Seq<Entry>, after: Seq<Entry>) -> bool {
    forall|id: ItemId| #[trigger]
        item_of(before, id) matches Some(was) ==> {
            &&& was is Pad ==> (item_of(after, id) matches Some(is) && is is Pad)
            &&& was is Hole ==> (item_of(after, id) matches Some(is) && is is Hole)
            &&& was is Zone ==> (item_of(after, id) matches Some(is) && is is Zone)
        }
}

/// A change of the world that keeps pads, holes and islands keeps the
/// records about them in order.
pub proof fn lemma_records_carry(
    fps: Seq<PlacedFootprint>,
    zones: Seq<ZoneRecord>,
    before: Seq<Entry>,
    after: Seq<Entry>,
)
    requires
        footprint_items_live(fps, before),
        zone_items_ok(zones, before),
        keeps_kinds(before, after),
    ensures
        footprint_items_live(fps, after),
        zone_items_ok(zones, after),
{
    assert forall|i: int, k: int|
        #![trigger fps[i].pad_item_ids@[k]]
        0 <= i < fps.len() && 0 <= k < fps[i].pad_item_ids@.len() implies (item_of(
        after,
        fps[i].pad_item_ids@[k],
    ) matches Some(item) && item is Pad) by {
        assert(item_of(before, fps[i].pad_item_ids@[k]) is Some);
    }
    assert forall|i: int, k: int|
        #![trigger fps[i].hole_item_ids@[k]]
        0 <= i < fps.len() && 0 <= k < fps[i].hole_item_ids@.len() implies (item_of(
        after,
        fps[i].hole_item_ids@[k],
    ) matches Some(item) && item is Hole) by {
        assert(item_of(before, fps[i].hole_item_ids@[k]) is Some);
    }
    assert forall|i: int, k: int|
        #![trigger zones[i].item_ids@[k]]
        0 <= i < zones.len() && 0 <= k < zones[i].item_ids@.len() implies (item_of(
        after,
        zones[i].item_ids@[k],
    ) matches Some(item) && item is Zone) by {
        assert(item_of(before, zones[i].item_ids@[k]) is Some);
    }
}

} // verus!
