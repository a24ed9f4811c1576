//! What a board file for the external router holds: footprints with their real
//! pads and nets, zones with their islands, and the silkscreen.

use vstd::prelude::*;

use crate::board_doc::{
    marker_disc, BoardDoc, CopperWeight, NetRecord, PlacedFootprint, SilkDot, ZoneRecord,
};
use crate::footprint::{fits, FootprintTemplate, HoleTemplate, PadShapeKind, PadTemplate};
use crate::geom::{Angle, Point, Polygon, Segment, Unit};
use crate::item::{item_of, Entry, Item, ItemId, LayerId, NetId};
use crate::nets::auto_name;
use crate::parts::{copy_polygon, find_template, template_named};
use crate::text::{decimal_string, joined};

verus! {

/// A pad's shape as a board file writes it.
#[derive(Debug, Clone, Copy, PartialEq, Eq, Structural)]
pub enum WritePadShape {
    Circle { diameter: Unit },
    Rect { width: Unit, height: Unit },
    Oval { width: Unit, height: Unit },
}

/// How a pad is mounted.
#[derive(Debug, Clone, Copy, PartialEq, Eq, Structural)]
pub enum PadMount {
    Smd,
    ThruHole,
    NpThruHole,
}

/// A pad as a board file writes it.
#[derive(Debug, Clone)]
pub struct WritePad {
    pub number: String,
    pub offset: Point,
    pub shape: WritePadShape,
    pub rotation_deg: Angle,
    pub mount: PadMount,
    pub drill: Option<Unit>,
    pub layer: LayerId,
    pub net: Option<(u32, String)>,
}

/// A footprint as a board file writes it.
#[derive(Debug, Clone)]
pub struct WriteFootprint {
    pub reference: String,
    pub value: String,
    pub position: Point,
    pub rotation_deg: Angle,
    pub pads: Vec<WritePad>,
}

/// A zone as a board file writes it.
#[derive(Debug)]
pub struct WriteZone {
    pub outline: Polygon,
    pub layer: LayerId,
    pub net: (u32, String),
    pub islands: Vec<Polygon>,
}

/// A silkscreen stroke as a board file writes it.
#[derive(Debug, Clone, Copy, PartialEq, Eq, Structural)]
pub struct WriteSilkLine {
    pub start: Point,
    pub end: Point,
    pub width: Unit,
    pub layer: LayerId,
}

/// A silkscreen dot as a board file writes it.
#[derive(Debug, Clone, Copy, PartialEq, Eq, Structural)]
pub struct WriteSilkDot {
    pub center: Point,
    pub diameter: Unit,
    pub layer: LayerId,
}

/// The shape of a pad as it is written.
pub open spec fn shape_written(kind: PadShapeKind, radius: Unit) -> WritePadShape {
    match kind {
        PadShapeKind::Circle => WritePadShape::Circle { diameter: (radius * 2) as Unit },
        PadShapeKind::Rect { width, height } => WritePadShape::Rect { width, height },
        PadShapeKind::Oval { width, height } => WritePadShape::Oval { width, height },
    }
}

/// The shape of a pad as it is written.
pub fn write_pad_shape(kind: PadShapeKind, radius: Unit) -> (r: WritePadShape)
    requires
        kind == PadShapeKind::Circle ==> fits(radius * 2),
    ensures
        r == shape_written(kind, radius),
{
    match kind {
        PadShapeKind::Circle => WritePadShape::Circle { diameter: radius * 2 },
        PadShapeKind::Rect { width, height } => WritePadShape::Rect { width, height },
        PadShapeKind::Oval { width, height } => WritePadShape::Oval { width, height },
    }
}

/// The name under which a net is written: its own, or the one it got when it
/// was created.
pub open spec fn written_name(nets: Seq<NetRecord>, id: NetId) -> Seq<char>
    decreases nets.len(),
{
    if nets.len() == 0 {
        auto_name(id.0 as nat)
    } else if nets[0].id == id {
        nets[0].name@
    } else {
        written_name(nets.drop_first(), id)
    }
}

fn name_to_write(nets: &[NetRecord], id: NetId) -> (r: String)
    ensures
        r@ == written_name(nets@, id),
{
    let mut i: usize = 0;
    assert(nets@.skip(0) =~= nets@);
    while i < nets.len()
        invariant
            i <= nets@.len(),
            written_name(nets@, id) == written_name(nets@.skip(i as int), id),
        decreases nets@.len() - i,
    {
        assert(nets@.skip(i as int)[0] == nets@[i as int]);
        assert(nets@.skip(i as int).drop_first() =~= nets@.skip(i + 1));
        if nets[i].id == id {
            return nets[i].name.clone();
        }
        i += 1;
    }
    let number = decimal_string(id.0 as u64);
    joined("Net", &number)
}

/// The net that a live pad is written with.
pub open spec fn net_written(doc: BoardDoc, pad: ItemId) -> Option<(u32, Seq<char>)> {
    match doc.node.item(pad) {
        Some(Item::Pad { net: Some(net), .. }) => Some((net.0, written_name(doc.nets@, net))),
        _ => None,
    }
}

/// An optional net by what its name says.
pub open spec fn net_text(net: Option<(u32, String)>) -> Option<(u32, Seq<char>)> {
    match net {
        Some(n) => Some((n.0, n.1@)),
        None => None,
    }
}

/// `w` is a pad of a part as it is written.
pub open spec fn is_written_pad(
    w: WritePad,
    pad: PadTemplate,
    net: Option<(u32, Seq<char>)>,
) -> bool {
    &&& w.number@ == pad.number@
    &&& w.offset == pad.offset
    &&& w.shape == shape_written(pad.shape, pad.radius)
    &&& w.rotation_deg == pad.rotation_deg
    &&& w.mount == if pad.hole_diameter is Some {
        PadMount::ThruHole
    } else {
        PadMount::Smd
    }
    &&& w.drill == pad.hole_diameter
    &&& w.layer == pad.layer
    &&& net_text(w.net) == net
}

/// `w` is a mechanical hole of a part as it is written.
pub open spec fn is_written_hole(w: WritePad, hole: HoleTemplate) -> bool {
    &&& w.number@.len() == 0
    &&& w.offset == hole.offset
    &&& w.shape == (WritePadShape::Circle { diameter: hole.drill })
    &&& w.rotation_deg == (Angle { bits: 0 })
    &&& w.mount == PadMount::NpThruHole
    &&& w.drill == Some(hole.drill)
    &&& w.layer == LayerId::FCu
    &&& w.net is None
}

/// How many of a part's pads its template knows.
pub open spec fn pad_pairs(fp: PlacedFootprint, template: FootprintTemplate) -> int {
    if fp.pad_item_ids@.len() < template.pads@.len() {
        fp.pad_item_ids@.len() as int
    } else {
        template.pads@.len() as int
    }
}

/// `w` is a placed part as it is written: its pads with their live nets, then
/// its holes.
pub open spec fn is_written_part(
    w: WriteFootprint,
    doc: BoardDoc,
    fp: PlacedFootprint,
    template: FootprintTemplate,
) -> bool {
    let n = pad_pairs(fp, template);
    &&& w.reference@ == fp.reference@
    &&& w.value@ == template.name@
    &&& w.position == fp.position
    &&& w.rotation_deg == fp.rotation_deg
    &&& w.pads@.len() == n + template.holes@.len()
    &&& forall|k: int|
        #![trigger w.pads@[k]]
        0 <= k < n ==> is_written_pad(
            w.pads@[k],
            template.pads@[k],
            net_written(doc, fp.pad_item_ids@[k]),
        )
    &&& forall|k: int|
        #![trigger w.pads@[k]]
        n <= k < w.pads@.len() ==> is_written_hole(w.pads@[k], template.holes@[k - n])
}

/// The placed parts whose template is known.
pub open spec fn known_parts(
    fps: Seq<PlacedFootprint>,
    templates: Seq<FootprintTemplate>,
) -> Seq<PlacedFootprint>
    decreases fps.len(),
{
    if fps.len() == 0 {
        fps
    } else {
        let rest = known_parts(fps.drop_last(), templates);
        if template_named(templates, fps.last().template_name@) is Some {
            rest.push(fps.last())
        } else {
            rest
        }
    }
}

/// The diameter of every round pad can be represented.
pub open spec fn diameters_fit(templates: Seq<FootprintTemplate>) -> bool {
    forall|t: int, k: int|
        #![trigger templates[t].pads@[k]]
        0 <= t < templates.len() && 0 <= k < templates[t].pads@.len() && templates[t].pads@[k].shape
            == PadShapeKind::Circle ==> fits(templates[t].pads@[k].radius * 2)
}

fn part_to_write(doc: &BoardDoc, fp: &PlacedFootprint, template: &FootprintTemplate) -> (w:
    WriteFootprint)
    requires
        forall|k: int|
            #![trigger template.pads@[k]]
            0 <= k < template.pads@.len() && template.pads@[k].shape == PadShapeKind::Circle
                ==> fits(template.pads@[k].radius * 2),
    ensures
        is_written_part(w, *doc, *fp, *template),
{
    let n: usize = if fp.pad_item_ids.len() < template.pads.len() {
        fp.pad_item_ids.len()
    } else {
        template.pads.len()
    };
    let mut pads: Vec<WritePad> = Vec::new();
    let mut k: usize = 0;
    while k < n
        invariant
            k <= n,
            n == pad_pairs(*fp, *template),
            forall|k: int|
                #![trigger template.pads@[k]]
                0 <= k < template.pads@.len() && template.pads@[k].shape == PadShapeKind::Circle
                    ==> fits(template.pads@[k].radius * 2),
            pads@.len() == k,
            forall|m: int|
                #![trigger pads@[m]]
                0 <= m < k ==> is_written_pad(
                    pads@[m],
                    template.pads@[m],
                    net_written(*doc, fp.pad_item_ids@[m]),
                ),
        decreases n - k,
    {
        let pad = &template.pads[k];
        assert(template.pads@[k as int].shape == PadShapeKind::Circle ==> fits(
            template.pads@[k as int].radius * 2,
        ));
        let net: Option<(u32, String)> = match doc.node.get(fp.pad_item_ids[k]) {
            Some(Item::Pad { net: Some(id), .. }) => Some((id.0, name_to_write(&doc.nets, *id))),
            _ => None,
        };
        pads.push(
            WritePad {
                number: pad.number.clone(),
                offset: pad.offset,
                shape: write_pad_shape(pad.shape, pad.radius),
                rotation_deg: pad.rotation_deg,
                mount: if pad.hole_diameter.is_some() {
                    PadMount::ThruHole
                } else {
                    PadMount::Smd
                },
                drill: pad.hole_diameter,
                layer: pad.layer,
                net,
            },
        );
        k += 1;
    }
    let mut h: usize = 0;
    while h < template.holes.len()
        invariant
            h <= template.holes@.len(),
            n == pad_pairs(*fp, *template),
            pads@.len() == n + h,
            forall|m: int|
                #![trigger pads@[m]]
                0 <= m < n ==> is_written_pad(
                    pads@[m],
                    template.pads@[m],
                    net_written(*doc, fp.pad_item_ids@[m]),
                ),
            forall|m: int|
                #![trigger pads@[m]]
                n <= m < pads@.len() ==> is_written_hole(pads@[m], template.holes@[m - n]),
        decreases template.holes@.len() - h,
    {
        let hole = template.holes[h];
        pads.push(
            WritePad {
                number: String::new(),
                offset: hole.offset,
                shape: WritePadShape::Circle { diameter: hole.drill },
                rotation_deg: Angle { bits: 0 },
                mount: PadMount::NpThruHole,
                drill: Some(hole.drill),
                layer: LayerId::FCu,
                net: None,
            },
        );
        h += 1;
    }
    WriteFootprint {
        reference: fp.reference.clone(),
        value: template.name.clone(),
        position: fp.position,
        rotation_deg: fp.rotation_deg,
        pads,
    }
}

/// The placed parts as a board file writes them; a part whose template is not
/// known is left out.
pub fn build_write_footprints(doc: &BoardDoc, templates: &[FootprintTemplate]) -> (r: Vec<
    WriteFootprint,
>)
    requires
        diameters_fit(templates@),
    ensures
        r@.len() == known_parts(doc.footprints@, templates@).len(),
        forall|i: int|
            #![trigger r@[i]]
            0 <= i < r@.len() ==> {
                let fp = known_parts(doc.footprints@, templates@)[i];
                is_written_part(
                    r@[i],
                    *doc,
                    fp,
                    templates@[template_named(templates@, fp.template_name@)->0],
                )
            },
{
    let ghost fps = doc.footprints@;
    let mut r: Vec<WriteFootprint> = Vec::new();
    let mut i: usize = 0;
    while i < doc.footprints.len()
        invariant
            diameters_fit(templates@),
            fps == doc.footprints@,
            i <= fps.len(),
            r@.len() == known_parts(fps.take(i as int), templates@).len(),
            forall|m: int|
                #![trigger r@[m]]
                0 <= m < r@.len() ==> {
                    let fp = known_parts(fps.take(i as int), templates@)[m];
                    is_written_part(
                        r@[m],
                        *doc,
                        fp,
                        templates@[template_named(templates@, fp.template_name@)->0],
                    )
                },
        decreases fps.len() - i,
    {
        let ghost before = known_parts(fps.take(i as int), templates@);
        let ghost was = r@;
        proof {
            assert(fps.take(i + 1).drop_last() =~= fps.take(i as int));
            assert(fps.take(i + 1).last() == fps[i as int]);
        }
        match find_template(templates, &doc.footprints[i].template_name) {
            Some(t) => {
                proof {
                    assert forall|k: int|
                        #![trigger templates@[t as int].pads@[k]]
                        0 <= k < templates@[t as int].pads@.len()
                            && templates@[t as int].pads@[k].shape
                            == PadShapeKind::Circle implies fits(
                        templates@[t as int].pads@[k].radius * 2,
                    ) by {
                    }
                }
                let w = part_to_write(doc, &doc.footprints[i], &templates[t]);
                r.push(w);
                proof {
                    let now = known_parts(fps.take(i + 1), templates@);
                    assert forall|m: int| #![trigger r@[m]] 0 <= m < r@.len() implies ({
                        let fp = now[m];
                        is_written_part(
                            r@[m],
                            *doc,
                            fp,
                            templates@[template_named(templates@, fp.template_name@)->0],
                        )
                    }) by {
                        if m < was.len() {
                            assert(r@[m] == was[m]);
                            assert(now[m] == before[m]);
                        }
                    }
                }
            },
            None => {},
        }
        i += 1;
    }
    assert(fps.take(i as int) =~= fps);
    r
}

/// The outlines of the live islands among some items.
pub open spec fn islands_written(entries: Seq<Entry>, ids: Seq<ItemId>) -> Seq<Seq<Point>>
    decreases ids.len(),
{
    if ids.len() == 0 {
        Seq::empty()
    } else {
        let rest = islands_written(entries, ids.drop_last());
        match item_of(entries, ids.last()) {
            Some(Item::Zone { outline, .. }) => rest.push(outline.points@),
            _ => rest,
        }
    }
}

/// The corners of some polygons.
pub open spec fn corners_of_all(polygons: Seq<Polygon>) -> Seq<Seq<Point>> {
    polygons.map_values(|p: Polygon| p.points@)
}

/// `w` is a zone as it is written.
pub open spec fn is_written_zone(w: WriteZone, doc: BoardDoc, zone: ZoneRecord) -> bool {
    &&& w.outline.points@ == zone.outline.points@
    &&& w.layer == zone.layer
    &&& w.net.0 == zone.net.0
    &&& w.net.1@ == written_name(doc.nets@, zone.net)
    &&& corners_of_all(w.islands@) == islands_written(doc.node.entries@, zone.item_ids@)
}

/// The zones as a board file writes them, with the islands of their latest
/// fill.
pub fn build_write_zones(doc: &BoardDoc) -> (r: Vec<WriteZone>)
    ensures
        r@.len() == doc.zones@.len(),
        forall|i: int|
            #![trigger r@[i]]
            0 <= i < r@.len() ==> is_written_zone(r@[i], *doc, doc.zones@[i]),
{
    let mut r: Vec<WriteZone> = Vec::new();
    let mut i: usize = 0;
    while i < doc.zones.len()
        invariant
            i <= doc.zones@.len(),
            r@.len() == i,
            forall|m: int|
                #![trigger r@[m]]
                0 <= m < i ==> is_written_zone(r@[m], *doc, doc.zones@[m]),
        decreases doc.zones@.len() - i,
    {
        let zone = &doc.zones[i];
        let ghost ids = zone.item_ids@;
        let mut islands: Vec<Polygon> = Vec::new();
        let mut k: usize = 0;
        assert(corners_of_all(islands@) =~= islands_written(doc.node.entries@, ids.take(0)));
        while k < zone.item_ids.len()
            invariant
                ids == zone.item_ids@,
                k <= ids.len(),
                corners_of_all(islands@) == islands_written(
                    doc.node.entries@,
                    ids.take(k as int),
                ),
            decreases ids.len() - k,
        {
            proof {
                assert(ids.take(k + 1).drop_last() =~= ids.take(k as int));
                assert(ids.take(k + 1).last() == ids[k as int]);
            }
            match doc.node.get(zone.item_ids[k]) {
                Some(Item::Zone { outline, .. }) => {
                    let ghost before = islands@;
                    let island = copy_polygon(outline);
                    islands.push(island);
                    assert(corners_of_all(islands@) =~= corners_of_all(before).push(
                        island.points@,
                    ));
                },
                _ => {},
            }
            k += 1;
        }
        assert(ids.take(k as int) =~= ids);
        let name = name_to_write(&doc.nets, zone.net);
        r.push(
            WriteZone {
                outline: copy_polygon(&zone.outline),
                layer: zone.layer,
                net: (zone.net.0, name),
                islands,
            },
        );
        i += 1;
    }
    r
}

/// The strokes of the first `n` texts as they are written; `strokes[i]` are
/// those of text `i`.
pub open spec fn strokes_written(
    doc: BoardDoc,
    strokes: Seq<Vec<Segment>>,
    n: int,
) -> Seq<WriteSilkLine>
    decreases n,
{
    if n <= 0 {
        Seq::empty()
    } else {
        strokes_written(doc, strokes, n - 1) + strokes[n - 1]@.map_values(
            |s: Segment|
                WriteSilkLine {
                    start: s.a,
                    end: s.b,
                    width: s.width,
                    layer: doc.silk_texts@[n - 1].layer,
                },
        )
    }
}

/// Every silk text as strokes; `strokes[i]` are those of text `i`.
pub fn build_write_silk_lines(doc: &BoardDoc, strokes: &[Vec<Segment>]) -> (r: Vec<WriteSilkLine>)
    requires
        strokes@.len() == doc.silk_texts@.len(),
    ensures
        r@ == strokes_written(*doc, strokes@, strokes@.len() as int),
{
    let mut r: Vec<WriteSilkLine> = Vec::new();
    let mut i: usize = 0;
    while i < strokes.len()
        invariant
            i <= strokes@.len(),
            strokes@.len() == doc.silk_texts@.len(),
            r@ == strokes_written(*doc, strokes@, i as int),
        decreases strokes@.len() - i,
    {
        let layer = doc.silk_texts[i].layer;
        let ghost before = r@;
        let ghost line_of = |s: Segment|
            WriteSilkLine { start: s.a, end: s.b, width: s.width, layer };
        let mut k: usize = 0;
        assert(r@ =~= before + strokes@[i as int]@.take(0).map_values(line_of));
        while k < strokes[i].len()
            invariant
                i < strokes@.len(),
                k <= strokes@[i as int]@.len(),
                line_of == (|s: Segment|
                    WriteSilkLine { start: s.a, end: s.b, width: s.width, layer }),
                r@ == before + strokes@[i as int]@.take(k as int).map_values(line_of),
            decreases strokes@[i as int]@.len() - k,
        {
            let s = strokes[i][k];
            r.push(WriteSilkLine { start: s.a, end: s.b, width: s.width, layer });
            k += 1;
            assert(r@ =~= before + strokes@[i as int]@.take(k as int).map_values(line_of));
        }
        proof {
            assert(strokes@[i as int]@.take(k as int) =~= strokes@[i as int]@);
            let written = strokes@[i as int]@.map_values(
                |s: Segment|
                    WriteSilkLine {
                        start: s.a,
                        end: s.b,
                        width: s.width,
                        layer: doc.silk_texts@[i as int].layer,
                    },
            );
            assert(strokes@[i as int]@.map_values(line_of) =~= written);
        }
        i += 1;
    }
    r
}

/// The pin-1 markers among some parts, as they are written.
pub open spec fn markers_written(fps: Seq<PlacedFootprint>) -> Seq<WriteSilkDot>
    decreases fps.len(),
{
    if fps.len() == 0 {
        Seq::empty()
    } else {
        let rest = markers_written(fps.drop_last());
        match marker_disc(fps.last()) {
            Some(disc) => rest.push(
                WriteSilkDot { center: disc.center, diameter: 400_000, layer: LayerId::FCu },
            ),
            None => rest,
        }
    }
}

/// Every round piece of ink: the free dots, then the pin-1 markers.
pub fn build_write_silk_dots(doc: &BoardDoc) -> (r: Vec<WriteSilkDot>)
    ensures
        r@ == doc.silk_dots@.map_values(
            |d: SilkDot|
                WriteSilkDot { center: d.position, diameter: d.diameter, layer: d.layer },
        ) + markers_written(doc.footprints@),
{
    let ghost dot_of = |d: SilkDot|
        WriteSilkDot { center: d.position, diameter: d.diameter, layer: d.layer };
    let ghost free = doc.silk_dots@.map_values(dot_of);
    let mut r: Vec<WriteSilkDot> = Vec::new();
    let mut i: usize = 0;
    while i < doc.silk_dots.len()
        invariant
            i <= doc.silk_dots@.len(),
            dot_of == (|d: SilkDot|
                WriteSilkDot { center: d.position, diameter: d.diameter, layer: d.layer }),
            r@ == doc.silk_dots@.take(i as int).map_values(dot_of),
        decreases doc.silk_dots@.len() - i,
    {
        let d = doc.silk_dots[i];
        r.push(WriteSilkDot { center: d.position, diameter: d.diameter, layer: d.layer });
        i += 1;
        assert(r@ =~= doc.silk_dots@.take(i as int).map_values(dot_of));
    }
    assert(doc.silk_dots@.take(i as int) =~= doc.silk_dots@);
    let mut f: usize = 0;
    assert(r@ =~= free + markers_written(doc.footprints@.take(0)));
    while f < doc.footprints.len()
        invariant
            f <= doc.footprints@.len(),
            r@ == free + markers_written(doc.footprints@.take(f as int)),
        decreases doc.footprints@.len() - f,
    {
        proof {
            assert(doc.footprints@.take(f + 1).drop_last() =~= doc.footprints@.take(f as int));
            assert(doc.footprints@.take(f + 1).last() == doc.footprints@[f as int]);
        }
        match doc.footprints[f].pin1_marker_circle() {
            Some(c) => {
                r.push(
                    WriteSilkDot {
                        center: c.center,
                        diameter: c.radius * 2,
                        layer: LayerId::FCu,
                    },
                );
            },
            None => {},
        }
        f += 1;
        assert(r@ =~= free + markers_written(doc.footprints@.take(f as int)));
    }
    assert(doc.footprints@.take(f as int) =~= doc.footprints@);
    r
}

impl BoardDoc {
    /// The clearance that the exported project declares: that of the board's
    /// own copper weight.
    pub fn net_class_clearance(&self) -> (r: Unit)
        ensures
            r == match self.copper_weight {
                CopperWeight::OneOz => 100_000i64,
                CopperWeight::TwoOz => 160_000i64,
            },
    {
        match self.copper_weight {
            CopperWeight::OneOz => 100_000,
            CopperWeight::TwoOz => 160_000,
        }
    }
}

} // verus!
