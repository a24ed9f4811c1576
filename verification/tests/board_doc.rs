//! The board as a whole: parts, nets, wires, vias, silkscreen, pours and the
//! outline. What the rules need measured is measured here with plain floating
//! point geometry.

use alladin_pcb::batch::BatchError;
use alladin_pcb::board_doc::{
    BoardDoc, CopperWeight, FootprintId, LayerCount, NewBoardParams, SilkDotId, SilkText, SilkTextId, ZoneId,
    DEFAULT_SILK_DOT_DIAMETER, DEFAULT_SILK_TEXT_HEIGHT, DEFAULT_VIA_DIAMETER, DEFAULT_VIA_DRILL, PIN1_MARKER_DIAMETER,
};
use alladin_pcb::bom::{build_bom_rows, PartInfo};
use alladin_pcb::cli::{board_summary, connect_pins, find_pin, list_nets};
use alladin_pcb::dfm::{DfmViolation, FabProfile, FabProfiles, FabRules};
use alladin_pcb::footprint::{
    builtin_templates, legacy_builtin_templates, pad_dfm_query, straight_row_template, template_dfm_violations, Courtyard, FootprintTemplate,
    HoleTemplate, PadQuery, PadShapeKind, PadTemplate,
};
use alladin_pcb::geom::{circles_touch, is_closer, Angle, Circle, Point, Polygon, Segment, Unit, MM};
use alladin_pcb::item::{Item, ItemId, LayerId, NetClass, NetId, PadShape, ZoneConnection};
use alladin_pcb::kicad_export::{
    build_write_footprints, build_write_silk_dots, build_write_silk_lines, build_write_zones, PadMount, WritePadShape,
};
use alladin_pcb::kicad_import::{import_kicad_pcb, FlatBoard, ImportedFootprint};
use alladin_pcb::matrix::MatrixProbe;
use alladin_pcb::mcp_placement::{
    moved_parts, placed_parts, resolve_move_parts, resolve_place_parts, resolve_probe, MovePartSpec, PlacePartSpec,
    ProbePlacementArgs,
};
use alladin_pcb::nets::{NetError, RenameNetError};
use alladin_pcb::parts::TemplateVerdicts;
use alladin_pcb::placement::{InkProbe, ItemProbe, LeadProbe, PlacedShape, PlacementError, PlacementProbe};
use alladin_pcb::silk::{pin1_marker_plan, MarkerCandidate, SilkDotError, SilkDotProbe, SilkTextError, SilkTextProbe};
use alladin_pcb::vias::{PinStitchingVia, PinStitchingViaError, StitchCandidate, ViaError, ViaProbe};
use alladin_pcb::world::{self, PadPose};
use alladin_pcb::zones::{OutlineProbe, SetOutlineError};

const COPPER_TO_EDGE: f64 = 200_000.0;
const HOLE_TO_EDGE: f64 = 500_000.0;
const BODY_TO_EDGE: f64 = 2_500_000.0;
const BODY_GAP: f64 = 300_000.0;
const SILK_TO_PAD: Unit = 150_000;
const MIN_VIA_DIAMETER: Unit = 250_000;
const MIN_VIA_HOLE: Unit = 150_000;
const PAD_TO_PAD: Unit = 150_000;
const TRACE_WIDTH: Unit = 250_000;

fn rules() -> FabRules {
    FabRules {
        silk_to_pad: SILK_TO_PAD,
        min_silk_line_width: 160_000,
        lead_to_hole: 300_000,
        hole_to_hole_same_net: 254_000,
        hole_to_hole_other_net: 500_000,
        hole_to_hole_no_net: 500_000,
    }
}

fn mm(v: f64) -> Unit {
    (v * MM as f64).round() as Unit
}

fn deg(v: f64) -> Angle {
    Angle { bits: v.to_bits() }
}

fn turned(p: Point, degrees: f64) -> Point {
    let (s, c) = degrees.to_radians().sin_cos();
    let (x, y) = (p.x as f64, p.y as f64);
    Point::new((x * c - y * s).round() as Unit, (x * s + y * c).round() as Unit)
}

fn moved(p: Point, by: Point) -> Point {
    Point::new(p.x + by.x, p.y + by.y)
}

fn rectangle(width: Unit, height: Unit) -> Polygon {
    let (w, h) = (width / 2, height / 2);
    Polygon::new(vec![Point::new(-w, -h), Point::new(w, -h), Point::new(w, h), Point::new(-w, h)])
}

/// A filled shape for measuring: everything within `reach` of the points, the
/// lines between them, and what a closed outline holds.
struct Figure {
    points: Vec<(f64, f64)>,
    closed: bool,
    reach: f64,
}

fn at(p: Point) -> (f64, f64) {
    (p.x as f64, p.y as f64)
}

fn disc(c: &Circle) -> Figure {
    Figure { points: vec![at(c.center)], closed: false, reach: c.radius as f64 }
}

fn area(p: &Polygon) -> Figure {
    Figure { points: p.points.iter().map(|&q| at(q)).collect(), closed: true, reach: 0.0 }
}

fn capsule(s: &Segment) -> Figure {
    Figure { points: vec![at(s.a), at(s.b)], closed: false, reach: s.width as f64 / 2.0 }
}

fn figure_of(item: &Item) -> Figure {
    match item {
        Item::Pad { shape: PadShape::Circle(c), .. } => disc(c),
        Item::Pad { shape: PadShape::Polygon { outline, .. }, .. } => area(outline),
        Item::Track { shape, .. } => capsule(shape),
        Item::Via { shape, .. } => disc(shape),
        Item::Hole { position, drill } => disc(&Circle::new(*position, drill / 2)),
        Item::Zone { outline, .. } => area(outline),
    }
}

fn edges(f: &Figure) -> Vec<((f64, f64), (f64, f64))> {
    let n = f.points.len();
    if n == 1 {
        return vec![(f.points[0], f.points[0])];
    }
    let mut r: Vec<((f64, f64), (f64, f64))> = f.points.windows(2).map(|w| (w[0], w[1])).collect();
    if f.closed {
        r.push((f.points[n - 1], f.points[0]));
    }
    r
}

fn point_to_line(p: (f64, f64), a: (f64, f64), b: (f64, f64)) -> f64 {
    let (dx, dy) = (b.0 - a.0, b.1 - a.1);
    let len2 = dx * dx + dy * dy;
    let t = if len2 == 0.0 { 0.0 } else { (((p.0 - a.0) * dx + (p.1 - a.1) * dy) / len2).clamp(0.0, 1.0) };
    (p.0 - a.0 - t * dx).hypot(p.1 - a.1 - t * dy)
}

fn crosses(a: (f64, f64), b: (f64, f64), c: (f64, f64), d: (f64, f64)) -> bool {
    let side = |p: (f64, f64), q: (f64, f64), r: (f64, f64)| (q.0 - p.0) * (r.1 - p.1) - (q.1 - p.1) * (r.0 - p.0);
    side(a, b, c) * side(a, b, d) < 0.0 && side(c, d, a) * side(c, d, b) < 0.0
}

fn holds(f: &Figure, p: (f64, f64)) -> bool {
    let mut inside = false;
    for (a, b) in edges(f) {
        if (a.1 > p.1) != (b.1 > p.1) && p.0 < (b.0 - a.0) * (p.1 - a.1) / (b.1 - a.1) + a.0 {
            inside = !inside;
        }
    }
    f.closed && inside
}

fn outline_distance(f: &Figure, g: &Figure) -> f64 {
    let mut best = f64::INFINITY;
    for (a, b) in edges(f) {
        for (c, d) in edges(g) {
            if crosses(a, b, c, d) {
                return 0.0;
            }
            for v in [point_to_line(a, c, d), point_to_line(b, c, d), point_to_line(c, a, b), point_to_line(d, a, b)] {
                best = best.min(v);
            }
        }
    }
    best
}

/// The distance between two figures, negative where they overlap.
fn gap(f: &Figure, g: &Figure) -> f64 {
    let apart = if holds(f, g.points[0]) || holds(g, f.points[0]) { 0.0 } else { outline_distance(f, g) };
    apart - f.reach - g.reach
}

fn is_near(f: &Figure, g: &Figure, margin: f64) -> bool {
    let between = gap(f, g);
    between <= 0.0 || between < margin
}

fn inside_by(outline: &[Polygon], f: &Figure, margin: f64) -> bool {
    outline.iter().any(|o| {
        let board = area(o);
        f.points.iter().all(|&p| holds(&board, p)) && outline_distance(&board, f) - f.reach >= margin - 0.5
    })
}

fn edge_margin(item: &Item) -> f64 {
    match item {
        Item::Hole { .. } => HOLE_TO_EDGE,
        _ => COPPER_TO_EDGE,
    }
}

fn layer_of(item: &Item) -> Option<LayerId> {
    match item {
        Item::Pad { hole_diameter: Some(_), .. } => None,
        Item::Pad { layer, .. } | Item::Track { layer, .. } | Item::Zone { layer, .. } => Some(*layer),
        _ => None,
    }
}

fn clearance(a: &Item, b: &Item) -> f64 {
    match (a, b) {
        (Item::Track { .. }, Item::Track { .. }) => 100_000.0,
        (Item::Track { .. }, Item::Via { .. }) | (Item::Via { .. }, Item::Track { .. }) => 200_000.0,
        _ => 150_000.0,
    }
}

fn collides(a: &Item, b: &Item) -> bool {
    if a.is_zone() || b.is_zone() {
        return false;
    }
    let layers_meet = match (layer_of(a), layer_of(b)) {
        (Some(x), Some(y)) => x == y,
        _ => true,
    };
    let same_net = a.net().is_some() && a.net() == b.net();
    layers_meet && !same_net && gap(&figure_of(a), &figure_of(b)) < clearance(a, b) - 0.5
}

fn pad_outline(kind: PadShapeKind, center: Point, degrees: f64) -> Option<Polygon> {
    let (width, height) = match kind {
        PadShapeKind::Circle => return None,
        PadShapeKind::Rect { width, height } | PadShapeKind::Oval { width, height } => (width, height),
    };
    Some(Polygon::new(rectangle(width, height).points.iter().map(|&p| moved(turned(p, degrees), center)).collect()))
}

fn turned_corners(t: &FootprintTemplate) -> Vec<Vec<Point>> {
    t.pads
        .iter()
        .map(|pad| match pad_outline(pad.shape, pad.offset, f64::from_bits(pad.rotation_deg.bits)) {
            Some(outline) => outline.points,
            None => Vec::new(),
        })
        .collect()
}

fn posed(t: &FootprintTemplate, position: Point, degrees: f64, marker: Option<Point>) -> PlacedShape {
    let body = t.courtyard(&turned_corners(t));
    let corners = rectangle(body.width, body.height).points;
    let poses: Vec<PadPose> = t
        .pads
        .iter()
        .map(|pad| {
            let center = moved(turned(pad.offset, degrees), position);
            let own = f64::from_bits(pad.rotation_deg.bits);
            let outline = pad_outline(pad.shape, center, own + degrees).unwrap_or(Polygon::new(Vec::new()));
            PadPose { center, outline }
        })
        .collect();
    let centers: Vec<Point> = t.holes.iter().map(|hole| moved(turned(hole.offset, degrees), position)).collect();
    let courtyard =
        Polygon::new(corners.iter().map(|&p| moved(turned(moved(p, body.center), degrees), position)).collect());
    let marker = marker.map(|offset| moved(turned(offset, degrees), position));
    world::posed(t, &poses, &centers, courtyard, marker)
}

/// A stand-in for a stroke font: every character but a space prints a block.
fn ink(text: &str, position: Point, degrees: f64, height: Unit) -> Vec<Figure> {
    let n = text.chars().count() as Unit;
    let step = height * 9 / 10;
    let mut r = Vec::new();
    for (i, c) in text.chars().enumerate() {
        if c.is_whitespace() {
            continue;
        }
        let width = if c == '.' { height * 2 / 10 } else { height * 7 / 10 };
        let center = Point::new((2 * i as Unit - (n - 1)) * step / 2, 0);
        let block = rectangle(width, height);
        r.push(area(&Polygon::new(
            block.points.iter().map(|&p| moved(turned(moved(p, center), degrees), position)).collect(),
        )));
    }
    r
}

fn ink_of(t: &SilkText) -> Vec<Figure> {
    ink(&t.text, t.position, f64::from_bits(t.rotation_deg.bits), t.height)
}

fn ink_near(doc: &BoardDoc, f: &Figure, margin: f64) -> InkProbe {
    let near = |g: &Figure| is_near(f, g, margin);
    InkProbe {
        texts: doc.silk_texts.iter().map(|t| ink_of(t).iter().any(near)).collect(),
        dots: doc.silk_dots.iter().map(|d| near(&disc(&d.circle()))).collect(),
        markers: doc
            .footprints
            .iter()
            .map(|fp| fp.pin1_marker_circle().map_or(false, |c| near(&disc(&c))))
            .collect(),
    }
}

fn probe_of(doc: &BoardDoc, shape: &PlacedShape, nets: &[Option<NetId>]) -> PlacementProbe {
    let mut candidates = shape.items.clone();
    for (k, item) in candidates.iter_mut().enumerate() {
        if let Item::Pad { net, .. } = item {
            *net = nets.get(k).copied().flatten();
        }
    }
    let body = area(&shape.courtyard);
    let near_drill = |item: &Item, drill: &Circle| gap(&figure_of(item), &disc(drill)) < 300_000.0;
    PlacementProbe {
        items: candidates
            .iter()
            .map(|item| ItemProbe {
                on_board: inside_by(&doc.outline, &figure_of(item), edge_margin(item)),
                hits: doc.node.entries.iter().filter(|e| collides(item, &e.item)).map(|e| e.id).collect(),
                ink: ink_near(doc, &figure_of(item), SILK_TO_PAD as f64),
            })
            .collect(),
        leads: doc
            .footprints
            .iter()
            .map(|fp| LeadProbe {
                drills: fp
                    .assembly_drills
                    .iter()
                    .map(|d| candidates.iter().map(|item| near_drill(item, d)).collect())
                    .collect(),
                pads: shape
                    .drills
                    .iter()
                    .map(|d| {
                        fp.pad_item_ids
                            .iter()
                            .map(|&id| doc.node.get(id).map_or(false, |item| near_drill(item, d)))
                            .collect()
                    })
                    .collect(),
            })
            .collect(),
        bodies: doc.footprints.iter().map(|fp| gap(&body, &area(&fp.courtyard)) < BODY_GAP).collect(),
        body_ink: ink_near(doc, &body, 0.0),
        body_on_board: inside_by(&doc.outline, &body, BODY_TO_EDGE),
    }
}

fn pad_verdict(pad: &PadTemplate) -> Option<DfmViolation> {
    match pad_dfm_query(pad) {
        PadQuery::Smd { side } => (side < 250_000).then_some(DfmViolation::SmdPadBelowMin),
        PadQuery::Pth { side, drill } => {
            if drill < 150_000 {
                Some(DfmViolation::PthDrillBelowMin)
            } else if drill >= side {
                Some(DfmViolation::PthDrillNotBelowPad)
            } else if (side - drill) / 2 < 180_000 {
                Some(DfmViolation::PthAnnularRingBelowMin)
            } else {
                None
            }
        }
    }
}

fn hole_verdict(hole: &HoleTemplate) -> Option<DfmViolation> {
    (hole.drill < 500_000).then_some(DfmViolation::NpthHoleBelowMin)
}

fn verdicts_of(t: &FootprintTemplate) -> TemplateVerdicts {
    TemplateVerdicts {
        pads: t.pads.iter().map(pad_verdict).collect(),
        holes: t.holes.iter().map(hole_verdict).collect(),
    }
}

fn place(doc: &mut BoardDoc, t: &FootprintTemplate, position: Point, degrees: f64) -> Result<FootprintId, PlacementError> {
    let shape = posed(t, position, degrees, None);
    let probe = probe_of(doc, &shape, &doc.candidate_pad_nets(None));
    doc.try_place_footprint(t, position, deg(degrees), shape, &probe, &verdicts_of(t), &rules())
}

fn board_of(params: &NewBoardParams) -> BoardDoc {
    params.create(rectangle(params.width, params.height))
}

fn sized_board(width: f64, height: f64) -> BoardDoc {
    board_of(&NewBoardParams {
        width: mm(width),
        height: mm(height),
        layer_count: LayerCount::Two,
        copper_weight: CopperWeight::OneOz,
        corner_radius: 0,
    })
}

fn test_board() -> BoardDoc {
    sized_board(40.0, 40.0)
}

fn two_pin_template() -> FootprintTemplate {
    legacy_builtin_templates().remove(0)
}

fn pad_ids_of(doc: &BoardDoc, footprint_index: usize) -> Vec<ItemId> {
    doc.footprints[footprint_index].pad_item_ids.clone()
}

fn shift(doc: &mut BoardDoc, id: FootprintId, t: &FootprintTemplate, position: Point, degrees: f64) -> Result<(), PlacementError> {
    let k = doc.footprint_index(id).expect("the part must be on the board");
    let marker = doc.footprints[k].pin1_marker.map(|m| m.offset);
    let shape = posed(t, position, degrees, marker);
    let probe = probe_of(doc, &shape, &doc.candidate_pad_nets(Some(id)));
    doc.try_move_footprint(id, t, position, deg(degrees), shape, &probe, &rules())
}

fn text_probe(doc: &BoardDoc, text: &str, position: Point, degrees: f64, height: Unit) -> SilkTextProbe {
    let strokes = ink(text, position, degrees, height);
    let near = |g: &Figure, margin: f64| strokes.iter().any(|f| is_near(f, g, margin));
    SilkTextProbe {
        on_board: strokes.iter().all(|f| inside_by(&doc.outline, f, COPPER_TO_EDGE)),
        pads: doc.node.entries.iter().map(|e| near(&figure_of(&e.item), SILK_TO_PAD as f64)).collect(),
        bodies: doc.footprints.iter().map(|fp| near(&area(&fp.courtyard), 0.0)).collect(),
        texts: doc.silk_texts.iter().map(|t| ink_of(t).iter().any(|g| near(g, 0.0))).collect(),
        dots: doc.silk_dots.iter().map(|d| near(&disc(&d.circle()), 0.0)).collect(),
        markers: doc.footprints.iter().map(|fp| fp.pin1_marker_circle().map_or(false, |c| near(&disc(&c), 0.0))).collect(),
    }
}

fn put_text(doc: &mut BoardDoc, text: &str, position: Point, degrees: f64, layer: LayerId, height: Unit) -> Result<SilkTextId, SilkTextError> {
    let probe = text_probe(doc, text, position, degrees, height);
    doc.try_place_silk_text(text, position, deg(degrees), layer, height, &probe)
}

fn check_text(doc: &BoardDoc, text: &str, position: Point, degrees: f64, layer: LayerId, height: Unit) -> Result<(), SilkTextError> {
    doc.check_silk_text_placement(text, layer, &text_probe(doc, text, position, degrees, height))
}

fn text_with(doc: &BoardDoc, id: SilkTextId) -> Option<SilkText> {
    doc.silk_texts.iter().find(|t| t.id == id).cloned()
}

fn nothing_measured() -> SilkTextProbe {
    SilkTextProbe { on_board: true, pads: vec![], bodies: vec![], texts: vec![], dots: vec![], markers: vec![] }
}

fn moved_text_probe(doc: &BoardDoc, id: SilkTextId, position: Point, degrees: f64) -> SilkTextProbe {
    match text_with(doc, id) {
        Some(t) => text_probe(doc, &t.text, position, degrees, t.height),
        None => nothing_measured(),
    }
}

fn move_text(doc: &mut BoardDoc, id: SilkTextId, position: Point, degrees: f64) -> Result<(), SilkTextError> {
    let probe = moved_text_probe(doc, id, position, degrees);
    doc.try_move_silk_text(id, position, deg(degrees), &probe)
}

fn check_move_text(doc: &BoardDoc, id: SilkTextId, position: Point, degrees: f64) -> Result<(), SilkTextError> {
    doc.check_silk_text_move(id, &moved_text_probe(doc, id, position, degrees))
}

fn resize_text(doc: &mut BoardDoc, id: SilkTextId, height: Unit) -> Result<(), SilkTextError> {
    let probe = match text_with(doc, id) {
        Some(t) => text_probe(doc, &t.text, t.position, f64::from_bits(t.rotation_deg.bits), height),
        None => nothing_measured(),
    };
    doc.try_resize_silk_text(id, height, &probe)
}

fn text_at(doc: &BoardDoc, point: Point) -> Option<SilkTextId> {
    let inside: Vec<bool> = doc
        .silk_texts
        .iter()
        .map(|t| {
            let half = t.text.chars().count() as Unit * t.height * 9 / 20;
            (point.x - t.position.x).abs() <= half && (point.y - t.position.y).abs() <= t.height / 2
        })
        .collect();
    doc.silk_text_at(&inside)
}

fn dot_probe(doc: &BoardDoc, circle: &Circle) -> SilkDotProbe {
    let f = disc(circle);
    SilkDotProbe {
        on_board: inside_by(&doc.outline, &f, COPPER_TO_EDGE),
        pads: doc.node.entries.iter().map(|e| gap(&f, &figure_of(&e.item)) < SILK_TO_PAD as f64).collect(),
        bodies: doc.footprints.iter().map(|fp| is_near(&f, &area(&fp.courtyard), 0.0)).collect(),
        texts: doc.silk_texts.iter().map(|t| ink_of(t).iter().any(|g| is_near(&f, g, 0.0))).collect(),
    }
}

fn check_dot(doc: &BoardDoc, position: Point, diameter: Unit, layer: LayerId) -> Result<(), SilkDotError> {
    doc.check_silk_dot_placement(position, diameter, layer, &dot_probe(doc, &Circle::new(position, diameter / 2)), &rules())
}

fn put_dot(doc: &mut BoardDoc, position: Point, diameter: Unit, layer: LayerId) -> Result<SilkDotId, SilkDotError> {
    let probe = dot_probe(doc, &Circle::new(position, diameter / 2));
    doc.try_place_silk_dot(position, diameter, layer, &probe, &rules())
}

fn marker_candidates(doc: &BoardDoc, id: FootprintId, t: &FootprintTemplate) -> Vec<MarkerCandidate> {
    let fp = doc.footprints.iter().find(|f| f.id == id).expect("the part must be on the board").clone();
    let plan = pin1_marker_plan(t, &rules()).expect("the part has a pad");
    let base = if plan.at_origin { 0.0 } else { (plan.offset.y as f64).atan2(plan.offset.x as f64) };
    plan.degrees
        .iter()
        .map(|&d| {
            let angle = base + (d as f64).to_radians();
            let reach = plan.distance as f64;
            let offset = Point::new(
                plan.offset.x + (reach * angle.cos()).round() as Unit,
                plan.offset.y + (reach * angle.sin()).round() as Unit,
            );
            let center = moved(turned(offset, f64::from_bits(fp.rotation_deg.bits)), fp.position);
            MarkerCandidate { offset, center, probe: dot_probe(doc, &Circle::new(center, PIN1_MARKER_DIAMETER / 2)) }
        })
        .collect()
}

fn via_dfm(diameter: Unit, drill: Unit) -> Option<DfmViolation> {
    if diameter < MIN_VIA_DIAMETER {
        Some(DfmViolation::ViaDiameterBelowMin)
    } else if drill < MIN_VIA_HOLE {
        Some(DfmViolation::ViaDrillBelowMin)
    } else if diameter - drill < 200_000 {
        Some(DfmViolation::ViaAnnularRingBelowMin)
    } else {
        None
    }
}

fn via_probe(doc: &BoardDoc, center: Point, net: NetId, diameter: Unit, drill: Unit) -> ViaProbe {
    let via = Item::Via { shape: Circle::new(center, diameter / 2), drill, net: Some(net) };
    ViaProbe {
        dfm: via_dfm(diameter, drill),
        on_board: inside_by(&doc.outline, &figure_of(&via), COPPER_TO_EDGE),
        hits: doc.node.entries.iter().filter(|e| collides(&via, &e.item)).count(),
    }
}

fn add_via(doc: &mut BoardDoc, center: Point, net: NetId, diameter: Unit, drill: Unit) -> Result<ItemId, PlacementError> {
    let probe = via_probe(doc, center, net, diameter, drill);
    doc.try_add_via(center, net, diameter, drill, &probe, &rules())
}

fn stitch(doc: &mut BoardDoc, center: Point, net: NetId, diameter: Unit, drill: Unit) -> Result<ItemId, ViaError> {
    let probe = via_probe(doc, center, net, diameter, drill);
    let via = disc(&Circle::new(center, diameter / 2));
    let touches = doc.node.entries.iter().any(|e| e.item.net() == Some(net) && is_near(&via, &figure_of(&e.item), 0.0));
    doc.try_add_stitching_via(center, net, diameter, drill, &probe, touches, &rules())
}

fn pad_reach(doc: &BoardDoc, pad: ItemId) -> Unit {
    match doc.node.get(pad) {
        Some(Item::Pad { shape: PadShape::Circle(c), .. }) => c.radius,
        _ => 0,
    }
}

fn stitch_spots(doc: &BoardDoc, pad: ItemId, diameter: Unit) -> Vec<Point> {
    match doc.pin_stitching_via_plan(pad, pad_reach(doc, pad), PAD_TO_PAD, diameter) {
        Some(plan) => {
            let base = (plan.out_y as f64).atan2(plan.out_x as f64);
            plan.degrees
                .iter()
                .map(|&d| {
                    let angle = base + (d as f64).to_radians();
                    Point::new(
                        plan.pad_center.x + (plan.gap as f64 * angle.cos()).round() as Unit,
                        plan.pad_center.y + (plan.gap as f64 * angle.sin()).round() as Unit,
                    )
                })
                .collect()
        }
        None => vec![Point::new(0, 0)],
    }
}

fn stitch_pin(doc: &mut BoardDoc, pad: ItemId, diameter: Unit, drill: Unit, width: Unit) -> Result<PinStitchingVia, PinStitchingViaError> {
    let (center, layer, net) = doc.pad_endpoint(pad).unwrap_or((Point::new(0, 0), LayerId::FCu, None));
    let candidates: Vec<StitchCandidate> = stitch_spots(doc, pad, diameter)
        .into_iter()
        .map(|spot| {
            let stub = Item::Track { shape: Segment::new(center, spot, width), net, layer, class: NetClass::C };
            StitchCandidate {
                center: spot,
                via: via_probe(doc, spot, net.unwrap_or(NetId(0)), diameter, drill),
                stub_clear: !doc.node.entries.iter().any(|e| collides(&stub, &e.item)),
            }
        })
        .collect();
    doc.try_add_pin_stitching_via(pad, diameter, drill, width, None, &candidates, &rules())
}

/// A pour that fills to its whole outline, cut to the board where that is a
/// smaller rectangle.
fn fill_of(board: &[Polygon], outline: &Polygon, layer: LayerId, net: NetId) -> Vec<Item> {
    let reach = board[0].points.iter().map(|p| p.x.abs()).max().unwrap();
    let points = outline.points.iter().map(|p| Point::new(p.x.clamp(-reach, reach), p.y.clamp(-reach, reach))).collect();
    vec![Item::Zone { outline: Polygon::new(points), layer, net: Some(net) }]
}

fn pour(doc: &mut BoardDoc, outline: Polygon, layer: LayerId, net: NetId) -> ZoneId {
    let items = fill_of(&doc.outline, &outline, layer, net);
    doc.add_zone(outline, layer, net, items)
}

fn fills_of(doc: &BoardDoc, board: &[Polygon]) -> Vec<Vec<Item>> {
    doc.zones.iter().map(|z| fill_of(board, &z.outline, z.layer, z.net)).collect()
}

fn refill(doc: &mut BoardDoc) {
    let fills = fills_of(doc, &doc.outline);
    doc.refill_all_zones(fills);
}

fn reshape(doc: &mut BoardDoc, outline: Vec<Polygon>, templates: &[FootprintTemplate]) -> Result<(), SetOutlineError> {
    let probe = OutlineProbe {
        items: doc
            .footprints
            .iter()
            .map(|fp| {
                fp.pad_item_ids
                    .iter()
                    .chain(fp.hole_item_ids.iter())
                    .map(|&id| doc.node.get(id).map_or(true, |item| inside_by(&outline, &figure_of(item), edge_margin(item))))
                    .collect()
            })
            .collect(),
        bodies: doc.footprints.iter().map(|fp| inside_by(&outline, &area(&fp.courtyard), BODY_TO_EDGE)).collect(),
        copper: doc.node.entries.iter().map(|e| inside_by(&outline, &figure_of(&e.item), COPPER_TO_EDGE)).collect(),
    };
    let fills = fills_of(doc, &outline);
    doc.set_outline(outline, templates, &probe, fills)
}

fn held(doc: &BoardDoc, point: Point) -> Vec<bool> {
    doc.node.entries.iter().map(|e| holds(&figure_of(&e.item), at(point))).collect()
}

fn part_under(doc: &BoardDoc, point: Point) -> Option<FootprintId> {
    doc.footprint_at(point, &held(doc, point))
}

fn track_near(doc: &BoardDoc, point: Point, tolerance: Unit) -> Option<ItemId> {
    let here = Figure { points: vec![at(point)], closed: false, reach: tolerance as f64 };
    let near: Vec<bool> = doc.node.entries.iter().map(|e| gap(&here, &figure_of(&e.item)) <= 0.0).collect();
    doc.track_at(&near)
}

struct Grid {
    shapes: Vec<PlacedShape>,
    probes: Vec<PlacementProbe>,
    among: MatrixProbe,
}

fn grid_of(doc: &BoardDoc, t: &FootprintTemplate, positions: &[Point]) -> Grid {
    let shapes: Vec<PlacedShape> = positions.iter().map(|&p| posed(t, p, 0.0, None)).collect();
    let probes = shapes.iter().map(|s| probe_of(doc, s, &[])).collect();
    let mut among = MatrixProbe { bodies: Vec::new(), items: Vec::new() };
    for i in 0..shapes.len() {
        among.bodies.push(
            (0..shapes.len()).map(|j| gap(&area(&shapes[i].courtyard), &area(&shapes[j].courtyard)) < BODY_GAP).collect(),
        );
        among.items.push(
            shapes[i]
                .items
                .iter()
                .map(|item| shapes[..i].iter().any(|s| s.items.iter().any(|other| collides(item, other))))
                .collect(),
        );
    }
    Grid { shapes, probes, among }
}

fn check_grid(doc: &BoardDoc, t: &FootprintTemplate, positions: &[Point]) -> Result<(), PlacementError> {
    let grid = grid_of(doc, t, positions);
    doc.check_matrix_placement(t, &grid.shapes, &grid.probes, &grid.among, &rules())
}

fn place_grid(doc: &mut BoardDoc, t: &FootprintTemplate, positions: &[Point]) -> Result<Vec<FootprintId>, PlacementError> {
    let grid = grid_of(doc, t, positions);
    let mut trial = doc.clone();
    let mut commit_probes = Vec::new();
    for &p in positions {
        commit_probes.push(probe_of(&trial, &posed(t, p, 0.0, None), &[]));
        let _ = place(&mut trial, t, p, 0.0);
    }
    doc.place_matrix(t, positions, deg(0.0), grid.shapes, &grid.probes, &grid.among, &commit_probes, &verdicts_of(t), &rules())
}

fn move_dot(doc: &mut BoardDoc, id: SilkDotId, position: Point) -> Result<(), SilkDotError> {
    let diameter = doc.silk_dots.iter().find(|d| d.id == id).map_or(0, |d| d.diameter);
    let probe = dot_probe(doc, &Circle::new(position, diameter / 2));
    doc.try_move_silk_dot(id, position, &probe, &rules())
}

fn resize_dot(doc: &mut BoardDoc, id: SilkDotId, diameter: Unit) -> Result<(), SilkDotError> {
    let position = doc.silk_dots.iter().find(|d| d.id == id).map_or(Point::new(0, 0), |d| d.position);
    let probe = dot_probe(doc, &Circle::new(position, diameter / 2));
    doc.try_resize_silk_dot(id, diameter, &probe, &rules())
}

fn enable_marker(doc: &mut BoardDoc, id: FootprintId, t: &FootprintTemplate) -> Result<(), SilkDotError> {
    let candidates = marker_candidates(doc, id, t);
    doc.try_enable_pin1_marker(id, t, &candidates, &rules())
}

fn bare_pad(radius: Unit, net: NetId) -> Item {
    Item::Pad {
        shape: PadShape::Circle(Circle::new(Point::new(0, 0), radius)),
        net: Some(net),
        layer: LayerId::FCu,
        zone_connection: ZoneConnection::Thermal,
        hole_diameter: None,
    }
}

#[test]
fn create_builds_a_single_outline_polygon_around_the_origin() {
    let params = NewBoardParams { width: mm(40.0), height: mm(20.0), layer_count: LayerCount::Two, copper_weight: CopperWeight::OneOz, corner_radius: mm(0.5) };
    let doc = board_of(&params);
    assert_eq!(doc.outline.len(), 1);
    assert!(holds(&area(&doc.outline[0]), at(Point::new(0, 0))));
    assert_eq!(doc.node.entries.len(), 0, "a freshly created board must start with no items");
}

#[test]
fn is_valid_rejects_a_non_positive_size() {
    let mut params = NewBoardParams::default();
    params.width = mm(0.0);
    assert!(!params.is_valid());
}

#[test]
fn is_valid_rejects_a_corner_radius_that_would_swallow_the_board() {
    let mut params = NewBoardParams::default();
    params.width = mm(10.0);
    params.height = mm(10.0);
    params.corner_radius = mm(6.0);
    assert!(!params.is_valid());
}

#[test]
fn is_valid_accepts_sane_defaults() {
    assert!(NewBoardParams::default().is_valid());
}

#[test]
fn pad_to_pad_clearance_matches_each_profiles_own_constant() {
    let profiles = FabProfiles {
        one_oz: FabProfile { rules: rules(), pad_to_pad: 127_000 },
        two_oz: FabProfile { rules: rules(), pad_to_pad: 150_000 },
    };
    let one_oz = test_board();
    assert_eq!(one_oz.pad_to_pad_clearance(&profiles), 127_000);

    let mut two_oz = test_board();
    two_oz.copper_weight = CopperWeight::TwoOz;
    assert_eq!(two_oz.pad_to_pad_clearance(&profiles), 150_000, "must go through copper-weight dispatch, not a hardcoded single profile");
    assert_eq!(two_oz.resolver(&profiles), profiles.two_oz);
}

#[test]
fn try_place_silk_text_succeeds_in_open_space_and_is_recorded() {
    let mut board = test_board();
    let id = put_text(&mut board, "HELLO", Point::new(0, 0), 0.0, LayerId::FCu, DEFAULT_SILK_TEXT_HEIGHT)
        .expect("center of an empty board must be legal");
    assert_eq!(board.silk_texts.len(), 1);
    assert_eq!(board.silk_texts[0].id, id);
    assert_eq!(board.silk_texts[0].text, "HELLO");
}

#[test]
fn try_place_silk_text_rejects_empty_or_whitespace_only_text() {
    let mut board = test_board();
    assert_eq!(put_text(&mut board, "", Point::new(0, 0), 0.0, LayerId::FCu, DEFAULT_SILK_TEXT_HEIGHT), Err(SilkTextError::EmptyText));
    assert_eq!(put_text(&mut board, "   ", Point::new(0, 0), 0.0, LayerId::FCu, DEFAULT_SILK_TEXT_HEIGHT), Err(SilkTextError::EmptyText));
    assert!(board.silk_texts.is_empty());
}

#[test]
fn try_place_silk_text_rejects_off_board() {
    let mut board = test_board();
    let err = put_text(&mut board, "X", Point::new(1_000 * MM, 1_000 * MM), 0.0, LayerId::FCu, DEFAULT_SILK_TEXT_HEIGHT).unwrap_err();
    assert_eq!(err, SilkTextError::OffBoard);
    assert!(board.silk_texts.is_empty());
}

#[test]
fn try_place_silk_text_rejects_printing_over_a_same_side_pad() {
    let mut board = test_board();
    let template = two_pin_template();
    place(&mut board, &template, Point::new(0, 0), 0.0).unwrap();
    let err = put_text(&mut board, "X", Point::new((1.27 * MM as f64) as Unit, 0), 0.0, LayerId::FCu, DEFAULT_SILK_TEXT_HEIGHT).unwrap_err();
    assert_eq!(err, SilkTextError::TooCloseToPad);
}

#[test]
fn try_place_silk_text_ignores_a_pad_on_the_opposite_side() {
    let mut board = test_board();
    let template = two_pin_template();
    place(&mut board, &template, Point::new(0, 0), 0.0).unwrap();
    put_text(&mut board, "X", Point::new((1.27 * MM as f64) as Unit, 0), 0.0, LayerId::BCu, DEFAULT_SILK_TEXT_HEIGHT)
        .expect("a front-side pad must not block back-side silk");
}

#[test]
fn try_place_silk_text_rejects_overlapping_another_text_on_the_same_side() {
    let mut board = test_board();
    put_text(&mut board, "FIRST", Point::new(0, 0), 0.0, LayerId::FCu, DEFAULT_SILK_TEXT_HEIGHT).unwrap();
    let err = put_text(&mut board, "SECOND", Point::new(0, 0), 0.0, LayerId::FCu, DEFAULT_SILK_TEXT_HEIGHT).unwrap_err();
    assert_eq!(err, SilkTextError::OverlapsAnotherText);
    assert_eq!(board.silk_texts.len(), 1, "the rejected second text must not be added");
}

#[test]
fn try_place_silk_text_allows_the_same_spot_on_the_opposite_side() {
    let mut board = test_board();
    put_text(&mut board, "FIRST", Point::new(0, 0), 0.0, LayerId::FCu, DEFAULT_SILK_TEXT_HEIGHT).unwrap();
    put_text(&mut board, "SECOND", Point::new(0, 0), 0.0, LayerId::BCu, DEFAULT_SILK_TEXT_HEIGHT)
        .expect("front and back silk never overlap each other physically");
    assert_eq!(board.silk_texts.len(), 2);
}

#[test]
fn try_place_silk_text_allows_another_text_inside_the_first_ones_whitespace_gap() {
    let mut board = test_board();
    put_text(&mut board, "A B", Point::new(0, 0), 0.0, LayerId::FCu, mm(2.0)).unwrap();
    put_text(&mut board, ".", Point::new(0, 0), 0.0, LayerId::FCu, DEFAULT_SILK_TEXT_HEIGHT)
        .expect("a dot in the blank gap between \"A\" and \"B\" overlaps no real ink");
    assert_eq!(board.silk_texts.len(), 2);
}

#[test]
fn try_place_silk_text_rejects_printing_under_a_component_body() {
    let mut board = test_board();
    let template = two_pin_template();
    place(&mut board, &template, Point::new(0, 0), 0.0).unwrap();
    let err = put_text(&mut board, "X", Point::new(0, 0), 0.0, LayerId::FCu, DEFAULT_SILK_TEXT_HEIGHT).unwrap_err();
    assert_eq!(err, SilkTextError::UnderComponentBody);
    assert!(board.silk_texts.is_empty());
}

#[test]
fn try_place_footprint_rejects_landing_on_existing_silk_text() {
    let mut board = test_board();
    put_text(&mut board, "LABEL", Point::new(5 * MM, 5 * MM), 0.0, LayerId::FCu, DEFAULT_SILK_TEXT_HEIGHT).unwrap();
    let template = two_pin_template();
    let err = place(&mut board, &template, Point::new(5 * MM, 5 * MM), 0.0).unwrap_err();
    assert_eq!(err, PlacementError::OverSilkText);
    assert!(board.footprints.is_empty());
    place(&mut board, &template, Point::new(-10 * MM, -10 * MM), 0.0).expect("clear of the text, placement must succeed");
}

#[test]
fn try_move_silk_text_can_move_back_onto_its_own_current_spot() {
    let mut board = test_board();
    let id = put_text(&mut board, "X", Point::new(0, 0), 0.0, LayerId::FCu, DEFAULT_SILK_TEXT_HEIGHT).unwrap();
    move_text(&mut board, id, Point::new(0, 0), 90.0).expect("a text must be able to rotate in place");
    assert_eq!(board.silk_texts[0].rotation_deg, deg(90.0));
}

#[test]
fn try_move_silk_text_reports_not_found_for_an_unknown_id() {
    let mut board = test_board();
    assert_eq!(move_text(&mut board, SilkTextId(999), Point::new(0, 0), 0.0), Err(SilkTextError::NotFound));
}

#[test]
fn remove_silk_text_removes_an_existing_one_and_reports_false_for_an_unknown_id() {
    let mut board = test_board();
    let id = put_text(&mut board, "X", Point::new(0, 0), 0.0, LayerId::FCu, DEFAULT_SILK_TEXT_HEIGHT).unwrap();
    assert!(!board.remove_silk_text(SilkTextId(999)));
    assert!(board.remove_silk_text(id));
    assert!(board.silk_texts.is_empty());
}

#[test]
fn silk_text_at_finds_a_placed_text_by_a_point_inside_its_bounding_rect_but_not_far_away() {
    let mut board = test_board();
    let id = put_text(&mut board, "HELLO", Point::new(0, 0), 0.0, LayerId::FCu, DEFAULT_SILK_TEXT_HEIGHT).unwrap();
    assert_eq!(text_at(&board, Point::new(0, 0)), Some(id), "dead center must always be inside its own bounding rect");
    assert_eq!(text_at(&board, Point::new(19 * MM, 19 * MM)), None);
}

#[test]
fn try_resize_silk_text_grows_the_bounding_rect_and_can_newly_collide_with_a_pad() {
    let mut board = test_board();
    let template = two_pin_template();
    place(&mut board, &template, Point::new(0, 0), 0.0).unwrap();
    let id = put_text(&mut board, "T", Point::new((1.27 * MM as f64) as Unit, (-1.6 * MM as f64) as Unit), 0.0, LayerId::FCu, DEFAULT_SILK_TEXT_HEIGHT)
        .expect("must clear the pad at the default size");

    resize_text(&mut board, id, mm(1.5)).expect("a modest resize must still clear the pad");
    assert_eq!(board.silk_texts[0].height, mm(1.5));

    let err = resize_text(&mut board, id, mm(3.0)).unwrap_err();
    assert_eq!(err, SilkTextError::TooCloseToPad);
    assert_eq!(board.silk_texts[0].height, mm(1.5));
}

#[test]
fn try_resize_silk_text_reports_not_found_for_an_unknown_id() {
    let mut board = test_board();
    assert_eq!(resize_text(&mut board, SilkTextId(999), mm(2.0)), Err(SilkTextError::NotFound));
}

#[test]
fn check_silk_text_move_ignores_the_texts_own_current_position_but_still_checks_other_collisions() {
    let mut board = test_board();
    let id = put_text(&mut board, "X", Point::new(0, 0), 0.0, LayerId::FCu, DEFAULT_SILK_TEXT_HEIGHT).unwrap();
    assert!(check_move_text(&board, id, Point::new(0, 0), 0.0).is_ok());
    assert_eq!(check_move_text(&board, id, Point::new(1_000 * MM, 1_000 * MM), 0.0), Err(SilkTextError::OffBoard));
    assert_eq!(board.silk_texts[0].position, Point::new(0, 0));
}

#[test]
fn check_silk_text_placement_can_reject_a_bigger_size_that_a_smaller_one_would_accept() {
    let mut board = test_board();
    let template = two_pin_template();
    place(&mut board, &template, Point::new(0, 0), 0.0).unwrap();
    let position = Point::new((1.27 * MM as f64) as Unit, (-1.6 * MM as f64) as Unit);
    assert!(check_text(&board, "T", position, 0.0, LayerId::FCu, DEFAULT_SILK_TEXT_HEIGHT).is_ok());
    assert_eq!(check_text(&board, "T", position, 0.0, LayerId::FCu, mm(3.0)), Err(SilkTextError::TooCloseToPad));
}

#[test]
fn silk_dot_place_move_resize_hit_test_and_remove_round_trip() {
    let mut board = test_board();
    let id = put_dot(&mut board, Point::new(0, 0), DEFAULT_SILK_DOT_DIAMETER, LayerId::FCu).expect("center of an empty board must be legal");
    assert_eq!(board.silk_dots.len(), 1);
    assert_eq!(board.silk_dot_at(Point::new(100_000, 0)), Some(id), "a click within the (floored) hit radius must select the dot");
    move_dot(&mut board, id, Point::new(5 * MM, 5 * MM)).expect("moving into open space must succeed");
    assert_eq!(board.silk_dots[0].position, Point::new(5 * MM, 5 * MM));
    resize_dot(&mut board, id, mm(1.0)).expect("growing in open space must succeed");
    assert_eq!(board.silk_dots[0].diameter, mm(1.0));
    assert!(board.remove_silk_dot(id));
    assert!(board.silk_dots.is_empty());
    assert!(!board.remove_silk_dot(id), "removing an already-removed dot must report false");
}

#[test]
fn silk_dot_placement_rejects_pad_proximity_off_board_and_opposite_side_is_independent() {
    let mut board = test_board();
    let template = two_pin_template();
    place(&mut board, &template, Point::new(0, 0), 0.0).unwrap();
    assert_eq!(
        check_dot(&board, Point::new((1.27 * MM as f64) as Unit, 0), DEFAULT_SILK_DOT_DIAMETER, LayerId::FCu),
        Err(SilkDotError::TooCloseToPad)
    );
    check_dot(&board, Point::new((1.27 * MM as f64) as Unit, 0), DEFAULT_SILK_DOT_DIAMETER, LayerId::BCu)
        .expect("the back side has no pads/body here");
    assert_eq!(
        check_dot(&board, Point::new(20 * MM, 0), DEFAULT_SILK_DOT_DIAMETER, LayerId::FCu),
        Err(SilkDotError::OffBoard)
    );
}

#[test]
fn silk_dot_and_silk_text_refuse_to_overlap_in_both_directions() {
    let mut board = test_board();
    put_text(&mut board, "HELLO", Point::new(0, 0), 0.0, LayerId::FCu, DEFAULT_SILK_TEXT_HEIGHT).unwrap();
    assert_eq!(check_dot(&board, Point::new(0, 0), DEFAULT_SILK_DOT_DIAMETER, LayerId::FCu), Err(SilkDotError::OverlapsSilk));
    let mut board = test_board();
    put_dot(&mut board, Point::new(0, 0), DEFAULT_SILK_DOT_DIAMETER, LayerId::FCu).unwrap();
    assert_eq!(
        check_text(&board, "HELLO", Point::new(0, 0), 0.0, LayerId::FCu, DEFAULT_SILK_TEXT_HEIGHT),
        Err(SilkTextError::OverlapsDot)
    );
}

#[test]
fn footprint_placement_refuses_to_land_on_a_dot_but_the_dots_own_footprint_move_ignores_its_marker() {
    let mut board = test_board();
    let template = two_pin_template();
    put_dot(&mut board, Point::new(0, 0), DEFAULT_SILK_DOT_DIAMETER, LayerId::FCu).unwrap();
    assert_eq!(place(&mut board, &template, Point::new(0, 0), 0.0).unwrap_err(), PlacementError::OverSilkDot);
    place(&mut board, &template, Point::new(-10 * MM, -10 * MM), 0.0).expect("clear of the dot, placement must succeed");
}

#[test]
fn pin1_marker_enables_next_to_pad_1_rides_along_with_a_move_and_disables_cleanly() {
    let mut board = test_board();
    let template = two_pin_template();
    let id = place(&mut board, &template, Point::new(0, 0), 0.0).unwrap();
    enable_marker(&mut board, id, &template).expect("an empty 40mm board has room for a pin-1 dot");
    let first = board.footprints[0].pin1_marker_circle().expect("marker must be set");
    for item in board.node.entries.iter().map(|e| &e.item) {
        if let Item::Pad { shape, layer: LayerId::FCu, .. } = item {
            let too_close = match shape {
                PadShape::Circle(p) => circles_touch(&first, p, SILK_TO_PAD),
                PadShape::Polygon { outline, .. } => gap(&disc(&first), &area(outline)) < SILK_TO_PAD as f64,
            };
            assert!(!too_close, "the marker must clear every pad by the full SILK_TO_PAD margin");
        }
    }
    shift(&mut board, id, &template, Point::new(5 * MM, 5 * MM), 0.0).expect("open space");
    let carried = board.footprints[0].pin1_marker_circle().unwrap();
    assert_eq!(carried.center, moved(first.center, Point::new(5 * MM, 5 * MM)));
    assert_eq!(check_dot(&board, carried.center, DEFAULT_SILK_DOT_DIAMETER, LayerId::FCu), Err(SilkDotError::OverlapsSilk));
    assert!(board.disable_pin1_marker(id));
    assert!(board.footprints[0].pin1_marker.is_none());
}

#[test]
fn check_silk_text_placement_is_read_only_and_also_rejects_empty_text() {
    let board = test_board();
    assert_eq!(
        check_text(&board, "", Point::new(0, 0), 0.0, LayerId::FCu, DEFAULT_SILK_TEXT_HEIGHT),
        Err(SilkTextError::EmptyText)
    );
    assert!(check_text(&board, "X", Point::new(0, 0), 0.0, LayerId::FCu, DEFAULT_SILK_TEXT_HEIGHT).is_ok());
    assert!(board.silk_texts.is_empty());
}

#[test]
fn try_place_footprint_succeeds_in_open_space_and_adds_its_pads_to_the_node() {
    let mut board = test_board();
    let template = two_pin_template();
    let id = place(&mut board, &template, Point::new(0, 0), 0.0).expect("open space must succeed");

    assert_eq!(board.node.entries.len(), template.pads.len());
    let placed = board.footprints.iter().find(|f| f.id == id).unwrap();
    assert_eq!(placed.reference, "P1");
    assert_eq!(placed.pad_item_ids.len(), template.pads.len());
}

#[test]
fn try_place_footprint_off_board_is_rejected_and_touches_nothing() {
    let mut board = test_board();
    let template = two_pin_template();
    let far_away = Point::new(1_000 * MM, 1_000 * MM);

    let err = place(&mut board, &template, far_away, 0.0).unwrap_err();
    assert_eq!(err, PlacementError::OffBoard);
    assert_eq!(board.node.entries.len(), 0, "a rejected placement must not add anything");
    assert!(board.footprints.is_empty());
}

#[test]
fn try_place_footprint_rejects_a_pad_too_close_to_the_board_edge_even_though_it_is_technically_on_board() {
    let mut board = test_board();
    let template = two_pin_template();
    let gap_from_edge = 50_000;
    let far_pad_center_x = 20 * MM - gap_from_edge - mm(0.45);
    let position = Point::new(far_pad_center_x - mm(1.27), 0);

    let err = place(&mut board, &template, position, 0.0).unwrap_err();
    assert_eq!(err, PlacementError::OffBoard);
    assert!(board.footprints.is_empty());
}

#[test]
fn try_place_footprint_accepts_a_pad_that_clears_the_edge_by_the_full_dfm_minimum() {
    let mut board = test_board();
    let template = two_pin_template();
    let gap_from_edge = 3 * MM;
    let far_pad_center_x = 20 * MM - gap_from_edge - mm(0.45);
    let position = Point::new(far_pad_center_x - mm(1.27), 0);

    place(&mut board, &template, position, 0.0).expect("a well-cleared edge placement must succeed");
}

fn mounting_hole_template() -> FootprintTemplate {
    builtin_templates().into_iter().find(|t| t.name.starts_with("Mounting hole (M3")).unwrap()
}

#[test]
fn try_place_footprint_splits_pads_and_holes_into_their_own_id_lists() {
    let mut board = test_board();
    let template = mounting_hole_template();
    let id = place(&mut board, &template, Point::new(0, 0), 0.0).expect("open space must succeed");

    let placed = board.footprints.iter().find(|f| f.id == id).unwrap();
    assert!(placed.pad_item_ids.is_empty(), "a pure mounting hole has no pads");
    assert_eq!(placed.hole_item_ids.len(), 1);
    assert!(matches!(board.node.get(placed.hole_item_ids[0]), Some(Item::Hole { .. })));
}

#[test]
fn try_place_footprint_rejects_a_mounting_hole_too_close_to_the_board_edge() {
    let mut board = test_board();
    let template = mounting_hole_template();
    let drill_radius = template.holes[0].drill / 2;
    let gap_from_edge = 100_000;
    let position = Point::new(20 * MM - gap_from_edge - drill_radius, 0);

    let err = place(&mut board, &template, position, 0.0).unwrap_err();
    assert_eq!(err, PlacementError::OffBoard);
    assert!(board.footprints.is_empty());
}

#[test]
fn try_move_footprint_moves_both_the_pads_and_the_holes_of_a_mixed_template() {
    let mut board = test_board();
    let template = FootprintTemplate {
        name: "mixed".to_string(),
        reference_prefix: "T".to_string(),
        pads: vec![PadTemplate {
            offset: Point::new(-mm(1.0), 0),
            radius: mm(0.45),
            layer: LayerId::FCu,
            number: "1".to_string(),
            shape: PadShapeKind::Circle,
            rotation_deg: deg(0.0),
            hole_diameter: None,
            pin_name: None,
            zone_connection: ZoneConnection::Thermal,
        }],
        holes: vec![HoleTemplate { offset: Point::new(mm(1.0), 0), drill: mm(2.2) }],
        exclude_from_bom: true,
        explicit_courtyard: None,
    };
    let id = place(&mut board, &template, Point::new(0, 0), 0.0).unwrap();
    let new_position = Point::new(5 * MM, 5 * MM);
    shift(&mut board, id, &template, new_position, 0.0).expect("open space must succeed");

    let placed = board.footprints.iter().find(|f| f.id == id).unwrap();
    let pad_center = match board.node.get(placed.pad_item_ids[0]).unwrap() {
        Item::Pad { shape, .. } => shape.center(),
        _ => panic!("expected a pad"),
    };
    let hole_position = match board.node.get(placed.hole_item_ids[0]).unwrap() {
        Item::Hole { position, .. } => *position,
        _ => panic!("expected a hole"),
    };
    assert_eq!(pad_center, Point::new(new_position.x - mm(1.0), new_position.y));
    assert_eq!(hole_position, Point::new(new_position.x + mm(1.0), new_position.y));
}

#[test]
fn remove_footprint_removes_both_its_pads_and_its_holes_from_the_node() {
    let mut board = test_board();
    let template = mounting_hole_template();
    let id = place(&mut board, &template, Point::new(0, 0), 0.0).unwrap();
    assert_eq!(board.node.entries.len(), 1);

    board.remove_footprint(id);
    assert_eq!(board.node.entries.len(), 0, "removing a mounting hole footprint must remove its hole too");
    assert!(board.footprints.is_empty());
}

#[test]
fn matrix_positions_is_symmetric_around_the_given_center() {
    let positions = BoardDoc::matrix_positions(2, 3, 2 * MM, 3 * MM, Point::new(0, 0));
    assert_eq!(positions.len(), 6);
    let sum_x: Unit = positions.iter().map(|p| p.x).sum();
    let sum_y: Unit = positions.iter().map(|p| p.y).sum();
    assert_eq!(sum_x, 0, "an even column count must average out exactly to the center on x");
    assert_eq!(sum_y, 0, "an even row count must average out exactly to the center on y");
    assert!(positions.contains(&Point::new(-2 * MM, -1_500_000)), "leftmost column, top row");
    assert!(positions.contains(&Point::new(2 * MM, 1_500_000)), "rightmost column, bottom row");
}

#[test]
fn matrix_positions_degenerates_to_a_single_point_for_a_1x1_matrix() {
    let center = Point::new(5 * MM, -3 * MM);
    assert_eq!(BoardDoc::matrix_positions(1, 1, 10 * MM, 10 * MM, center), vec![center]);
}

#[test]
fn check_matrix_placement_succeeds_for_a_well_spaced_grid_in_open_space() {
    let board = test_board();
    let template = two_pin_template();
    let positions = BoardDoc::matrix_positions(2, 2, 10 * MM, 10 * MM, Point::new(0, 0));
    check_grid(&board, &template, &positions).expect("a well-spaced grid in open space must be legal");
}

#[test]
fn check_matrix_placement_rejects_a_pitch_too_tight_for_the_templates_own_pads() {
    let board = test_board();
    let template = two_pin_template();
    let positions = BoardDoc::matrix_positions(1, 3, 500_000, 10 * MM, Point::new(0, 0));
    assert!(
        check_grid(&board, &template, &positions).is_err(),
        "matrix members that would collide with each other must be rejected, not just individually-off-board/colliding-with-the-real-board cells"
    );
}

#[test]
fn check_matrix_placement_rejects_the_whole_grid_when_any_single_cell_collides_with_an_existing_part() {
    let mut board = test_board();
    let template = two_pin_template();
    place(&mut board, &template, Point::new(0, 0), 0.0).unwrap();

    let positions = BoardDoc::matrix_positions(1, 3, 10 * MM, 10 * MM, Point::new(0, 0));
    assert!(check_grid(&board, &template, &positions).is_err());
}

#[test]
fn place_matrix_commits_every_cell_with_sequential_references() {
    let mut board = test_board();
    let template = two_pin_template();
    let positions = BoardDoc::matrix_positions(2, 2, 10 * MM, 10 * MM, Point::new(0, 0));
    let ids = place_grid(&mut board, &template, &positions).expect("a well-spaced grid in open space must commit");

    assert_eq!(ids.len(), 4);
    assert_eq!(board.footprints.len(), 4);
    let mut references: Vec<&str> = board.footprints.iter().map(|f| f.reference.as_str()).collect();
    references.sort();
    assert_eq!(references, vec!["P1", "P2", "P3", "P4"]);
    assert_eq!(board.node.entries.len(), 4 * template.pads.len());
}

#[test]
fn place_matrix_commits_nothing_when_the_grid_is_rejected() {
    let mut board = test_board();
    let template = two_pin_template();
    place(&mut board, &template, Point::new(0, 0), 0.0).unwrap();
    let footprints_before = board.footprints.len();
    let node_items_before = board.node.entries.len();

    let positions = BoardDoc::matrix_positions(1, 3, 10 * MM, 10 * MM, Point::new(0, 0));
    assert!(place_grid(&mut board, &template, &positions).is_err());
    assert_eq!(board.footprints.len(), footprints_before, "a rejected matrix must not partially commit");
    assert_eq!(board.node.entries.len(), node_items_before);
}

#[test]
fn try_place_footprint_rejects_overlapping_a_previously_placed_one() {
    let mut board = test_board();
    let template = two_pin_template();
    place(&mut board, &template, Point::new(0, 0), 0.0).expect("first placement must succeed");

    let err = place(&mut board, &template, Point::new(0, 0), 0.0).unwrap_err();
    assert!(matches!(err, PlacementError::Collision(_)));
    assert_eq!(board.footprints.len(), 1, "the second, rejected placement must not be recorded");
}

fn wide_courtyard_template() -> FootprintTemplate {
    FootprintTemplate {
        name: "wide-courtyard-test".to_string(),
        reference_prefix: "T".to_string(),
        pads: vec![PadTemplate {
            offset: Point::new(0, 0),
            radius: mm(0.2),
            layer: LayerId::FCu,
            number: "1".to_string(),
            shape: PadShapeKind::Circle,
            rotation_deg: deg(0.0),
            hole_diameter: None,
            pin_name: None,
            zone_connection: ZoneConnection::Thermal,
        }],
        holes: Vec::new(),
        exclude_from_bom: false,
        explicit_courtyard: Some(Courtyard { center: Point::new(0, 0), width: mm(4.0), height: mm(4.0) }),
    }
}

#[test]
fn try_place_footprint_rejects_a_body_overlap_even_though_the_pads_themselves_stay_clear() {
    let mut board = test_board();
    let template = wide_courtyard_template();
    place(&mut board, &template, Point::new(0, 0), 0.0).expect("first placement must succeed");

    let err = place(&mut board, &template, Point::new(mm(3.0), 0), 0.0).unwrap_err();
    assert_eq!(err, PlacementError::BodyOverlap);
    assert_eq!(board.footprints.len(), 1, "the rejected placement must not be recorded");
}

#[test]
fn try_place_footprint_accepts_two_bodies_placed_clear_of_each_other() {
    let mut board = test_board();
    let template = wide_courtyard_template();
    place(&mut board, &template, Point::new(0, 0), 0.0).expect("first placement must succeed");

    place(&mut board, &template, Point::new(mm(5.0), 0), 0.0).expect("well-separated bodies must not be rejected");
    assert_eq!(board.footprints.len(), 2);
}

#[test]
fn try_place_footprint_rejects_bodies_closer_than_0_3mm_assembly_clearance() {
    let mut board = test_board();
    let template = FootprintTemplate {
        name: "tiny-body".into(),
        reference_prefix: "T".into(),
        pads: vec![PadTemplate {
            offset: Point::new(0, 0),
            radius: mm(0.15),
            layer: LayerId::FCu,
            number: "1".into(),
            shape: PadShapeKind::Circle,
            rotation_deg: deg(0.0),
            hole_diameter: None,
            pin_name: None,
            zone_connection: ZoneConnection::Thermal,
        }],
        holes: Vec::new(),
        exclude_from_bom: false,
        explicit_courtyard: Some(Courtyard {
            center: Point::new(0, 0),
            width: mm(1.0),
            height: mm(1.0),
        }),
    };
    place(&mut board, &template, Point::new(0, 0), 0.0).unwrap();
    let err = place(&mut board, &template, Point::new(mm(1.25), 0), 0.0).unwrap_err();
    assert_eq!(err, PlacementError::BodyOverlap);
}

#[test]
fn try_place_footprint_accepts_bodies_just_over_0_3mm_assembly_clearance() {
    let mut board = test_board();
    let template = FootprintTemplate {
        name: "tiny-body".into(),
        reference_prefix: "T".into(),
        pads: vec![PadTemplate {
            offset: Point::new(0, 0),
            radius: mm(0.15),
            layer: LayerId::FCu,
            number: "1".into(),
            shape: PadShapeKind::Circle,
            rotation_deg: deg(0.0),
            hole_diameter: None,
            pin_name: None,
            zone_connection: ZoneConnection::Thermal,
        }],
        holes: Vec::new(),
        exclude_from_bom: false,
        explicit_courtyard: Some(Courtyard {
            center: Point::new(0, 0),
            width: mm(1.0),
            height: mm(1.0),
        }),
    };
    place(&mut board, &template, Point::new(0, 0), 0.0).unwrap();
    place(&mut board, &template, Point::new(mm(1.35), 0), 0.0).expect("0.35mm body gap must clear 0.3mm floor");
}

#[test]
fn try_place_footprint_rejects_smd_pad_too_close_to_a_foreign_pth_drill() {
    let mut board = test_board();
    let th = FootprintTemplate {
        name: "npth".into(),
        reference_prefix: "H".into(),
        pads: Vec::new(),
        holes: vec![HoleTemplate {
            offset: Point::new(0, 0),
            drill: mm(1.0),
        }],
        exclude_from_bom: true,
        explicit_courtyard: None,
    };
    let smd = FootprintTemplate {
        name: "smd".into(),
        reference_prefix: "R".into(),
        pads: vec![PadTemplate {
            offset: Point::new(0, 0),
            radius: mm(0.2),
            layer: LayerId::FCu,
            number: "1".into(),
            shape: PadShapeKind::Circle,
            rotation_deg: deg(0.0),
            hole_diameter: None,
            pin_name: None,
            zone_connection: ZoneConnection::Thermal,
        }],
        holes: Vec::new(),
        exclude_from_bom: false,
        explicit_courtyard: None,
    };
    place(&mut board, &th, Point::new(0, 0), 0.0).unwrap();
    let err = place(&mut board, &smd, Point::new(mm(0.92), 0), 0.0).unwrap_err();
    assert_eq!(err, PlacementError::LeadToHole, "got {err:?}");
}

#[test]
fn try_place_footprint_rejects_a_body_within_the_2_5mm_assembly_margin_of_the_board_edge() {
    let mut board = test_board();
    let template = wide_courtyard_template();
    let position = Point::new(mm(17.0), 0);

    let err = place(&mut board, &template, position, 0.0).unwrap_err();
    assert_eq!(err, PlacementError::BodyOffBoard);
    assert!(board.footprints.is_empty(), "the rejected placement must not be recorded");
}

#[test]
fn try_place_footprint_accepts_a_body_that_clears_the_2_5mm_assembly_margin() {
    let mut board = test_board();
    let template = wide_courtyard_template();
    let position = Point::new(mm(15.0), 0);

    place(&mut board, &template, position, 0.0).expect("a body well clear of the edge must be accepted");
}

#[test]
fn set_outline_refuses_and_touches_nothing_when_a_placed_body_would_end_up_too_close_to_a_shrunk_edge() {
    let mut board = test_board();
    let template = wide_courtyard_template();
    let position = Point::new(mm(15.0), 0);
    place(&mut board, &template, position, 0.0).unwrap();

    let smaller = vec![rectangle(mm(32.0), mm(32.0))];
    let err = reshape(&mut board, smaller, &[template]).unwrap_err();
    assert!(matches!(err, SetOutlineError::FootprintOffBoard(_)));
    assert_eq!(
        board.outline,
        vec![rectangle(mm(40.0), mm(40.0))],
        "a refused outline change must leave the board's own outline untouched"
    );
}

#[test]
fn try_move_footprint_rejects_a_body_overlap_and_leaves_position_unchanged() {
    let mut board = test_board();
    let template = wide_courtyard_template();
    let moving = place(&mut board, &template, Point::new(mm(-5.0), 0), 0.0).unwrap();
    place(&mut board, &template, Point::new(0, 0), 0.0).unwrap();

    let err = shift(&mut board, moving, &template, Point::new(mm(3.0), 0), 0.0).unwrap_err();
    assert_eq!(err, PlacementError::BodyOverlap);
    let placed = board.footprints.iter().find(|f| f.id == moving).unwrap();
    assert_eq!(placed.position, Point::new(mm(-5.0), 0), "a rejected move must leave the footprint exactly where it was");
}

#[test]
fn check_matrix_placement_rejects_a_grid_whose_own_members_bodies_would_overlap_each_other() {
    let board = test_board();
    let template = wide_courtyard_template();
    let positions = vec![Point::new(0, 0), Point::new(mm(3.0), 0)];
    let err = check_grid(&board, &template, &positions).unwrap_err();
    assert_eq!(err, PlacementError::BodyOverlap);
}

#[test]
fn try_move_footprint_to_a_clear_spot_succeeds_and_updates_pad_positions() {
    let mut board = test_board();
    let template = two_pin_template();
    let id = place(&mut board, &template, Point::new(0, 0), 0.0).unwrap();

    let new_position = Point::new(5 * MM, 5 * MM);
    shift(&mut board, id, &template, new_position, 0.0).expect("moving to open space must succeed");

    let placed = board.footprints.iter().find(|f| f.id == id).unwrap();
    assert_eq!(placed.position, new_position);
    for &pad_id in &placed.pad_item_ids {
        let Item::Pad { shape, .. } = board.node.get(pad_id).unwrap() else { panic!("expected a pad") };
        assert!(is_closer(shape.center(), new_position, 3 * MM as i128), "pad should have moved along with the footprint");
    }
}

#[test]
fn try_move_footprint_does_not_collide_with_its_own_previous_position() {
    let mut board = test_board();
    let template = two_pin_template();
    let id = place(&mut board, &template, Point::new(0, 0), 0.0).unwrap();

    shift(&mut board, id, &template, Point::new(0, 0), 0.0).expect("moving onto its own spot must succeed");
}

#[test]
fn try_move_footprint_into_another_footprint_is_rejected_and_leaves_position_unchanged() {
    let mut board = test_board();
    let template = two_pin_template();
    let a = place(&mut board, &template, Point::new(-10 * MM, 0), 0.0).unwrap();
    place(&mut board, &template, Point::new(10 * MM, 0), 0.0).unwrap();

    let err = shift(&mut board, a, &template, Point::new(10 * MM, 0), 0.0).unwrap_err();
    assert!(matches!(err, PlacementError::Collision(_)));
    let placed = board.footprints.iter().find(|f| f.id == a).unwrap();
    assert_eq!(placed.position, Point::new(-10 * MM, 0), "a rejected move must leave the footprint where it was");
}

#[test]
fn try_move_footprint_preserves_each_pads_net_membership() {
    let mut board = test_board();
    let template = two_pin_template();
    let moving = place(&mut board, &template, Point::new(-10 * MM, 0), 0.0).unwrap();
    place(&mut board, &template, Point::new(10 * MM, 0), 0.0).unwrap();
    let a = pad_ids_of(&board, 0)[0];
    let b = pad_ids_of(&board, 1)[0];
    let net = board.connect_pads(a, b).expect("connecting two unassigned pads must succeed");
    assert_eq!(board.pads_on_net(net).len(), 2);

    let new_position = Point::new(-10 * MM, 15 * MM);
    shift(&mut board, moving, &template, new_position, 90.0).expect("moving to open space must succeed");

    assert_eq!(board.pads_on_net(net).len(), 2, "both pads must still share the net after the move");
    let Item::Pad { net: moved_pad_net, .. } = board.node.get(a).unwrap() else { panic!("expected a pad") };
    assert_eq!(*moved_pad_net, Some(net), "the moved footprint's own pad must keep its net assignment");
    let placed = board.footprints.iter().find(|f| f.id == moving).unwrap();
    assert_eq!(placed.position, new_position, "the move itself must still have taken effect");
}

#[test]
fn try_move_footprint_does_not_collide_with_a_same_net_solid_plane_it_is_already_sitting_under() {
    let mut board = test_board();
    let template = two_pin_template();
    let moving = place(&mut board, &template, Point::new(-10 * MM, 0), 0.0).unwrap();
    place(&mut board, &template, Point::new(10 * MM, 0), 0.0).unwrap();
    let a = pad_ids_of(&board, 0)[0];
    let b = pad_ids_of(&board, 1)[0];
    let net = board.connect_pads(a, b).expect("connecting two unassigned pads must succeed");
    board.connect_pads(pad_ids_of(&board, 0)[1], b).expect("extending the net to the footprint's other pad must succeed");

    let whole = board.outline[0].clone();
    pour(&mut board, whole, LayerId::FCu, net);
    assert!(board.node.entries.iter().map(|e| &e.item).any(|item| matches!(item, Item::Zone { .. })), "the plane must have actually filled");

    let new_position = Point::new(-10 * MM, 15 * MM);
    shift(&mut board, moving, &template, new_position, 0.0).expect("moving a same-net pad under its own plane must succeed");
}

#[test]
fn try_move_footprint_is_not_blocked_by_a_different_net_solid_plane_it_has_no_net_yet_to_match() {
    let mut board = test_board();
    let template = two_pin_template();
    let moving = place(&mut board, &template, Point::new(-10 * MM, 0), 0.0).unwrap();
    let other = place(&mut board, &template, Point::new(10 * MM, 0), 0.0).unwrap();
    let net = board.connect_pads(pad_ids_of(&board, 1)[0], pad_ids_of(&board, 1)[1]).unwrap();
    let _ = other;

    let whole = board.outline[0].clone();
    pour(&mut board, whole, LayerId::FCu, net);
    assert!(board.node.entries.iter().map(|e| &e.item).any(|item| matches!(item, Item::Zone { .. })), "the plane must have actually filled");

    let new_position = Point::new(-10 * MM, 15 * MM);
    shift(&mut board, moving, &template, new_position, 0.0).expect("a copper pour of an unrelated net must never block a move");
}

#[test]
fn refilling_a_zone_never_assigns_a_net_to_a_new_unconnected_footprint_sitting_under_it() {
    let mut board = test_board();
    let template = two_pin_template();
    place(&mut board, &template, Point::new(-10 * MM, 0), 0.0).unwrap();
    let net = board.connect_pads(pad_ids_of(&board, 0)[0], pad_ids_of(&board, 0)[1]).unwrap();

    let whole = board.outline[0].clone();
    pour(&mut board, whole, LayerId::FCu, net);

    place(&mut board, &template, Point::new(10 * MM, 0), 0.0).unwrap();
    let new_pads = pad_ids_of(&board, 1);
    for &pad in &new_pads {
        assert_eq!(board.pad_net(pad), Ok(None), "a freshly placed pad must start net-less");
    }

    refill(&mut board);

    for &pad in &new_pads {
        assert_eq!(board.pad_net(pad), Ok(None), "refilling zones must never wire an unrelated pad onto the plane's net");
    }
}

#[test]
fn zones_are_stale_flags_a_fill_that_predates_a_later_footprint_move_and_clears_once_refilled() {
    let mut board = test_board();
    let template = two_pin_template();
    let moving = place(&mut board, &template, Point::new(-10 * MM, 0), 0.0).unwrap();
    let a = pad_ids_of(&board, 0)[0];
    let b = pad_ids_of(&board, 0)[1];
    let net = board.connect_pads(a, b).unwrap();

    let whole = board.outline[0].clone();
    pour(&mut board, whole, LayerId::FCu, net);
    assert!(!board.zones_are_stale(), "a zone must never be stale immediately after its own fill");

    shift(&mut board, moving, &template, Point::new(-10 * MM, 10 * MM), 0.0).expect("moving under its own same-net plane must succeed");
    assert!(board.zones_are_stale(), "the plane's fill still reflects the footprint's old position, not its new one");

    refill(&mut board);
    assert!(!board.zones_are_stale(), "refilling must catch every zone back up to the board's current state");
}

#[test]
fn try_move_footprint_deletes_a_wire_touching_one_of_its_pads_so_none_are_left_stranded() {
    let mut board = test_board();
    let template = two_pin_template();
    let moving = place(&mut board, &template, Point::new(-10 * MM, 0), 0.0).unwrap();
    place(&mut board, &template, Point::new(10 * MM, 0), 0.0).unwrap();
    let a = pad_ids_of(&board, 0)[0];
    let b = pad_ids_of(&board, 1)[0];
    let net = board.connect_pads(a, b).unwrap();
    let (a_center, b_center) = (board.pad_center(a).unwrap(), board.pad_center(b).unwrap());
    board.node.add(Item::Track { shape: Segment::new(a_center, b_center, 250_000), net: Some(net), layer: LayerId::FCu, class: NetClass::C });
    assert_eq!(board.node.entries.iter().map(|e| &e.item).filter(|item| matches!(item, Item::Track { .. })).count(), 1);

    shift(&mut board, moving, &template, Point::new(-10 * MM, 15 * MM), 0.0).expect("open space must accept the move");

    assert_eq!(
        board.node.entries.iter().map(|e| &e.item).filter(|item| matches!(item, Item::Track { .. })).count(),
        0,
        "the stale track must be deleted, not left stranded at the old pad position"
    );
    assert_eq!(board.pads_on_net(net).len(), 2, "the net's own pad membership must be unaffected by deleting the stale copper");
}

#[test]
fn try_move_footprint_leaves_a_wire_touching_other_footprints_pads_alone() {
    let mut board = test_board();
    let template = two_pin_template();
    let moving = place(&mut board, &template, Point::new(-10 * MM, 0), 0.0).unwrap();
    place(&mut board, &template, Point::new(10 * MM, 0), 0.0).unwrap();
    place(&mut board, &template, Point::new(0, 15 * MM), 0.0).unwrap();
    let b = pad_ids_of(&board, 1)[0];
    let c = pad_ids_of(&board, 2)[0];
    let unrelated_net = board.connect_pads(b, c).unwrap();
    let (b_center, c_center) = (board.pad_center(b).unwrap(), board.pad_center(c).unwrap());
    board.node.add(Item::Track { shape: Segment::new(b_center, c_center, 250_000), net: Some(unrelated_net), layer: LayerId::FCu, class: NetClass::C });

    shift(&mut board, moving, &template, Point::new(-10 * MM, -15 * MM), 0.0).expect("open space must accept the move");

    assert_eq!(
        board.node.entries.iter().map(|e| &e.item).filter(|item| matches!(item, Item::Track { .. })).count(),
        1,
        "a wire that doesn't touch the moved footprint's own pads must survive the move"
    );
}

#[test]
fn try_move_footprint_rejected_by_collision_leaves_its_wires_untouched() {
    let mut board = test_board();
    let template = two_pin_template();
    let moving = place(&mut board, &template, Point::new(-10 * MM, 0), 0.0).unwrap();
    place(&mut board, &template, Point::new(10 * MM, 0), 0.0).unwrap();
    let a = pad_ids_of(&board, 0)[0];
    let net = board.connect_pads(a, a).unwrap();
    let a_center = board.pad_center(a).unwrap();
    board.node.add(Item::Track {
        shape: Segment::new(a_center, Point::new(-5 * MM, 5 * MM), 250_000),
        net: Some(net),
        layer: LayerId::FCu,
        class: NetClass::C,
    });

    let err = shift(&mut board, moving, &template, Point::new(10 * MM, 0), 0.0).unwrap_err();

    assert!(matches!(err, PlacementError::Collision(_)));
    assert_eq!(
        board.node.entries.iter().map(|e| &e.item).filter(|item| matches!(item, Item::Track { .. })).count(),
        1,
        "a rejected move must leave everything untouched, including any wire on the pad that was about to move"
    );
}

#[test]
fn remove_footprint_deletes_a_wire_touching_one_of_its_pads_too() {
    let mut board = test_board();
    let template = two_pin_template();
    let removing = place(&mut board, &template, Point::new(-10 * MM, 0), 0.0).unwrap();
    place(&mut board, &template, Point::new(10 * MM, 0), 0.0).unwrap();
    let a = pad_ids_of(&board, 0)[0];
    let b = pad_ids_of(&board, 1)[0];
    let net = board.connect_pads(a, b).unwrap();
    let (a_center, b_center) = (board.pad_center(a).unwrap(), board.pad_center(b).unwrap());
    board.node.add(Item::Track { shape: Segment::new(a_center, b_center, 250_000), net: Some(net), layer: LayerId::FCu, class: NetClass::C });

    board.remove_footprint(removing);

    assert_eq!(
        board.node.entries.iter().map(|e| &e.item).filter(|item| matches!(item, Item::Track { .. })).count(),
        0,
        "the wire touching the removed footprint's own pad must be deleted too, not left as copper on a now-padless net"
    );
}

#[test]
fn remove_footprint_deletes_its_pads_from_the_node() {
    let mut board = test_board();
    let template = two_pin_template();
    let id = place(&mut board, &template, Point::new(0, 0), 0.0).unwrap();
    assert_eq!(board.node.entries.len(), template.pads.len());

    board.remove_footprint(id);
    assert_eq!(board.node.entries.len(), 0);
    assert!(board.footprints.is_empty());
}

#[test]
fn connect_pads_creates_a_new_net_when_neither_pad_has_one() {
    let mut board = test_board();
    let template = two_pin_template();
    place(&mut board, &template, Point::new(-10 * MM, 0), 0.0).unwrap();
    place(&mut board, &template, Point::new(10 * MM, 0), 0.0).unwrap();
    let a = pad_ids_of(&board, 0)[0];
    let b = pad_ids_of(&board, 1)[0];

    let net = board.connect_pads(a, b).expect("connecting two unassigned pads must succeed");
    assert_eq!(board.nets.len(), 1);
    assert_eq!(board.pads_on_net(net).len(), 2);
}

#[test]
fn connect_pads_extends_an_existing_net_instead_of_making_a_new_one() {
    let mut board = test_board();
    let template = two_pin_template();
    place(&mut board, &template, Point::new(-10 * MM, 0), 0.0).unwrap();
    place(&mut board, &template, Point::new(10 * MM, 0), 0.0).unwrap();
    place(&mut board, &template, Point::new(0, 15 * MM), 0.0).unwrap();
    let a = pad_ids_of(&board, 0)[0];
    let b = pad_ids_of(&board, 1)[0];
    let c = pad_ids_of(&board, 2)[0];

    let net_ab = board.connect_pads(a, b).unwrap();
    let net_bc = board.connect_pads(b, c).unwrap();

    assert_eq!(net_ab, net_bc, "joining a third pad to an already-connected one must reuse the same net");
    assert_eq!(board.nets.len(), 1);
    assert_eq!(board.pads_on_net(net_ab).len(), 3);
}

#[test]
fn connect_pads_refuses_to_merge_two_different_existing_nets() {
    let mut board = test_board();
    let template = two_pin_template();
    place(&mut board, &template, Point::new(-10 * MM, 0), 0.0).unwrap();
    place(&mut board, &template, Point::new(10 * MM, 0), 0.0).unwrap();
    place(&mut board, &template, Point::new(0, 15 * MM), 0.0).unwrap();
    place(&mut board, &template, Point::new(0, -15 * MM), 0.0).unwrap();
    let a = pad_ids_of(&board, 0)[0];
    let b = pad_ids_of(&board, 1)[0];
    let c = pad_ids_of(&board, 2)[0];
    let d = pad_ids_of(&board, 3)[0];
    board.connect_pads(a, b).unwrap();
    board.connect_pads(c, d).unwrap();

    let err = board.connect_pads(a, c).unwrap_err();
    assert_eq!(err, NetError::AlreadyOnDifferentNets);
    assert_eq!(board.nets.len(), 2, "a refused merge must leave both nets exactly as they were");
}

#[test]
fn disconnect_pad_removes_the_net_once_it_has_no_pads_left() {
    let mut board = test_board();
    let template = two_pin_template();
    place(&mut board, &template, Point::new(-10 * MM, 0), 0.0).unwrap();
    place(&mut board, &template, Point::new(10 * MM, 0), 0.0).unwrap();
    let a = pad_ids_of(&board, 0)[0];
    let b = pad_ids_of(&board, 1)[0];
    let net = board.connect_pads(a, b).unwrap();

    board.disconnect_pad(a).unwrap();
    assert_eq!(board.pads_on_net(net).len(), 1, "the net itself must survive with its remaining pad");
    assert_eq!(board.nets.len(), 1);

    board.disconnect_pad(b).unwrap();
    assert!(board.nets.is_empty(), "a net with zero pads left must be pruned");
}

#[test]
fn remove_net_disconnects_every_one_of_its_pads() {
    let mut board = test_board();
    let template = two_pin_template();
    place(&mut board, &template, Point::new(-10 * MM, 0), 0.0).unwrap();
    place(&mut board, &template, Point::new(10 * MM, 0), 0.0).unwrap();
    let a = pad_ids_of(&board, 0)[0];
    let b = pad_ids_of(&board, 1)[0];
    let net = board.connect_pads(a, b).unwrap();

    board.remove_net(net);
    assert!(board.nets.is_empty());
    assert_eq!(board.pad_net(a), Ok(None));
    assert_eq!(board.pad_net(b), Ok(None));
}

#[test]
fn remove_net_also_deletes_every_track_and_via_still_on_it() {
    let mut board = test_board();
    let template = two_pin_template();
    place(&mut board, &template, Point::new(-10 * MM, 0), 0.0).unwrap();
    place(&mut board, &template, Point::new(10 * MM, 0), 0.0).unwrap();
    let a = pad_ids_of(&board, 0)[0];
    let b = pad_ids_of(&board, 1)[0];
    let net = board.connect_pads(a, b).unwrap();
    board.add_track_path(&[Point::new(-10 * MM, 0), Point::new(0, 0)], net, LayerId::FCu, 250_000, NetClass::C);
    add_via(&mut board, Point::new(5 * MM, 0), net, DEFAULT_VIA_DIAMETER, DEFAULT_VIA_DRILL).unwrap();
    let other_net_track_before = board.node.entries.iter().map(|e| &e.item).filter(|i| matches!(i, Item::Track { .. })).count();
    assert!(other_net_track_before > 0, "test setup: the track must actually have been added");

    board.remove_net(net);

    assert!(board.nets.is_empty());
    assert!(!board.node.entries.iter().map(|e| &e.item).any(|item| matches!(item, Item::Track { .. })), "every track on the deleted net must be gone too");
    assert!(!board.node.entries.iter().map(|e| &e.item).any(|item| matches!(item, Item::Via { .. })), "every via on the deleted net must be gone too");
}

#[test]
fn track_at_finds_a_track_near_its_centerline_but_not_far_from_it() {
    let mut board = test_board();
    board.node.add(Item::Track { shape: Segment::new(Point::new(0, 0), Point::new(10 * MM, 0), 250_000), net: None, layer: LayerId::FCu, class: NetClass::C });
    let id = board.node.entries.iter().map(|e| (e.id, &e.item)).next().unwrap().0;

    assert_eq!(track_near(&board, Point::new(5 * MM, 0), 0), Some(id), "dead center of the track must hit");
    assert_eq!(track_near(&board, Point::new(5 * MM, 100_000), 0), Some(id), "within the track's own half-width must still hit");
    assert_eq!(track_near(&board, Point::new(5 * MM, MM), 0), None, "1mm off a 0.25mm-wide track must miss with no tolerance");
    assert_eq!(track_near(&board, Point::new(5 * MM, MM), MM), Some(id), "but a generous tolerance must catch it");
}

#[test]
fn via_at_finds_a_via_within_its_radius_plus_tolerance() {
    let mut board = test_board();
    board.node.add(Item::Via { shape: Circle::new(Point::new(0, 0), 300_000), drill: 300_000, net: None });
    let id = board.node.entries.iter().map(|e| (e.id, &e.item)).next().unwrap().0;

    assert_eq!(board.via_at(Point::new(0, 0), 0), Some(id));
    assert_eq!(board.via_at(Point::new(500_000, 0), 0), None, "outside the via's own radius must miss with no tolerance");
    assert_eq!(board.via_at(Point::new(500_000, 0), 300_000), Some(id), "but a generous tolerance must catch it");
}

#[test]
fn remove_item_deletes_a_track_or_via_but_refuses_a_pad() {
    let mut board = test_board();
    let template = two_pin_template();
    place(&mut board, &template, Point::new(0, 0), 0.0).unwrap();
    let pad = pad_ids_of(&board, 0)[0];
    board.node.add(Item::Track { shape: Segment::new(Point::new(0, 0), Point::new(10 * MM, 0), 250_000), net: None, layer: LayerId::FCu, class: NetClass::C });
    let track = board.node.entries.iter().map(|e| (e.id, &e.item)).find(|(_, i)| matches!(i, Item::Track { .. })).unwrap().0;

    assert!(!board.remove_item(pad), "a pad must not be deletable through this path");
    assert!(board.node.get(pad).is_some());

    assert!(board.remove_item(track));
    assert!(board.node.get(track).is_none());
}

#[test]
fn connected_wire_gathers_every_leg_of_a_multi_corner_route() {
    let mut board = test_board();
    let template = two_pin_template();
    place(&mut board, &template, Point::new(-10 * MM, 0), 0.0).unwrap();
    place(&mut board, &template, Point::new(10 * MM, 0), 0.0).unwrap();
    let a = pad_ids_of(&board, 0)[0];
    let b = pad_ids_of(&board, 1)[0];
    let a_center = board.pad_center(a).unwrap();
    let b_center = board.pad_center(b).unwrap();
    let net = board.connect_pads(a, b).unwrap();
    board.add_track_path(
        &[a_center, Point::new(-5 * MM, 0), Point::new(-5 * MM, 5 * MM), Point::new(5 * MM, 5 * MM), b_center],
        net,
        LayerId::FCu,
        250_000,
        NetClass::C,
    );
    let track_ids: Vec<ItemId> = board.node.entries.iter().map(|e| (e.id, &e.item)).filter(|(_, i)| matches!(i, Item::Track { .. })).map(|(id, _)| id).collect();
    assert_eq!(track_ids.len(), 4, "test setup: four legs for the four-point path above");

    for &start in &track_ids {
        let wire = board.connected_wire(start);
        assert_eq!(wire.len(), 4, "every leg must gather all four, no matter which one the click landed on");
        for &id in &track_ids {
            assert!(wire.contains(&id));
        }
    }
}

#[test]
fn connected_wire_does_not_pull_in_an_unrelated_wire_that_only_shares_a_pad() {
    let mut board = test_board();
    let template = legacy_builtin_templates().remove(1);
    place(&mut board, &template, Point::new(-12 * MM, 0), 0.0).unwrap();
    place(&mut board, &template, Point::new(12 * MM, 0), 0.0).unwrap();
    let pads_left = pad_ids_of(&board, 0);
    let pads_right = pad_ids_of(&board, 1);
    let net_a = board.connect_pads(pads_left[0], pads_right[0]).unwrap();
    let net_b = board.connect_pads(pads_left[1], pads_right[1]).unwrap();
    let path = [board.pad_center(pads_left[0]).unwrap(), board.pad_center(pads_right[0]).unwrap()];
    board.add_track_path(&path, net_a, LayerId::FCu, 250_000, NetClass::C);
    let path = [board.pad_center(pads_left[1]).unwrap(), board.pad_center(pads_right[1]).unwrap()];
    board.add_track_path(&path, net_b, LayerId::FCu, 250_000, NetClass::C);

    let track_a = board.node.entries.iter().map(|e| (e.id, &e.item)).find(|(_, i)| matches!(i, Item::Track { net, .. } if *net == Some(net_a))).unwrap().0;
    let wire = board.connected_wire(track_a);
    assert_eq!(wire, vec![track_a], "a different net's wire, even on the same two footprints, must never be pulled in");
}

#[test]
fn connected_wire_crosses_a_via_onto_the_other_layer() {
    let mut board = test_board();
    let template = two_pin_template();
    place(&mut board, &template, Point::new(-10 * MM, 0), 0.0).unwrap();
    place(&mut board, &template, Point::new(10 * MM, 0), 0.0).unwrap();
    let a = pad_ids_of(&board, 0)[0];
    let b = pad_ids_of(&board, 1)[0];
    let a_center = board.pad_center(a).unwrap();
    let b_center = board.pad_center(b).unwrap();
    let net = board.connect_pads(a, b).unwrap();
    let via_point = Point::new(0, 0);
    board.add_track_path(&[a_center, via_point], net, LayerId::FCu, 250_000, NetClass::C);
    add_via(&mut board, via_point, net, DEFAULT_VIA_DIAMETER, DEFAULT_VIA_DRILL).unwrap();
    board.add_track_path(&[via_point, b_center], net, LayerId::BCu, 250_000, NetClass::C);

    let leg_on_fcu = board.node.entries.iter().map(|e| (e.id, &e.item)).find(|(_, i)| matches!(i, Item::Track { layer: LayerId::FCu, .. })).unwrap().0;
    let wire = board.connected_wire(leg_on_fcu);
    assert_eq!(wire.len(), 3, "both legs plus the via bridging them must all be gathered");
    assert!(wire.iter().any(|&id| matches!(board.node.get(id), Some(Item::Via { .. }))));
    assert!(wire.iter().any(|&id| matches!(board.node.get(id), Some(Item::Track { layer: LayerId::BCu, .. }))));
}

#[test]
fn remove_wire_deletes_every_leg_at_once_but_leaves_the_net_and_pads_intact() {
    let mut board = test_board();
    let template = two_pin_template();
    place(&mut board, &template, Point::new(-10 * MM, 0), 0.0).unwrap();
    place(&mut board, &template, Point::new(10 * MM, 0), 0.0).unwrap();
    let a = pad_ids_of(&board, 0)[0];
    let b = pad_ids_of(&board, 1)[0];
    let a_center = board.pad_center(a).unwrap();
    let b_center = board.pad_center(b).unwrap();
    let net = board.connect_pads(a, b).unwrap();
    board.add_track_path(&[a_center, Point::new(0, 5 * MM), b_center], net, LayerId::FCu, 250_000, NetClass::C);
    let first_leg = board.node.entries.iter().map(|e| (e.id, &e.item)).find(|(_, i)| matches!(i, Item::Track { .. })).unwrap().0;

    assert!(board.remove_wire(first_leg));

    assert!(!board.node.entries.iter().map(|e| &e.item).any(|i| matches!(i, Item::Track { .. })), "every leg of the wire must be gone");
    assert_eq!(board.nets.len(), 1, "the net itself must survive");
    assert_eq!(board.pad_net(a), Ok(Some(net)), "pads must stay connected");
    assert_eq!(board.pad_net(b), Ok(Some(net)), "pads must stay connected");
}

#[test]
fn remove_wire_refuses_for_a_pad() {
    let mut board = test_board();
    let template = two_pin_template();
    place(&mut board, &template, Point::new(0, 0), 0.0).unwrap();
    let pad = pad_ids_of(&board, 0)[0];
    assert!(!board.remove_wire(pad));
    assert!(board.node.get(pad).is_some());
}

#[test]
fn remove_footprint_prunes_a_net_left_with_no_pads() {
    let mut board = test_board();
    let template = two_pin_template();
    let id = place(&mut board, &template, Point::new(0, 0), 0.0).unwrap();
    let pads = pad_ids_of(&board, 0);
    board.connect_pads(pads[0], pads[1]).unwrap();
    assert_eq!(board.nets.len(), 1);

    board.remove_footprint(id);
    assert!(board.nets.is_empty(), "removing every pad a net has must prune that net too");
}

#[test]
fn layer_count_from_str_round_trips_with_display() {
    for count in LayerCount::ALL {
        assert_eq!(count.label().parse::<LayerCount>(), Ok(count));
    }
}

#[test]
fn layer_count_from_str_rejects_anything_else() {
    assert!("3".parse::<LayerCount>().is_err());
    assert!("".parse::<LayerCount>().is_err());
}

#[test]
fn find_pad_resolves_a_reference_and_pad_number_to_the_right_item_id() {
    let mut board = test_board();
    let template = two_pin_template();
    place(&mut board, &template, Point::new(0, 0), 0.0).unwrap();
    let expected = board.footprints[0].pad_item_ids[1];

    assert_eq!(board.find_pad(std::slice::from_ref(&template), "P1", "2"), Some(expected));
    assert_eq!(board.find_pad(std::slice::from_ref(&template), "P1", "no-such-pin"), None);
    assert_eq!(board.find_pad(&[template], "no-such-reference", "1"), None);
}

#[test]
fn find_net_by_name_resolves_an_exact_match_and_misses_an_unknown_name() {
    let mut board = test_board();
    let template = two_pin_template();
    place(&mut board, &template, Point::new(-10 * MM, 0), 0.0).unwrap();
    place(&mut board, &template, Point::new(10 * MM, 0), 0.0).unwrap();
    let a = pad_ids_of(&board, 0)[0];
    let b = pad_ids_of(&board, 1)[0];
    let net = board.connect_pads(a, b).unwrap();

    assert_eq!(board.find_net_by_name("Net1"), Some(net));
    assert_eq!(board.find_net_by_name("no-such-net"), None);
}

#[test]
fn rename_net_gives_an_auto_named_net_a_real_name_findable_by_that_new_name() {
    let mut board = test_board();
    let net = board.create_net();

    board.rename_net(net, "GND").unwrap();

    assert_eq!(board.nets.iter().find(|n| n.id == net).unwrap().name, "GND");
    assert_eq!(board.find_net_by_name("GND"), Some(net));
    assert_eq!(board.find_net_by_name("Net1"), None, "the old auto-generated name must no longer resolve");
}

#[test]
fn rename_net_trims_surrounding_whitespace() {
    let mut board = test_board();
    let net = board.create_net();

    board.rename_net(net, "  5V  ").unwrap();

    assert_eq!(board.nets.iter().find(|n| n.id == net).unwrap().name, "5V");
}

#[test]
fn rename_net_rejects_an_empty_or_all_whitespace_name() {
    let mut board = test_board();
    let net = board.create_net();

    assert_eq!(board.rename_net(net, ""), Err(RenameNetError::EmptyName));
    assert_eq!(board.rename_net(net, "   "), Err(RenameNetError::EmptyName));
}

#[test]
fn rename_net_rejects_an_unknown_net_id() {
    let mut board = test_board();
    let bogus = NetId(999);
    assert_eq!(board.rename_net(bogus, "GND"), Err(RenameNetError::NotFound));
}

#[test]
fn rename_net_rejects_a_name_already_used_by_a_different_net_but_allows_renaming_to_its_own_current_name() {
    let mut board = test_board();
    let gnd = board.create_net();
    board.rename_net(gnd, "GND").unwrap();
    let other = board.create_net();

    assert_eq!(board.rename_net(other, "GND"), Err(RenameNetError::NameAlreadyUsed));
    assert!(board.rename_net(gnd, "GND").is_ok());
}

#[test]
fn footprint_at_hits_a_pad_and_misses_empty_space() {
    let mut board = test_board();
    let template = two_pin_template();
    let id = place(&mut board, &template, Point::new(0, 0), 0.0).unwrap();

    let pad_position = match board.node.get(board.footprints[0].pad_item_ids[0]).unwrap() {
        Item::Pad { shape, .. } => shape.center(),
        _ => panic!("expected a pad"),
    };
    assert_eq!(part_under(&board, pad_position), Some(id));
    assert_eq!(part_under(&board, Point::new(19 * MM, 19 * MM)), None);
}

#[test]
fn footprint_at_finds_a_pure_mounting_hole_footprint_by_its_hole_not_just_a_pad() {
    let mut board = test_board();
    let template = mounting_hole_template();
    let id = place(&mut board, &template, Point::new(0, 0), 0.0).unwrap();

    let hole_position = match board.node.get(board.footprints[0].hole_item_ids[0]).unwrap() {
        Item::Hole { position, .. } => *position,
        _ => panic!("expected a hole"),
    };
    assert_eq!(part_under(&board, hole_position), Some(id), "clicking dead center of the hole must select its footprint");
    assert_eq!(part_under(&board, Point::new(19 * MM, 19 * MM)), None);
}

fn one_pad_rect_template(width: Unit, height: Unit, rotation_deg: f64) -> FootprintTemplate {
    FootprintTemplate {
        name: "rect-test".to_string(),
        reference_prefix: "P".to_string(),
        pads: vec![PadTemplate {
            offset: Point::new(0, 0),
            radius: width.min(height) / 2,
            layer: LayerId::FCu,
            number: "1".to_string(),
            shape: PadShapeKind::Rect { width, height },
            rotation_deg: deg(rotation_deg),
            hole_diameter: None,
            pin_name: None,
            zone_connection: ZoneConnection::Thermal,
        }],
        holes: Vec::new(),
        exclude_from_bom: false,
        explicit_courtyard: None,
    }
}

#[test]
fn pad_at_hits_a_rotated_rectangular_pads_true_corner_not_just_its_bounding_circle() {
    let mut board = test_board();
    let template = one_pad_rect_template(4 * MM, MM, 45.0);
    place(&mut board, &template, Point::new(0, 0), 0.0).unwrap();

    let on_axis = Point::new(mm(1.0), mm(1.0));
    assert_eq!(board.pad_at(on_axis, &held(&board, on_axis)), Some(board.footprints[0].pad_item_ids[0]), "must hit real copper on the rotated pad's long axis");

    let off_axis = Point::new(mm(1.9), 0);
    assert_eq!(board.pad_at(off_axis, &held(&board, off_axis)), None, "must miss the bounding circle's corner that isn't real copper");
}

fn rightmost_extent(width: Unit, height: Unit, rotation_deg: f64) -> Unit {
    let template = one_pad_rect_template(width, height, rotation_deg);
    let items = posed(&template, Point::new(0, 0), 0.0, None).items;
    let Item::Pad { shape: PadShape::Polygon { outline, .. }, .. } = &items[0] else { panic!("expected a polygon pad") };
    outline.points.iter().map(|p| p.x).max().unwrap()
}

#[test]
fn check_placement_rejects_a_rotated_rect_pads_true_corner_too_close_to_the_board_edge() {
    let mut board = test_board();
    let (width, height, rotation_deg) = (4 * MM, MM, 45.0);
    let extent = rightmost_extent(width, height, rotation_deg);
    let template = one_pad_rect_template(width, height, rotation_deg);
    let gap_from_edge = 50_000;
    let position = Point::new(20 * MM - gap_from_edge - extent, 0);

    let err = place(&mut board, &template, position, 0.0).unwrap_err();
    assert_eq!(err, PlacementError::OffBoard);
}

#[test]
fn check_placement_accepts_a_rotated_rect_pad_that_clears_the_edge_by_the_full_dfm_minimum() {
    let mut board = test_board();
    let (width, height, rotation_deg) = (4 * MM, MM, 45.0);
    let extent = rightmost_extent(width, height, rotation_deg);
    let template = one_pad_rect_template(width, height, rotation_deg);
    let gap_from_edge = 3 * MM;
    let position = Point::new(20 * MM - gap_from_edge - extent, 0);

    place(&mut board, &template, position, 0.0).expect("a well-cleared rotated rect pad must be accepted");
}

fn net_for_a_connected_pair(board: &mut BoardDoc) -> NetId {
    let template = two_pin_template();
    place(board, &template, Point::new(-10 * MM, 0), 0.0).unwrap();
    place(board, &template, Point::new(10 * MM, 0), 0.0).unwrap();
    let a = pad_ids_of(board, 0)[0];
    let b = pad_ids_of(board, 1)[0];
    board.connect_pads(a, b).unwrap()
}

#[test]
fn try_place_footprint_accepts_a_template_with_a_sub_minimum_smd_pad() {
    let mut board = test_board();
    let mut template = two_pin_template();
    template.pads[0].radius = 100_000;
    template.pads[0].shape = PadShapeKind::Circle;
    place(&mut board, &template, Point::new(0, 0), 0.0).expect("a sub-minimum SMD pad must not hard-block placement");
    assert_eq!(board.footprints.len(), 1);
    assert!(
        !template_dfm_violations(&template.pads, &[], &verdicts_of(&template).pads, &[]).is_empty(),
        "the same geometry must still show up as a report-only DFM finding"
    );
}

#[test]
fn try_add_via_enforces_jlcpcbs_hole_to_hole_spacing_and_relaxes_it_for_a_shared_net() {
    let mut board = test_board();
    let net_a = net_for_a_connected_pair(&mut board);
    let template = two_pin_template();
    place(&mut board, &template, Point::new(-10 * MM, 12 * MM), 0.0).unwrap();
    place(&mut board, &template, Point::new(10 * MM, 12 * MM), 0.0).unwrap();
    let c = pad_ids_of(&board, 2)[0];
    let d = pad_ids_of(&board, 3)[0];
    let net_b = board.connect_pads(c, d).unwrap();

    add_via(&mut board, Point::new(0, -12 * MM), net_a, 600_000, 300_000).unwrap();
    let err = add_via(&mut board, Point::new(750_000, -12 * MM), net_b, 600_000, 300_000).unwrap_err();
    assert_eq!(err, PlacementError::Dfm(DfmViolation::HoleToHoleBelowMin));

    add_via(&mut board, Point::new(750_000, -12 * MM), net_a, 600_000, 300_000).expect("a same-net via pair with a 0.45mm wall gap must stay legal");
}

#[test]
fn try_place_footprint_refuses_a_mounting_hole_whose_drill_crowds_an_existing_via() {
    let mut board = test_board();
    let net = net_for_a_connected_pair(&mut board);
    let mounting = builtin_templates().into_iter().find(|t| !t.holes.is_empty()).expect("a mounting-hole builtin must exist");
    let drill = mounting.holes[0].drill;

    let via_center = Point::new(0, -12 * MM);
    add_via(&mut board, via_center, net, 600_000, 300_000).unwrap();
    let distance = drill / 2 + 150_000 + 350_000;
    let err = place(&mut board, &mounting, Point::new(via_center.x + distance, via_center.y), 0.0).unwrap_err();
    assert_eq!(err, PlacementError::Dfm(DfmViolation::HoleToHoleBelowMin));

    let distance = drill / 2 + 150_000 + 500_000;
    place(&mut board, &mounting, Point::new(via_center.x + distance, via_center.y), 0.0).expect("a hole at exactly the 0.5mm wall gap must be legal");
}

#[test]
fn try_add_via_rejects_a_via_whose_annular_ring_is_below_jlcpcb_minimum() {
    let mut board = test_board();
    let net = net_for_a_connected_pair(&mut board);
    let before = board.node.entries.len();
    let err = add_via(&mut board, Point::new(0, 5 * MM), net, MIN_VIA_DIAMETER, MIN_VIA_HOLE)
        .expect_err("sub-minimum annular ring must be refused");
    assert_eq!(err, PlacementError::Dfm(DfmViolation::ViaAnnularRingBelowMin));
    assert_eq!(board.node.entries.len(), before, "a refused via must not be added");
}

#[test]
fn has_identical_routed_item_matches_a_track_in_either_endpoint_order_but_never_a_near_miss() {
    let mut board = test_board();
    let net = net_for_a_connected_pair(&mut board);
    let (a, b) = (Point::new(-5 * MM, 0), Point::new(5 * MM, 0));
    board.add_track_path(&[a, b], net, LayerId::FCu, 250_000, NetClass::C);

    let same = |a, b, width, net, layer| Item::Track { shape: Segment::new(a, b, width), net, layer, class: NetClass::C };
    assert!(board.has_identical_routed_item(&same(a, b, 250_000, Some(net), LayerId::FCu)));
    assert!(board.has_identical_routed_item(&same(b, a, 250_000, Some(net), LayerId::FCu)), "swapped endpoints are the same capsule");
    assert!(!board.has_identical_routed_item(&same(a, b, 300_000, Some(net), LayerId::FCu)), "a different width is different copper");
    assert!(!board.has_identical_routed_item(&same(a, b, 250_000, Some(net), LayerId::BCu)), "a different layer is different copper");
    assert!(!board.has_identical_routed_item(&same(a, b, 250_000, None, LayerId::FCu)), "a different net is different copper");
}

#[test]
fn has_identical_routed_item_matches_a_via_only_on_exact_center_size_drill_and_net() {
    let mut board = test_board();
    let net = net_for_a_connected_pair(&mut board);
    let center = Point::new(0, 5 * MM);
    add_via(&mut board, center, net, DEFAULT_VIA_DIAMETER, DEFAULT_VIA_DRILL).unwrap();

    let via = |center, diameter: Unit, drill, net| Item::Via { shape: Circle::new(center, diameter / 2), drill, net };
    assert!(board.has_identical_routed_item(&via(center, DEFAULT_VIA_DIAMETER, DEFAULT_VIA_DRILL, Some(net))));
    assert!(!board.has_identical_routed_item(&via(Point::new(MM, 5 * MM), DEFAULT_VIA_DIAMETER, DEFAULT_VIA_DRILL, Some(net))), "a different center is a different via");
    assert!(!board.has_identical_routed_item(&via(center, DEFAULT_VIA_DIAMETER, DEFAULT_VIA_DRILL + 50_000, Some(net))), "a different drill is a different via");
    assert!(!board.has_identical_routed_item(&via(center, DEFAULT_VIA_DIAMETER, DEFAULT_VIA_DRILL, None)), "a different net is a different via");
}

#[test]
fn try_add_via_succeeds_in_open_space_and_adds_it_to_the_node() {
    let mut board = test_board();
    let net = net_for_a_connected_pair(&mut board);

    let id = add_via(&mut board, Point::new(0, 5 * MM), net, DEFAULT_VIA_DIAMETER, DEFAULT_VIA_DRILL).expect("open space must accept a via");

    match board.node.get(id) {
        Some(Item::Via { shape, drill, net: via_net }) => {
            assert_eq!(shape.center, Point::new(0, 5 * MM));
            assert_eq!(shape.radius, DEFAULT_VIA_DIAMETER / 2);
            assert_eq!(*drill, DEFAULT_VIA_DRILL);
            assert_eq!(*via_net, Some(net));
        }
        other => panic!("expected a via, got {other:?}"),
    }
}

#[test]
fn try_add_via_rejects_a_collision_with_a_different_nets_pad_and_adds_nothing() {
    let mut board = test_board();
    let net = net_for_a_connected_pair(&mut board);
    let template = two_pin_template();
    place(&mut board, &template, Point::new(0, 15 * MM), 0.0).unwrap();
    let unconnected_pad_center = match board.node.get(pad_ids_of(&board, 2)[0]).unwrap() {
        Item::Pad { shape, .. } => shape.center(),
        _ => panic!("expected a pad"),
    };
    let before = board.node.entries.len();

    let err = add_via(&mut board, unconnected_pad_center, net, DEFAULT_VIA_DIAMETER, DEFAULT_VIA_DRILL).unwrap_err();
    assert!(matches!(err, PlacementError::Collision(_)));
    assert_eq!(board.node.entries.len(), before, "a rejected via must not be added");
}

#[test]
fn try_add_via_rejects_a_center_too_close_to_the_board_edge() {
    let mut board = test_board();
    let net = net_for_a_connected_pair(&mut board);
    let before = board.node.entries.len();
    let gap_from_edge = 50_000;
    let center = Point::new(20 * MM - gap_from_edge - DEFAULT_VIA_DIAMETER / 2, 15 * MM);

    let err = add_via(&mut board, center, net, DEFAULT_VIA_DIAMETER, DEFAULT_VIA_DRILL).unwrap_err();
    assert_eq!(err, PlacementError::OffBoard);
    assert_eq!(board.node.entries.len(), before, "a rejected via must not be added");
}

#[test]
fn try_add_stitching_via_succeeds_when_it_overlaps_a_same_net_pad() {
    let mut board = test_board();
    let net = net_for_a_connected_pair(&mut board);
    let pad_a_center = match board.node.get(pad_ids_of(&board, 0)[0]).unwrap() {
        Item::Pad { shape, .. } => shape.center(),
        _ => panic!("expected a pad"),
    };

    let id = stitch(&mut board, pad_a_center, net, DEFAULT_VIA_DIAMETER, DEFAULT_VIA_DRILL)
        .expect("a via placed right on top of its own net's pad must be accepted, not just geometrically legal");
    assert!(board.node.get(id).is_some());
}

#[test]
fn try_add_stitching_via_rejects_a_dangling_via_and_rolls_it_back() {
    let mut board = test_board();
    let net = net_for_a_connected_pair(&mut board);
    let before = board.node.entries.len();

    let err = stitch(&mut board, Point::new(0, 15 * MM), net, DEFAULT_VIA_DIAMETER, DEFAULT_VIA_DRILL).unwrap_err();
    assert_eq!(err, ViaError::Dangling);
    assert_eq!(board.node.entries.len(), before, "a rejected dangling via must be rolled back, not left on the board");
}

#[test]
fn try_add_stitching_via_still_reports_a_plain_placement_error_first() {
    let mut board = test_board();
    let net = net_for_a_connected_pair(&mut board);
    let before = board.node.entries.len();
    let gap_from_edge = 50_000;
    let center = Point::new(20 * MM - gap_from_edge - DEFAULT_VIA_DIAMETER / 2, 15 * MM);

    let err = stitch(&mut board, center, net, DEFAULT_VIA_DIAMETER, DEFAULT_VIA_DRILL).unwrap_err();
    assert_eq!(err, ViaError::Placement(PlacementError::OffBoard));
    assert_eq!(board.node.entries.len(), before, "a rejected via must not be added");
}

#[test]
fn try_add_pin_stitching_via_places_the_via_radially_away_from_the_footprints_own_body_and_connects_it_with_a_stub() {
    let mut board = test_board();
    let template = two_pin_template();
    place(&mut board, &template, Point::new(-10 * MM, 0), 0.0).unwrap();
    place(&mut board, &template, Point::new(10 * MM, 0), 0.0).unwrap();
    let pad_id = pad_ids_of(&board, 0)[0];
    board.connect_pads(pad_id, pad_ids_of(&board, 1)[0]).unwrap();

    let items_before = board.node.entries.len();
    let pad_center = board.pad_center(pad_id).unwrap();

    let result = stitch_pin(&mut board, pad_id, DEFAULT_VIA_DIAMETER, DEFAULT_VIA_DRILL, TRACE_WIDTH)
        .expect("open space next to the pin must accept a stitching via");

    assert!(result.center.x < pad_center.x, "the via must land further from the part than the pin itself, not on top of it or back across the body");
    assert_eq!(result.center.y, pad_center.y);
    assert!(matches!(board.node.get(result.via_id), Some(Item::Via { .. })), "the via itself must actually be live");
    assert_eq!(board.node.entries.len(), items_before + 2, "exactly one new via and one new stub track leg must be added");
    assert!(
        board.node.entries.iter().map(|e| &e.item).any(|item| matches!(item, Item::Track { shape, .. } if shape.a == pad_center && shape.b == result.center)),
        "a stub track from the pin straight to the new via must have been committed"
    );
}

fn wire_pad_template() -> FootprintTemplate {
    builtin_templates().into_iter().find(|t| t.name == "Wire pad (solder, 2mm)").unwrap()
}

#[test]
fn try_add_pin_stitching_via_falls_back_to_a_fixed_direction_when_the_pin_sits_on_the_footprints_own_center() {
    let mut board = test_board();
    let template = wire_pad_template();
    place(&mut board, &template, Point::new(0, 0), 0.0).unwrap();
    place(&mut board, &template, Point::new(10 * MM, 0), 0.0).unwrap();
    let pad_id = pad_ids_of(&board, 0)[0];
    board.connect_pads(pad_id, pad_ids_of(&board, 1)[0]).unwrap();

    let result = stitch_pin(&mut board, pad_id, DEFAULT_VIA_DIAMETER, DEFAULT_VIA_DRILL, TRACE_WIDTH).expect("the fixed fallback direction must still be a legal placement");

    assert!(result.center.x > 0, "the documented +X fallback must have been used");
    assert_eq!(result.center.y, 0);
}

#[test]
fn try_add_pin_stitching_via_rejects_a_non_pad_item_id() {
    let mut board = test_board();
    let net = net_for_a_connected_pair(&mut board);
    let via_id = add_via(&mut board, Point::new(0, 5 * MM), net, DEFAULT_VIA_DIAMETER, DEFAULT_VIA_DRILL).unwrap();

    let err = stitch_pin(&mut board, via_id, DEFAULT_VIA_DIAMETER, DEFAULT_VIA_DRILL, TRACE_WIDTH).unwrap_err();
    assert_eq!(err, PinStitchingViaError::NotAPad);
}

#[test]
fn try_add_pin_stitching_via_rejects_a_pad_with_no_net_yet() {
    let mut board = test_board();
    let template = two_pin_template();
    place(&mut board, &template, Point::new(0, 0), 0.0).unwrap();
    let pad_id = pad_ids_of(&board, 0)[0];
    let before = board.node.entries.len();

    let err = stitch_pin(&mut board, pad_id, DEFAULT_VIA_DIAMETER, DEFAULT_VIA_DRILL, TRACE_WIDTH).unwrap_err();
    assert_eq!(err, PinStitchingViaError::NoNet);
    assert_eq!(board.node.entries.len(), before, "a refused pin must not have anything added for it");
}

#[test]
fn try_add_pin_stitching_via_rolls_the_via_back_when_only_the_stub_track_has_no_room() {
    let mut board = test_board();
    let net_a = board.create_net();
    let net_b = board.create_net();
    let pad_radius = mm(0.1);
    let pad_id = board.node.add(bare_pad(pad_radius, net_a));
    let via_diameter = mm(0.35);
    let via_drill = mm(0.15);
    let wide_stub_width = mm(2.0);
    board.node.add(Item::Track {
        shape: Segment::new(Point::new(mm(0.3), mm(0.45)), Point::new(mm(0.5), mm(0.45)), mm(0.1)),
        net: Some(net_b),
        layer: LayerId::FCu,
        class: NetClass::C,
    });
    let items_before = board.node.entries.len();

    let err = stitch_pin(&mut board, pad_id, via_diameter, via_drill, wide_stub_width).unwrap_err();
    assert_eq!(err, PinStitchingViaError::NoRoomForStub);
    assert_eq!(board.node.entries.len(), items_before, "the via must be rolled straight back out again, not left dangling on the board");
}

#[test]
fn try_add_pin_stitching_via_sweeps_to_a_nearby_angle_when_the_natural_spot_is_occupied() {
    let mut board = test_board();
    let net_a = board.create_net();
    let net_b = board.create_net();
    let pad_radius = mm(0.1);
    let pad_id = board.node.add(bare_pad(pad_radius, net_a));

    let ideal = stitch_spots(&board, pad_id, DEFAULT_VIA_DIAMETER)[0];
    board.node.add(Item::Via { shape: Circle::new(ideal, mm(0.05)), drill: 0, net: Some(net_b) });
    let items_before = board.node.entries.len();

    let result = stitch_pin(&mut board, pad_id, DEFAULT_VIA_DIAMETER, DEFAULT_VIA_DRILL, TRACE_WIDTH)
        .expect("a small angular deviation must find a free spot next to the blocked one");

    assert_ne!(result.center, ideal, "must not have reused the blocked, already-occupied spot");
    let ideal_distance = (ideal.x as f64).hypot(ideal.y as f64);
    let actual_distance = (result.center.x as f64).hypot(result.center.y as f64);
    assert!(
        (actual_distance - ideal_distance).abs() < 100.0,
        "the distance to the pin must stay the same however far the angle had to move to dodge the obstacle: ideal={ideal_distance}, actual={actual_distance}"
    );
    assert_eq!(
        board.node.entries.len(),
        items_before + 2,
        "exactly one new via and one new stub track, and nothing left over from the earlier, rejected angles that were tried first"
    );
}

#[test]
fn try_add_pin_stitching_via_reports_the_natural_points_own_error_when_the_whole_sweep_is_blocked() {
    let mut board = test_board();
    let net_a = board.create_net();
    let net_b = board.create_net();
    let pad_radius = mm(0.1);
    let pad_id = board.node.add(bare_pad(pad_radius, net_a));
    board.node.add(Item::Via { shape: Circle::new(Point::new(0, 0), mm(2.0)), drill: 0, net: Some(net_b) });
    let items_before = board.node.entries.len();

    let err = stitch_pin(&mut board, pad_id, DEFAULT_VIA_DIAMETER, DEFAULT_VIA_DRILL, TRACE_WIDTH).unwrap_err();

    assert!(matches!(err, PinStitchingViaError::Via(_)), "expected every candidate to fail as a plain via placement collision, got {err:?}");
    assert_eq!(
        board.node.entries.len(),
        items_before,
        "every rejected attempt across the whole sweep must roll its own via straight back out, leaving nothing dangling"
    );
}

fn chamfered_outline(width: Unit, height: Unit, chamfer: Unit) -> Polygon {
    let (hw, hh) = (width / 2, height / 2);
    Polygon::new(vec![
        Point::new(-hw + chamfer, -hh),
        Point::new(hw, -hh),
        Point::new(hw, hh - chamfer),
        Point::new(hw - chamfer, hh),
        Point::new(-hw, hh),
        Point::new(-hw, -hh + chamfer),
    ])
}

#[test]
fn set_outline_accepts_an_arbitrary_polygon_that_still_clears_every_existing_item() {
    let mut board = test_board();
    let template = two_pin_template();
    place(&mut board, &template, Point::new(0, 0), 0.0).unwrap();

    let new_outline = vec![chamfered_outline(40 * MM, 40 * MM, 5 * MM)];
    reshape(&mut board, new_outline.clone(), &[template]).expect("a well-clear chamfered outline must be accepted");
    assert_eq!(board.outline, new_outline);
}

#[test]
fn set_outline_rejects_a_shape_that_would_leave_an_existing_footprint_off_board_and_touches_nothing() {
    let mut board = test_board();
    let template = two_pin_template();
    place(&mut board, &template, Point::new(15 * MM, 0), 0.0).unwrap();
    let original_outline = board.outline.clone();

    let tiny_outline = vec![rectangle(4 * MM, 4 * MM)];
    let err = reshape(&mut board, tiny_outline, &[template]).unwrap_err();
    assert!(matches!(err, SetOutlineError::FootprintOffBoard(_)));
    assert_eq!(board.outline, original_outline, "a rejected set_outline must leave the outline untouched");
}

#[test]
fn set_outline_rejects_a_shape_that_would_leave_an_existing_track_off_board() {
    let mut board = test_board();
    let net = net_for_a_connected_pair(&mut board);
    board.add_track_path(&[Point::new(-10 * MM, 0), Point::new(10 * MM, 0)], net, LayerId::FCu, 250_000, NetClass::C);
    let original_outline = board.outline.clone();

    let tiny_outline = vec![rectangle(4 * MM, 4 * MM)];
    let err = reshape(&mut board, tiny_outline, &[]).unwrap_err();
    assert_eq!(err, SetOutlineError::TrackOffBoard);
    assert_eq!(board.outline, original_outline);
}

#[test]
fn set_outline_rejects_a_shape_that_would_leave_an_existing_mounting_hole_off_board() {
    let mut board = test_board();
    let template = mounting_hole_template();
    place(&mut board, &template, Point::new(15 * MM, 0), 0.0).unwrap();
    let original_outline = board.outline.clone();

    let tiny_outline = vec![rectangle(4 * MM, 4 * MM)];
    let err = reshape(&mut board, tiny_outline, &[template]).unwrap_err();
    assert!(matches!(err, SetOutlineError::FootprintOffBoard(_)));
    assert_eq!(board.outline, original_outline, "a rejected set_outline must leave the outline untouched");
}

#[test]
fn set_outline_reclips_an_existing_zone_to_the_smaller_shape() {
    let mut board = test_board();
    let net = board.create_net();
    pour(&mut board, chamfered_outline(30 * MM, 30 * MM, 2 * MM), LayerId::FCu, net);
    assert!(!board.zones[0].item_ids.is_empty(), "test setup: the zone must have filled to something on the full board");

    let smaller_outline = vec![rectangle(10 * MM, 10 * MM)];
    reshape(&mut board, smaller_outline, &[]).expect("shrinking the board must not itself be rejected because of a zone");

    let half_extent = 5 * MM + 1_000;
    for &item_id in &board.zones[0].item_ids {
        let Some(Item::Zone { outline, .. }) = board.node.get(item_id) else { panic!("expected a zone island") };
        for &p in &outline.points {
            assert!(p.x.abs() <= half_extent && p.y.abs() <= half_extent, "every refilled zone vertex must now lie within the smaller 10x10mm board, got {p:?}");
        }
    }
}

#[test]
fn remove_zone_deletes_its_fill_islands_and_forgets_the_record() {
    let mut board = test_board();
    let net = board.create_net();
    let id = pour(&mut board, chamfered_outline(30 * MM, 30 * MM, 2 * MM), LayerId::FCu, net);
    let island_count = board.zones[0].item_ids.len();
    assert!(island_count > 0, "test setup: an obstacle-free pour must fill to at least one island");
    let node_count_before = board.node.entries.len();

    board.remove_zone(id);

    assert!(board.zones.is_empty(), "the ZoneRecord itself must be gone, not just re-filled empty");
    assert_eq!(board.node.entries.len(), node_count_before - island_count, "every one of the zone's fill islands must be gone from the node too");
}

#[test]
fn remove_zone_is_a_no_op_for_an_id_that_is_no_longer_recorded() {
    let mut board = test_board();
    let net = board.create_net();
    let id = pour(&mut board, chamfered_outline(30 * MM, 30 * MM, 2 * MM), LayerId::FCu, net);
    board.remove_zone(id);
    let node_count = board.node.entries.len();

    board.remove_zone(id);
    assert_eq!(board.node.entries.len(), node_count);
    assert!(board.zones.is_empty());
}

fn two_pin_row() -> FootprintTemplate {
    straight_row_template("2-pin test".into(), "P".into(), 2, mm(2.54), mm(0.45))
}

#[test]
fn groups_parts_sharing_a_template_into_one_row_with_sorted_uppercase_designators() {
    let mut board = sized_board(60.0, 60.0);
    let template = two_pin_row();
    place(&mut board, &template, Point::new(-20_000_000, 0), 0.0).unwrap();
    place(&mut board, &template, Point::new(20_000_000, 0), 0.0).unwrap();
    let templates = vec![template.clone()];

    let rows = build_bom_rows(&board, &templates, &[None]);

    assert_eq!(rows.len(), 1, "two placements of the same template must collapse into one BOM row");
    assert_eq!(rows[0].designators, vec!["P1".to_string(), "P2".to_string()]);
    assert_eq!(rows[0].footprint, template.name);
    assert_eq!(rows[0].comment, template.name, "no database description available: falls back to the template name");
    assert_eq!(rows[0].lcsc_part_number, None);
}

#[test]
fn designators_are_written_in_upper_case_and_sorted() {
    let mut board = sized_board(60.0, 60.0);
    let mut template = two_pin_row();
    template.reference_prefix = "r\u{e4}".into();
    place(&mut board, &template, Point::new(-20_000_000, 0), 0.0).unwrap();
    template.reference_prefix = "q".into();
    place(&mut board, &template, Point::new(20_000_000, 0), 0.0).unwrap();
    let rows = build_bom_rows(&board, &[template], &[None]);
    assert_eq!(rows[0].designators, vec!["Q2".to_string(), "R\u{c4}1".to_string()]);
}

#[test]
fn resolves_the_real_lcsc_part_number_and_description_for_a_database_backed_template() {
    let mut template = straight_row_template("0603 10k".to_string(), "R".to_string(), 2, mm(2.0), mm(0.5));
    template.pads.truncate(1);
    let info = PartInfo { description: "0603 \u{2014} 10k\u{03a9} 1%".to_string(), lcsc_code: Some("C25804".to_string()) };

    let mut board = sized_board(60.0, 60.0);
    place(&mut board, &template, Point::new(0, 0), 0.0).unwrap();

    let rows = build_bom_rows(&board, &[template], &[Some(info)]);
    assert_eq!(rows.len(), 1);
    assert_eq!(rows[0].lcsc_part_number, Some("C25804".to_string()));
    assert_eq!(rows[0].comment, "0603 \u{2014} 10k\u{03a9} 1%");
}

#[test]
fn a_mechanical_template_marked_exclude_from_bom_produces_no_row() {
    let mut board = sized_board(60.0, 60.0);
    let hole_template =
        builtin_templates().into_iter().find(|t| t.exclude_from_bom).expect("a builtin mechanical template must exist");
    place(&mut board, &hole_template, Point::new(0, 0), 0.0).unwrap();
    let rows = build_bom_rows(&board, &[hole_template], &[None]);
    assert!(rows.is_empty(), "a mounting hole / wire pad must never appear as a BOM line item");
}

#[test]
fn a_mix_of_electrical_and_mechanical_parts_only_boms_the_electrical_one() {
    let mut board = sized_board(60.0, 60.0);
    let electrical = two_pin_row();
    let mechanical =
        builtin_templates().into_iter().find(|t| t.exclude_from_bom).expect("a builtin mechanical template must exist");
    place(&mut board, &electrical, Point::new(-20_000_000, 0), 0.0).unwrap();
    place(&mut board, &mechanical, Point::new(20_000_000, 0), 0.0).unwrap();
    let rows = build_bom_rows(&board, &[electrical.clone(), mechanical], &[None, None]);
    assert_eq!(rows.len(), 1);
    assert_eq!(rows[0].footprint, electrical.name);
}

#[test]
fn bom_a_footprint_whose_template_was_deleted_is_skipped_not_a_panic() {
    let mut board = sized_board(60.0, 60.0);
    place(&mut board, &builtin_templates()[0], Point::new(0, 0), 0.0).unwrap();
    assert!(build_bom_rows(&board, &[], &[]).is_empty());
}

#[test]
fn exports_a_placed_footprint_with_its_real_pad_geometry_and_a_connected_net() {
    let mut board = test_board();
    let templates = builtin_templates();
    place(&mut board, &templates[0], Point::new(-10_000_000, 0), 0.0).unwrap();
    place(&mut board, &templates[0], Point::new(10_000_000, 0), 0.0).unwrap();
    board.connect_pads(pad_ids_of(&board, 0)[0], pad_ids_of(&board, 1)[0]).unwrap();

    let written = build_write_footprints(&board, &templates);
    assert_eq!(written.len(), 2);
    assert_eq!(written[0].pads[0].shape, WritePadShape::Circle { diameter: mm(1.5) });
    assert_eq!(written[0].pads[0].net, Some((1, "Net1".to_string())), "the connected net must actually be referenced");
}

#[test]
fn exports_a_mounting_hole_as_an_np_thru_hole_pad_with_no_net_and_it_reimports_cleanly() {
    let mut board = test_board();
    let templates = builtin_templates();
    let template = templates.iter().find(|t| t.name.starts_with("Mounting hole (M3")).unwrap();
    place(&mut board, template, Point::new(0, 0), 0.0).unwrap();

    let written = build_write_footprints(&board, &templates);
    assert_eq!(written.len(), 1);
    let pad = &written[0].pads[0];
    assert_eq!(pad.mount, PadMount::NpThruHole, "a mounting hole must export as a real np_thru_hole pad");
    assert!(pad.net.is_none(), "a mounting hole must never carry a net form");

    let read = ImportedFootprint {
        reference: written[0].reference.clone(),
        position: written[0].position,
        rotation_deg: written[0].rotation_deg,
        pads: Vec::new(),
        holes: vec![HoleTemplate { offset: pad.offset, drill: pad.drill.unwrap() }],
    };
    let shape = posed(template, Point::new(0, 0), 0.0, None);
    let flat = FlatBoard { outline: board.outline.clone(), items: Vec::new(), nets: Vec::new(), silk_texts: Vec::new() };
    let imported = import_kicad_pcb(flat, &[read], vec![shape]);
    assert_eq!(imported.doc.footprints.len(), 1);
    assert_eq!(imported.templates[0].holes.len(), 1, "the np_thru_hole pad must round-trip as a real HoleTemplate");
    assert!(imported.templates[0].pads.is_empty(), "it must not also come back as a copper pad");
    assert!(imported.templates[0].exclude_from_bom, "a pure mounting-hole template must stay excluded from the BOM after re-import");
    let holes = imported.doc.node.entries.iter().filter(|e| matches!(e.item, Item::Hole { .. })).count();
    assert_eq!(holes, 1, "the reimported board must have exactly one Item::Hole, not zero or a duplicate");
}

#[test]
fn a_drawn_zone_round_trips_through_kicad_export_and_reimport() {
    let mut board = test_board();
    let net = board.create_net();
    pour(&mut board, rectangle(30_000_000, 30_000_000), LayerId::FCu, net);
    let expected_island_count = board.zones[0].item_ids.len();
    assert!(expected_island_count > 0, "a zone drawn over open board space must fill to at least one island");

    let written = build_write_zones(&board);
    assert_eq!(written.len(), 1, "one ZoneRecord must become one (zone ...) form");
    assert_eq!(written[0].islands.len(), expected_island_count, "one filled_polygon per fill island");

    let items =
        written[0].islands.iter().map(|p| Item::Zone { outline: p.clone(), layer: written[0].layer, net: Some(NetId(written[0].net.0)) }).collect();
    let flat = FlatBoard { outline: board.outline.clone(), items, nets: vec![written[0].net.clone()], silk_texts: Vec::new() };
    let imported = import_kicad_pcb(flat, &[], Vec::new());
    let reimported_island_count = imported
        .doc
        .node
        .entries
        .iter()
        .filter(|e| matches!(&e.item, Item::Zone { layer: LayerId::FCu, net: Some(n), .. } if *n == net))
        .count();
    assert_eq!(reimported_island_count, expected_island_count, "every filled_polygon island must survive export+reimport as its own Item::Zone");
}

#[test]
fn kicad_export_a_footprint_whose_template_was_deleted_is_skipped_not_a_panic() {
    let mut board = test_board();
    place(&mut board, &builtin_templates()[0], Point::new(0, 0), 0.0).unwrap();
    assert!(build_write_footprints(&board, &[]).is_empty());
}

#[test]
fn a_placed_silk_text_exports_as_gr_line_strokes_not_gr_text() {
    let mut board = sized_board(50.0, 30.0);
    put_text(&mut board, "REV A", Point::new(mm(5.0), mm(-3.0)), 90.0, LayerId::BCu, DEFAULT_SILK_TEXT_HEIGHT)
        .expect("center of an empty 50x30mm board must be a legal silk placement");
    let strokes: Vec<Segment> = (0..6).map(|i| Segment::new(Point::new(i, 0), Point::new(i, MM), 200_000)).collect();
    let lines = build_write_silk_lines(&board, &[strokes.clone()]);
    assert!(lines.len() > 5, "a short word must produce several stroke segments");
    assert!(lines.iter().all(|l| l.layer == LayerId::BCu), "strokes must land on back silk");
    assert_eq!((lines[3].start, lines[3].end, lines[3].width), (strokes[3].a, strokes[3].b, 200_000));
}

#[test]
fn every_dot_and_marker_is_written() {
    let mut board = test_board();
    put_dot(&mut board, Point::new(5 * MM, 5 * MM), DEFAULT_SILK_DOT_DIAMETER, LayerId::BCu).unwrap();
    let template = two_pin_template();
    let id = place(&mut board, &template, Point::new(0, 0), 0.0).unwrap();
    enable_marker(&mut board, id, &template).unwrap();
    let dots = build_write_silk_dots(&board);
    assert_eq!(dots.len(), 2);
    assert_eq!((dots[0].center, dots[0].layer), (Point::new(5 * MM, 5 * MM), LayerId::BCu));
    assert_eq!(dots[1].diameter, PIN1_MARKER_DIAMETER);
}

#[test]
fn a_board_declares_the_clearance_of_its_copper_weight() {
    let mut board = test_board();
    assert_eq!(board.net_class_clearance(), 100_000);
    board.copper_weight = CopperWeight::TwoOz;
    assert_eq!(board.net_class_clearance(), 160_000);
}

#[test]
fn pins_are_joined_by_reference_and_number() {
    let mut board = test_board();
    let template = two_pin_template();
    place(&mut board, &template, Point::new(-10 * MM, 0), 0.0).unwrap();
    place(&mut board, &template, Point::new(10 * MM, 0), 0.0).unwrap();
    let templates = [template];
    let said = connect_pins(&mut board, &templates, "P1", "1", "P2", "2").unwrap();
    assert!(said.contains("Net1"), "{said}");
    assert!(connect_pins(&mut board, &templates, "P1", "9", "P2", "2").is_err());
    assert!(connect_pins(&mut board, &templates, "P7", "1", "P2", "2").is_err());
    assert_eq!(find_pin(&board, &templates, "P2", "2"), Ok(pad_ids_of(&board, 1)[1]));
    assert_eq!(list_nets(&board).len(), 1);
    assert!(board_summary(&board).contains('2'));
}

#[test]
fn a_batch_is_refused_unless_every_part_is_known() {
    let mut board = test_board();
    let template = two_pin_template();
    let id = place(&mut board, &template, Point::new(0, 0), 90.0).unwrap();
    let templates = [template];
    let part = |name: &str| PlacePartSpec {
        template: name.to_string(),
        position: Point::new(MM, 2 * MM),
        rotation_deg: None,
        pins: None,
    };
    assert_eq!(resolve_place_parts(&templates, &[]).unwrap_err(), "parts must contain at least one entry");
    let many: Vec<PlacePartSpec> = (0..51).map(|_| part("x")).collect();
    assert_eq!(resolve_place_parts(&templates, &many).unwrap_err(), "parts is capped at 50 entries per call");
    assert_eq!(
        resolve_place_parts(&templates, &[part("2-pin THT (2.54mm pitch)"), part("x")]).unwrap_err(),
        "no template named \"x\" in the parts library -- call list_parts for the exact names"
    );
    let steps = resolve_place_parts(&templates, &[part("2-pin THT (2.54mm pitch)")]).unwrap();
    assert_eq!((steps[0].template, steps[0].position), (0, Point::new(MM, 2 * MM)));

    let entries = placed_parts(&board, &[part("2-pin THT (2.54mm pitch)")], &[id]).unwrap();
    assert_eq!((entries[0].reference.as_str(), entries[0].rotation_deg), ("P1", deg(90.0)));
    assert!(entries[0].nets.is_none());
    assert!(placed_parts(&board, &[part("x")], &[FootprintId(9)]).is_err());

    let step = |reference: &str| MovePartSpec { reference: reference.to_string(), position: Point::new(0, 0), rotation_deg: None };
    assert_eq!(
        resolve_move_parts(&board, &templates, &[step("R9")]).unwrap_err(),
        "no footprint with reference \"R9\" on the board"
    );
    assert_eq!(
        resolve_move_parts(&board, &[], &[step("P1")]).unwrap_err(),
        "P1's template \"2-pin THT (2.54mm pitch)\" is missing from the parts library"
    );
    let steps = resolve_move_parts(&board, &templates, &[step("P1")]).unwrap();
    assert_eq!((steps[0].id, steps[0].rotation_deg), (id, deg(90.0)));
    let told = moved_parts(&[step("P1")], &steps);
    assert_eq!((told[0].reference.as_str(), told[0].position, told[0].rotation_deg), ("P1", Point::new(0, 0), deg(90.0)));
}

#[test]
fn a_damaged_board_is_told_from_a_sound_one() {
    let mut board = test_board();
    let template = two_pin_template();
    place(&mut board, &template, Point::new(-5 * MM, 0), 0.0).unwrap();
    place(&mut board, &template, Point::new(5 * MM, 0), 0.0).unwrap();
    let ids = pad_ids_of(&board, 0);
    board.connect_pads(ids[0], pad_ids_of(&board, 1)[0]).unwrap();
    assert!(board.is_sound());
    assert!(board.fits_templates(&[template.clone()]));

    let mut shared = board.clone();
    shared.footprints[1].pad_item_ids[0] = ids[0];
    assert!(!shared.is_sound());

    let mut repeated = board.clone();
    repeated.footprints[1].id = repeated.footprints[0].id;
    assert!(!repeated.is_sound());

    let mut dangling = board.clone();
    dangling.footprints[0].pad_item_ids[1] = ItemId(77);
    assert!(!dangling.is_sound());

    let mut counter = board.clone();
    counter.node.next = 1;
    assert!(!counter.is_sound());

    let mut nets = board.clone();
    nets.next_net_serial = 0;
    assert!(!nets.is_sound());

    let mut short = board.clone();
    short.footprints[0].pad_item_ids.pop();
    assert!(short.is_sound());
    assert!(!short.fits_templates(&[template]));
    assert!(short.fits_templates(&[]));
}

#[test]
fn a_probe_is_about_a_part_or_a_template() {
    let mut board = test_board();
    let template = two_pin_template();
    let id = place(&mut board, &template, Point::new(0, 0), 90.0).unwrap();
    let templates = [template];
    let mut args = ProbePlacementArgs {
        template: None,
        reference: None,
        position: Point::new(0, 0),
        rotation_deg: None,
        search_radius: None,
        search_step: None,
    };
    assert!(resolve_probe(&board, &templates, &args).unwrap_err().starts_with("pass template="));
    args.template = Some("2-pin THT (2.54mm pitch)".to_string());
    let target = resolve_probe(&board, &templates, &args).unwrap();
    assert_eq!((target.template, target.moving, target.rotation_deg), (0, None, deg(0.0)));
    args.reference = Some("P1".to_string());
    let target = resolve_probe(&board, &templates, &args).unwrap();
    assert_eq!((target.moving, target.rotation_deg), (Some(id), deg(90.0)));
    args.rotation_deg = Some(deg(45.0));
    assert_eq!(resolve_probe(&board, &templates, &args).unwrap().rotation_deg, deg(45.0));
}

#[test]
fn law_disconnecting_undoes_connecting() {
    let mut board = test_board();
    let template = two_pin_template();
    place(&mut board, &template, Point::new(0, 0), 0.0).unwrap();
    let pads = pad_ids_of(&board, 0);
    board.connect_pads(pads[0], pads[0]).unwrap();
    board.disconnect_pad(pads[0]).unwrap();
    assert_eq!(board.pad_net(pads[0]), Ok(None));
    assert!(board.nets.is_empty());
    assert_eq!(board.create_net(), NetId(2), "numbers are never used again");
}

#[test]
fn law_a_removed_reference_is_not_given_again() {
    let mut board = test_board();
    let template = two_pin_template();
    let first = place(&mut board, &template, Point::new(0, 0), 0.0).unwrap();
    board.remove_footprint(first);
    place(&mut board, &template, Point::new(0, 0), 0.0).unwrap();
    assert_eq!(board.footprints[0].reference, "P2");
}

#[test]
fn law_a_wire_is_the_same_from_each_of_its_ends() {
    let mut board = test_board();
    let net = net_for_a_connected_pair(&mut board);
    board.add_track_path(&[Point::new(0, 0), Point::new(MM, 0), Point::new(MM, MM)], net, LayerId::FCu, 250_000, NetClass::C);
    let tracks: Vec<ItemId> =
        board.node.entries.iter().filter(|e| matches!(e.item, Item::Track { .. })).map(|e| e.id).collect();
    let mut from_one = board.connected_wire(tracks[0]);
    let mut from_other = board.connected_wire(tracks[1]);
    from_one.sort_by_key(|id| id.0);
    from_other.sort_by_key(|id| id.0);
    assert_eq!(from_one, from_other);
    assert!(from_one.contains(&tracks[0]));
}

#[test]
fn law_a_refused_grid_leaves_the_board_as_it_was() {
    let mut board = test_board();
    let template = two_pin_template();
    place(&mut board, &template, Point::new(10 * MM, 0), 0.0).unwrap();
    let revision = board.node.obstacle_revision();
    let positions = BoardDoc::matrix_positions(1, 3, 10 * MM, 10 * MM, Point::new(0, 0));
    assert!(place_grid(&mut board, &template, &positions).is_err());
    assert_eq!(board.node.obstacle_revision(), revision);
    assert_eq!(board.next_footprint_serial, 1);
}

#[test]
fn every_placement_error_has_a_message() {
    let errors = [
        PlacementError::OffBoard,
        PlacementError::Collision(2),
        PlacementError::BodyOverlap,
        PlacementError::BodyOffBoard,
        PlacementError::OverSilkText,
        PlacementError::OverSilkDot,
        PlacementError::LeadToHole,
        PlacementError::Dfm(DfmViolation::NpthHoleBelowMin),
    ];
    let texts: Vec<String> = errors.iter().map(|e| e.message("the rule")).collect();
    assert!(texts.iter().all(|t| !t.is_empty()));
    assert!(texts[1].contains('2'));
    assert!(texts[7].contains("the rule"));
    assert_eq!(NetError::NotAPad.message().is_empty(), false);
    assert_eq!(RenameNetError::EmptyName.message().is_empty(), false);
    assert_eq!(SilkTextError::EmptyText.message().is_empty(), false);
    assert_eq!(SilkDotError::NoRoomNearPin1.message().is_empty(), false);
    assert_eq!(SetOutlineError::TrackOffBoard.message().is_empty(), false);
    assert_eq!(ViaError::Dangling.message("").is_empty(), false);
    assert_eq!(PinStitchingViaError::NoNet.message("").is_empty(), false);
}

#[test]
fn a_pin_that_cannot_be_stitched_needs_no_candidates() {
    let mut board = test_board();
    place(&mut board, &two_pin_template(), Point::new(0, 0), 0.0).unwrap();
    let pad = pad_ids_of(&board, 0)[0];
    let loose = board.try_add_pin_stitching_via(pad, DEFAULT_VIA_DIAMETER, DEFAULT_VIA_DRILL, TRACE_WIDTH, None, &[], &rules());
    assert!(matches!(loose, Err(PinStitchingViaError::NoNet)));
    let nothing =
        board.try_add_pin_stitching_via(ItemId(99), DEFAULT_VIA_DIAMETER, DEFAULT_VIA_DRILL, TRACE_WIDTH, None, &[], &rules());
    assert!(matches!(nothing, Err(PinStitchingViaError::NotAPad)));
    assert_eq!(board.node.entries.len(), 2);
}

#[test]
fn a_placed_part_may_stand_where_it_stands() {
    let mut board = test_board();
    let template = two_pin_template();
    put_text(&mut board, "T", Point::new(10 * MM, 10 * MM), 0.0, LayerId::FCu, DEFAULT_SILK_TEXT_HEIGHT).unwrap();
    place(&mut board, &template, Point::new(-8 * MM, 0), 0.0).unwrap();
    let id = place(&mut board, &template, Point::new(0, 0), 90.0).unwrap();
    let shape = posed(&template, Point::new(0, 0), 90.0, None);
    let probe = probe_of(&board, &shape, &board.candidate_pad_nets(Some(id)));
    assert!(probe.items.iter().any(|item| !item.hits.is_empty()), "it touches its own pads");
    assert_eq!(board.check_placement(&template, &shape, &probe, &rules(), Some(id)), Ok(()));
    assert!(matches!(board.check_placement(&template, &shape, &probe, &rules(), None), Err(PlacementError::Collision(_))));
}

#[test]
fn a_reference_is_never_given_again() {
    let mut board = test_board();
    let template = two_pin_template();
    let mut references = Vec::new();
    for round in 0..3 {
        let id = place(&mut board, &template, Point::new(0, 0), 0.0).unwrap();
        assert_eq!(id, FootprintId(round + 1));
        let k = board.footprint_index(id).unwrap();
        references.push(board.footprints[k].reference.clone());
        shift(&mut board, id, &template, Point::new(5 * MM, 0), 0.0).unwrap();
        board.remove_footprint(id);
        assert!(board.footprints.is_empty());
    }
    let prefix = &template.reference_prefix;
    assert_eq!(references, (1..4).map(|n| format!("{prefix}{n}")).collect::<Vec<_>>());
}

#[test]
fn a_deleted_wire_is_the_connected_one() {
    let mut board = test_board();
    let net = net_for_a_connected_pair(&mut board);
    let path = [Point::new(0, 4 * MM), Point::new(0, 8 * MM), Point::new(4 * MM, 8 * MM)];
    board.add_track_path(&path, net, LayerId::FCu, TRACE_WIDTH, NetClass::C);
    let apart = [Point::new(0, -4 * MM), Point::new(0, -8 * MM)];
    board.add_track_path(&apart, net, LayerId::FCu, TRACE_WIDTH, NetClass::C);
    let before: Vec<ItemId> = board.node.entries.iter().map(|e| e.id).collect();
    let first = board.node.entries.iter().find(|e| e.item.is_track_or_via()).unwrap().id;
    let wire = board.connected_wire(first);
    assert_eq!(wire.len(), 2);
    assert!(board.remove_wire(first));
    let kept: Vec<ItemId> = board.node.entries.iter().map(|e| e.id).collect();
    assert_eq!(kept, before.iter().copied().filter(|id| !wire.contains(id)).collect::<Vec<_>>());
    assert!(board.connected_wire(first).is_empty());
    assert!(!board.remove_wire(first), "there is nothing left to delete");
}

#[test]
fn a_text_is_printed_as_checked_and_its_id_is_never_given_again() {
    let mut board = test_board();
    let height = DEFAULT_SILK_TEXT_HEIGHT;
    let mut given = Vec::new();
    for (text, x) in [("A", 0.0), ("A", 0.0), ("  ", 5.0), ("B", 8.0), ("C", 100.0)] {
        let checked = check_text(&board, text, Point::new(mm(x), 0), 0.0, LayerId::FCu, height);
        let before = board.silk_texts.len();
        let placed = put_text(&mut board, text, Point::new(mm(x), 0), 0.0, LayerId::FCu, height);
        assert_eq!(placed.map(|_| ()), checked);
        assert_eq!(checked == Err(SilkTextError::EmptyText), text.trim().is_empty());
        assert_eq!(board.silk_texts.len(), before + checked.is_ok() as usize);
        given.extend(placed.ok());
    }
    assert_eq!(given, vec![SilkTextId(0), SilkTextId(1)]);
    assert!(board.remove_silk_text(SilkTextId(1)));
    let again = put_text(&mut board, "B", Point::new(mm(8.0), 0), 0.0, LayerId::FCu, height);
    assert_eq!(again, Ok(SilkTextId(2)));
}

fn batch_of(names: &[(&str, f64)]) -> Vec<PlacePartSpec> {
    names
        .iter()
        .map(|&(name, x)| PlacePartSpec {
            template: name.to_string(),
            position: Point::new(mm(x), 0),
            rotation_deg: None,
            pins: None,
        })
        .collect()
}

fn place_all(doc: &mut BoardDoc, templates: &[FootprintTemplate], parts: &[PlacePartSpec]) -> Result<Vec<FootprintId>, BatchError> {
    let steps = resolve_place_parts(templates, parts).unwrap();
    let shapes: Vec<PlacedShape> = steps.iter().map(|s| posed(&templates[s.template], s.position, 0.0, None)).collect();
    let mut trial = doc.clone();
    let mut probes = Vec::new();
    for (step, shape) in steps.iter().zip(&shapes) {
        probes.push(probe_of(&trial, shape, &[]));
        let _ = place(&mut trial, &templates[step.template], step.position, 0.0);
    }
    let verdicts: Vec<TemplateVerdicts> = templates.iter().map(verdicts_of).collect();
    doc.place_batch(templates, &steps, shapes, &probes, &verdicts, &rules())
}

#[test]
fn a_batch_is_placed_wholly_or_not_at_all() {
    let mut board = test_board();
    let templates = legacy_builtin_templates();
    let two = templates[0].name.clone();
    place(&mut board, &templates[0], Point::new(0, 10 * MM), 0.0).unwrap();
    let before = format!("{board:?}");

    let err = place_all(&mut board, &templates, &batch_of(&[(&two, -8.0), (&two, 0.0), (&two, 0.5)])).unwrap_err();
    assert!(matches!(err, BatchError::Placement(PlacementError::Collision(_))));
    assert!(err.message("rule").starts_with("would collide with "));
    assert_eq!(format!("{board:?}"), before);

    let ids = place_all(&mut board, &templates, &batch_of(&[(&two, -8.0), (&two, 0.0), (&two, 8.0)])).unwrap();
    assert_eq!(ids, vec![FootprintId(2), FootprintId(3), FootprintId(4)]);
    let references: Vec<&str> = board.footprints.iter().map(|f| f.reference.as_str()).collect();
    assert_eq!(references, vec!["P1", "P2", "P3", "P4"]);
    assert_eq!(board.footprints[3].position, Point::new(8 * MM, 0));
    assert!(board.is_sound());
}

fn with_pins(part: PlacePartSpec, pins: &[(&str, &str)]) -> PlacePartSpec {
    PlacePartSpec { pins: Some(pins.iter().map(|(p, n)| (p.to_string(), n.to_string())).collect()), ..part }
}

/// The names of the nets that a part's pads are on.
fn nets_of(doc: &BoardDoc, f: usize) -> Vec<Option<String>> {
    let name = |net: NetId| doc.nets.iter().find(|n| n.id == net).map(|n| n.name.clone());
    pad_ids_of(doc, f).iter().map(|&id| doc.pad_net(id).unwrap().and_then(name)).collect()
}

#[test]
fn a_batch_puts_named_pins_on_their_nets() {
    let mut board = test_board();
    let templates = legacy_builtin_templates();
    let two = templates[0].name.clone();
    let vcc = board.create_net();
    board.rename_net(vcc, "VCC").unwrap();
    let mut parts = batch_of(&[(&two, -8.0), (&two, 0.0), (&two, 8.0)]);
    let last = with_pins(parts.pop().unwrap(), &[("2", "GND"), ("2", "VCC"), ("1", "IN")]);
    let middle = parts.pop().unwrap();
    let first = with_pins(parts.pop().unwrap(), &[("1", "GND"), ("2", "VCC")]);
    let parts = [first, middle, last];

    let steps = resolve_place_parts(&templates, &parts).unwrap();
    assert_eq!(steps[0].pins, vec![("1".to_string(), "GND".to_string()), ("2".to_string(), "VCC".to_string())]);
    assert!(steps[1].pins.is_empty());

    let ids = place_all(&mut board, &templates, &parts).unwrap();
    let named = |n: &str| Some(n.to_string());
    assert_eq!(nets_of(&board, 0), vec![named("GND"), named("VCC")]);
    assert_eq!(nets_of(&board, 1), vec![None, None]);
    assert_eq!(nets_of(&board, 2), vec![named("IN"), named("VCC")], "the last net named for a pin counts");
    assert_eq!(board.pad_net(pad_ids_of(&board, 0)[1]).unwrap(), Some(vcc), "a net that was there is used");
    let names: Vec<&str> = board.nets.iter().map(|n| n.name.as_str()).collect();
    assert_eq!(names, vec!["VCC", "GND", "IN"]);
    assert!(board.is_sound());

    let told = placed_parts(&board, &parts, &ids).unwrap();
    assert_eq!(told[0].nets, Some(vec![("1".to_string(), "GND".to_string()), ("2".to_string(), "VCC".to_string())]));
    assert!(told[1].nets.is_none());
}

#[test]
fn a_refused_batch_names_no_net() {
    let mut board = test_board();
    let templates = legacy_builtin_templates();
    let two = templates[0].name.clone();
    let before = format!("{board:?}");

    let mut parts = batch_of(&[(&two, -8.0), (&two, 0.0)]);
    let second = with_pins(parts.pop().unwrap(), &[("1", "GND"), ("9", "VCC")]);
    let first = with_pins(parts.pop().unwrap(), &[("1", "GND")]);
    let unknown = place_all(&mut board, &templates, &[first, second]).unwrap_err();
    assert_eq!(unknown.message("rule"), format!("no pin 9 on {two}"));
    assert!(matches!(unknown, BatchError::NoSuchPin { .. }));
    assert_eq!(format!("{board:?}"), before);

    let mut parts = batch_of(&[(&two, 0.0), (&two, 0.5)]);
    let second = with_pins(parts.pop().unwrap(), &[("1", "VCC")]);
    let first = with_pins(parts.pop().unwrap(), &[("1", "GND")]);
    let refused = place_all(&mut board, &templates, &[first, second]).unwrap_err();
    assert!(matches!(refused, BatchError::Placement(_)));
    assert_eq!(format!("{board:?}"), before);
}

#[test]
fn nets_are_listed_with_their_pads_only() {
    let mut board = test_board();
    let net = net_for_a_connected_pair(&mut board);
    board.add_track_path(&[Point::new(0, 4 * MM), Point::new(0, 8 * MM)], net, LayerId::FCu, TRACE_WIDTH, NetClass::C);
    assert_eq!(board.pads_on_net(net).len(), 3);
    assert_eq!(list_nets(&board), vec!["Net1 (id 1) pads=2".to_string()]);
}

#[test]
fn a_pour_on_no_net_is_held() {
    let pour = Item::Zone { outline: rectangle(MM, MM), layer: LayerId::BCu, net: None };
    assert_eq!(pour.net(), None);
    assert!(pour.is_zone());
}

fn move_all(doc: &mut BoardDoc, t: &FootprintTemplate, moves: &[(&str, f64)]) -> Result<(), PlacementError> {
    let parts: Vec<MovePartSpec> = moves
        .iter()
        .map(|&(r, x)| MovePartSpec { reference: r.to_string(), position: Point::new(mm(x), 0), rotation_deg: None })
        .collect();
    let templates = [t.clone()];
    let steps = resolve_move_parts(doc, &templates, &parts).unwrap();
    let positions: Vec<Point> = steps.iter().map(|s| s.position).collect();
    let grid = grid_of(doc, t, &positions);
    doc.move_batch(&templates, &steps, grid.shapes, &grid.probes, &grid.among, &rules())
}

#[test]
fn a_batch_is_moved_wholly_or_not_at_all() {
    let mut board = test_board();
    let template = two_pin_template();
    for x in [-8.0, 0.0, 8.0] {
        place(&mut board, &template, Point::new(mm(x), 0), 0.0).unwrap();
    }
    let positions = |board: &BoardDoc| board.footprints.iter().map(|f| f.position.x / MM).collect::<Vec<_>>();

    move_all(&mut board, &template, &[("P1", 0.0), ("P2", -8.0)]).expect("parts that change places are not in each other's way");
    assert_eq!(positions(&board), vec![0, -8, 8]);

    let clash = move_all(&mut board, &template, &[("P1", -14.0), ("P2", -13.5)]).unwrap_err();
    assert_eq!(clash, PlacementError::BodyOverlap);
    let blocked = move_all(&mut board, &template, &[("P1", -4.0), ("P2", 8.0)]).unwrap_err();
    assert!(matches!(blocked, PlacementError::Collision(_)));
    let gone = move_all(&mut board, &template, &[("P1", -4.0), ("P2", 100.0)]).unwrap_err();
    assert_eq!(gone, PlacementError::OffBoard);
    assert_eq!(positions(&board), vec![0, -8, 8]);
    assert!(board.is_sound());
}

#[test]
fn a_wire_is_the_same_from_every_leg() {
    let mut board = test_board();
    let net = net_for_a_connected_pair(&mut board);
    let path = [Point::new(0, 4 * MM), Point::new(0, 8 * MM), Point::new(4 * MM, 8 * MM), Point::new(4 * MM, 4 * MM)];
    board.add_track_path(&path, net, LayerId::FCu, TRACE_WIDTH, NetClass::C);
    let legs: Vec<ItemId> = board.node.entries.iter().filter(|e| e.item.is_track_or_via()).map(|e| e.id).collect();
    assert_eq!(legs.len(), 3);
    for &leg in &legs {
        let mut wire = board.connected_wire(leg);
        wire.sort_by_key(|id| id.0);
        assert_eq!(wire, legs);
    }
}
