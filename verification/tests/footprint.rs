//! Templates: the built-in library, courtyards, fabrication findings and the
//! rule by which pads join a pour.

use alladin_pcb::dfm::DfmViolation;
use alladin_pcb::footprint::{
    apply_zone_connection_heuristic, builtin_templates, fallback_courtyard, is_legacy_demo_template,
    legacy_builtin_templates, pad_dfm_query, session_builtin_templates, straight_row_template,
    straight_row_template_with_hole, template_corners, template_dfm_hard_violations, template_dfm_violations,
    union_courtyards, Courtyard, FootprintTemplate, HoleTemplate, PadQuery, PadShapeKind, PadTemplate,
};
use alladin_pcb::geom::{Angle, Circle, Point, Polygon, Unit, MM};
use alladin_pcb::item::{Item, LayerId, PadShape, ZoneConnection};
use alladin_pcb::silk::pad_template_reach;
use alladin_pcb::world::{pad_outline, posed, PadOutline, PadPose};

fn mm(v: f64) -> Unit {
    (v * MM as f64).round() as Unit
}

const SOLID_MIN_SIDE: Unit = 2_000_000;
const FLAT: Angle = Angle { bits: 0 };

fn turned(p: Point, degrees: f64) -> Point {
    let (sin, cos) = degrees.to_radians().sin_cos();
    let (x, y) = (p.x as f64, p.y as f64);
    Point::new((x * cos - y * sin).round() as Unit, (x * sin + y * cos).round() as Unit)
}

fn moved(p: Point, by: Point) -> Point {
    Point::new(p.x + by.x, p.y + by.y)
}

/// The corners of a rectangle around the origin, each rounded in twelve steps.
fn corners(o: &PadOutline) -> Vec<Point> {
    let (w, h, r) = (o.width / 2, o.height / 2, o.corner_radius);
    let mut points = Vec::new();
    for (k, (x, y)) in [(w - r, h - r), (r - w, h - r), (r - w, r - h), (w - r, r - h)].into_iter().enumerate() {
        let steps = if r == 0 { 0 } else { 12 };
        for i in 0..=steps {
            let angle = 90.0 * k as f64 + if steps == 0 { 0.0 } else { 90.0 * i as f64 / steps as f64 };
            points.push(moved(turned(Point::new(r, 0), angle), Point::new(x, y)));
        }
    }
    points
}

fn world_items(t: &FootprintTemplate, position: Point, degrees: f64) -> Vec<Item> {
    let poses: Vec<PadPose> = t
        .pads
        .iter()
        .map(|pad| {
            let center = moved(turned(pad.offset, degrees), position);
            let total = f64::from_bits(pad.rotation_deg.bits) + degrees;
            let points = pad_outline(pad.shape).map_or(Vec::new(), |o| corners(&o));
            let outline = Polygon::new(points.into_iter().map(|p| moved(turned(p, total), center)).collect());
            PadPose { center, outline }
        })
        .collect();
    let centers: Vec<Point> = t.holes.iter().map(|hole| moved(turned(hole.offset, degrees), position)).collect();
    posed(t, &poses, &centers, Polygon::new(Vec::new()), None).items
}

fn contains_point(p: &Polygon, q: Point) -> bool {
    let mut inside = false;
    let n = p.points.len();
    for i in 0..n {
        let (a, b) = (p.points[i], p.points[(i + 1) % n]);
        let (ax, ay, bx, by) = (a.x as f64, a.y as f64, b.x as f64, b.y as f64);
        let (x, y) = (q.x as f64, q.y as f64);
        if (ay > y) != (by > y) && x < (bx - ax) * (y - ay) / (by - ay) + ax {
            inside = !inside;
        }
    }
    inside
}

fn one_pad_template(pad: PadTemplate) -> FootprintTemplate {
    FootprintTemplate {
        name: "t".to_string(),
        reference_prefix: "P".to_string(),
        pads: vec![pad],
        holes: Vec::new(),
        exclude_from_bom: false,
        explicit_courtyard: None,
    }
}

fn shaped_pad(shape: PadShapeKind, degrees: f64) -> PadTemplate {
    PadTemplate {
        shape,
        rotation_deg: Angle { bits: degrees.to_bits() },
        ..circle(Point::new(0, 0), mm(0.5), "1")
    }
}

fn circle(offset: Point, radius: Unit, number: &str) -> PadTemplate {
    PadTemplate::circle(offset, radius, LayerId::FCu, number.to_string())
}

fn pad_verdict(pad: &PadTemplate) -> Option<DfmViolation> {
    match pad_dfm_query(pad) {
        PadQuery::Smd { side } => (side < 250_000).then_some(DfmViolation::SmdPadBelowMin),
        PadQuery::Pth { side, drill } => {
            if drill < 150_000 {
                Some(DfmViolation::PthDrillBelowMin)
            } else if drill >= side {
                Some(DfmViolation::PthDrillNotBelowPad)
            } else if (side - drill) / 2 < 180_000 {
                Some(DfmViolation::PthAnnularRingBelowMin)
            } else {
                None
            }
        }
    }
}

fn hole_verdict(hole: &HoleTemplate) -> Option<DfmViolation> {
    (hole.drill < 500_000).then_some(DfmViolation::NpthHoleBelowMin)
}

fn violations(pads: &[PadTemplate], holes: &[HoleTemplate]) -> Vec<(String, DfmViolation)> {
    let of_pads: Vec<Option<DfmViolation>> = pads.iter().map(pad_verdict).collect();
    let of_holes: Vec<Option<DfmViolation>> = holes.iter().map(hole_verdict).collect();
    template_dfm_violations(pads, holes, &of_pads, &of_holes)
}

fn hard_violations(pads: &[PadTemplate], holes: &[HoleTemplate]) -> Vec<(String, DfmViolation)> {
    let of_pads: Vec<Option<DfmViolation>> = pads.iter().map(pad_verdict).collect();
    let of_holes: Vec<Option<DfmViolation>> = holes.iter().map(hole_verdict).collect();
    template_dfm_hard_violations(pads, holes, &of_pads, &of_holes)
}

#[test]
fn placeable_builtins_are_only_the_pad_set_and_mounting_holes() {
    let names: Vec<_> = builtin_templates().into_iter().map(|t| t.name).collect();
    assert_eq!(
        names,
        vec![
            "Solder pad (SMD, 1.5mm, F.Cu)",
            "Solder pad (SMD, 1.5mm, B.Cu)",
            "Wire pad (PTH, 1.0mm hole)",
            "Wire pad (solder, 2mm)",
            "Wire pad (PTH, 2.0mm hole)",
            "Mounting hole (M2, NPTH)",
            "Mounting hole (M2.5, NPTH)",
            "Mounting hole (M3, NPTH)",
        ]
    );
    for name in ["2-pin THT (2.54mm pitch)", "4-pin THT header (2.54mm pitch)", "SOIC-8 (1.27mm pitch)"] {
        assert!(is_legacy_demo_template(name));
        assert!(legacy_builtin_templates().iter().any(|t| t.name == name));
    }
    assert!(!is_legacy_demo_template("Wire pad (solder, 2mm)"));
    assert_eq!(session_builtin_templates().len(), 11);
}

#[test]
fn builtin_templates_are_non_empty_and_every_pad_has_a_positive_radius() {
    let templates = builtin_templates();
    assert!(!templates.is_empty());
    for t in &templates {
        assert!(!t.pads.is_empty() || !t.holes.is_empty(), "{} has neither pads nor holes", t.name);
        for pad in &t.pads {
            assert!(pad.radius > 0, "{} has a non-positive pad radius", t.name);
        }
        for hole in &t.holes {
            assert!(hole.drill > 0, "{} has a non-positive hole drill", t.name);
        }
    }
}

#[test]
fn every_builtin_template_passes_the_hard_scalar_dfm_gate() {
    for t in builtin_templates() {
        assert!(hard_violations(&t.pads, &t.holes).is_empty(), "{} violates JLCPCB scalar DFM", t.name);
    }
}

#[test]
fn template_dfm_violations_flags_a_sub_minimum_smd_pad_by_its_number() {
    let pads = vec![circle(Point::new(0, 0), 100_000, "7")];
    let all = violations(&pads, &[]);
    assert_eq!(all, vec![("pad 7".to_string(), DfmViolation::SmdPadBelowMin)]);
    assert!(hard_violations(&pads, &[]).is_empty(), "SMD pad floor must stay report-only (fine-pitch QFN)");
}

#[test]
fn template_dfm_violations_measures_a_rect_pad_by_its_narrower_side() {
    let mut pad = circle(Point::new(0, 0), 100_000, "1");
    pad.shape = PadShapeKind::Rect { width: 1_000_000, height: 200_000 };
    assert_eq!(violations(&[pad.clone()], &[]).len(), 1, "a 1.0 x 0.2mm pad is under the floor on its narrow side");
    pad.shape = PadShapeKind::Rect { width: 1_000_000, height: 250_000 };
    assert!(violations(&[pad], &[]).is_empty(), "1.0 x 0.25mm sits exactly on the floor");
}

#[test]
fn a_thin_pth_annular_ring_is_reported_but_never_a_hard_violation() {
    let mut pad = circle(Point::new(0, 0), 500_000, "1");
    pad.hole_diameter = Some(700_000);
    let pads = vec![pad];
    assert_eq!(violations(&pads, &[]), vec![("pad 1".to_string(), DfmViolation::PthAnnularRingBelowMin)]);
    assert!(hard_violations(&pads, &[]).is_empty(), "the PTH ring must stay report-only");
}

#[test]
fn template_dfm_violations_flags_a_pth_drill_below_the_drillable_floor_as_hard() {
    let mut pad = circle(Point::new(0, 0), 500_000, "1");
    pad.hole_diameter = Some(100_000);
    let pads = vec![pad];
    assert_eq!(hard_violations(&pads, &[]), vec![("pad 1".to_string(), DfmViolation::PthDrillBelowMin)]);
}

#[test]
fn template_dfm_violations_flags_an_npth_hole_below_its_floor() {
    let holes = vec![HoleTemplate { offset: Point::new(0, 0), drill: 400_000 }];
    assert_eq!(violations(&[], &holes), vec![("hole 1".to_string(), DfmViolation::NpthHoleBelowMin)]);
    assert_eq!(hard_violations(&[], &holes).len(), 1, "a too-small NPTH hole is a hard violation");
}

#[test]
fn the_mechanical_builtin_templates_are_excluded_from_bom_and_the_electrical_ones_are_not() {
    for t in &builtin_templates() {
        let is_mechanical =
            t.name.starts_with("Wire pad") || t.name.starts_with("Solder pad") || t.name.starts_with("Mounting hole");
        assert_eq!(t.exclude_from_bom, is_mechanical, "unexpected exclude_from_bom for {}", t.name);
    }
}

#[test]
fn mounting_hole_templates_have_a_hole_and_no_pads() {
    let templates = builtin_templates();
    let holes: Vec<_> = templates.iter().filter(|t| t.name.starts_with("Mounting hole")).collect();
    assert_eq!(holes.len(), 3, "expected M2/M2.5/M3 mounting holes");
    for t in holes {
        assert!(t.pads.is_empty());
        assert_eq!(t.holes.len(), 1);
    }
}

#[test]
fn wire_pad_is_pth_with_a_fab_legal_drill_for_litze() {
    let t = builtin_templates().into_iter().find(|t| t.name == "Wire pad (solder, 2mm)").expect("legacy wire pad builtin");
    assert_eq!(t.pads.len(), 1);
    assert_eq!(t.pads[0].hole_diameter, Some(mm(1.5)));
    assert_eq!(t.pads[0].radius, mm(1.25));
    assert_eq!(t.pads[0].zone_connection, ZoneConnection::Thermal);
    assert_eq!(pad_verdict(&t.pads[0]), None);
    assert!(violations(&t.pads, &t.holes).is_empty());
}

#[test]
fn solder_pad_set_covers_smd_both_sides_and_three_pth_gauges() {
    let templates = builtin_templates();
    let find = |name: &str| templates.iter().find(|t| t.name == name).unwrap_or_else(|| panic!("missing {name}"));

    let smd_f = find("Solder pad (SMD, 1.5mm, F.Cu)");
    assert_eq!(smd_f.pads[0].layer, LayerId::FCu);
    assert_eq!(smd_f.pads[0].radius, mm(0.75));
    assert_eq!(smd_f.pads[0].hole_diameter, None);
    assert_eq!(smd_f.pads[0].zone_connection, ZoneConnection::Thermal);

    let smd_b = find("Solder pad (SMD, 1.5mm, B.Cu)");
    assert_eq!(smd_b.pads[0].layer, LayerId::BCu);
    assert_eq!(smd_b.pads[0].hole_diameter, None);

    let small = find("Wire pad (PTH, 1.0mm hole)");
    assert_eq!(small.pads[0].hole_diameter, Some(mm(1.0)));
    assert_eq!(small.pads[0].radius, mm(1.0));
    assert_eq!(small.pads[0].zone_connection, ZoneConnection::Thermal);

    let large = find("Wire pad (PTH, 2.0mm hole)");
    assert_eq!(large.pads[0].hole_diameter, Some(mm(2.0)));
    assert_eq!(large.pads[0].radius, mm(1.6));
    assert_eq!(large.pads[0].zone_connection, ZoneConnection::Solid);

    for t in [small, find("Wire pad (solder, 2mm)"), large] {
        let pad = &t.pads[0];
        assert_eq!(pad_verdict(pad), None);
        let items = world_items(t, Point::new(0, 0), 0.0);
        let Item::Pad { hole_diameter, .. } = &items[0] else { panic!("expected a pad") };
        assert!(hole_diameter.is_some(), "a drilled pad reaches both copper layers");
        assert_eq!(*hole_diameter, pad.hole_diameter);
    }
}

fn two_wide_pads(explicit_courtyard: Option<Courtyard>) -> FootprintTemplate {
    FootprintTemplate {
        name: "t".into(),
        reference_prefix: "U".into(),
        pads: vec![circle(Point::new(-mm(3.0), 0), mm(0.5), "1"), circle(Point::new(mm(3.0), 0), mm(0.5), "2")],
        holes: Vec::new(),
        exclude_from_bom: false,
        explicit_courtyard,
    }
}

#[test]
fn courtyard_floors_undersized_silk_to_the_pad_bbox() {
    let template =
        two_wide_pads(Some(Courtyard { center: Point::new(0, 0), width: mm(2.0), height: mm(2.0) }));
    let turned = vec![Vec::new(), Vec::new()];
    let c = template.courtyard(&turned);
    let pads = fallback_courtyard(&template_corners(&template.pads, &turned), &template.holes);
    assert!(c.width >= pads.width, "silk must not shrink below pad bbox, got {} vs {}", c.width, pads.width);
    assert!(c.height >= pads.height);
    assert_eq!((pads.width, pads.height), (mm(7.0), mm(1.0)));
    assert_eq!((c.width, c.height), (mm(7.0), mm(2.0)));
}

#[test]
fn courtyard_keeps_silk_when_it_is_larger_than_pads() {
    let template = FootprintTemplate {
        pads: vec![circle(Point::new(0, 0), mm(0.5), "1")],
        ..two_wide_pads(Some(Courtyard { center: Point::new(0, 0), width: mm(8.0), height: mm(4.0) }))
    };
    let c = template.courtyard(&[Vec::new()]);
    assert_eq!(c.width, mm(8.0));
    assert_eq!(c.height, mm(4.0));
}

#[test]
fn a_union_of_courtyards_covers_both() {
    let a = Courtyard { center: Point::new(0, 0), width: 4, height: 4 };
    let b = Courtyard { center: Point::new(10, 2), width: 6, height: 2 };
    assert_eq!(union_courtyards(a, b), Courtyard { center: Point::new(5, 0), width: 15, height: 5 });
}

#[test]
fn straight_row_template_centers_evenly_spaced_pads_on_the_origin() {
    let t = straight_row_template("R0805".to_string(), "R".to_string(), 2, mm(2.0), mm(0.5));
    assert_eq!(t.pads.len(), 2);
    assert_eq!(t.pads[0].offset, Point::new(-mm(1.0), 0));
    assert_eq!(t.pads[1].offset, Point::new(mm(1.0), 0));
    assert_eq!(t.pads[0].radius, mm(0.5));
}

#[test]
fn straight_row_template_clamps_to_at_least_one_pin() {
    let t = straight_row_template("weird".to_string(), "X".to_string(), 0, mm(2.0), mm(0.5));
    assert_eq!(t.pads.len(), 1, "zero pins doesn't make sense, must fall back to one");
}

#[test]
fn a_row_with_a_drill_has_it_in_every_pad_unless_it_is_not_positive() {
    let drilled = straight_row_template_with_hole("J".to_string(), "J".to_string(), 3, mm(2.54), mm(0.8), Some(mm(1.0)));
    assert!(drilled.pads.iter().all(|p| p.hole_diameter == Some(mm(1.0))));
    let plain = straight_row_template_with_hole("J".to_string(), "J".to_string(), 3, mm(2.54), mm(0.8), Some(0));
    assert!(plain.pads.iter().all(|p| p.hole_diameter.is_none()));
}

#[test]
fn built_in_and_hand_added_pads_are_numbered_sequentially_from_one() {
    for t in builtin_templates() {
        let numbers: Vec<String> = t.pads.iter().map(|p| p.number.clone()).collect();
        let expected: Vec<String> = (1..=t.pads.len()).map(|n| n.to_string()).collect();
        assert_eq!(numbers, expected, "{} isn't numbered 1, 2, 3, ...", t.name);
        assert!(t.pads.iter().all(|p| p.shape == PadShapeKind::Circle), "{} pads must render as plain circles", t.name);
    }
}

fn rect_pad_template(width: Unit, height: Unit) -> PadTemplate {
    PadTemplate {
        offset: Point::new(0, 0),
        radius: width.min(height) / 2,
        layer: LayerId::FCu,
        number: "1".to_string(),
        shape: PadShapeKind::Rect { width, height },
        rotation_deg: FLAT,
        hole_diameter: None,
        pin_name: None,
        zone_connection: ZoneConnection::Thermal,
    }
}

#[test]
fn zone_connection_heuristic_marks_ep_grid_and_large_pads_solid() {
    let mut large = rect_pad_template(mm(3.0), mm(3.0));
    large.number = "EP".into();
    let mut pads = vec![
        circle(Point::new(0, 0), mm(0.3), "1"),
        circle(Point::new(mm(1.0), 0), mm(0.25), "9"),
        circle(Point::new(mm(1.5), 0), mm(0.25), "9"),
        large,
    ];
    apply_zone_connection_heuristic(&mut pads, SOLID_MIN_SIDE);
    assert_eq!(pads[0].zone_connection, ZoneConnection::Thermal);
    assert_eq!(pads[1].zone_connection, ZoneConnection::Solid, "EP grid pad 9");
    assert_eq!(pads[2].zone_connection, ZoneConnection::Solid, "EP grid pad 9");
    assert_eq!(pads[3].zone_connection, ZoneConnection::Solid, "large pad");
}

#[test]
fn zone_connection_heuristic_marks_named_ep_and_dominant_center_solid() {
    let mut named = vec![circle(Point::new(0, 0), mm(0.3), "EP")];
    apply_zone_connection_heuristic(&mut named, SOLID_MIN_SIDE);
    assert_eq!(named[0].zone_connection, ZoneConnection::Solid, "pad number EP");

    let mut qfn = Vec::new();
    let mut ep = rect_pad_template(mm(3.1), mm(3.1));
    ep.number = "57".into();
    qfn.push(ep);
    for i in 0..8 {
        let mut p = rect_pad_template(mm(0.85), mm(0.2));
        p.number = format!("{}", i + 1);
        p.offset = Point::new(mm(-2.6 + 0.4 * i as f64), mm(-3.4));
        qfn.push(p);
    }
    apply_zone_connection_heuristic(&mut qfn, SOLID_MIN_SIDE);
    assert_eq!(qfn[0].zone_connection, ZoneConnection::Solid, "dominant center pad");
    assert!(qfn[1..].iter().all(|p| p.zone_connection == ZoneConnection::Thermal));
}

#[test]
fn world_items_emits_one_item_hole_per_template_hole() {
    let template = FootprintTemplate {
        holes: vec![HoleTemplate { offset: Point::new(mm(1.0), 0), drill: mm(2.2) }],
        ..one_pad_template(circle(Point::new(0, 0), mm(0.5), "1"))
    };
    let items = world_items(&template, Point::new(mm(10.0), mm(10.0)), 0.0);
    assert_eq!(items.len(), 2);
    let holes: Vec<_> = items.iter().filter(|i| matches!(i, Item::Hole { .. })).collect();
    assert_eq!(holes.len(), 1);
    match holes[0] {
        Item::Hole { position, drill } => {
            assert_eq!(*position, Point::new(mm(11.0), mm(10.0)));
            assert_eq!(*drill, mm(2.2));
        }
        _ => unreachable!(),
    }
}

#[test]
fn world_items_rotates_a_hole_offset_the_same_way_as_a_pad_offset() {
    let template = FootprintTemplate {
        name: "test".to_string(),
        reference_prefix: "T".to_string(),
        pads: Vec::new(),
        holes: vec![HoleTemplate { offset: Point::new(mm(1.0), 0), drill: mm(2.2) }],
        exclude_from_bom: false,
        explicit_courtyard: None,
    };
    let items = world_items(&template, Point::new(0, 0), 90.0);
    match items[0] {
        Item::Hole { position, .. } => {
            assert!(position.x.abs() < 100, "expected x to vanish, got {position:?}");
            assert!((position.y - mm(1.0)).abs() < 100, "expected y to become +1mm, got {position:?}");
        }
        _ => unreachable!(),
    }
}

#[test]
fn world_items_produces_one_pad_per_template_pad() {
    let template = &builtin_templates()[0];
    let items = world_items(template, Point::new(0, 0), 0.0);
    assert_eq!(items.len(), template.pads.len());
    assert!(items.iter().all(|item| matches!(item, Item::Pad { net: None, .. })));
}

#[test]
fn world_items_keeps_a_circle_pad_as_padshape_circle() {
    let template = one_pad_template(circle(Point::new(mm(1.0), 0), mm(0.5), "1"));
    let items = world_items(&template, Point::new(mm(10.0), mm(10.0)), 0.0);
    let Item::Pad { shape, .. } = &items[0] else { panic!("expected a pad") };
    assert_eq!(*shape, PadShape::Circle(Circle::new(Point::new(mm(11.0), mm(10.0)), mm(0.5))));
}

#[test]
fn world_items_builds_a_true_rectangular_polygon_for_a_rect_pad() {
    let template = one_pad_template(shaped_pad(PadShapeKind::Rect { width: mm(2.0), height: mm(1.0) }, 0.0));
    let items = world_items(&template, Point::new(0, 0), 0.0);
    let Item::Pad { shape, .. } = &items[0] else { panic!("expected a pad") };
    let PadShape::Polygon { outline, center } = shape else { panic!("a rect pad must collide as a polygon, not a circle") };
    assert_eq!(*center, Point::new(0, 0));
    let far_corner = Point::new(mm(1.0), mm(0.5));
    assert!(
        outline.points.iter().any(|p| ((p.x - far_corner.x) as f64).hypot((p.y - far_corner.y) as f64) < 10.0),
        "expected a sharp corner at the rect's true half-width/half-height, got {:?}",
        outline.points
    );
    assert!(contains_point(outline, Point::new(mm(0.9), mm(0.4))), "must cover copper well inside the true rectangle");
    assert!(!contains_point(outline, Point::new(mm(1.1), 0)), "must not extend past the rectangle's true edge");
}

#[test]
fn world_items_rotates_a_rect_pad_by_its_own_rotation_plus_the_footprints_placement_rotation() {
    let template = one_pad_template(shaped_pad(PadShapeKind::Rect { width: mm(2.0), height: mm(1.0) }, 90.0));
    let items = world_items(&template, Point::new(0, 0), 90.0);
    let Item::Pad { shape, .. } = &items[0] else { panic!("expected a pad") };
    let PadShape::Polygon { outline, .. } = shape else { panic!("expected a polygon") };
    assert!(contains_point(outline, Point::new(mm(0.9), 0)), "long axis should have rotated back onto X");
    assert!(!contains_point(outline, Point::new(0, mm(0.9))), "short axis should now be along Y");
}

#[test]
fn world_items_grows_an_oval_pad_slightly_to_never_under_cover_its_true_rounded_ends() {
    let template = one_pad_template(shaped_pad(PadShapeKind::Oval { width: mm(2.0), height: mm(1.0) }, 0.0));
    let items = world_items(&template, Point::new(0, 0), 0.0);
    let Item::Pad { shape, .. } = &items[0] else { panic!("expected a pad") };
    let PadShape::Polygon { outline, center } = shape else { panic!("an oval pad must collide as a polygon, not a circle") };
    assert_eq!(*center, Point::new(0, 0));
    assert!(
        contains_point(outline, Point::new(mm(1.0) - 1000, 0)),
        "must not under-cover the oval's true long-axis tip"
    );
    assert!(contains_point(outline, Point::new(0, 0)));
}

#[test]
fn an_oval_s_outline_is_two_per_cent_larger_with_half_round_ends() {
    assert_eq!(pad_outline(PadShapeKind::Circle), None);
    assert_eq!(
        pad_outline(PadShapeKind::Rect { width: 7, height: 5 }),
        Some(PadOutline { width: 7, height: 5, corner_radius: 0 })
    );
    assert_eq!(
        pad_outline(PadShapeKind::Oval { width: mm(2.0), height: mm(1.0) }),
        Some(PadOutline { width: 2_040_000, height: 1_020_000, corner_radius: 510_000 })
    );
    assert_eq!(
        pad_outline(PadShapeKind::Oval { width: 25, height: 10 }),
        Some(PadOutline { width: 26, height: 10, corner_radius: 5 })
    );
}

#[test]
fn a_pad_reaches_half_its_diagonal() {
    assert_eq!(pad_template_reach(&circle(Point::new(0, 0), 7, "1")), 7);
    assert_eq!(pad_template_reach(&shaped_pad(PadShapeKind::Rect { width: 30, height: 40 }, 0.0)), 25);
    assert_eq!(pad_template_reach(&shaped_pad(PadShapeKind::Oval { width: 1, height: 1 }, 0.0)), 1);
    assert_eq!(pad_template_reach(&shaped_pad(PadShapeKind::Rect { width: 0, height: 0 }, 0.0)), 0);
    assert_eq!(pad_template_reach(&shaped_pad(PadShapeKind::Rect { width: mm(2.0), height: mm(1.0) }, 0.0)), 1_118_034);
}

#[test]
fn drills_are_those_of_plated_pads_and_then_of_the_holes() {
    let drilled = |x: Unit, drill: Option<Unit>| PadTemplate { hole_diameter: drill, ..circle(Point::new(x, 0), mm(0.9), "1") };
    let template = FootprintTemplate {
        pads: vec![drilled(1, Some(900)), drilled(2, None), drilled(3, Some(0)), drilled(4, Some(700))],
        holes: vec![HoleTemplate { offset: Point::new(5, 0), drill: 300 }],
        ..one_pad_template(circle(Point::new(0, 0), 1, "1"))
    };
    let at = |x: Unit| PadPose { center: Point::new(x, 0), outline: Polygon::new(Vec::new()) };
    let shape = posed(&template, &[at(1), at(2), at(3), at(4)], &[Point::new(5, 0)], Polygon::new(Vec::new()), None);
    assert_eq!(
        shape.drills,
        vec![
            Circle::new(Point::new(1, 0), 450),
            Circle::new(Point::new(4, 0), 350),
            Circle::new(Point::new(5, 0), 150),
        ]
    );
}
