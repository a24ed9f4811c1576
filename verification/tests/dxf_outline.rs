//! Board outlines from drawings. Points along arcs and bulges are traced here,
//! the rest is the library's.

use alladin_pcb::decimal::{Spot, INFINITE, NAN};
use alladin_pcb::dxf_contour::{
    parse_dxf_outline, read_drawing, Curves, Drawing, DrawnArc, DxfOutline, SourceKind,
};
use alladin_pcb::dxf_outline::{join_ring, outline_from_contour, read_groups, Contour, DxfOutlineError};
use alladin_pcb::geom::{Point, Polygon, Unit, MM};

const STEPS: f64 = 1e18;

fn value(v: i128) -> f64 {
    match v {
        NAN => f64::NAN,
        INFINITE => f64::INFINITY,
        v if v == -INFINITE => f64::NEG_INFINITY,
        v => v as f64 / STEPS,
    }
}

fn steps(v: f64) -> i128 {
    if v.is_nan() {
        NAN
    } else if v.is_infinite() {
        if v > 0.0 { INFINITE } else { -INFINITE }
    } else {
        (v * STEPS).round() as i128
    }
}

fn spot(x: f64, y: f64) -> Spot {
    Spot { x: steps(x), y: steps(y) }
}

fn along_arc(arc: &DrawnArc) -> Vec<Spot> {
    let from = value(arc.start_deg);
    let sweep = value(arc.sweep_deg());
    let steps = arc.chord_count();
    (0..=steps)
        .map(|k| {
            let angle = (from + sweep * k as f64 / steps as f64).to_radians();
            spot(
                value(arc.center.x) + value(arc.radius) * angle.cos(),
                value(arc.center.y) + value(arc.radius) * angle.sin(),
            )
        })
        .collect()
}

fn curves_of(drawing: &Drawing) -> Curves {
    let half_circle = |a: Spot, b: Spot| {
        let (cx, cy) = ((value(a.x) + value(b.x)) / 2.0, (value(a.y) + value(b.y)) / 2.0);
        let (rx, ry) = (value(a.x) - cx, value(a.y) - cy);
        (1..16).map(|k| {
            let (s, c) = (std::f64::consts::PI * k as f64 / 16.0).sin_cos();
            spot(cx + rx * c - ry * s, cy + rx * s + ry * c)
        })
        .collect::<Vec<Spot>>()
    };
    Curves {
        arcs: drawing.arcs.iter().map(along_arc).collect(),
        bows: drawing
            .polylines
            .iter()
            .map(|p| {
                let n = p.verts.len();
                (0..n).map(|i| half_circle(p.verts[i].place, p.verts[(i + 1) % n].place)).collect()
            })
            .collect(),
    }
}

fn outline_of(dxf: &str) -> Result<DxfOutline, DxfOutlineError> {
    let groups = read_groups(dxf.as_bytes())?;
    let drawing = read_drawing(&groups);
    parse_dxf_outline(&drawing, &curves_of(&drawing))
}

fn holds(p: &Polygon, x: f64, y: f64) -> bool {
    let mut inside = false;
    let n = p.points.len();
    for i in 0..n {
        let (a, b) = (p.points[i], p.points[(i + 1) % n]);
        let (ax, ay, bx, by) = (a.x as f64, a.y as f64, b.x as f64, b.y as f64);
        if (ay > y) != (by > y) && x < (bx - ax) * (y - ay) / (by - ay) + ax {
            inside = !inside;
        }
    }
    inside
}

fn mm(u: Unit) -> f64 {
    u as f64 / MM as f64
}

fn drawing_text(lines: &[&str]) -> String {
    let mut all = vec!["0", "SECTION", "2", "ENTITIES"];
    all.extend(lines);
    all.extend(["0", "ENDSEC", "0", "EOF"]);
    all.join("\n") + "\n"
}

const SQUARE: [&str; 22] = [
    "0", "LWPOLYLINE", "90", "4", "70", "1", "10", "0", "20", "0", "10", "40", "20", "0", "10", "40", "20", "30", "10", "0",
    "20", "30",
];

#[test]
fn minimal_closed_lwpolyline_string() {
    let outline = outline_of(&drawing_text(&SQUARE)).unwrap();
    assert_eq!(outline.vertex_count, 4);
    assert!((mm(outline.width) - 40.0).abs() < 0.01);
    assert!((mm(outline.height) - 30.0).abs() < 0.01);
    assert!(holds(&outline.polygon, 0.0, 0.0));
    assert_eq!(outline.source_kind.label(), "LWPOLYLINE");
    assert_eq!(outline.polygon.points[0], Point::new(-20 * MM, 15 * MM), "upward in the drawing is downward on the board");
}

#[test]
fn open_polyline_is_rejected() {
    let dxf = drawing_text(&[
        "0", "LWPOLYLINE", "90", "3", "70", "0", "10", "0", "20", "0", "10", "10", "20", "0", "10", "10", "20", "10",
    ]);
    assert!(outline_of(&dxf).is_err());
}

#[test]
fn minimal_line_arc_ring_string() {
    let dxf = drawing_text(&[
        "0", "LINE", "10", "0", "20", "0", "11", "0", "21", "10", "0", "LINE", "10", "0", "20", "10", "11", "10", "21", "10",
        "0", "LINE", "10", "10", "20", "10", "11", "10", "21", "0", "0", "ARC", "10", "5", "20", "0", "40", "5", "50", "180",
        "51", "0",
    ]);
    let outline = outline_of(&dxf).unwrap();
    assert_eq!(outline.source_kind.label(), "LINE/ARC ring");
    assert!(outline.vertex_count > 4);
    assert!((mm(outline.width) - 10.0).abs() < 0.05);
    assert!(mm(outline.height) > 14.0);
    assert!(holds(&outline.polygon, 0.0, 0.0));
}

#[test]
fn leftover_line_rejects_line_arc_ring() {
    let dxf = drawing_text(&[
        "0", "LINE", "10", "0", "20", "0", "11", "10", "21", "0", "0", "LINE", "10", "10", "20", "0", "11", "5", "21", "8",
        "0", "LINE", "10", "5", "20", "8", "11", "0", "21", "0", "0", "LINE", "10", "20", "20", "20", "11", "25", "21", "20",
    ]);
    assert!(outline_of(&dxf).is_err());
}

#[test]
fn loose_lines_form_a_ring_in_any_direction() {
    let dxf = drawing_text(&[
        "0", "LINE", "10", "0", "20", "0", "11", "10", "21", "0", "0", "LINE", "10", "5", "20", "8", "11", "10.001", "21",
        "0", "0", "LINE", "10", "5", "20", "8", "11", "0", "21", "0",
    ]);
    let outline = outline_of(&dxf).unwrap();
    assert_eq!(outline.source_kind, SourceKind::LineRing);
    assert_eq!(outline.vertex_count, 3);
    assert_eq!(outline.height, 8 * MM);
}

#[test]
fn the_largest_contour_is_the_outline() {
    let mut all: Vec<&str> = vec![
        "0", "LWPOLYLINE", "70", "1", "10", "0", "20", "0", "10", "2", "20", "0", "10", "2", "20", "2", "10", "0", "20", "2",
    ];
    all.extend(SQUARE);
    let outline = outline_of(&drawing_text(&all)).unwrap();
    assert_eq!((outline.width, outline.height), (40 * MM, 30 * MM));
}

#[test]
fn a_bulge_bows_its_leg_and_a_closing_vertex_is_dropped() {
    let dxf = drawing_text(&[
        "0", "LWPOLYLINE", "70", "0", "10", "0", "20", "0", "42", "1", "10", "10", "20", "0", "10", "10", "20", "10", "10",
        "0", "20", "10", "10", "0", "20", "0",
    ]);
    let outline = outline_of(&dxf).unwrap();
    assert_eq!(outline.vertex_count, 4 + 15);
    assert_eq!(outline.width, 10 * MM);
    assert!(outline.height > 14 * MM);
}

#[test]
fn three_lines_are_walked_from_end_to_end() {
    let p = [Point::new(0, 0), Point::new(10 * MM, 0), Point::new(5 * MM, 8 * MM)];
    let steps = join_ring(&[p[0], p[1], p[2], p[1], p[2], p[0]]).unwrap();
    assert_eq!(steps.iter().map(|s| (s.segment, s.forward)).collect::<Vec<_>>(), vec![(0, true), (1, false), (2, true)]);
    assert!(join_ring(&[p[0], p[1], p[1], p[2]]).is_none());
}

#[test]
fn an_empty_or_degenerate_drawing_has_its_own_error() {
    assert_eq!(outline_of(" \n").unwrap_err(), DxfOutlineError::Empty);
    assert_eq!(outline_of(&drawing_text(&[])).unwrap_err(), DxfOutlineError::NoContour);
    let flat = drawing_text(&[
        "0", "LWPOLYLINE", "70", "1", "10", "0", "20", "0", "10", "10", "20", "0", "10", "20", "20", "0",
    ]);
    assert_eq!(outline_of(&flat).unwrap_err(), DxfOutlineError::Degenerate);
    let tiny = vec![Point::new(0, 0), Point::new(10, 0), Point::new(0, 10)];
    let contour = Contour { vertex_count: 3, flat: false, points: tiny };
    assert_eq!(outline_from_contour(Some(contour)).unwrap_err(), DxfOutlineError::Degenerate);
    for e in [DxfOutlineError::Empty, DxfOutlineError::NoContour, DxfOutlineError::Degenerate] {
        assert!(!e.message().is_empty());
    }
}

#[test]
fn an_arc_runs_counterclockwise_up_to_a_full_turn() {
    let degree: i128 = 1_000_000_000_000_000_000;
    let arc = |from: i128, to: i128| DrawnArc {
        center: Spot { x: 0, y: 0 },
        radius: degree,
        start_deg: from * degree,
        end_deg: to * degree,
    };
    assert_eq!(arc(0, 90).sweep_deg(), 90 * degree);
    assert_eq!(arc(0, 90).chord_count(), 16);
    assert_eq!(arc(270, 0).sweep_deg(), 90 * degree);
    assert_eq!(arc(10, 10).sweep_deg(), 360 * degree, "a closed arc is a circle");
    assert_eq!(arc(10, 10).chord_count(), 64);
    assert_eq!(arc(-30, 700).sweep_deg(), 10 * degree);
    assert_eq!(arc(0, 1).chord_count(), 2);
    let tiny = DrawnArc { end_deg: 1_000, ..arc(0, 0) };
    assert_eq!((tiny.sweep_deg(), tiny.chord_count()), (1_000, 0));
}

#[test]
fn a_line_and_an_arc_close_a_half_disc() {
    let outline =
        outline_of("0\nLINE\n10\n0\n20\n0\n11\n10\n21\n0\n0\nARC\n10\n5\n20\n0\n40\n5\n50\n0\n51\n180\n0\nEOF\n").unwrap();
    assert_eq!(outline.source_kind.label(), "LINE/ARC ring");
    assert!((mm(outline.width) - 10.0).abs() < 0.05);
    assert!((mm(outline.height) - 5.0).abs() < 0.05);
    assert!(holds(&outline.polygon, 0.0, 0.0));
}

#[test]
fn arcs_alone_close_a_circle() {
    let halves = drawing_text(&[
        "0", "ARC", "10", "0", "20", "0", "40", "5", "50", "0", "51", "180", "0", "ARC", "10", "0", "20", "0", "40", "5",
        "50", "180", "51", "360",
    ]);
    let whole = drawing_text(&["0", "ARC", "10", "0", "20", "0", "40", "5", "50", "0", "51", "360"]);
    for dxf in [halves, whole] {
        let outline = outline_of(&dxf).unwrap();
        assert_eq!(outline.source_kind, SourceKind::LineArcRing);
        assert!((mm(outline.width) - 10.0).abs() < 0.05);
        assert!((mm(outline.height) - 10.0).abs() < 0.05);
    }
}

#[test]
fn a_line_drawn_twice_encloses_nothing() {
    let dxf = drawing_text(&[
        "0", "LINE", "10", "0", "20", "0", "11", "10", "21", "0", "0", "LINE", "10", "10", "20", "0", "11", "0", "21", "0",
    ]);
    assert!(outline_of(&dxf).is_err());
    assert!(join_ring(&[]).is_none());
}

#[test]
fn a_ring_does_not_depend_on_how_its_segments_are_drawn() {
    let p = [Point::new(0, 0), Point::new(10 * MM, 0), Point::new(10 * MM, 8 * MM), Point::new(0, 8 * MM)];
    let drawn = join_ring(&[p[0], p[1], p[1], p[2], p[2], p[3], p[3], p[0]]).unwrap();
    let walk: Vec<_> = drawn.iter().map(|s| (s.segment, s.forward)).collect();
    assert_eq!(walk, vec![(0, true), (1, true), (2, true), (3, true)]);

    // The same four legs in the order 2, 0, 3, 1, with legs 0 and 3 turned round.
    let order = [(2, true), (0, false), (3, false), (1, true)];
    let ends = [p[2], p[3], p[1], p[0], p[0], p[3], p[1], p[2]];
    let other = join_ring(&ends).unwrap();
    let back: Vec<_> =
        other.iter().map(|s| (order[s.segment].0, s.forward == order[s.segment].1)).collect();
    let from = walk.iter().position(|s| *s == back[0]).expect("the walk goes the same way round");
    let begun: Vec<_> = walk[from..].iter().chain(&walk[..from]).copied().collect();
    assert_eq!(back, begun);

    assert!(join_ring(&[p[2], p[3], p[1], p[0], p[0], p[3]]).is_none(), "an open chain is none in any order");
}

fn polyline(places: &[(&str, &str)]) -> String {
    let mut all = vec!["0", "LWPOLYLINE", "70", "1"];
    for (x, y) in places {
        all.extend(["10", *x, "20", *y]);
    }
    drawing_text(&all)
}

#[test]
fn contours_are_compared_to_the_last_digit() {
    let mut all = vec!["0", "LWPOLYLINE", "70", "1", "10", "0", "20", "0", "10", "10.0000004", "20", "0"];
    all.extend(["10", "10.0000004", "20", "10.0000004", "10", "0", "20", "10.0000004"]);
    for (x1, y1, x2, y2) in [
        ("0", "0", "10.0000003", "0"),
        ("10.0000003", "0", "10.0000003", "10.0000003"),
        ("10.0000003", "10.0000003", "0", "10.0000003"),
        ("0", "10.0000003", "0", "0"),
    ] {
        all.extend(["0", "LINE", "10", x1, "20", y1, "11", x2, "21", y2]);
    }
    assert_eq!(outline_of(&drawing_text(&all)).unwrap().source_kind, SourceKind::LwPolyline);
    let even: Vec<&str> = all.iter().map(|&v| if v == "10.0000004" { "10.0000003" } else { v }).collect();
    assert_eq!(outline_of(&drawing_text(&even)).unwrap().source_kind, SourceKind::LineRing, "of two equal ones the second");
}

#[test]
fn a_contour_far_out_is_brought_home() {
    let (a, b) = ("200000000000000", "200000000000040");
    let outline = outline_of(&polyline(&[(a, a), (b, a), (b, b), (a, b)])).unwrap();
    assert_eq!((outline.width, outline.height), (40 * MM, 40 * MM));
    assert_eq!(outline.polygon.points[0], Point::new(-20 * MM, 20 * MM));
}

#[test]
fn a_vertex_that_is_no_number_lies_in_the_middle() {
    let dxf = polyline(&[("0", "0"), ("40", "0"), ("nan", "15"), ("40", "30"), ("0", "30")]);
    let outline = outline_of(&dxf).unwrap();
    let at = |x: i64, y: i64| Point::new(x * MM, y * MM);
    assert_eq!(outline.polygon.points, vec![at(-20, 15), at(20, 15), at(0, 0), at(20, -15), at(-20, -15)]);
    assert_eq!((outline.width, outline.height), (40 * MM, 30 * MM));
    let nowhere = polyline(&[("nan", "0"), ("nan", "10"), ("nan", "20")]);
    assert_eq!(outline_of(&nowhere).unwrap_err(), DxfOutlineError::Degenerate);
}

#[test]
fn an_endless_contour_reaches_as_far_as_a_length_can() {
    let outline = outline_of(&polyline(&[("0", "0"), ("inf", "0"), ("inf", "30"), ("0", "30")])).unwrap();
    let far = i64::MIN;
    assert_eq!(
        outline.polygon.points,
        vec![Point::new(far, 15 * MM), Point::new(0, 15 * MM), Point::new(0, -15 * MM), Point::new(far, -15 * MM)]
    );
    assert_eq!(outline.width, i64::MAX);
}
