//! Boards that were read from a board file.

use alladin_pcb::board_doc::LayerCount;
use alladin_pcb::footprint::PadShapeKind;
use alladin_pcb::geom::{Angle, Circle, Point, Polygon, Unit, MM};
use alladin_pcb::item::{Item, LayerId, NetId, PadShape, ZoneConnection};
use alladin_pcb::kicad_export::WritePadShape;
use alladin_pcb::kicad_import::{
    collision_radius, import_kicad_pcb, import_kicad_pcb_with_label, reference_prefix_of, template_name_for, FlatBoard,
    ImportedDoc, ImportedFootprint, ImportedPad, ImportedText,
};
use alladin_pcb::placement::PlacedShape;

fn mm(v: f64) -> Unit {
    (v * MM as f64).round() as Unit
}

fn deg(v: f64) -> Angle {
    Angle { bits: v.to_bits() }
}

fn square(side: Unit) -> Polygon {
    let h = side / 2;
    Polygon::new(vec![Point::new(-h, -h), Point::new(h, -h), Point::new(h, h), Point::new(-h, h)])
}

fn pad(number: &str, x: Unit, shape: WritePadShape, drill: Option<Unit>, layer: LayerId, net: Option<u32>) -> ImportedPad {
    ImportedPad {
        number: number.to_string(),
        offset: Point::new(x, 0),
        shape,
        rotation_deg: deg(0.0),
        drill,
        layer,
        net: net.map(NetId),
    }
}

fn footprint(reference: &str, x: Unit, turned: f64, pads: Vec<ImportedPad>) -> ImportedFootprint {
    ImportedFootprint {
        reference: reference.to_string(),
        position: Point::new(x, 0),
        rotation_deg: deg(turned),
        pads,
        holes: Vec::new(),
    }
}

fn shape_of(fp: &ImportedFootprint) -> PlacedShape {
    let items = fp
        .pads
        .iter()
        .map(|p| Item::Pad {
            shape: PadShape::Circle(Circle::new(Point::new(fp.position.x + p.offset.x, 0), 100_000)),
            net: None,
            layer: p.layer,
            zone_connection: ZoneConnection::Thermal,
            hole_diameter: p.drill,
        })
        .collect();
    PlacedShape { items, courtyard: square(MM), drills: Vec::new(), marker: None }
}

fn flat(nets: Vec<(u32, String)>) -> FlatBoard {
    FlatBoard { outline: vec![square(mm(40.0))], items: Vec::new(), nets, silk_texts: Vec::new() }
}

fn sample() -> Vec<ImportedFootprint> {
    let round = WritePadShape::Circle { diameter: mm(1.5) };
    vec![
        footprint(
            "J1",
            mm(-5.0),
            0.0,
            vec![
                pad("1", mm(-1.27), round, Some(mm(0.8)), LayerId::FCu, Some(1)),
                pad("2", mm(1.27), round, Some(mm(0.8)), LayerId::FCu, None),
            ],
        ),
        footprint(
            "U1",
            mm(5.0),
            90.0,
            vec![pad("1", mm(2.0), WritePadShape::Rect { width: mm(1.0), height: mm(0.3) }, None, LayerId::BCu, Some(1))],
        ),
    ]
}

fn imported(label: Option<&str>, footprints: &[ImportedFootprint]) -> ImportedDoc {
    let shapes = footprints.iter().map(shape_of).collect();
    let nets = vec![(1, "GND".to_string())];
    match label {
        Some(label) => import_kicad_pcb_with_label(flat(nets), footprints, shapes, label),
        None => import_kicad_pcb(flat(nets), footprints, shapes),
    }
}

#[test]
fn imports_every_footprint_with_its_own_reference_backed_template() {
    let imported = imported(None, &sample());
    assert_eq!(imported.doc.footprints.len(), 2);
    assert_eq!(imported.templates.len(), 2);
    assert_eq!(imported.doc.footprints[0].reference, "J1");
    assert_eq!(imported.doc.footprints[1].reference, "U1");
    assert_eq!(imported.doc.footprints[0].template_name, imported.templates[0].name);
}

#[test]
fn placement_is_unchecked_so_geometry_from_a_trusted_file_is_never_rejected() {
    let imported = imported(None, &sample());
    assert_eq!(imported.doc.node.entries.iter().filter(|e| matches!(e.item, Item::Pad { .. })).count(), 3);
}

#[test]
fn recovers_real_pad_shape_number_and_drill() {
    let imported = imported(None, &sample());
    let header = &imported.templates[0];
    assert_eq!(header.pads[0].number, "1");
    assert_eq!(header.pads[0].hole_diameter, Some(mm(0.8)));
    let smd = &imported.templates[1];
    assert_eq!(smd.pads[0].shape, PadShapeKind::Rect { width: mm(1.0), height: mm(0.3) });
    assert_eq!(smd.pads[0].hole_diameter, None);
}

#[test]
fn importing_two_boards_with_the_same_reference_never_collide_when_labeled() {
    let a = imported(Some("board_a"), &sample());
    let round = WritePadShape::Circle { diameter: mm(1.0) };
    let other = vec![footprint(
        "J1",
        0,
        0.0,
        (0..3).map(|i| pad(&(i + 1).to_string(), mm(2.0) * i, round, Some(mm(0.6)), LayerId::FCu, None)).collect(),
    )];
    let b = imported(Some("board_b"), &other);
    assert_eq!(a.templates[0].name, "Imported [board_a]: J1");
    assert_eq!(b.templates[0].name, "Imported [board_b]: J1");
    assert_eq!(a.templates[0].pads.len(), 2, "board_a's real 2-pad header must keep its own real geometry");
    assert_eq!(b.templates[0].pads.len(), 3, "board_b's real 3-pad header must keep its own real geometry, not board_a's");
}

#[test]
fn unlabeled_import_still_produces_the_original_plain_names() {
    let imported = imported(None, &sample());
    assert_eq!(imported.templates[0].name, "Imported: J1");
    assert_eq!(imported.templates[1].name, "Imported: U1");
}

#[test]
fn recovers_pad_nets_from_the_declared_net_table() {
    let imported = imported(None, &sample());
    let ground_pad = imported.doc.footprints[0].pad_item_ids[0];
    assert_eq!(imported.doc.node.get(ground_pad).unwrap().net(), Some(NetId(1)));
    let unconnected_pad = imported.doc.footprints[0].pad_item_ids[1];
    assert_eq!(imported.doc.node.get(unconnected_pad).unwrap().net(), None);
    assert_eq!(imported.doc.nets.len(), 1);
    assert_eq!(imported.doc.nets[0].name, "GND");
}

#[test]
fn guesses_two_layers_when_any_pad_uses_the_back_copper() {
    assert_eq!(imported(None, &sample()).doc.layer_count, LayerCount::Two);
}

#[test]
fn a_single_sided_board_guesses_one_layer() {
    let round = WritePadShape::Circle { diameter: mm(1.0) };
    let one = vec![footprint("R1", 0, 0.0, vec![pad("1", 0, round, None, LayerId::FCu, None)])];
    assert_eq!(imported(None, &one).doc.layer_count, LayerCount::One);
}

#[test]
fn preserves_the_board_outline() {
    assert_eq!(imported(None, &sample()).doc.outline.len(), 1);
}

#[test]
fn silk_texts_come_back_in_order() {
    let text = |t: &str| ImportedText {
        text: t.to_string(),
        position: Point::new(0, 0),
        rotation_deg: deg(0.0),
        layer: LayerId::FCu,
        height: MM,
        line_width: 200_000,
    };
    let board = FlatBoard { silk_texts: vec![text("A"), text("B")], ..flat(Vec::new()) };
    let doc = import_kicad_pcb(board, &[], Vec::new()).doc;
    assert_eq!(doc.silk_texts.iter().map(|t| t.text.as_str()).collect::<Vec<_>>(), vec!["A", "B"]);
    assert_ne!(doc.silk_texts[0].id, doc.silk_texts[1].id);
}

#[test]
fn a_prefix_is_what_stands_before_the_number() {
    assert_eq!(reference_prefix_of("R12"), "R");
    assert_eq!(template_name_for("", 4, ""), template_name_for("", 4, ""));
    assert_ne!(template_name_for("", 4, ""), template_name_for("", 5, ""));
    assert_eq!(collision_radius(mm(1.0), mm(0.3)), mm(0.15));
}

#[test]
fn a_template_name_tells_the_label_it_was_made_with() {
    let labels = ["", "a", "b", "a]", "]", "a] b", "[", " "];
    for reference in ["R12", "U]1", "x"] {
        for one in labels {
            for other in labels {
                let same = template_name_for(reference, 3, one) == template_name_for(reference, 3, other);
                assert_eq!(same, one == other, "{reference} {one:?} {other:?}");
            }
            assert_eq!(template_name_for(reference, 3, one), template_name_for(reference, 8, one));
        }
    }
}
