//! Operations on a small board whose shapes need no measuring, and the laws
//! that relate them.

use alladin_pcb::board_doc::{halved, BoardDoc, CopperWeight, FootprintId, LayerCount, NewBoardParams, SilkDotId, ZoneId};
use alladin_pcb::bom::{comes_before, csv_field, rows_from};
use alladin_pcb::decimal::{grid_unit, NAN};
use alladin_pcb::dfm::FabRules;
use alladin_pcb::dxf_outline::parse_groups;
use alladin_pcb::external_router::ExternalRouterError;
use alladin_pcb::footprint::{FootprintTemplate, HoleTemplate, PadShapeKind, PadTemplate};
use alladin_pcb::geom::{circles_touch, is_closer, is_within, is_within_half, Angle, Circle, Point, Polygon, Segment, Unit, MM};
use alladin_pcb::item::{Item, ItemId, LayerId, NetClass, NetId, Node, PadShape, ZoneConnection};
use alladin_pcb::kicad_export::{write_pad_shape, WritePadShape};
use alladin_pcb::kicad_import::{collision_radius, pad_shape_kind, shape_dims};
use alladin_pcb::nets::NetError;
use alladin_pcb::parts::{assign_pad_nets, find_pad_number, find_template, BodyPose};
use alladin_pcb::placement::{pad_shape_hits_circle, PlacedShape};
use alladin_pcb::silk::{SilkDotError, SilkDotProbe};
use alladin_pcb::text::{
    chars_of, decimal_string, fields_of, find_chars, lines_of, mm_string, parse_i32, parse_unsigned, string_of, trim,
    words_of,
};
use alladin_pcb::zones::{OutlineProbe, SetOutlineError};

const FLAT: Angle = Angle { bits: 0 };

fn rules() -> FabRules {
    FabRules {
        silk_to_pad: 150_000,
        min_silk_line_width: 160_000,
        lead_to_hole: 300_000,
        hole_to_hole_same_net: 254_000,
        hole_to_hole_other_net: 500_000,
        hole_to_hole_no_net: 450_000,
    }
}

fn square(side: Unit) -> Polygon {
    let h = side / 2;
    Polygon::new(vec![Point::new(-h, -h), Point::new(h, -h), Point::new(h, h), Point::new(-h, h)])
}

fn empty_board() -> BoardDoc {
    NewBoardParams::default().create_with_outline(square(40 * MM))
}

fn template() -> FootprintTemplate {
    FootprintTemplate {
        name: "two".to_string(),
        reference_prefix: "U".to_string(),
        pads: vec![
            PadTemplate::circle(Point::new(-MM, 0), MM / 2, LayerId::FCu, "1".to_string()),
            PadTemplate::circle(Point::new(MM, 0), MM / 2, LayerId::FCu, "2".to_string()),
        ],
        holes: vec![HoleTemplate { offset: Point::new(0, MM), drill: MM }],
        exclude_from_bom: false,
        explicit_courtyard: None,
    }
}

fn pad(center: Point) -> Item {
    Item::Pad {
        shape: PadShape::Circle(Circle::new(center, MM / 2)),
        net: None,
        layer: LayerId::FCu,
        zone_connection: ZoneConnection::Thermal,
        hole_diameter: None,
    }
}

fn shape_at(p: Point) -> PlacedShape {
    PlacedShape {
        items: vec![
            pad(Point::new(p.x - MM, p.y)),
            pad(Point::new(p.x + MM, p.y)),
            Item::Hole { position: Point::new(p.x, p.y + MM), drill: MM },
        ],
        courtyard: square(2 * MM),
        drills: vec![Circle::new(Point::new(p.x, p.y + MM), MM / 2)],
        marker: None,
    }
}

fn put(doc: &mut BoardDoc, reference: &str, p: Point, nets: &[Option<NetId>]) -> FootprintId {
    doc.insert_footprint_unchecked(&template(), reference.to_string(), p, FLAT, shape_at(p), nets)
}

fn island(net: NetId) -> Item {
    Item::Zone { outline: square(MM), layer: LayerId::FCu, net: Some(net) }
}

/// Two joined parts, with a wire between their second and first pads.
fn wired_board() -> (BoardDoc, NetId) {
    let mut doc = empty_board();
    put(&mut doc, "U1", Point::new(-5 * MM, 0), &[]);
    put(&mut doc, "U2", Point::new(5 * MM, 0), &[]);
    let (a, b) = (doc.footprints[0].pad_item_ids[1], doc.footprints[1].pad_item_ids[0]);
    let net = doc.connect_pads(a, b).unwrap();
    let path = [Point::new(-4 * MM, 0), Point::new(0, MM), Point::new(4 * MM, 0)];
    doc.add_track_path(&path, net, LayerId::FCu, 250_000, NetClass::C);
    (doc, net)
}

#[test]
fn an_unchecked_part_keeps_its_reference_and_its_pads_their_nets() {
    let mut doc = empty_board();
    let net = doc.create_net();
    let id = put(&mut doc, "X7", Point::new(0, 0), &[None, Some(net)]);
    assert_eq!(id, FootprintId(1));
    assert_eq!(doc.reference_index("X7"), Some(0));
    assert_eq!(doc.reference_index("X8"), None);
    let pads = doc.footprints[0].pad_item_ids.clone();
    assert_eq!((pads.len(), doc.footprints[0].hole_item_ids.len()), (2, 1));
    assert_eq!(doc.pad_net(pads[0]), Ok(None));
    assert_eq!(doc.pad_net(pads[1]), Ok(Some(net)));
    assert_eq!(doc.pad_net(ItemId(99)), Err(NetError::NotAPad));
    assert_eq!(doc.pad_count_on_net(net), 1);
    assert_eq!(doc.hole_at(Point::new(0, MM + 400_000)), Some(doc.footprints[0].hole_item_ids[0]));
    assert_eq!(doc.hole_at(Point::new(0, 0)), None);
    assert!(doc.is_sound());
}

#[test]
fn pads_take_nets_by_place_and_holes_are_passed_over() {
    let items = vec![Item::Hole { position: Point::new(0, 0), drill: 5 }, pad(Point::new(1, 1)), pad(Point::new(2, 2))];
    let wired = assign_pad_nets(items, &[Some(NetId(4))]);
    assert_eq!(wired[1].net(), Some(NetId(4)));
    assert_eq!(wired[2].net(), None);
    assert!(wired[0].is_hole());
}

#[test]
fn a_committed_move_takes_the_wires_at_the_part_and_keeps_its_nets() {
    let (mut doc, net) = wired_board();
    let id = doc.footprints[0].id;
    let before = doc.node.obstacle_revision();
    let pads = doc.footprints[0].pad_item_ids.clone();
    assert_eq!(doc.wires_touching_pads(&pads).len(), 2);
    let to = Point::new(-6 * MM, MM);
    doc.commit_move_footprint(id, to, FLAT, shape_at(to));
    assert_eq!(doc.footprints[0].position, to);
    assert_eq!(doc.footprints[0].pad_item_ids, pads);
    assert_eq!(doc.pad_net(pads[1]), Ok(Some(net)));
    assert_eq!(doc.pad_center(pads[1]), Some(Point::new(-5 * MM, MM)));
    assert!(!doc.node.entries.iter().any(|e| e.item.is_track_or_via()));
    assert_eq!(doc.node.obstacle_revision(), before + 2 + 3);
    assert!(doc.is_sound());
}

#[test]
fn a_removed_part_counts_as_so_many_changes_as_it_takes_away() {
    let (mut doc, _) = wired_board();
    let (items, revision) = (doc.node.entries.len() as u64, doc.node.obstacle_revision());
    let id = doc.footprints[1].id;
    doc.remove_footprint(id);
    assert_eq!(doc.node.obstacle_revision(), revision + items - doc.node.entries.len() as u64);
    assert_eq!(doc.nets.len(), 1, "the other part's pad is still on the net");
    doc.remove_footprint(id);
    assert_eq!(doc.footprints.len(), 1);
    assert!(doc.is_sound());
}

#[test]
fn a_dragged_segment_is_replaced_by_its_new_path() {
    let (mut doc, net) = wired_board();
    let tracks: Vec<ItemId> = doc.node.entries.iter().filter(|e| e.item.is_track_or_via()).map(|e| e.id).collect();
    let pad_id = doc.footprints[0].pad_item_ids[0];
    let path = [Point::new(-4 * MM, 0), Point::new(0, -MM), Point::new(0, -2 * MM), Point::new(4 * MM, 0)];
    doc.replace_wire_segment(&[tracks[0], tracks[1], pad_id], &path, net, LayerId::BCu, 300_000, NetClass::A);
    assert!(doc.node.get(pad_id).is_some(), "a pad is no part of a wire");
    let fresh: Vec<&Item> = doc.node.entries.iter().map(|e| &e.item).filter(|i| i.is_track_or_via()).collect();
    assert_eq!(fresh.len(), 3);
    assert_eq!(
        *fresh[1],
        Item::Track {
            shape: Segment::new(Point::new(0, -MM), Point::new(0, -2 * MM), 300_000),
            net: Some(net),
            layer: LayerId::BCu,
            class: NetClass::A,
        }
    );
}

#[test]
fn removing_items_takes_wires_only() {
    let (mut doc, _) = wired_board();
    let all: Vec<ItemId> = doc.node.entries.iter().map(|e| e.id).collect();
    doc.remove_items(&all);
    assert_eq!(doc.node.entries.len(), 6);
    assert!(doc.node.entries.iter().all(|e| e.item.is_pad() || e.item.is_hole()));
}

#[test]
fn synced_bodies_take_the_pose_of_parts_whose_template_is_known() {
    let mut doc = empty_board();
    put(&mut doc, "U1", Point::new(0, 0), &[]);
    put(&mut doc, "U2", Point::new(9 * MM, 0), &[]);
    doc.footprints[1].template_name = "gone".to_string();
    let pose = || BodyPose { courtyard: square(6 * MM), drills: Vec::new() };
    doc.sync_courtyards(&[template()], &[pose(), pose()]);
    assert_eq!(doc.footprints[0].courtyard, square(6 * MM));
    assert!(doc.footprints[0].assembly_drills.is_empty());
    assert_eq!(doc.footprints[1].courtyard, square(2 * MM));
    assert_eq!(doc.footprints[1].assembly_drills.len(), 1);
}

#[test]
fn a_fill_is_cleared_inserted_and_replaced() {
    let mut doc = empty_board();
    let net = doc.create_net();
    let id = doc.insert_new_zone(square(10 * MM), LayerId::FCu, net, vec![island(net), island(net)], 7);
    assert_eq!((doc.zones[0].item_ids.len(), doc.zones[0].filled_at_revision), (2, 7));
    assert!(doc.zones_are_stale());
    let old = doc.zones[0].item_ids.clone();

    doc.clear_zone_fill(id);
    assert!(doc.zones[0].item_ids.is_empty());
    assert!(doc.node.entries.is_empty());
    doc.insert_zone_refill(id, vec![island(net)], 0);
    assert_eq!((doc.zones[0].item_ids.len(), doc.zones_are_stale()), (1, false));

    doc.refill_zone(id, vec![island(net), island(net), island(net)]);
    assert_eq!(doc.zones[0].item_ids.len(), 3);
    assert_eq!(doc.node.entries.len(), 3);
    assert!(old.iter().all(|&i| doc.node.get(i).is_none()), "no old island is left");

    let before = doc.node.entries.len();
    doc.refill_zone(ZoneId(99), vec![island(net)]);
    doc.clear_zone_fill(ZoneId(99));
    doc.insert_zone_refill(ZoneId(99), Vec::new(), 1);
    assert_eq!(doc.node.entries.len(), before);
    assert!(doc.is_sound());
}

#[test]
fn a_refill_leaves_pads_and_wires_alone() {
    let (mut doc, net) = wired_board();
    let id = doc.add_zone(square(10 * MM), LayerId::FCu, net, vec![island(net)]);
    let rest = |doc: &BoardDoc| -> Vec<Item> {
        doc.node.entries.iter().map(|e| e.item.clone()).filter(|i| !i.is_zone()).collect()
    };
    let before = rest(&doc);
    doc.refill_zone(id, Vec::new());
    assert_eq!(rest(&doc), before);
}

#[test]
fn placing_and_moving_parts_makes_fills_stale() {
    let mut doc = empty_board();
    let net = doc.create_net();
    doc.add_zone(square(10 * MM), LayerId::FCu, net, vec![island(net)]);
    assert!(!doc.zones_are_stale());
    let id = put(&mut doc, "U1", Point::new(0, 0), &[]);
    assert!(doc.zones_are_stale());
    doc.refill_all_zones(vec![vec![island(net)]]);
    assert!(!doc.zones_are_stale());
    doc.commit_move_footprint(id, Point::new(MM, 0), FLAT, shape_at(Point::new(MM, 0)));
    assert!(doc.zones_are_stale());
}

#[test]
fn a_via_off_the_new_outline_has_its_own_error() {
    let mut doc = empty_board();
    let net = doc.create_net();
    doc.node.add(Item::Via { shape: Circle::new(Point::new(9 * MM, 0), 300_000), drill: 300_000, net: Some(net) });
    let probe = OutlineProbe { items: Vec::new(), bodies: Vec::new(), copper: vec![false] };
    assert_eq!(doc.set_outline(vec![square(10 * MM)], &[], &probe, Vec::new()), Err(SetOutlineError::ViaOffBoard));
    assert_eq!(doc.outline, vec![square(40 * MM)]);
    assert_eq!(SetOutlineError::ViaOffBoard.message().is_empty(), false);
}

#[test]
fn a_dot_under_a_body_or_unknown_is_refused() {
    let mut doc = empty_board();
    put(&mut doc, "U1", Point::new(0, 0), &[]);
    let n = doc.node.entries.len();
    let under = SilkDotProbe { on_board: true, pads: vec![false; n], bodies: vec![true], texts: Vec::new() };
    let at = Circle::new(Point::new(9 * MM, 9 * MM), 200_000);
    assert_eq!(
        doc.silk_circle_fits(&at, LayerId::FCu, None, None, &under, &rules()),
        Err(SilkDotError::UnderComponentBody)
    );
    assert_eq!(doc.silk_circle_fits(&at, LayerId::BCu, None, None, &under, &rules()), Ok(()), "bodies stand on the front");
    assert_eq!(doc.check_silk_dot_move(SilkDotId(5), Point::new(0, 0), &under, &rules()), Err(SilkDotError::NotFound));
}

#[test]
fn a_via_fits_on_the_board_where_nothing_is_in_the_way() {
    assert!(BoardDoc::via_would_fit(true, false));
    assert!(!BoardDoc::via_would_fit(true, true));
    assert!(!BoardDoc::via_would_fit(false, false));
}

#[test]
fn drills_keep_the_distance_that_their_nets_ask_for() {
    let r = rules();
    assert_eq!(r.required_hole_to_hole(None, None), 450_000);
    assert_eq!(r.required_hole_to_hole(Some(NetId(1)), Some(NetId(1))), 254_000);
    assert_eq!(r.required_hole_to_hole(Some(NetId(1)), Some(NetId(2))), 500_000);
    assert_eq!(r.required_hole_to_hole(None, Some(NetId(2))), 500_000);

    let mut doc = empty_board();
    doc.node.add(Item::Via { shape: Circle::new(Point::new(0, 0), 300_000), drill: 300_000, net: Some(NetId(1)) });
    let near = Point::new(554_000, 0);
    assert!(!doc.violates_hole_to_hole(near, 300_000, Some(NetId(1)), &r), "exactly at the limit");
    assert!(doc.violates_hole_to_hole(Point::new(553_999, 0), 300_000, Some(NetId(1)), &r));
    assert!(doc.violates_hole_to_hole(near, 300_000, Some(NetId(2)), &r));
}

#[test]
fn a_net_that_nothing_is_on_is_forgotten() {
    let (mut doc, net) = wired_board();
    let empty = doc.create_net();
    assert_eq!(doc.nets.len(), 2);
    doc.prune_empty_nets();
    assert_eq!(doc.nets.iter().map(|n| n.id).collect::<Vec<_>>(), vec![net]);
    assert_eq!(doc.create_net(), NetId(empty.0 + 1), "a number is never used again");
}

#[test]
fn a_removed_net_leaves_its_pads_and_takes_its_wires() {
    let (mut doc, net) = wired_board();
    doc.remove_net(net);
    assert!(doc.nets.is_empty());
    assert!(doc.node.entries.iter().all(|e| e.item.net().is_none() && !e.item.is_track_or_via()));
    assert_eq!(doc.node.entries.len(), 6);
}

#[test]
fn a_world_counts_what_pours_have_to_avoid() {
    let mut node = Node::new();
    assert!(node.has_room(u64::MAX));
    let first = node.add_all(vec![pad(Point::new(0, 0)), island(NetId(1)), pad(Point::new(MM, 0))]);
    assert_eq!((first, node.obstacle_revision()), (0, 2));
    assert_eq!(node.position_of(ItemId(2)), Some(2));
    assert_eq!(node.position_of(ItemId(3)), None);
    assert!(node.set_pad_net(ItemId(0), Some(NetId(9))));
    assert!(!node.set_pad_net(ItemId(1), Some(NetId(9))));
    assert_eq!(node.get(ItemId(0)).and_then(|i| i.net()), Some(NetId(9)));
    node.replace(ItemId(2), Item::Hole { position: Point::new(0, 0), drill: 1 });
    assert!(node.get(ItemId(2)).map_or(false, |i| i.is_hole()));
    assert_eq!(node.obstacle_revision(), 4);
    node.remove_all(&[ItemId(1), ItemId(2), ItemId(2)]);
    assert_eq!((node.entries.len(), node.obstacle_revision()), (1, 5));
    assert!(!node.has_room(u64::MAX - 2));
}

#[test]
fn distances_are_compared_exactly() {
    let (a, b) = (Point::new(0, 0), Point::new(3, 4));
    assert!(!is_closer(a, b, 5) && is_closer(a, b, 6) && is_closer(b, a, 6));
    assert!(is_within(a, b, 5) && !is_within(a, b, 4));
    assert!(is_within_half(a, b, 10) && !is_within_half(a, b, 9));
    let (c, d) = (Circle::new(a, 2), Circle::new(b, 2));
    assert!(!circles_touch(&c, &d, 1) && circles_touch(&c, &d, 2) && circles_touch(&d, &c, 2));
    assert_eq!((halved(5), halved(-5), halved(i64::MIN)), (2, -2, i64::MIN / 2));
    assert!(pad_shape_hits_circle(&PadShape::Circle(c), &d, 2, false), "a round pad is not measured");
    assert!(pad_shape_hits_circle(&PadShape::Polygon { outline: square(2), center: a }, &d, 2, true));
}

#[test]
fn a_grid_is_symmetric_around_its_center() {
    let points = BoardDoc::matrix_positions(2, 3, 4 * MM, 6 * MM, Point::new(MM, -MM));
    assert_eq!(points.len(), 6);
    for k in 0..6 {
        let (p, q) = (points[k], points[5 - k]);
        assert_eq!((p.x + q.x, p.y + q.y), (2 * MM, -2 * MM));
    }
}

#[test]
fn templates_and_pads_are_found_by_name() {
    let t = template();
    assert_eq!(find_pad_number(&t.pads, "2"), Some(1));
    assert_eq!(find_pad_number(&t.pads, "3"), None);
    assert_eq!(find_template(&[t], "two"), Some(0));
    assert_eq!(find_template(&[template()], "three"), None);
}

#[test]
fn bill_rows_take_the_designators_they_are_given() {
    let mut doc = empty_board();
    put(&mut doc, "u2", Point::new(0, 0), &[]);
    put(&mut doc, "u1", Point::new(9 * MM, 0), &[]);
    let rows = rows_from(&doc.footprints, &["U2".to_string(), "U1".to_string()], &[template()], &[None]);
    assert_eq!(rows.len(), 1);
    assert_eq!(rows[0].designators, vec!["U1".to_string(), "U2".to_string()]);
    assert!(comes_before("U1", "U2") && !comes_before("U2", "U1") && comes_before("U1", "U1"));
    assert_eq!(csv_field("a,\"b\""), "\"a,\"\"b\"\"\"");
}

#[test]
fn pad_shapes_survive_the_way_out_and_back() {
    for kind in [PadShapeKind::Circle, PadShapeKind::Rect { width: 4, height: 6 }, PadShapeKind::Oval { width: 4, height: 6 }] {
        assert_eq!(pad_shape_kind(write_pad_shape(kind, 5)), kind);
    }
    assert_eq!(write_pad_shape(PadShapeKind::Circle, 5), WritePadShape::Circle { diameter: 10 });
    assert_eq!(shape_dims(WritePadShape::Circle { diameter: 10 }), (10, 10));
    assert_eq!(collision_radius(10, 10), 5, "the radius of a round pad reads back");
    assert_eq!(shape_dims(WritePadShape::Oval { width: 4, height: 6 }), (4, 6));
}

#[test]
fn labels_read_back() {
    for count in LayerCount::ALL {
        assert_eq!(LayerCount::parse(&count.label()), Ok(count));
    }
    for weight in CopperWeight::ALL {
        assert_eq!(CopperWeight::parse(&weight.label()), Ok(weight));
    }
}

#[test]
fn text_is_taken_apart() {
    let chars = |s: &str| chars_of(s);
    let texts = |v: Vec<Vec<char>>| v.iter().map(|c| string_of(c)).collect::<Vec<String>>();
    assert_eq!(texts(lines_of(&chars("a\r\nb\n\nc"))), vec!["a", "b", "", "c"]);
    assert_eq!(texts(fields_of(&chars("a~~b"), '~')), vec!["a", "", "b"]);
    assert_eq!(texts(words_of(&chars("  a b\tc "))), vec!["a", "b", "c"]);
    assert_eq!(find_chars(&chars("abcabc"), &chars("bc"), 2), Some(4));
    assert_eq!(find_chars(&chars("abc"), &chars("d"), 0), None);
    assert_eq!(trim(" \u{a0}x y\n"), "x y");
    assert_eq!((parse_i32(&chars("-12")), parse_i32(&chars("+7")), parse_i32(&chars("1x"))), (Some(-12), Some(7), None));
    assert_eq!(parse_i32(&chars("2147483648")), None);
    assert_eq!((parse_unsigned(&chars("12"), 12), parse_unsigned(&chars("13"), 12)), (Some(12), None));
    assert_eq!(parse_unsigned(&chars("-0"), 12), None);
    assert_eq!((decimal_string(0), decimal_string(1203)), ("0".to_string(), "1203".to_string()));
    assert_eq!((mm_string(250_000), mm_string(2_000_000), mm_string(1)), ("0.25".into(), "2".into(), "0.000001".into()));
    assert_eq!((grid_unit(5, 2), grid_unit(-5, 2), grid_unit(7, 3)), (3, -3, 2));
    assert_eq!((grid_unit(NAN, 1), grid_unit(i128::MAX, 1), grid_unit(-i128::MAX, 1)), (0, i64::MAX, i64::MIN));
}

#[test]
fn groups_are_pairs_of_lines() {
    let groups = parse_groups("0\nLINE\n 10 \n1.5\nx\ny\n20");
    assert_eq!(groups.iter().map(|g| (g.code, g.value.as_str())).collect::<Vec<_>>(), vec![(0, "LINE"), (10, "1.5"), (20, "")]);
    let read = |text: &str| parse_groups(text).into_iter().map(|g| (g.code, g.value)).collect::<Vec<_>>();
    let whole = "0\nLINE\n-5\n  a b \n";
    assert_eq!(read(whole), vec![(0, "LINE".to_string()), (-5, "  a b ".to_string())]);
    for rest in ["", "10\n1.5\n20", "x\n10\n1.5"] {
        let mut both = read(whole);
        both.extend(read(rest));
        assert_eq!(read(&format!("{whole}{rest}")), both);
    }
}

#[test]
fn an_unreadable_routing_result_says_so() {
    let message = ExternalRouterError::ImportFailed("bad file".to_string()).message();
    assert_eq!(message, "route.py finished, but its output couldn't be read back: bad file");
}

#[test]
fn joining_pads_that_are_joined_already_is_harmless() {
    let (mut doc, net) = wired_board();
    let (a, b) = (doc.footprints[0].pad_item_ids[1], doc.footprints[1].pad_item_ids[0]);
    let items = |doc: &BoardDoc| -> Vec<Item> { doc.node.entries.iter().map(|e| e.item.clone()).collect() };
    let before = items(&doc);
    assert_eq!(doc.connect_pads(a, b), Ok(net));
    assert_eq!(doc.connect_pads(a, a), Ok(net));
    assert_eq!(items(&doc), before);
    assert_eq!(doc.nets.len(), 1);
}

#[test]
fn taking_pads_off_their_nets_orphans_no_net() {
    let mut doc = empty_board();
    put(&mut doc, "U1", Point::new(0, 0), &[]);
    let pads = doc.footprints[0].pad_item_ids.clone();
    doc.connect_pads(pads[0], pads[1]).unwrap();
    doc.disconnect_pad(pads[0]).unwrap();
    assert_eq!(doc.nets.len(), 1);
    doc.disconnect_pad(pads[1]).unwrap();
    assert!(doc.nets.is_empty());
    assert_eq!(doc.disconnect_pad(pads[1]), Ok(()), "a pad on no net stays so");
}

#[test]
fn a_wire_holds_no_pad() {
    let (doc, _) = wired_board();
    let track = doc.node.entries.iter().find(|e| e.item.is_track_or_via()).map(|e| e.id).unwrap();
    let wire = doc.connected_wire(track);
    assert_eq!(wire.len(), 2);
    assert!(wire.iter().all(|&id| doc.node.get(id).map_or(false, |i| i.is_track_or_via())));
    assert!(doc.connected_wire(doc.footprints[0].pad_item_ids[0]).is_empty());
}
