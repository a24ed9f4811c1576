//! Replies of the component service, shape lines and symbol drawings.

use std::collections::HashMap;

use alladin_pcb::decimal::{read_number, Spot, INFINITE, LIMIT, NAN};
use alladin_pcb::easyeda::{easyeda_unit_to_nm, parse_pad_line, parse_silk_courtyard};
use alladin_pcb::footprint::{Courtyard, PadShapeKind, PadTemplate};
use alladin_pcb::geom::{Angle, Point, Unit, MM};
use alladin_pcb::item::{LayerId, ZoneConnection};
use alladin_pcb::json::{parse_json, Json};
use alladin_pcb::lcsc::{
    component_url, extract_attr, extract_pin_names_from_symbol_svg, lookup_code, name_pads, parse_pin_names,
    parse_response, part_from_data, read_component, read_pin_names, symbol_url, FetchError,
};

const ORIGIN: Spot = Spot { x: 0, y: 0 };

fn json(text: &str) -> Json {
    parse_json(text).unwrap()
}

fn units(v: f64) -> i128 {
    (v * 1e6).round() as i128 * 1_000_000_000_000
}

fn nm(v: f64) -> Unit {
    easyeda_unit_to_nm(units(v))
}

fn pad(line: &str) -> Option<PadTemplate> {
    parse_pad_line(line, ORIGIN).map(|read| read.0)
}

fn courtyard(lines: &[&str]) -> Option<Courtyard> {
    let shapes: Vec<String> = lines.iter().map(|l| l.to_string()).collect();
    parse_silk_courtyard(&shapes, ORIGIN)
}

fn number(text: &str) -> Option<i128> {
    let chars: Vec<char> = text.chars().collect();
    read_number(&chars)
}

#[test]
fn a_response_with_no_tags_array_at_all_yields_no_category_rather_than_an_error() {
    let body = json(
        r#"{"success": true, "result": {"title": "No Tags", "packageDetail": {"dataStr": {"head": {"x": 0, "y": 0}, "shape": ["PAD~RECT~0~0~1~1~1~~1~0~~0~id~0~~Y"]}}}}"#,
    );
    let part = parse_response("C0", &body).expect("a response with no 'tags' array at all must still parse");
    assert_eq!(part.category, None);
    assert_eq!(part.name, "No Tags");
}

#[test]
fn rejects_a_response_whose_success_flag_is_false() {
    let body = json(r#"{"success": false, "code": 404}"#);
    assert!(matches!(parse_response("C0", &body), Err(FetchError::NotFound(code)) if code == "C0"));
}

#[test]
fn rejects_a_component_with_no_package_detail_as_no_footprint_not_a_panic() {
    let body = json(r#"{"success": true, "result": {"title": "Symbol Only"}}"#);
    assert!(matches!(parse_response("C1", &body), Err(FetchError::NoFootprint(code)) if code == "C1"));
}

#[test]
fn rejects_garbage_json_shape_as_a_parse_error_not_a_panic() {
    let body = json(r#"{"success": true, "result": {"packageDetail": {"dataStr": {"head": {}}}}}"#);
    assert!(matches!(parse_response("C2", &body), Err(FetchError::Parse(_))));
}

#[test]
fn a_footprint_whose_only_shapes_are_non_pad_lines_is_no_footprint_not_an_empty_success() {
    let body = json(
        r#"{"success": true, "result": {"packageDetail": {"dataStr": {"head": {"x": 0, "y": 0}, "shape": ["TRACK~0.6~3~~0 0 1 1~id~0"]}}}}"#,
    );
    assert!(matches!(parse_response("C3", &body), Err(FetchError::NoFootprint(code)) if code == "C3"));
}

#[test]
fn parse_pad_line_ignores_non_pad_shape_lines() {
    assert!(pad("TRACK~0.6~3~~0 0 1 1~id~0").is_none());
    assert!(pad("CIRCLE~0~0~1~1~1~id~0").is_none());
}

#[test]
fn an_elongated_pad_s_collision_radius_is_half_its_shorter_side_not_half_its_longer_side_or_diagonal() {
    let line = format!("PAD~RECT~0~0~{}~{}~1~~1~0~~0~id~0~~Y", 1.0 / 0.254, 3.0 / 0.254);
    let pad = pad(&line).expect("a well-formed RECT pad line must parse");
    let expected_radius = (0.5 * MM as f64).round() as Unit;
    assert_eq!(pad.radius, expected_radius, "radius must be half the shorter side");
}

#[test]
fn polygon_pads_fall_back_to_their_bounding_rectangle() {
    let line = "PAD~POLYGON~0~0~0~0~1~~1~0~-1 0 0 -2 1 0 0 2~0~id~0~~Y";
    let pad = pad(line).expect("a well-formed POLYGON pad line must parse");
    match pad.shape {
        PadShapeKind::Rect { width, height } => {
            assert_eq!(width, nm(2.0));
            assert_eq!(height, nm(4.0));
        }
        other => panic!("expected a bounding-rect approximation, got {other:?}"),
    }
}

#[test]
fn parse_pin_names_returns_an_empty_map_rather_than_erroring_on_garbage() {
    assert!(parse_pin_names(&json(r#"{"success": true, "result": []}"#)).is_empty());
    assert!(parse_pin_names(&json(r#"{"success": true}"#)).is_empty());
}

#[test]
fn parse_pin_names_ignores_non_symbol_doctypes() {
    let body = json(
        r#"{"success": true, "result": [{"docType": 4, "svg": "<g c_partid=\"part_pin\" c_spicepin=\"1\"><text>NOT_A_PIN_NAME</text><text>1</text></g>"}]}"#,
    );
    assert!(parse_pin_names(&body).is_empty());
}

#[test]
fn extract_pin_names_from_symbol_svg_parses_a_minimal_two_pin_group() {
    let svg = r#"<g c_partid="part_pin" c_spicepin="1"><circle/><text>GND</text><text>1</text></g><g c_partid="part_pin" c_spicepin="2"><text>VCC</text><text>2</text></g>"#;
    assert_eq!(
        extract_pin_names_from_symbol_svg(svg),
        vec![("1".to_string(), "GND".to_string()), ("2".to_string(), "VCC".to_string())]
    );
}

#[test]
fn extract_pin_names_from_symbol_svg_skips_a_pin_group_with_no_name_text() {
    let svg = r#"<g c_partid="part_pin" c_spicepin="1"></g>"#;
    assert_eq!(extract_pin_names_from_symbol_svg(svg), Vec::new());
}

#[test]
fn parse_silk_courtyard_ignores_tracks_on_layers_other_than_top_silk() {
    let shapes = ["TRACK~1~1~~0 0 10 0 10 10 0 10~id~0", "TRACK~1~10~~0 0 20 0 20 20 0 20~id~0"];
    assert!(courtyard(&shapes).is_none(), "only layer-3 (top silk) tracks should ever be considered");
}

#[test]
fn parse_silk_courtyard_returns_none_for_a_footprint_with_no_silk_tracks_at_all() {
    assert!(courtyard(&["PAD~RECT~0~0~1~1~1~~1~0~~0~id~0~~Y"]).is_none());
}

#[test]
fn parse_silk_courtyard_combines_several_top_silk_tracks_into_one_bounding_box() {
    let shapes = [
        "TRACK~1~3~~0 0 10 0 10 5 0 5~id~0",
        "TRACK~1~3~~-4 -4 20 -4~id2~0",
        "TRACK~1~1~~-100 -100 100 100~offlayer~0",
    ];
    let courtyard = courtyard(&shapes).expect("must find a courtyard from the two top-silk tracks");
    assert_eq!(courtyard.width, nm(24.0));
    assert_eq!(courtyard.height, nm(9.0));
    assert_eq!(courtyard.center, Point::new(nm(8.0), nm(0.5)));
}

#[test]
fn parse_silk_courtyard_reads_a_standalone_top_silk_rect_by_its_top_left_corner() {
    let courtyard =
        courtyard(&["RECT~2~3~4~6~3~id~0~1~none"]).expect("must find a courtyard from the standalone top-silk RECT");
    assert_eq!(courtyard.width, nm(4.0));
    assert_eq!(courtyard.height, nm(6.0));
    assert_eq!(courtyard.center, Point::new(nm(4.0), nm(6.0)));
}

#[test]
fn parse_silk_courtyard_ignores_a_rect_on_a_layer_other_than_top_silk() {
    assert!(courtyard(&["RECT~2~3~4~6~1~id~0~1~none"]).is_none(), "only a layer-3 (top silk) RECT should ever be considered");
}

#[test]
fn parse_silk_courtyard_ignores_circle_shapes_even_on_the_top_silk_layer() {
    let shapes = ["TRACK~1~3~~0 0 10 0 10 10 0 10~id~0", "CIRCLE~50~50~2~1~3~id2~0~~"];
    let courtyard = courtyard(&shapes).expect("the TRACK alone must still produce a courtyard");
    assert_eq!(courtyard.width, nm(10.0), "the far-away CIRCLE dot must not inflate the box");
    assert_eq!(courtyard.height, nm(10.0));
}

#[test]
fn parse_silk_courtyard_pads_a_top_silk_arc_by_its_own_radius_in_every_direction() {
    let courtyard = courtyard(&["ARC~1~3~~M 0 0 A 5 5 0 0 1 5 5~~id~0"])
        .expect("must find a courtyard from the standalone top-silk ARC");
    assert_eq!(courtyard.width, nm(15.0));
    assert_eq!(courtyard.height, nm(15.0));
}

#[test]
fn parse_silk_courtyard_ignores_solidregion_shapes_even_on_the_top_silk_layer() {
    let shapes = ["TRACK~1~3~~0 0 10 0 10 10 0 10~id~0", "SOLIDREGION~3~~M 50 50 L 60 50 L 60 60 Z~solid~id2~~~~0"];
    let courtyard = courtyard(&shapes).expect("the TRACK alone must still produce a courtyard");
    assert_eq!(courtyard.width, nm(10.0), "the far-away SOLIDREGION flag must not inflate the box");
    assert_eq!(courtyard.height, nm(10.0));
}

#[test]
fn a_through_hole_pad_keeps_its_drill_and_lands_on_the_front() {
    let read = parse_pad_line("PAD~ELLIPSE~4005~3000~6~6~11~~2~2~~90~id~0~~Y", Spot { x: units(4000.0), y: units(3000.0) });
    let (pad, rotation) = read.unwrap();
    assert_eq!(pad.offset, Point::new(1_270_000, 0));
    assert_eq!(pad.shape, PadShapeKind::Circle);
    assert_eq!(pad.radius, 762_000);
    assert_eq!(pad.layer, LayerId::FCu);
    assert_eq!(pad.number, "2");
    assert_eq!(pad.hole_diameter, Some(508_000));
    assert_eq!(pad.pin_name, None);
    assert_eq!(pad.zone_connection, ZoneConnection::Thermal);
    assert_eq!(rotation, "90");
}

#[test]
fn pads_of_the_second_layer_lie_on_the_back_unless_they_are_drilled() {
    assert_eq!(pad("PAD~OVAL~0~0~4~2~2~~1~0~~0~id").unwrap().layer, LayerId::BCu);
    assert_eq!(pad("PAD~OVAL~0~0~4~2~2~~1~0.5~~0~id").unwrap().layer, LayerId::FCu);
    assert_eq!(pad("PAD~OVAL~0~0~4~2~1~~1~~~0~id").unwrap().layer, LayerId::FCu);
    assert_eq!(pad("PAD~OVAL~0~0~4~2~2~~1~0~~0~id").unwrap().shape, PadShapeKind::Oval { width: nm(4.0), height: nm(2.0) });
}

#[test]
fn a_pad_line_that_is_too_short_or_not_numeric_is_no_pad() {
    assert!(pad("PAD~RECT~0~0~1~1~1~~1~0~").is_none());
    assert!(pad("PAD~RECT~x~0~1~1~1~~1~0~~0~id").is_none());
    assert!(pad("PAD~RECT~0~0~1~1~one~~1~0~~0~id").is_none());
    assert_eq!(pad("PAD~RECT~0~0~0~0~1~~1~0~~0~id").unwrap().radius, 1);
}

#[test]
fn footprint_data_that_stands_as_text_is_read_as_json() {
    let body = json(
        r#"{"success": true, "result": {"title": "", "description": "10k", "tags": ["Resistors", "x"], "packageDetail": {"dataStr": "{\"head\": {\"x\": 4000, \"y\": 3000.5, \"c_para\": {\"pre\": \"R?\", \"package\": \"R0603\"}}, \"shape\": [\"PAD~RECT~4001~3000.5~1~2~1~~1~0~~45~id\", 7]}"}}}"#,
    );
    let mut part = parse_response("C25804", &body).unwrap();
    assert_eq!(part.lcsc_code, "C25804");
    assert_eq!(part.name, "C25804");
    assert_eq!(part.reference_prefix, "R");
    assert_eq!(part.description, "R0603 \u{2014} 10k");
    assert_eq!(part.category, Some("Resistors".to_string()));
    assert_eq!(part.pads.len(), 1);
    assert_eq!(part.pads[0].offset, Point::new(254_000, 0));
    assert_eq!(part.pad_rotations, vec!["45".to_string()]);
    assert_eq!(part.explicit_courtyard, None);

    let angle = Angle { bits: 45.0_f64.to_bits() };
    part.set_rotations(&[angle]);
    assert_eq!(part.pads[0].rotation_deg, angle);
}

#[test]
fn footprint_text_that_is_no_json_is_a_parse_error_with_the_reader_s_message() {
    let body = json(r#"{"success": true, "result": {"packageDetail": {"dataStr": "{nope"}}}"#);
    match parse_response("C4", &body) {
        Err(FetchError::Parse(message)) => assert!(message.contains("line 1 column 2"), "{message}"),
        other => panic!("expected a parse error, got {other:?}"),
    }
}

#[test]
fn a_part_without_a_prefix_or_package_gets_the_defaults() {
    let result = json(r#"{"title": "T"}"#);
    let data = json(r#"{"head": {"c_para": {"pre": "??"}}, "shape": ["PAD~RECT~0~0~1~1~1~~1~0~~0~id"]}"#);
    let part = part_from_data("C5", &result, &data).unwrap();
    assert_eq!(part.reference_prefix, "U");
    assert_eq!(part.description, "");
    let no_shape = json(r#"{"head": {}, "shape": 3}"#);
    assert_eq!(
        part_from_data("C5", &result, &no_shape).unwrap_err().message(),
        "couldn't understand LCSC/EasyEDA's response: footprint has no 'shape' array"
    );
}

#[test]
fn a_reply_is_read_from_its_text() {
    let reply = r#"{"success": true, "result": {"packageDetail": {"dataStr": {"head": {}, "shape": ["PAD~RECT~1~0~1~1~1~~1~0~~0~id"]}}}}"#;
    assert_eq!(read_component("C6", reply).unwrap().pads[0].offset, Point::new(254_000, 0));
    assert!(matches!(read_component("C6", "<html>"), Err(FetchError::Parse(_))));
    assert!(read_pin_names("<html>").is_empty());
}

#[test]
fn the_later_name_of_a_pin_wins_and_is_written_onto_its_pad() {
    let drawing = r#"<g c_partid=\"part_pin\" c_spicepin=\"1\"><text x=\"0\">VCC</text></g>"#;
    let other = r#"<g c_partid=\"part_pin\" c_spicepin=\"1\"><text>VDD</text></g>"#;
    let reply = format!(
        r#"{{"result": [{{"docType": 2, "svg": "{drawing}"}}, {{"docType": 2, "svg": "{other}"}}, {{"docType": 2.0, "svg": "{drawing}"}}]}}"#
    );
    let names = read_pin_names(&reply);
    let map: HashMap<String, String> = names.iter().cloned().collect();
    assert_eq!(map, HashMap::from([("1".to_string(), "VDD".to_string())]));

    let mut pads = vec![pad("PAD~RECT~0~0~1~1~1~~1~0~~0~id").unwrap(), pad("PAD~RECT~0~0~1~1~1~~2~0~~0~id").unwrap()];
    name_pads(&mut pads, &names);
    assert_eq!(pads[0].pin_name, Some("VDD".to_string()));
    assert_eq!(pads[1].pin_name, None);
}

#[test]
fn an_attribute_is_what_stands_up_to_the_next_quote() {
    assert_eq!(extract_attr("a id=\"x y\" b", "id=\""), Some("x y".to_string()));
    assert_eq!(extract_attr("a id=\"x y", "id=\""), None);
    assert_eq!(extract_attr("a", "id=\""), None);
}

#[test]
fn the_code_is_trimmed_and_must_not_be_empty() {
    assert_eq!(lookup_code("  C123 ").unwrap(), "C123");
    assert_eq!(lookup_code("  ").unwrap_err().message(), "(empty) wasn't found on LCSC/EasyEDA");
    assert_eq!(component_url("C1"), "https://easyeda.com/api/products/C1/components?version=6.4.19.5");
    assert_eq!(symbol_url("C1"), "https://easyeda.com/api/products/C1/svgs");
}

#[test]
fn every_fetch_error_says_what_went_wrong() {
    assert_eq!(FetchError::Network("timeout".to_string()).message(), "couldn't reach LCSC/EasyEDA: timeout");
    assert_eq!(FetchError::NotFound("C1".to_string()).message(), "C1 wasn't found on LCSC/EasyEDA");
    assert_eq!(FetchError::NoFootprint("C1".to_string()).message(), "C1 has no PCB footprint to import");
    assert_eq!(FetchError::Parse("x".to_string()).message(), "couldn't understand LCSC/EasyEDA's response: x");
}

#[test]
fn decimals_are_read_exactly() {
    assert_eq!(number("1"), Some(1_000_000_000_000_000_000));
    assert_eq!(number("-2.5"), Some(-2_500_000_000_000_000_000));
    assert_eq!(number("+.5"), Some(500_000_000_000_000_000));
    assert_eq!(number("5."), Some(5_000_000_000_000_000_000));
    assert_eq!(number("1e-7"), Some(100_000_000_000));
    assert_eq!(number("12E2"), Some(1_200_000_000_000_000_000_000));
    assert_eq!(number("1.23456789012345678999"), Some(1_234_567_890_123_456_789));
    assert_eq!(number("1e-40"), Some(1), "not zero");
    assert_eq!(number("0e999999999999"), Some(0));
    assert_eq!(number("2e14"), Some(200_000_000_000_000_000_000_000_000_000_000));
    assert_eq!(number("-9999999999999999999"), Some(-9_999_999_999_999_999_999_000_000_000_000_000_000));
    assert_eq!(number("1e308"), Some(LIMIT));
    assert_eq!(number("000.01e311"), Some(INFINITE));
    assert_eq!(number("-1e400"), Some(-INFINITE));
    for text in ["", "-", ".", "1.2.3", "1e", "1e+", "x", "1 ", "e5", "0x10"] {
        assert_eq!(number(text), None, "{text}");
    }
}

#[test]
fn a_silk_box_holds_every_place_of_its_lines() {
    let found = courtyard(&["TRACK~1~3~~1 2 3 4 9~id", "ARC~1~3~~M 10 10 L 20 5 A x 1 0 0 1 3 3~id", "RECT~0~0~q~1~3~id"]);
    let found = found.unwrap();
    assert_eq!(found.width, nm(19.0));
    assert_eq!(found.height, nm(8.0));
    assert_eq!(found.center, Point::new(nm(10.5), nm(6.0)));
}

#[test]
fn lengths_are_rounded_to_the_nearest_nanometre() {
    assert_eq!(easyeda_unit_to_nm(number("1").unwrap()), 254_000);
    assert_eq!(easyeda_unit_to_nm(number("0.000001968503937").unwrap()), 0);
    assert_eq!(easyeda_unit_to_nm(number("0.00000196850394").unwrap()), 1);
    assert_eq!(easyeda_unit_to_nm(number("-0.00000196850394").unwrap()), -1);
    assert_eq!(easyeda_unit_to_nm(number("1e14").unwrap()), i64::MAX);
}

#[test]
fn words_for_what_is_no_size_are_numbers() {
    for text in ["inf", "+inf", "Infinity", "INFINITY", "1e400"] {
        assert_eq!(number(text), Some(INFINITE), "{text}");
    }
    for text in ["-inf", "-Infinity"] {
        assert_eq!(number(text), Some(-INFINITE), "{text}");
    }
    for text in ["nan", "NaN", "-nan", "+NAN"] {
        assert_eq!(number(text), Some(NAN), "{text}");
    }
    for text in ["infin", "in", "--inf", "nanx", "na"] {
        assert_eq!(number(text), None, "{text}");
    }
}

#[test]
fn a_box_passes_over_what_is_no_number() {
    let found = courtyard(&["TRACK~1~3~~nan 5 10 10~id"]).unwrap();
    assert_eq!(found.center, Point::new(nm(10.0), nm(7.5)));
    assert_eq!((found.width, found.height), (0, nm(5.0)));
    let nowhere = courtyard(&["TRACK~1~3~~nan nan~id"]).unwrap();
    assert_eq!((nowhere.center, nowhere.width, nowhere.height), (Point::new(0, 0), 0, 0));
    let endless = courtyard(&["TRACK~1~3~~0 0 inf 4~id"]).unwrap();
    assert_eq!((endless.width, endless.height), (i64::MAX, nm(4.0)));
    assert_eq!(endless.center, Point::new(i64::MAX, nm(2.0)));
    let read = pad("PAD~RECT~nan~1~2~3~1~~1~nan~~0~id~0~~Y").unwrap();
    assert_eq!((read.offset, read.hole_diameter), (Point::new(0, nm(1.0)), None));
}

#[test]
fn a_box_depends_neither_on_the_order_nor_on_other_lines() {
    let lines = ["TRACK~1~3~~1 2 3 4~id", "ARC~1~3~~M 10 10 L 20 5~id", "RECT~0~0~1~1~3~id"];
    let box_of = courtyard(&lines);
    assert!(box_of.is_some());
    assert_eq!(courtyard(&[lines[2], lines[0], lines[1]]), box_of);
    for extra in ["CIRCLE~99~99~1~1~3~id", "SOLIDREGION~3~~M 99 99~id", "PAD~RECT~99~99~1~1~1~~1~0~~0~id", "TRACK~1~4~~99 99 99 99~id", "RECT~99~99~1~1~1~id", "ARC~1~x~~M 99 99~id"] {
        assert_eq!(courtyard(&[lines[0], extra, lines[1], lines[2]]), box_of, "{extra}");
    }
    assert!(courtyard(&[]).is_none());
}
