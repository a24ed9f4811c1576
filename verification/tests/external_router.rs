//! The external autorouter: its settings, its command line and what comes back.

use alladin_pcb::external_router::{
    autoroute_report, check_startable, default_python_bin, diagnose_report, filter_and_remap_routed_items, route_py_args,
    run_outcome, spawn_error, split_args, verification_log, ExternalRouterError, ExternalRouterSettings, RouterMinimums,
    ToolFindings, WaitOutcome,
};
use alladin_pcb::geom::{Circle, Point, Segment, MM};
use alladin_pcb::item::{Item, LayerId, NetClass, NetId, Node};

#[test]
fn split_args_handles_plain_whitespace_and_quoted_substrings() {
    assert_eq!(split_args(""), Vec::<String>::new());
    assert_eq!(split_args("  "), Vec::<String>::new());
    assert_eq!(split_args("--bus --ordering mps"), vec!["--bus", "--ordering", "mps"]);
    assert_eq!(split_args(r#"--foo "a b" --bar"#), vec!["--foo", "a b", "--bar"]);
    assert_eq!(split_args("--foo 'x y' plain"), vec!["--foo", "x y", "plain"]);
}

#[test]
fn split_args_tolerates_an_unterminated_quote_by_taking_the_rest_of_the_input() {
    assert_eq!(split_args(r#"--foo "unterminated"#), vec!["--foo", "unterminated"]);
}

fn net_items() -> Node {
    let mut node = Node::new();
    node.add(Item::Track {
        shape: Segment::new(Point::new(0, 0), Point::new(MM, 0), 200_000),
        net: Some(NetId(1)),
        layer: LayerId::FCu,
        class: NetClass::C,
    });
    node.add(Item::Via { shape: Circle::new(Point::new(MM, 0), 300_000), drill: 150_000, net: Some(NetId(2)) });
    node.add(Item::Track {
        shape: Segment::new(Point::new(0, MM), Point::new(MM, MM), 200_000),
        net: None,
        layer: LayerId::FCu,
        class: NetClass::C,
    });
    node
}

fn imported_nets() -> Vec<(u32, String)> {
    vec![(1, "GND".to_string()), (2, "5V".to_string())]
}

fn live() -> Vec<(u32, String)> {
    vec![(42, "GND".to_string())]
}

#[test]
fn filter_and_remap_keeps_only_requested_nets_and_remaps_onto_the_live_net_id() {
    let items = filter_and_remap_routed_items(&net_items(), &imported_nets(), &["GND".to_string()], &live());
    assert_eq!(items.len(), 1, "only the GND track must survive -- not the 5V via, not the netless track");
    match &items[0] {
        Item::Track { net, .. } => assert_eq!(*net, Some(NetId(42)), "must be remapped onto the live board's own NetId"),
        other => panic!("expected the remapped Track, got {other:?}"),
    }
}

#[test]
fn filter_and_remap_drops_an_item_whose_net_name_has_no_live_counterpart() {
    let requested = vec!["GND".to_string(), "5V".to_string()];
    let items = filter_and_remap_routed_items(&net_items(), &imported_nets(), &requested, &live());
    assert_eq!(items.len(), 1, "the 5V item must be dropped -- no live net named 5V exists");
}

#[test]
fn filter_and_remap_returns_nothing_for_an_empty_requested_list() {
    let everywhere = vec![(1, "GND".to_string()), (1, "5V".to_string())];
    let items = filter_and_remap_routed_items(&net_items(), &imported_nets(), &[], &everywhere);
    assert!(items.is_empty());
}

#[test]
fn a_report_without_requested_nets_speaks_of_every_live_net() {
    let report = autoroute_report(&net_items(), &imported_nets(), &live(), &[], Some(true), None);
    assert!(report.requested_nets.is_empty());
    assert_eq!(report.routed_nets, vec!["GND".to_string()]);
    assert_eq!(report.items.len(), 1);
    assert_eq!((report.drc_ok, report.connected_ok), (Some(true), None));
}

#[test]
fn default_settings_match_alladins_own_jlcpcb_and_routing_defaults() {
    let settings = ExternalRouterSettings::default();
    assert_eq!(settings.track_width, 250_000);
    assert_eq!(settings.python_bin, default_python_bin());
}

const MINIMUMS: RouterMinimums = RouterMinimums { track_width: 100_000, via_diameter: 250_000, via_drill: 150_000 };

#[test]
fn defaults_never_fall_below_the_real_jlcpcb_dfm_minimums() {
    let settings = ExternalRouterSettings::default();
    assert!(settings.track_width >= MINIMUMS.track_width);
    assert!(settings.via_diameter >= MINIMUMS.via_diameter);
    assert!(settings.via_drill >= MINIMUMS.via_drill);
}

#[test]
fn clamp_to_jlcpcb_minimums_raises_a_too_low_stored_value_but_keeps_a_wider_one() {
    let mut settings =
        ExternalRouterSettings { track_width: 10_000, via_diameter: 10_000, via_drill: 10_000, ..ExternalRouterSettings::default() };
    settings.clamp_to_jlcpcb_minimums(&MINIMUMS);
    assert_eq!(settings.track_width, MINIMUMS.track_width);
    assert_eq!(settings.via_diameter, MINIMUMS.via_diameter);
    assert_eq!(settings.via_drill, MINIMUMS.via_drill);

    let mut wide = ExternalRouterSettings { track_width: 1_000_000, ..ExternalRouterSettings::default() };
    wide.clamp_to_jlcpcb_minimums(&MINIMUMS);
    assert_eq!(wide.track_width, 1_000_000, "a deliberately wider-than-minimum value must never be lowered");
}

#[test]
fn route_py_args_never_contains_a_clearance_flag() {
    let settings = ExternalRouterSettings::default();
    let args = route_py_args(&["GND".to_string(), "5V".to_string()], &settings);
    assert!(!args.iter().any(|a| a == "--clearance"), "must never pass --clearance, got {args:?}");
    assert!(args.iter().any(|a| a == "--track-width"), "must still pass the flags this module does own");
    let at = args.iter().position(|a| a == "--track-width").unwrap();
    assert_eq!(args[at + 1], "0.25");
}

#[test]
fn route_py_args_writes_sizes_as_they_are() {
    let settings = ExternalRouterSettings { track_width: -250_000, via_diameter: 0, ..ExternalRouterSettings::default() };
    let args = route_py_args(&[], &settings);
    assert_eq!(args[..4], ["--track-width", "-0.25", "--via-size", "0"]);
}

#[test]
fn a_missing_tool_dir_is_reported_as_not_configured_before_ever_spawning_anything() {
    let settings = ExternalRouterSettings::default();
    match check_startable(&settings, "route.py", false) {
        Err(ExternalRouterError::ToolNotConfigured) => {}
        _ => panic!("expected ToolNotConfigured"),
    }
}

#[test]
fn a_tool_dir_without_route_py_is_reported_as_script_not_found() {
    let mut settings = ExternalRouterSettings::default();
    settings.tool_dir = "/tmp/empty".to_string();
    match check_startable(&settings, "/tmp/empty/route.py", false) {
        Err(ExternalRouterError::ScriptNotFound(path)) => assert_eq!(path, "/tmp/empty/route.py"),
        _ => panic!("expected ScriptNotFound"),
    }
    assert!(check_startable(&settings, "/tmp/empty/route.py", true).is_ok());
}

#[test]
fn diagnose_reports_every_check_as_false_for_a_deliberately_bogus_python_binary() {
    let findings =
        ToolFindings { version_output: None, script_found: false, numpy: false, scipy: false, shapely: false, help: false };
    let report = diagnose_report(&findings);
    assert!(!report.python_found);
    assert!(!report.numpy_ok);
    assert!(!report.scipy_ok);
    assert!(!report.shapely_ok);
    assert!(!report.help_ok);
    assert!(!report.is_ready());
}

#[test]
fn a_tool_with_everything_in_place_is_ready_even_without_its_help_text() {
    let findings = ToolFindings {
        version_output: Some(("".to_string(), "Python 3.12\n".to_string())),
        script_found: true,
        numpy: true,
        scipy: true,
        shapely: true,
        help: false,
    };
    let report = diagnose_report(&findings);
    assert_eq!(report.python_version, Some("Python 3.12".to_string()));
    assert!(report.is_ready() && !report.help_ok);
}

#[test]
fn a_run_ends_as_cancelled_failed_or_well() {
    let fine = WaitOutcome::Exited { success: true, status: "exit status: 0".to_string() };
    let bad = WaitOutcome::Exited { success: false, status: "exit status: 2".to_string() };
    assert!(matches!(run_outcome(true, &fine, true), Err(ExternalRouterError::Cancelled)));
    assert!(run_outcome(false, &fine, true).is_ok());
    assert!(run_outcome(false, &fine, false).is_err());
    assert!(matches!(run_outcome(false, &bad, true), Err(ExternalRouterError::ProcessFailed { .. })));
    assert!(matches!(spawn_error(true, "x"), ExternalRouterError::PythonNotFound));
    assert!(matches!(spawn_error(false, "denied"), ExternalRouterError::Io(text) if text == "denied"));
}

#[test]
fn a_silent_verification_script_leaves_no_log_entry() {
    assert_eq!(verification_log("check_drc.py", "", "  "), None);
    assert!(verification_log("check_drc.py", "ok", "").unwrap().contains("check_drc.py"));
}

#[test]
fn quoted_text_with_blanks_is_one_argument() {
    assert_eq!(split_args("\"a  b c\""), vec!["a  b c"]);
}
