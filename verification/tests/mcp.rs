//! The tool surface, the command line and the small rules round them.

use alladin_pcb::board_doc::{CopperWeight, LayerCount, NewBoardParams};
use alladin_pcb::cli::{check_new_board, take_flag};
use alladin_pcb::geom::{Angle, Point};
use alladin_pcb::mcp::{answer, instructions, refusal_for, require_write_access, Reply, Tool, PORT};
use alladin_pcb::mcp_placement::{probe_reply, search_limits};

#[test]
fn tools_that_write_are_refused_unless_writing_is_allowed() {
    for tool in [Tool::NewBoard, Tool::RipupWire, Tool::DownloadLcscPart, Tool::SaveBoard] {
        assert!(tool.writes());
        assert!(refusal_for(tool, false).unwrap().starts_with("error: write access is disabled"));
        assert!(refusal_for(tool, true).is_none());
    }
    for tool in [Tool::GetNets, Tool::ProbeRoute, Tool::CheckBoard] {
        assert!(!tool.writes());
        assert!(refusal_for(tool, false).is_none());
    }
    assert!(require_write_access(true).is_none());
    assert_eq!(PORT, 8642);
}

#[test]
fn a_caller_is_told_how_the_question_ended() {
    assert_eq!(answer(Reply::Answered("{}".to_string()), 3), "{}");
    assert_eq!(answer(Reply::EditorGone, 3), "error: the alladin-pcb GUI's editor thread is gone");
    assert_eq!(answer(Reply::Dropped, 3), "error: the alladin-pcb GUI dropped the request without answering");
    assert_eq!(
        answer(Reply::TimedOut, Tool::CheckBoard.reply_timeout()),
        "error: no reply within 20s (a modal dialog may be blocking the GUI thread)"
    );
    assert_eq!(answer(Reply::DownloadEnded, 3), "error: the LCSC download thread ended unexpectedly");
    assert_eq!(Tool::GetNets.reply_timeout(), 3);
    assert!(instructions(true).contains("ENABLED"));
    assert!(instructions(false).contains("DISABLED"));
}

#[test]
fn a_search_stays_within_its_limits() {
    let wide = search_limits(Some(50_000_000), Some(1));
    assert_eq!((wide.radius, wide.step), (Some(10_000_000), Some(250_000)));
    let plain = search_limits(Some(-3), None);
    assert_eq!((plain.radius, plain.step), (Some(0), Some(500_000)));
    let none = search_limits(None, None);
    assert_eq!((none.radius, none.step), (None, None));
}

#[test]
fn a_probe_suggests_the_pose_that_was_found() {
    let flat = Angle { bits: 0 };
    let found = probe_reply(Point::new(0, 0), flat, false, Ok((Point::new(5, 5), flat)));
    assert!(found.legal && found.suggested && !found.requested_legal);
    assert_eq!(found.position, Point::new(5, 5));
    assert!(found.requested_reason.unwrap().starts_with("requested pose is illegal"));
    let same = probe_reply(Point::new(0, 0), flat, true, Ok((Point::new(0, 0), flat)));
    assert!(same.legal && !same.suggested && same.requested_reason.is_none());
    let nowhere = probe_reply(Point::new(1, 2), flat, false, Err("off board".to_string()));
    assert!(!nowhere.legal && nowhere.position == Point::new(1, 2));
    assert_eq!(nowhere.reason, Some("off board".to_string()));
}

#[test]
fn a_flag_is_taken_out_once() {
    let mut args: Vec<String> = ["a", "--mcp", "b", "--mcp"].iter().map(|s| s.to_string()).collect();
    assert!(take_flag(&mut args, "--mcp"));
    assert_eq!(args, vec!["a", "b", "--mcp"]);
    assert!(!take_flag(&mut args, "--gui"));
}

#[test]
fn only_sane_two_layer_boards_are_created() {
    assert!(check_new_board(&NewBoardParams::default()).is_ok());
    assert!(check_new_board(&NewBoardParams { layer_count: LayerCount::One, ..NewBoardParams::default() }).is_err());
    assert!(check_new_board(&NewBoardParams { width: 0, ..NewBoardParams::default() }).is_err());
}

#[test]
fn copper_weights_round_trip_through_their_label() {
    for weight in CopperWeight::ALL {
        assert_eq!(weight.label().parse::<CopperWeight>(), Ok(weight));
        assert_eq!(format!("{}", weight.as_oz()).parse::<CopperWeight>(), Ok(weight));
    }
    assert_eq!("1".parse::<CopperWeight>(), Ok(CopperWeight::OneOz));
    assert_eq!("2oz".parse::<CopperWeight>(), Ok(CopperWeight::TwoOz));
    assert!("3".parse::<CopperWeight>().is_err());
    assert!("".parse::<CopperWeight>().is_err());
    assert_eq!(LayerCount::Two.as_u8(), 2);
}
