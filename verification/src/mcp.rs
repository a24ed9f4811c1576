//! The tool surface of the running editor: what each tool takes, which tools
//! may change the board, and what a caller is told.

use vstd::prelude::*;

use crate::geom::{Angle, Point, Unit};
use crate::text::{decimal, decimal_string, joined};

verus! {

/// The port that the tool server listens on.
pub const PORT: u16 = 8642;

/// How many seconds a tool waits for its answer.
pub const REPLY_TIMEOUT: u64 = 3;

/// How many seconds a tool with a slow answer waits for it.
pub const SLOW_REPLY_TIMEOUT: u64 = 20;

#[derive(Debug, Clone)]
pub struct DownloadLcscPartArgs {
    pub lcsc_code: String,
}

#[derive(Debug, Clone)]
pub struct ConnectPinsArgs {
    pub ref1: String,
    pub pin1: String,
    pub ref2: String,
    pub pin2: String,
}

#[derive(Debug, Clone)]
pub struct SaveBoardArgs {
    pub path: Option<String>,
}

#[derive(Debug, Clone)]
pub struct PlaceFootprintArgs {
    pub template: String,
    pub position: Point,
    pub rotation_deg: Option<Angle>,
}

#[derive(Debug, Clone)]
pub struct MoveFootprintArgs {
    pub reference: String,
    pub position: Point,
    pub rotation_deg: Option<Angle>,
}

#[derive(Debug, Clone)]
pub struct RemoveFootprintArgs {
    pub reference: String,
}

#[derive(Debug, Clone)]
pub struct DisconnectPinArgs {
    pub reference: String,
    pub pin: String,
}

#[derive(Debug, Clone)]
pub struct AddPinStitchingViaArgs {
    pub reference: Option<String>,
    pub pin: Option<String>,
    pub net: Option<String>,
    pub via_diameter: Option<Unit>,
    pub via_drill: Option<Unit>,
}

#[derive(Debug, Clone)]
pub struct RenameNetArgs {
    pub net: String,
    pub new_name: String,
}

#[derive(Debug, Clone)]
pub struct NewBoardArgs {
    pub width: Unit,
    pub height: Unit,
    pub layer_count: Option<u8>,
    pub copper_weight_oz: Option<u8>,
    pub corner_radius: Option<Unit>,
    pub replace_current: Option<bool>,
}

#[derive(Debug, Clone)]
pub struct RipupWireArgs {
    pub at: Option<Point>,
    pub net: Option<String>,
}

/// The tools that the server offers.
#[derive(Debug, Clone, Copy, PartialEq, Eq, Structural)]
pub enum Tool {
    GetNets,
    GetFootprints,
    BoardSummary,
    DownloadLcscPart,
    ConnectPins,
    SaveBoard,
    ListParts,
    CheckBoard,
    PlaceFootprint,
    MoveFootprint,
    RemoveFootprint,
    DisconnectPin,
    AddPinStitchingVia,
    RenameNet,
    NewBoard,
    GetRoutingScene,
    ProbeRoute,
    CommitRoute,
    RipupWire,
}

impl Tool {
    /// Whether the tool only looks: at nets, parts, the board or a proposed
    /// route.
    pub open spec fn only_reads(self) -> bool {
        match self {
            Tool::GetNets
            | Tool::GetFootprints
            | Tool::BoardSummary
            | Tool::ListParts
            | Tool::CheckBoard
            | Tool::GetRoutingScene
            | Tool::ProbeRoute => true,
            _ => false,
        }
    }

    /// Whether the tool writes to the board, its file or the parts database.
    pub fn writes(self) -> (r: bool)
        ensures
            r == !self.only_reads(),
    {
        match self {
            Tool::DownloadLcscPart
            | Tool::ConnectPins
            | Tool::SaveBoard
            | Tool::PlaceFootprint
            | Tool::MoveFootprint
            | Tool::RemoveFootprint
            | Tool::DisconnectPin
            | Tool::AddPinStitchingVia
            | Tool::RenameNet
            | Tool::NewBoard
            | Tool::CommitRoute
            | Tool::RipupWire => true,
            _ => false,
        }
    }

    /// How many seconds the tool waits for its answer.
    pub open spec fn patience(self) -> u64 {
        match self {
            Tool::BoardSummary
            | Tool::CheckBoard
            | Tool::AddPinStitchingVia
            | Tool::GetRoutingScene
            | Tool::ProbeRoute => SLOW_REPLY_TIMEOUT,
            _ => REPLY_TIMEOUT,
        }
    }

    /// How many seconds the tool waits for its answer.
    pub fn reply_timeout(self) -> (r: u64)
        ensures
            r == self.patience(),
    {
        match self {
            Tool::BoardSummary
            | Tool::CheckBoard
            | Tool::AddPinStitchingVia
            | Tool::GetRoutingScene
            | Tool::ProbeRoute => SLOW_REPLY_TIMEOUT,
            _ => REPLY_TIMEOUT,
        }
    }
}

/// What a tool that writes answers while writing is switched off.
pub open spec fn refusal() -> Seq<char> {
    "error: write access is disabled for this alladin-pcb process -- relaunch it with --allow-ai-write to enable write tools (read-only tools are unaffected)"@
}

/// The refusal that a tool that writes meets, if writing is switched off.
pub fn require_write_access(allow_ai_write: bool) -> (r: Option<String>)
    ensures
        r is Some == !allow_ai_write,
        r matches Some(text) ==> text@ == refusal(),
{
    if allow_ai_write {
        None
    } else {
        Some(
            "error: write access is disabled for this alladin-pcb process -- relaunch it with --allow-ai-write to enable write tools (read-only tools are unaffected)".to_owned(),
        )
    }
}

/// The refusal that a tool meets, if any: a tool that only reads meets none.
pub fn refusal_for(tool: Tool, allow_ai_write: bool) -> (r: Option<String>)
    ensures
        r is Some == (!tool.only_reads() && !allow_ai_write),
        r matches Some(text) ==> text@ == refusal(),
{
    if tool.writes() {
        require_write_access(allow_ai_write)
    } else {
        None
    }
}

/// How a question to the editor ended.
#[derive(Debug)]
pub enum Reply {
    /// The editor answered.
    Answered(String),
    /// There was no editor to ask.
    EditorGone,
    /// The editor let go of the question.
    Dropped,
    /// The editor did not answer in time.
    TimedOut,
    /// The download of a part ended without a result.
    DownloadEnded,
}

/// What the caller of a tool is told.
pub open spec fn reply_text(reply: Reply, seconds: u64) -> Seq<char> {
    match reply {
        Reply::Answered(text) => text@,
        Reply::EditorGone => "error: the alladin-pcb GUI's editor thread is gone"@,
        Reply::Dropped => "error: the alladin-pcb GUI dropped the request without answering"@,
        Reply::TimedOut => "error: no reply within "@ + decimal(seconds as nat)
            + "s (a modal dialog may be blocking the GUI thread)"@,
        Reply::DownloadEnded => "error: the LCSC download thread ended unexpectedly"@,
    }
}

/// What the caller of a tool is told, which waited `seconds` at most.
pub fn answer(reply: Reply, seconds: u64) -> (s: String)
    ensures
        s@ == reply_text(reply, seconds),
{
    match reply {
        Reply::Answered(text) => text,
        Reply::EditorGone => "error: the alladin-pcb GUI's editor thread is gone".to_owned(),
        Reply::Dropped => "error: the alladin-pcb GUI dropped the request without answering".to_owned(),
        Reply::TimedOut => joined(
            &joined("error: no reply within ", &decimal_string(seconds)),
            "s (a modal dialog may be blocking the GUI thread)",
        ),
        Reply::DownloadEnded => "error: the LCSC download thread ended unexpectedly".to_owned(),
    }
}

/// What the server says of its tools that write.
pub open spec fn write_note(allow_ai_write: bool) -> Seq<char> {
    if allow_ai_write {
        "Write tools are ENABLED for this process (launched with --allow-ai-write): new_board, download_lcsc_part, place/move/remove_footprint, connect_pins, disconnect_pin, add_pin_stitching_via, rename_net, save_board, commit_route, and ripup_wire act directly on the live board/parts DB."@
    } else {
        "Write tools (new_board, download_lcsc_part, place/move/remove_footprint, connect_pins, disconnect_pin, add_pin_stitching_via, rename_net, save_board, commit_route, ripup_wire) are DISABLED for this process -- every one of them will refuse with an explanation. Relaunch alladin-pcb with --allow-ai-write to enable them."@
    }
}

/// What the server says of itself.
pub fn instructions(allow_ai_write: bool) -> (s: String)
    ensures
        s@
            == "MCP surface for a running alladin-pcb GUI: board setup, parts download + placement, netlist wiring, manual-style copper routing (get_routing_scene / probe_route / commit_route \u{2014} same 45\u{b0}-clearance gates as the GUI, not an autorouter), and self-verification (check_board), with read-only supports (get_footprints, get_nets, board_summary, list_parts). Writes run through the same JLCPCB DFM gates and Ctrl+Z undo history as the human's own GUI gestures. Zone fill stays in the GUI. "@
            + write_note(allow_ai_write),
{
    let note: &str = if allow_ai_write {
        "Write tools are ENABLED for this process (launched with --allow-ai-write): new_board, download_lcsc_part, place/move/remove_footprint, connect_pins, disconnect_pin, add_pin_stitching_via, rename_net, save_board, commit_route, and ripup_wire act directly on the live board/parts DB."
    } else {
        "Write tools (new_board, download_lcsc_part, place/move/remove_footprint, connect_pins, disconnect_pin, add_pin_stitching_via, rename_net, save_board, commit_route, ripup_wire) are DISABLED for this process -- every one of them will refuse with an explanation. Relaunch alladin-pcb with --allow-ai-write to enable them."
    };
    joined(
        "MCP surface for a running alladin-pcb GUI: board setup, parts download + placement, netlist wiring, manual-style copper routing (get_routing_scene / probe_route / commit_route \u{2014} same 45\u{b0}-clearance gates as the GUI, not an autorouter), and self-verification (check_board), with read-only supports (get_footprints, get_nets, board_summary, list_parts). Writes run through the same JLCPCB DFM gates and Ctrl+Z undo history as the human's own GUI gestures. Zone fill stays in the GUI. ",
        note,
    )
}

} // verus!
