//! The optional hand-over to an external autorouter: its settings, its command
//! line, what its outcome means, and which of its copper comes back.

use vstd::prelude::*;

use crate::geom::Unit;
use crate::item::{is_wire, item_net, Entry, Item, NetId, Node};
use crate::text::{
    chars_of, contains_text, copy_strings, decimal, is_space, is_whitespace, joined, mm_text,
    same_text, signed_mm_string, signed_mm_text, strings_in, trim, trimmed,
};

verus! {

/// Where the tool is installed and how it is to route, lengths in [`Unit`]s.
/// There is no clearance among these: the router reads that from the exported
/// project.
#[derive(Debug, Clone)]
pub struct ExternalRouterSettings {
    pub tool_dir: String,
    pub python_bin: String,
    pub track_width: Unit,
    pub via_diameter: Unit,
    pub via_drill: Unit,
    pub extra_args: String,
}

/// The smallest sizes that can be fabricated.
#[derive(Debug, Clone, Copy, PartialEq, Eq, Structural)]
pub struct RouterMinimums {
    pub track_width: Unit,
    pub via_diameter: Unit,
    pub via_drill: Unit,
}

/// The interpreter that is used unless another one is set.
pub fn default_python_bin() -> (s: String)
    ensures
        s@ == "python3"@,
{
    "python3".to_owned()
}

impl Default for ExternalRouterSettings {
    fn default() -> (s: Self)
        ensures
            s.tool_dir@.len() == 0,
            s.python_bin@ == "python3"@,
            s.track_width == 250_000,
            s.via_diameter == 600_000,
            s.via_drill == 300_000,
            s.extra_args@.len() == 0,
    {
        ExternalRouterSettings {
            tool_dir: String::new(),
            python_bin: default_python_bin(),
            track_width: 250_000,
            via_diameter: 600_000,
            via_drill: 300_000,
            extra_args: String::new(),
        }
    }
}

/// `value`, raised to `floor` if it is below.
pub open spec fn raised(value: Unit, floor: Unit) -> Unit {
    if value < floor {
        floor
    } else {
        value
    }
}

fn at_least(value: Unit, floor: Unit) -> (r: Unit)
    ensures
        r == raised(value, floor),
{
    if value < floor {
        floor
    } else {
        value
    }
}

impl ExternalRouterSettings {
    /// Raises every size that is below what can be fabricated; a larger one is
    /// never lowered.
    pub fn clamp_to_jlcpcb_minimums(&mut self, minimums: &RouterMinimums)
        ensures
            *final(self) == (ExternalRouterSettings {
                track_width: raised(old(self).track_width, minimums.track_width),
                via_diameter: raised(old(self).via_diameter, minimums.via_diameter),
                via_drill: raised(old(self).via_drill, minimums.via_drill),
                ..*old(self)
            }),
    {
        self.track_width = at_least(self.track_width, minimums.track_width);
        self.via_diameter = at_least(self.via_diameter, minimums.via_diameter);
        self.via_drill = at_least(self.via_drill, minimums.via_drill);
    }
}

/// The arguments that `s` stands for, where `current` was read of the one in
/// progress, `in_token` says whether there is one, and `quote` is the quote
/// that is open. A quote of either kind runs to the next one of its kind, or
/// to the end; whitespace outside quotes separates.
pub open spec fn args_from(
    s: Seq<char>,
    current: Seq<char>,
    in_token: bool,
    quote: Option<char>,
) -> Seq<Seq<char>>
    decreases s.len(),
{
    if s.len() == 0 {
        if in_token {
            seq![current]
        } else {
            Seq::empty()
        }
    } else {
        let c = s[0];
        let rest = s.drop_first();
        match quote {
            Some(q) => if c == q {
                args_from(rest, current, in_token, None)
            } else {
                args_from(rest, current.push(c), in_token, quote)
            },
            None => if c == '"' || c == '\'' {
                args_from(rest, current, true, Some(c))
            } else if is_space(c) {
                if in_token {
                    seq![current] + args_from(rest, Seq::empty(), false, None)
                } else {
                    args_from(rest, current, false, None)
                }
            } else {
                args_from(rest, current.push(c), true, None)
            },
        }
    }
}

/// The arguments that a text stands for.
pub open spec fn args_in(s: Seq<char>) -> Seq<Seq<char>> {
    args_from(s, Seq::empty(), false, None)
}

/// Splits free text into arguments at whitespace outside quotes.
pub fn split_args(input: &str) -> (r: Vec<String>)
    ensures
        strings_in(r@) == args_in(input@),
{
    let chars: Vec<char> = chars_of(input);
    let ghost all = args_in(input@);
    let mut tokens: Vec<String> = Vec::new();
    let mut current = String::new();
    let mut in_token = false;
    let mut quote: Option<char> = None;
    let mut i: usize = 0;
    proof {
        assert(chars@.skip(0) =~= chars@);
        assert(strings_in(tokens@) + args_in(input@) =~= all);
    }
    while i < chars.len()
        invariant
            i <= chars@.len(),
            strings_in(tokens@) + args_from(chars@.skip(i as int), current@, in_token, quote) == all,
            quote is Some ==> in_token,
            !in_token ==> current@ == Seq::<char>::empty(),
        decreases chars@.len() - i,
    {
        let c = chars[i];
        let ghost rest = chars@.skip(i as int);
        assert(rest[0] == c);
        assert(rest.drop_first() =~= chars@.skip(i + 1));
        match quote {
            Some(q) => {
                if c == q {
                    quote = None;
                } else {
                    current.push(c);
                }
            },
            None => {
                if c == '"' || c == '\'' {
                    quote = Some(c);
                    in_token = true;
                } else if is_whitespace(c) {
                    if in_token {
                        let ghost before = tokens@;
                        let ghost word = current@;
                        tokens.push(current);
                        current = String::new();
                        in_token = false;
                        proof {
                            assert(strings_in(tokens@) =~= strings_in(before).push(word));
                            let tail = args_from(chars@.skip(i + 1), Seq::empty(), false, None);
                            assert(strings_in(before) + (seq![word] + tail)
                                =~= strings_in(tokens@) + tail);
                        }
                    }
                } else {
                    current.push(c);
                    in_token = true;
                }
            },
        }
        i += 1;
    }
    assert(chars@.skip(i as int) =~= Seq::<char>::empty());
    if in_token {
        let ghost before = tokens@;
        let ghost word = current@;
        tokens.push(current);
        assert(strings_in(tokens@) =~= strings_in(before).push(word));
        assert(strings_in(before) + seq![word] =~= strings_in(tokens@));
    } else {
        assert(strings_in(tokens@) + Seq::<Seq<char>>::empty() =~= strings_in(tokens@));
    }
    tokens
}

/// What can go wrong with a run of the external autorouter.
#[derive(Debug, Clone)]
pub enum ExternalRouterError {
    /// No tool folder is set.
    ToolNotConfigured,
    /// The Python interpreter cannot be run.
    PythonNotFound,
    /// The tool folder has no `route.py`; the path where it should be.
    ScriptNotFound(String),
    /// `route.py` failed.
    ProcessFailed { stderr: String },
    /// The run was cancelled.
    Cancelled,
    /// The file system or the process could not be worked with.
    Io(String),
    /// What `route.py` wrote could not be read back.
    ImportFailed(String),
}

impl ExternalRouterError {
    pub open spec fn text(self) -> Seq<char> {
        match self {
            ExternalRouterError::ToolNotConfigured =>
                "KiCadRoutingTools isn't configured yet -- open the Autoroute (extern) settings and set its folder (the one containing route.py)"@,
            ExternalRouterError::PythonNotFound =>
                "the configured Python binary wasn't found on PATH -- check the \"Python\" field in the Autoroute (extern) settings"@,
            ExternalRouterError::ScriptNotFound(path) => "route.py not found at "@ + path@
                + " -- check the tool folder in the Autoroute (extern) settings"@,
            ExternalRouterError::ProcessFailed { stderr } => "route.py failed: "@ + trimmed(
                stderr@,
            ),
            ExternalRouterError::Cancelled => "cancelled"@,
            ExternalRouterError::Io(e) => "filesystem/process error: "@ + e@,
            ExternalRouterError::ImportFailed(e) =>
                "route.py finished, but its output couldn't be read back: "@ + e@,
        }
    }

    pub fn message(&self) -> (s: String)
        ensures
            s@ == self.text(),
    {
        match self {
            ExternalRouterError::ToolNotConfigured =>
                "KiCadRoutingTools isn't configured yet -- open the Autoroute (extern) settings and set its folder (the one containing route.py)".to_owned(),
            ExternalRouterError::PythonNotFound =>
                "the configured Python binary wasn't found on PATH -- check the \"Python\" field in the Autoroute (extern) settings".to_owned(),
            ExternalRouterError::ScriptNotFound(path) => {
                let mut s = joined("route.py not found at ", path);
                s.append(" -- check the tool folder in the Autoroute (extern) settings");
                s
            },
            ExternalRouterError::ProcessFailed { stderr } => {
                let bare = trim(stderr);
                joined("route.py failed: ", &bare)
            },
            ExternalRouterError::Cancelled => "cancelled".to_owned(),
            ExternalRouterError::Io(e) => joined("filesystem/process error: ", e),
            ExternalRouterError::ImportFailed(e) => joined(
                "route.py finished, but its output couldn't be read back: ",
                e,
            ),
        }
    }
}

/// What was found of the tool's prerequisites.
#[derive(Debug, Clone)]
pub struct DiagnoseReport {
    pub python_found: bool,
    pub python_version: Option<String>,
    pub script_found: bool,
    pub numpy_ok: bool,
    pub scipy_ok: bool,
    pub shapely_ok: bool,
    pub help_ok: bool,
}

impl DiagnoseReport {
    /// Whether everything a run needs is there; whether the help text prints
    /// is only a hint.
    pub fn is_ready(&self) -> (r: bool)
        ensures
            r == (self.python_found && self.script_found && self.numpy_ok && self.scipy_ok
                && self.shapely_ok),
    {
        self.python_found && self.script_found && self.numpy_ok && self.scipy_ok && self.shapely_ok
    }
}

/// What was observed of the tool's prerequisites: what the interpreter printed
/// when asked for its version (nothing if it failed), whether the script is
/// there, and which trial runs succeeded.
#[derive(Debug, Clone)]
pub struct ToolFindings {
    pub version_output: Option<(String, String)>,
    pub script_found: bool,
    pub numpy: bool,
    pub scipy: bool,
    pub shapely: bool,
    pub help: bool,
}

/// Draws up the report: the version is what stands on the standard output, or
/// else on the error output, and without an interpreter nothing else counts.
pub fn diagnose_report(findings: &ToolFindings) -> (r: DiagnoseReport)
    ensures
        r.python_found == findings.version_output is Some,
        match findings.version_output {
            Some(out) => r.python_version matches Some(version) && version@ == (if trimmed(
                out.0@,
            ).len() == 0 {
                trimmed(out.1@)
            } else {
                trimmed(out.0@)
            }),
            None => r.python_version is None,
        },
        r.script_found == findings.script_found,
        r.numpy_ok == (r.python_found && findings.numpy),
        r.scipy_ok == (r.python_found && findings.scipy),
        r.shapely_ok == (r.python_found && findings.shapely),
        r.help_ok == (r.python_found && r.script_found && findings.help),
{
    let python_version: Option<String> = match &findings.version_output {
        Some(out) => {
            let stdout = trim(&out.0);
            if stdout.as_str().is_empty() {
                Some(trim(&out.1))
            } else {
                Some(stdout)
            }
        },
        None => None,
    };
    let python_found = python_version.is_some();
    DiagnoseReport {
        python_found,
        python_version,
        script_found: findings.script_found,
        numpy_ok: python_found && findings.numpy,
        scipy_ok: python_found && findings.scipy,
        shapely_ok: python_found && findings.shapely,
        help_ok: python_found && findings.script_found && findings.help,
    }
}

/// Whether a run can be started at all: a folder has to be set, and the script
/// has to be in it.
pub fn check_startable(
    settings: &ExternalRouterSettings,
    script_path: &str,
    script_found: bool,
) -> (r: Result<(), ExternalRouterError>)
    ensures
        r is Ok <==> trimmed(settings.tool_dir@).len() > 0 && script_found,
        r matches Err(e) ==> if trimmed(settings.tool_dir@).len() == 0 {
            e is ToolNotConfigured
        } else {
            e matches ExternalRouterError::ScriptNotFound(path) && path@ == script_path@
        },
{
    let dir = trim(&settings.tool_dir);
    if dir.as_str().is_empty() {
        return Err(ExternalRouterError::ToolNotConfigured);
    }
    if !script_found {
        return Err(ExternalRouterError::ScriptNotFound(script_path.to_owned()));
    }
    Ok(())
}

/// The error of a process that could not be spawned.
pub fn spawn_error(not_found: bool, text: &str) -> (e: ExternalRouterError)
    ensures
        if not_found {
            e is PythonNotFound
        } else {
            e matches ExternalRouterError::Io(t) && t@ == text@
        },
{
    if not_found {
        ExternalRouterError::PythonNotFound
    } else {
        ExternalRouterError::Io(text.to_owned())
    }
}

/// How waiting for the process ended: it exited, it had been taken away, or
/// waiting failed.
#[derive(Debug, Clone)]
pub enum WaitOutcome {
    Exited { success: bool, status: String },
    TakenAway,
    Failed(String),
}

/// What comes of a run that is over: a cancelled one is reported as such
/// whatever else happened, and success takes a clean exit and an output file.
pub fn run_outcome(cancelled: bool, wait: &WaitOutcome, wrote_output: bool) -> (r: Result<
    (),
    ExternalRouterError,
>)
    ensures
        r is Ok <==> !cancelled && (*wait matches WaitOutcome::Exited { success, .. } && success)
            && wrote_output,
        r matches Err(e) ==> if cancelled {
            e is Cancelled
        } else {
            match *wait {
                WaitOutcome::TakenAway => e is Cancelled,
                WaitOutcome::Failed(t) => e matches ExternalRouterError::Io(text) && text@ == t@,
                WaitOutcome::Exited { success, status } => e matches ExternalRouterError::ProcessFailed {
                    stderr,
                } && stderr@ == (if success {
                    "route.py finished but didn't write an output file"@
                } else {
                    "route.py exited with "@ + status@
                }),
            }
        },
{
    if cancelled {
        return Err(ExternalRouterError::Cancelled);
    }
    match wait {
        WaitOutcome::TakenAway => Err(ExternalRouterError::Cancelled),
        WaitOutcome::Failed(text) => Err(ExternalRouterError::Io(text.clone())),
        WaitOutcome::Exited { success, status } => {
            if !*success {
                return Err(
                    ExternalRouterError::ProcessFailed {
                        stderr: joined("route.py exited with ", status),
                    },
                );
            }
            if !wrote_output {
                return Err(
                    ExternalRouterError::ProcessFailed {
                        stderr: "route.py finished but didn't write an output file".to_owned(),
                    },
                );
            }
            Ok(())
        },
    }
}

/// The log entry for a verification script: its name and what it printed, or
/// nothing if it printed nothing.
pub fn verification_log(script_name: &str, stdout: &str, stderr: &str) -> (r: Option<String>)
    ensures
        match r {
            Some(s) => trimmed(stdout@ + stderr@).len() > 0 && s@ == "--- "@ + script_name@
                + " ---\n"@ + trimmed(stdout@ + stderr@),
            None => trimmed(stdout@ + stderr@).len() == 0,
        },
{
    let text = joined(stdout, stderr);
    let bare = trim(&text);
    if bare.as_str().is_empty() {
        return None;
    }
    let mut s = joined("--- ", script_name);
    s.append(" ---\n");
    s.append(&bare);
    Some(s)
}

/// The name of the net with this number.
pub open spec fn net_name(nets: Seq<(u32, String)>, id: u32) -> Option<Seq<char>>
    decreases nets.len(),
{
    if nets.len() == 0 {
        None
    } else if nets[0].0 == id {
        Some(nets[0].1@)
    } else {
        net_name(nets.drop_first(), id)
    }
}

/// The net with this name.
pub open spec fn net_called(nets: Seq<(u32, String)>, name: Seq<char>) -> Option<NetId>
    decreases nets.len(),
{
    if nets.len() == 0 {
        None
    } else if nets[0].1@ == name {
        Some(NetId(nets[0].0))
    } else {
        net_called(nets.drop_first(), name)
    }
}

/// A track or via on another net.
pub open spec fn rewired(item: Item, new_net: NetId) -> Item {
    match item {
        Item::Track { shape, layer, class, .. } => Item::Track {
            shape,
            net: Some(new_net),
            layer,
            class,
        },
        Item::Via { shape, drill, .. } => Item::Via { shape, drill, net: Some(new_net) },
        _ => item,
    }
}

/// What becomes of one routed item: a track or via whose net is called like a
/// requested one that is still on the board comes back on that net, anything
/// else is dropped.
pub open spec fn brought_back(
    item: Item,
    imported_nets: Seq<(u32, String)>,
    requested: Seq<Seq<char>>,
    live_nets: Seq<(u32, String)>,
) -> Option<Item> {
    match item_net(item) {
        Some(net) => match net_name(imported_nets, net.0) {
            Some(name) => match net_called(live_nets, name) {
                Some(live) => if is_wire(item) && requested.contains(name) {
                    Some(rewired(item, live))
                } else {
                    None
                },
                None => None,
            },
            None => None,
        },
        None => None,
    }
}

/// What comes back of some routed items, in order.
pub open spec fn all_brought_back(
    entries: Seq<Entry>,
    imported_nets: Seq<(u32, String)>,
    requested: Seq<Seq<char>>,
    live_nets: Seq<(u32, String)>,
) -> Seq<Item>
    decreases entries.len(),
{
    if entries.len() == 0 {
        Seq::empty()
    } else {
        let rest = all_brought_back(entries.drop_last(), imported_nets, requested, live_nets);
        match brought_back(entries.last().item, imported_nets, requested, live_nets) {
            Some(item) => rest.push(item),
            None => rest,
        }
    }
}

fn find_net_name(nets: &[(u32, String)], id: u32) -> (r: Option<usize>)
    ensures
        match r {
            Some(k) => k < nets@.len() && net_name(nets@, id) == Some(nets@[k as int].1@),
            None => net_name(nets@, id) is None,
        },
{
    let mut i: usize = 0;
    assert(nets@.skip(0) =~= nets@);
    while i < nets.len()
        invariant
            i <= nets@.len(),
            net_name(nets@, id) == net_name(nets@.skip(i as int), id),
        decreases nets@.len() - i,
    {
        assert(nets@.skip(i as int)[0] == nets@[i as int]);
        assert(nets@.skip(i as int).drop_first() =~= nets@.skip(i + 1));
        if nets[i].0 == id {
            return Some(i);
        }
        i += 1;
    }
    None
}

fn find_net_called(nets: &[(u32, String)], name: &str) -> (r: Option<NetId>)
    ensures
        r == net_called(nets@, name@),
{
    let mut i: usize = 0;
    assert(nets@.skip(0) =~= nets@);
    while i < nets.len()
        invariant
            i <= nets@.len(),
            net_called(nets@, name@) == net_called(nets@.skip(i as int), name@),
        decreases nets@.len() - i,
    {
        assert(nets@.skip(i as int)[0] == nets@[i as int]);
        assert(nets@.skip(i as int).drop_first() =~= nets@.skip(i + 1));
        if same_text(&nets[i].1, name) {
            return Some(NetId(nets[i].0));
        }
        i += 1;
    }
    None
}

/// A track or via put on another net; none for anything else.
fn remap_net(item: &Item, new_net: NetId) -> (r: Option<Item>)
    ensures
        r == if is_wire(*item) {
            Some(rewired(*item, new_net))
        } else {
            None
        },
{
    match item {
        Item::Track { shape, layer, class, .. } => Some(
            Item::Track { shape: *shape, net: Some(new_net), layer: *layer, class: *class },
        ),
        Item::Via { shape, drill, .. } => Some(
            Item::Via { shape: *shape, drill: *drill, net: Some(new_net) },
        ),
        _ => None,
    }
}

/// Brings back the routed tracks and vias of the requested nets, from the
/// router's own net numbers onto those of the live board.
pub fn filter_and_remap_routed_items(
    imported_node: &Node,
    imported_nets: &[(u32, String)],
    requested_net_names: &[String],
    live_nets: &[(u32, String)],
) -> (r: Vec<Item>)
    ensures
        r@ == all_brought_back(
            imported_node.entries@,
            imported_nets@,
            strings_in(requested_net_names@),
            live_nets@,
        ),
{
    let ghost entries = imported_node.entries@;
    let ghost wanted = strings_in(requested_net_names@);
    let mut out: Vec<Item> = Vec::new();
    let mut i: usize = 0;
    while i < imported_node.entries.len()
        invariant
            entries == imported_node.entries@,
            wanted == strings_in(requested_net_names@),
            i <= entries.len(),
            out@ == all_brought_back(
                entries.take(i as int),
                imported_nets@,
                wanted,
                live_nets@,
            ),
        decreases entries.len() - i,
    {
        assert(entries.take(i + 1).drop_last() =~= entries.take(i as int));
        assert(entries.take(i + 1).last() == entries[i as int]);
        let item = &imported_node.entries[i].item;
        match item.net() {
            Some(net) => match find_net_name(imported_nets, net.0) {
                Some(k) => {
                    let name = &imported_nets[k].1;
                    match find_net_called(live_nets, name) {
                        Some(live) => {
                            if contains_text(requested_net_names, name) {
                                match remap_net(item, live) {
                                    Some(routed) => {
                                        out.push(routed);
                                    },
                                    None => {},
                                }
                            }
                        },
                        None => {},
                    }
                },
                None => {},
            },
            None => {},
        }
        i += 1;
    }
    assert(entries.take(i as int) =~= entries);
    out
}

/// The command line of the router behind its input and output files.
pub open spec fn route_args(
    net_names: Seq<Seq<char>>,
    settings: ExternalRouterSettings,
) -> Seq<Seq<char>> {
    (if net_names.len() == 0 {
        Seq::empty()
    } else {
        seq!["--nets"@] + net_names
    }) + seq![
        "--track-width"@,
        signed_mm_text(settings.track_width as int),
        "--via-size"@,
        signed_mm_text(settings.via_diameter as int),
        "--via-drill"@,
        signed_mm_text(settings.via_drill as int),
    ] + args_in(settings.extra_args@)
}

/// The command line of the router behind its input and output files; there is
/// never a clearance in it unless the user puts one there.
pub fn route_py_args(net_names: &[String], settings: &ExternalRouterSettings) -> (r: Vec<String>)
    ensures
        strings_in(r@) == route_args(strings_in(net_names@), *settings),
{
    let mut args: Vec<String> = Vec::new();
    if net_names.len() > 0 {
        args.push("--nets".to_owned());
        let mut names: Vec<String> = copy_strings(net_names);
        let ghost copied = names@;
        args.append(&mut names);
        assert(strings_in(args@) =~= seq!["--nets"@] + strings_in(copied));
    }
    let ghost head = strings_in(args@);
    args.push("--track-width".to_owned());
    args.push(signed_mm_string(settings.track_width));
    args.push("--via-size".to_owned());
    args.push(signed_mm_string(settings.via_diameter));
    args.push("--via-drill".to_owned());
    args.push(signed_mm_string(settings.via_drill));
    assert(strings_in(args@) =~= head + seq![
        "--track-width"@,
        signed_mm_text(settings.track_width as int),
        "--via-size"@,
        signed_mm_text(settings.via_diameter as int),
        "--via-drill"@,
        signed_mm_text(settings.via_drill as int),
    ]);
    let ghost middle = args@;
    let mut extra: Vec<String> = split_args(&settings.extra_args);
    let ghost more = extra@;
    args.append(&mut extra);
    assert(strings_in(args@) =~= strings_in(middle) + strings_in(more));
    assert(head =~= if net_names@.len() == 0 {
        Seq::empty()
    } else {
        seq!["--nets"@] + strings_in(net_names@)
    });
    args
}

/// What an autoroute run came to: the copper to merge, which nets were asked
/// for and which of them got any, and what the tool's own checks said.
#[derive(Debug, Clone)]
pub struct AutorouteReport {
    pub items: Vec<Item>,
    pub requested_nets: Vec<String>,
    pub routed_nets: Vec<String>,
    pub drc_ok: Option<bool>,
    pub connected_ok: Option<bool>,
}

/// The names of the nets on the live board.
pub open spec fn live_names(live_nets: Seq<(u32, String)>) -> Seq<Seq<char>> {
    live_nets.map_values(|n: (u32, String)| n.1@)
}

/// The nets whose copper is brought back: those asked for, or every one on the
/// live board if none was named.
pub open spec fn wanted_nets(
    net_names: Seq<Seq<char>>,
    live_nets: Seq<(u32, String)>,
) -> Seq<Seq<char>> {
    if net_names.len() == 0 {
        live_names(live_nets)
    } else {
        net_names
    }
}

/// Some item is on this net.
pub open spec fn got_copper(items: Seq<Item>, net: Option<NetId>) -> bool {
    net is Some && exists|i: int| 0 <= i < items.len() && item_net(#[trigger] items[i]) == net
}

/// Those of some nets that got any copper.
pub open spec fn nets_with_copper(
    names: Seq<Seq<char>>,
    live_nets: Seq<(u32, String)>,
    items: Seq<Item>,
) -> Seq<Seq<char>>
    decreases names.len(),
{
    if names.len() == 0 {
        Seq::empty()
    } else {
        let rest = nets_with_copper(names.drop_last(), live_nets, items);
        if got_copper(items, net_called(live_nets, names.last())) {
            rest.push(names.last())
        } else {
            rest
        }
    }
}

fn has_copper(items: &[Item], net: Option<NetId>) -> (r: bool)
    ensures
        r == got_copper(items@, net),
{
    if net.is_none() {
        return false;
    }
    let mut i: usize = 0;
    while i < items.len()
        invariant
            i <= items@.len(),
            net is Some,
            forall|k: int| 0 <= k < i ==> item_net(#[trigger] items@[k]) != net,
        decreases items@.len() - i,
    {
        if items[i].net() == net {
            assert(item_net(items@[i as int]) == net);
            return true;
        }
        i += 1;
    }
    false
}

/// Draws up the report of a run from what the router wrote.
pub fn autoroute_report(
    imported_node: &Node,
    imported_nets: &[(u32, String)],
    live_nets: &[(u32, String)],
    net_names: &[String],
    drc_ok: Option<bool>,
    connected_ok: Option<bool>,
) -> (r: AutorouteReport)
    ensures
        r.items@ == all_brought_back(
            imported_node.entries@,
            imported_nets@,
            wanted_nets(strings_in(net_names@), live_nets@),
            live_nets@,
        ),
        strings_in(r.requested_nets@) == strings_in(net_names@),
        strings_in(r.routed_nets@) == nets_with_copper(
            wanted_nets(strings_in(net_names@), live_nets@),
            live_nets@,
            r.items@,
        ),
        r.drc_ok == drc_ok,
        r.connected_ok == connected_ok,
{
    let wanted: Vec<String> = if net_names.len() == 0 {
        names_of(live_nets)
    } else {
        copy_strings(net_names)
    };
    assert(strings_in(wanted@) =~= wanted_nets(strings_in(net_names@), live_nets@));
    let items: Vec<Item> = filter_and_remap_routed_items(
        imported_node,
        imported_nets,
        &wanted,
        live_nets,
    );
    let ghost names = strings_in(wanted@);
    let mut routed_nets: Vec<String> = Vec::new();
    let mut i: usize = 0;
    assert(strings_in(routed_nets@) =~= nets_with_copper(names.take(0), live_nets@, items@));
    while i < wanted.len()
        invariant
            i <= wanted@.len(),
            names == strings_in(wanted@),
            strings_in(routed_nets@) == nets_with_copper(
                names.take(i as int),
                live_nets@,
                items@,
            ),
        decreases wanted@.len() - i,
    {
        assert(names.take(i + 1).drop_last() =~= names.take(i as int));
        assert(names.take(i + 1).last() == names[i as int]);
        if has_copper(&items, find_net_called(live_nets, &wanted[i])) {
            let ghost before = routed_nets@;
            routed_nets.push(wanted[i].clone());
            assert(strings_in(routed_nets@) =~= strings_in(before).push(names[i as int]));
        }
        i += 1;
    }
    assert(names.take(i as int) =~= names);
    AutorouteReport {
        items,
        requested_nets: copy_strings(net_names),
        routed_nets,
        drc_ok,
        connected_ok,
    }
}

fn names_of(nets: &[(u32, String)]) -> (r: Vec<String>)
    ensures
        strings_in(r@) == live_names(nets@),
{
    let mut r: Vec<String> = Vec::new();
    let mut i: usize = 0;
    while i < nets.len()
        invariant
            i <= nets@.len(),
            r@.len() == i,
            forall|k: int| #![trigger r@[k]] 0 <= k < i ==> r@[k]@ == nets@[k].1@,
        decreases nets@.len() - i,
    {
        r.push(nets[i].1.clone());
        i += 1;
    }
    assert(strings_in(r@) =~= live_names(nets@));
    r
}

/// No clearance ever reaches the router's command line, unless a net is called
/// like that flag or the user's own extra arguments hold it.
pub proof fn law_route_args_hold_no_clearance(
    net_names: Seq<Seq<char>>,
    settings: ExternalRouterSettings,
)
    requires
        !net_names.contains("--clearance"@),
        !args_in(settings.extra_args@).contains("--clearance"@),
    ensures
        !route_args(net_names, settings).contains("--clearance"@),
{
    reveal_strlit("--clearance");
    reveal_strlit("--nets");
    reveal_strlit("--track-width");
    reveal_strlit("--via-size");
    reveal_strlit("--via-drill");
    let args = route_args(net_names, settings);
    let flag = "--clearance"@;
    assert(flag[0] == '-' && flag[1] == '-');
    lemma_signed_mm_text_is_no_flag(settings.track_width as int);
    lemma_signed_mm_text_is_no_flag(settings.via_diameter as int);
    lemma_signed_mm_text_is_no_flag(settings.via_drill as int);
    if args.contains(flag) {
        let k = choose|k: int| 0 <= k < args.len() && args[k] == flag;
        let head = if net_names.len() == 0 {
            0
        } else {
            1 + net_names.len() as int
        };
        if k < head {
            if k == 0 {
                assert("--nets"@.len() == 6 && flag.len() == 11);
            } else {
                assert(args[k] == net_names[k - 1]);
            }
        } else if k < head + 6 {
            let m = k - head;
            assert("--track-width"@.len() == 13);
            assert("--via-size"@.len() == 10);
            assert("--via-drill"@[2] == 'v' && flag[2] == 'c');
            assert(m == 0 ==> args[k] == "--track-width"@);
            assert(m == 1 ==> args[k] == signed_mm_text(settings.track_width as int));
            assert(m == 2 ==> args[k] == "--via-size"@);
            assert(m == 3 ==> args[k] == signed_mm_text(settings.via_diameter as int));
            assert(m == 4 ==> args[k] == "--via-drill"@);
            assert(m == 5 ==> args[k] == signed_mm_text(settings.via_drill as int));
        } else {
            assert(args[k] == args_in(settings.extra_args@)[k - head - 6]);
        }
    }
}

proof fn lemma_signed_mm_text_is_no_flag(nm: int)
    ensures
        signed_mm_text(nm).len() > 0,
        signed_mm_text(nm)[0] != '-' || signed_mm_text(nm).len() > 1 && signed_mm_text(nm)[1]
            != '-',
{
    if nm < 0 {
        lemma_mm_text_starts_with_digit((-nm) as nat);
    } else {
        lemma_mm_text_starts_with_digit(nm as nat);
    }
}

proof fn lemma_mm_text_starts_with_digit(nm: nat)
    ensures
        mm_text(nm).len() > 0,
        mm_text(nm)[0] != '-',
{
    lemma_decimal_starts_with_digit(nm / 1_000_000);
}

proof fn lemma_decimal_starts_with_digit(n: nat)
    ensures
        decimal(n).len() > 0,
        decimal(n)[0] != '-',
    decreases n,
{
    if n >= 10 {
        lemma_decimal_starts_with_digit(n / 10);
    }
}

/// Text in quotes is one argument, blanks and all.
pub proof fn law_quoted_text_is_one_argument(text: Seq<char>)
    requires
        !text.contains('"'),
    ensures
        args_in(seq!['"'] + text + seq!['"']) == seq![text],
{
    let s = seq!['"'] + text + seq!['"'];
    assert(s[0] == '"');
    assert(s.drop_first() =~= text + seq!['"']);
    lemma_inside_quotes(text, Seq::empty());
    assert(Seq::<char>::empty() + text =~= text);
}

proof fn lemma_inside_quotes(text: Seq<char>, current: Seq<char>)
    requires
        !text.contains('"'),
    ensures
        args_from(text + seq!['"'], current, true, Some('"')) == seq![current + text],
    decreases text.len(),
{
    let s = text + seq!['"'];
    if text.len() == 0 {
        assert(s[0] == '"');
        assert(s.drop_first() =~= Seq::<char>::empty());
        assert(args_from(s.drop_first(), current, true, None) == seq![current]);
        assert(current + text =~= current);
    } else {
        assert(s[0] == text[0]);
        assert(text.contains(text[0]));
        assert(s.drop_first() =~= text.drop_first() + seq!['"']);
        assert(!text.drop_first().contains('"')) by {
            if text.drop_first().contains('"') {
                let rest = text.drop_first();
                let k = choose|k: int| 0 <= k < rest.len() && rest[k] == '"';
                assert(text[k + 1] == '"');
            }
        }
        lemma_inside_quotes(text.drop_first(), current.push(text[0]));
        assert(current.push(text[0]) + text.drop_first() =~= current + text);
    }
}

/// Everything that comes back from a run is a track or via on a net of the
/// live board.
pub proof fn law_only_live_wires_come_back(
    entries: Seq<Entry>,
    imported_nets: Seq<(u32, String)>,
    requested: Seq<Seq<char>>,
    live_nets: Seq<(u32, String)>,
    i: int,
)
    requires
        0 <= i < all_brought_back(entries, imported_nets, requested, live_nets).len(),
    ensures
        ({
            let item = all_brought_back(entries, imported_nets, requested, live_nets)[i];
            is_wire(item) && exists|name: Seq<char>|
                requested.contains(name) && #[trigger] net_called(live_nets, name) is Some
                    && item_net(item) == net_called(live_nets, name)
        }),
    decreases entries.len(),
{
    let rest = all_brought_back(entries.drop_last(), imported_nets, requested, live_nets);
    if i < rest.len() {
        law_only_live_wires_come_back(
            entries.drop_last(),
            imported_nets,
            requested,
            live_nets,
            i,
        );
    } else {
        let item = entries.last().item;
        let name = net_name(imported_nets, (item_net(item)->0).0)->0;
        assert(net_called(live_nets, name) is Some);
    }
}

} // verus!
