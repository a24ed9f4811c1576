//! Placement for floorplanning tools: probing a pose, and placing or moving
//! several parts at once.

use vstd::prelude::*;

use crate::board_doc::{BoardDoc, FootprintId, PlacedFootprint};
use crate::footprint::FootprintTemplate;
use crate::geom::{Angle, Point, Unit};
use crate::parts::{find_template, part_at, part_named, template_named};
use crate::text::{joined, pairs_of};

verus! {

/// How many parts one call may place or move.
pub const MAX_BATCH_PARTS: usize = 50;

/// The farthest that a legal pose is searched for.
pub const MAX_SEARCH_RADIUS: Unit = 10_000_000;

/// The smallest step of a search.
pub const MIN_SEARCH_STEP: Unit = 250_000;

/// The step of a search that names none.
pub const DEFAULT_SEARCH_STEP: Unit = 500_000;

/// A pose to try: of a new part by its template, or of a part on the board by
/// its reference. A reference wins over a template.
#[derive(Debug, Clone)]
pub struct ProbePlacementArgs {
    pub template: Option<String>,
    pub reference: Option<String>,
    pub position: Point,
    pub rotation_deg: Option<Angle>,
    pub search_radius: Option<Unit>,
    pub search_step: Option<Unit>,
}

/// A new part of a batch, with the net of each of its named pins.
#[derive(Debug)]
pub struct PlacePartSpec {
    pub template: String,
    pub position: Point,
    pub rotation_deg: Option<Angle>,
    pub pins: Option<Vec<(String, String)>>,
}

/// A move of a batch.
#[derive(Debug, Clone)]
pub struct MovePartSpec {
    pub reference: String,
    pub position: Point,
    pub rotation_deg: Option<Angle>,
}

/// The part that a probe is about.
#[derive(Debug, Clone, Copy, PartialEq, Eq, Structural)]
pub struct ProbeTarget {
    /// The template's place in the parts library.
    pub template: usize,
    /// The part that would move.
    pub moving: Option<FootprintId>,
    pub rotation_deg: Angle,
}

/// The message that no part has a reference.
pub open spec fn no_reference(reference: Seq<char>) -> Seq<char> {
    "no footprint with reference \""@ + reference + "\" on the board"@
}

/// The message that the template of a part is gone.
pub open spec fn lost_template(reference: Seq<char>, template: Seq<char>) -> Seq<char> {
    reference + "'s template \""@ + template + "\" is missing from the parts library"@
}

/// The message that no template has a name.
pub open spec fn no_template(name: Seq<char>) -> Seq<char> {
    "no template named \""@ + name
        + "\" in the parts library -- call list_parts for the exact names"@
}

fn no_reference_message(reference: &str) -> (s: String)
    ensures
        s@ == no_reference(reference@),
{
    joined(&joined("no footprint with reference \"", reference), "\" on the board")
}

fn lost_template_message(reference: &str, template: &str) -> (s: String)
    ensures
        s@ == lost_template(reference@, template@),
{
    joined(
        &joined(&joined(reference, "'s template \""), template),
        "\" is missing from the parts library",
    )
}

fn no_template_message(name: &str) -> (s: String)
    ensures
        s@ == no_template(name@),
{
    joined(
        &joined("no template named \"", name),
        "\" in the parts library -- call list_parts for the exact names",
    )
}

/// The rotation that was asked for, or the one to keep.
pub open spec fn rotation_or(asked: Option<Angle>, kept: Angle) -> Angle {
    match asked {
        Some(angle) => angle,
        None => kept,
    }
}

fn rotation_for(asked: Option<Angle>, kept: Angle) -> (r: Angle)
    ensures
        r == rotation_or(asked, kept),
{
    match asked {
        Some(angle) => angle,
        None => kept,
    }
}

/// A part on the board by its reference, with the place of its template.
pub open spec fn known_part(
    parts: Seq<PlacedFootprint>,
    templates: Seq<FootprintTemplate>,
    reference: Seq<char>,
) -> Result<(int, int), Seq<char>> {
    match part_named(parts, reference) {
        Some(k) => match template_named(templates, parts[k].template_name@) {
            Some(t) => Ok((k, t)),
            None => Err(lost_template(reference, parts[k].template_name@)),
        },
        None => Err(no_reference(reference)),
    }
}

/// Finds a part by its reference, and its template.
fn find_part(doc: &BoardDoc, templates: &[FootprintTemplate], reference: &str) -> (r: Result<
    (usize, usize),
    String,
>)
    ensures
        match r {
            Ok(found) => found.0 < doc.footprints@.len() && found.1 < templates@.len()
                && known_part(doc.footprints@, templates@, reference@) == Ok::<
                (int, int),
                Seq<char>,
            >((found.0 as int, found.1 as int)),
            Err(e) => known_part(doc.footprints@, templates@, reference@) == Err::<
                (int, int),
                Seq<char>,
            >(e@),
        },
{
    match doc.reference_index(reference) {
        Some(k) => match find_template(templates, &doc.footprints[k].template_name) {
            Some(t) => Ok((k, t)),
            None => Err(lost_template_message(reference, &doc.footprints[k].template_name)),
        },
        None => Err(no_reference_message(reference)),
    }
}

/// The part that a probe is about, or why there is none.
pub open spec fn probe_target(
    parts: Seq<PlacedFootprint>,
    templates: Seq<FootprintTemplate>,
    args: ProbePlacementArgs,
) -> Result<ProbeTarget, Seq<char>> {
    match (args.reference, args.template) {
        (Some(reference), _) => match known_part(parts, templates, reference@) {
            Ok((k, t)) => Ok(
                ProbeTarget {
                    template: t as usize,
                    moving: Some(parts[k].id),
                    rotation_deg: rotation_or(args.rotation_deg, parts[k].rotation_deg),
                },
            ),
            Err(e) => Err(e),
        },
        (None, Some(name)) => match template_named(templates, name@) {
            Some(t) => Ok(
                ProbeTarget {
                    template: t as usize,
                    moving: None,
                    rotation_deg: rotation_or(args.rotation_deg, Angle { bits: 0 }),
                },
            ),
            None => Err(no_template(name@)),
        },
        (None, None) => Err(
            "pass template=\"...\" to probe a new place, or reference=\"R1\" to probe a move"@,
        ),
    }
}

/// Finds the part that a probe is about.
pub fn resolve_probe(doc: &BoardDoc, templates: &[FootprintTemplate], args: &ProbePlacementArgs) -> (r:
    Result<ProbeTarget, String>)
    ensures
        match r {
            Ok(target) => probe_target(doc.footprints@, templates@, *args) == Ok::<
                ProbeTarget,
                Seq<char>,
            >(target) && target.template < templates@.len(),
            Err(e) => probe_target(doc.footprints@, templates@, *args) == Err::<
                ProbeTarget,
                Seq<char>,
            >(e@),
        },
{
    match &args.reference {
        Some(reference) => match find_part(doc, templates, reference) {
            Ok((k, t)) => Ok(
                ProbeTarget {
                    template: t,
                    moving: Some(doc.footprints[k].id),
                    rotation_deg: rotation_for(args.rotation_deg, doc.footprints[k].rotation_deg),
                },
            ),
            Err(e) => Err(e),
        },
        None => match &args.template {
            Some(name) => match find_template(templates, name) {
                Some(t) => Ok(
                    ProbeTarget {
                        template: t,
                        moving: None,
                        rotation_deg: rotation_for(args.rotation_deg, Angle { bits: 0 }),
                    },
                ),
                None => Err(no_template_message(name)),
            },
            None => Err(
                "pass template=\"...\" to probe a new place, or reference=\"R1\" to probe a move".to_owned(),
            ),
        },
    }
}

/// How far and in which steps a probe searches.
#[derive(Debug, Clone, Copy, PartialEq, Eq, Structural)]
pub struct Search {
    pub radius: Option<Unit>,
    pub step: Option<Unit>,
}

/// How far and in which steps a probe searches: within ten millimetres, in
/// steps of a quarter of a millimetre or more, half a millimetre if none is
/// named.
pub open spec fn search_for(radius: Option<Unit>, step: Option<Unit>) -> Search {
    Search {
        radius: match radius {
            Some(r) => Some(
                if r < 0 {
                    0
                } else if r > MAX_SEARCH_RADIUS {
                    MAX_SEARCH_RADIUS
                } else {
                    r
                },
            ),
            None => None,
        },
        step: match (step, radius) {
            (Some(s), _) => Some(
                if s < MIN_SEARCH_STEP {
                    MIN_SEARCH_STEP
                } else {
                    s
                },
            ),
            (None, Some(_)) => Some(DEFAULT_SEARCH_STEP),
            (None, None) => None,
        },
    }
}

/// How far and in which steps a probe searches.
pub fn search_limits(radius: Option<Unit>, step: Option<Unit>) -> (r: Search)
    ensures
        r == search_for(radius, step),
{
    let near: Option<Unit> = match radius {
        Some(r) => Some(
            if r < 0 {
                0
            } else if r > MAX_SEARCH_RADIUS {
                MAX_SEARCH_RADIUS
            } else {
                r
            },
        ),
        None => None,
    };
    let stride: Option<Unit> = match step {
        Some(s) => Some(
            if s < MIN_SEARCH_STEP {
                MIN_SEARCH_STEP
            } else {
                s
            },
        ),
        None => match radius {
            Some(_) => Some(DEFAULT_SEARCH_STEP),
            None => None,
        },
    };
    Search { radius: near, step: stride }
}

/// The answer to a probe.
#[derive(Debug)]
pub struct ProbeReply {
    /// Whether some pose is legal.
    pub legal: bool,
    pub position: Point,
    pub rotation_deg: Angle,
    /// Whether the requested pose is legal.
    pub requested_legal: bool,
    /// Whether the pose is another one than the requested.
    pub suggested: bool,
    /// Why no pose is legal.
    pub reason: Option<String>,
    /// Why the requested pose is not legal.
    pub requested_reason: Option<String>,
}

/// Answers a probe: `requested_legal` says whether the requested pose is
/// legal, `found` is the legal pose that the search came to or why there is
/// none.
pub fn probe_reply(
    requested: Point,
    rotation_deg: Angle,
    requested_legal: bool,
    found: Result<(Point, Angle), String>,
) -> (r: ProbeReply)
    ensures
        match found {
            Ok((position, turned)) => {
                &&& r.legal
                &&& r.position == position
                &&& r.rotation_deg == turned
                &&& r.requested_legal == requested_legal
                &&& r.suggested == !requested_legal
                &&& r.reason is None
                &&& r.requested_reason is Some == !requested_legal
                &&& !requested_legal ==> r.requested_reason->0@
                    == "requested pose is illegal; suggested is the nearest legal within search_radius_mm"@
            },
            Err(e) => {
                &&& !r.legal
                &&& r.position == requested
                &&& r.rotation_deg == rotation_deg
                &&& !r.requested_legal
                &&& !r.suggested
                &&& r.reason is Some && r.reason->0@ == e@
                &&& r.requested_reason is Some && r.requested_reason->0@ == e@
            },
        },
{
    match found {
        Ok((position, turned)) => ProbeReply {
            legal: true,
            position,
            rotation_deg: turned,
            requested_legal,
            suggested: !requested_legal,
            reason: None,
            requested_reason: if requested_legal {
                None
            } else {
                Some(
                    "requested pose is illegal; suggested is the nearest legal within search_radius_mm".to_owned(),
                )
            },
        },
        Err(e) => ProbeReply {
            legal: false,
            position: requested,
            rotation_deg,
            requested_legal: false,
            suggested: false,
            reason: Some(e.clone()),
            requested_reason: Some(e),
        },
    }
}

/// Why a batch of this size is refused.
pub open spec fn size_problem(count: nat) -> Option<Seq<char>> {
    if count == 0 {
        Some("parts must contain at least one entry"@)
    } else if count > MAX_BATCH_PARTS {
        Some("parts is capped at 50 entries per call"@)
    } else {
        None
    }
}

fn check_size(count: usize) -> (r: Result<(), String>)
    ensures
        match r {
            Ok(_) => size_problem(count as nat) is None,
            Err(e) => size_problem(count as nat) == Some(e@),
        },
{
    if count == 0 {
        Err("parts must contain at least one entry".to_owned())
    } else if count > MAX_BATCH_PARTS {
        Err("parts is capped at 50 entries per call".to_owned())
    } else {
        Ok(())
    }
}

/// A new part of a batch, found in the parts library, with the net of each of
/// its named pins.
#[derive(Debug)]
pub struct PlaceStep {
    pub template: usize,
    pub position: Point,
    pub rotation_deg: Angle,
    pub pins: Vec<(String, String)>,
}

/// The first part of a batch whose template nobody knows.
pub open spec fn first_unknown(templates: Seq<FootprintTemplate>, parts: Seq<PlacePartSpec>) -> Option<
    Seq<char>,
>
    decreases parts.len(),
{
    if parts.len() == 0 {
        None
    } else {
        match first_unknown(templates, parts.drop_last()) {
            Some(name) => Some(name),
            None => if template_named(templates, parts.last().template@) is None {
                Some(parts.last().template@)
            } else {
                None
            },
        }
    }
}

/// Why a batch of new parts is refused before anything is placed.
pub open spec fn place_problem(templates: Seq<FootprintTemplate>, parts: Seq<PlacePartSpec>) -> Option<
    Seq<char>,
> {
    match size_problem(parts.len()) {
        Some(problem) => Some(problem),
        None => match first_unknown(templates, parts) {
            Some(name) => Some(no_template(name)),
            None => None,
        },
    }
}

/// The pins that a part of a batch names, each with its net.
pub open spec fn named_pins(part: PlacePartSpec) -> Seq<(Seq<char>, Seq<char>)> {
    match part.pins {
        Some(pins) => pairs_of(pins@),
        None => Seq::empty(),
    }
}

/// Whether `step` is what is to be placed for a part of a batch.
pub open spec fn is_place_step(
    step: PlaceStep,
    templates: Seq<FootprintTemplate>,
    part: PlacePartSpec,
) -> bool {
    &&& template_named(templates, part.template@) == Some(step.template as int)
    &&& step.template < templates.len()
    &&& step.position == part.position
    &&& step.rotation_deg == rotation_or(part.rotation_deg, Angle { bits: 0 })
    &&& pairs_of(step.pins@) == named_pins(part)
}

proof fn lemma_unknown_stays(templates: Seq<FootprintTemplate>, parts: Seq<PlacePartSpec>, k: int)
    requires
        0 <= k <= parts.len(),
        first_unknown(templates, parts.take(k)) is Some,
    ensures
        first_unknown(templates, parts) == first_unknown(templates, parts.take(k)),
    decreases parts.len() - k,
{
    if k < parts.len() {
        assert(parts.take(k + 1).drop_last() =~= parts.take(k));
        lemma_unknown_stays(templates, parts, k + 1);
    } else {
        assert(parts.take(k) =~= parts);
    }
}

/// Finds the templates of a batch of new parts, and hands their pin maps on.
/// Nothing is placed unless every template is known.
pub fn resolve_place_parts(templates: &[FootprintTemplate], parts: &[PlacePartSpec]) -> (r: Result<
    Vec<PlaceStep>,
    String,
>)
    ensures
        match r {
            Ok(steps) => {
                &&& place_problem(templates@, parts@) is None
                &&& steps@.len() == parts@.len()
                &&& forall|i: int|
                    #![trigger steps@[i]]
                    0 <= i < steps@.len() ==> is_place_step(steps@[i], templates@, parts@[i])
            },
            Err(e) => place_problem(templates@, parts@) == Some(e@),
        },
{
    match check_size(parts.len()) {
        Ok(_) => {},
        Err(e) => {
            return Err(e);
        },
    }
    let mut steps: Vec<PlaceStep> = Vec::new();
    let mut i: usize = 0;
    while i < parts.len()
        invariant
            i <= parts@.len(),
            size_problem(parts@.len()) is None,
            first_unknown(templates@, parts@.take(i as int)) is None,
            steps@.len() == i,
            forall|k: int|
                #![trigger steps@[k]]
                0 <= k < i ==> is_place_step(steps@[k], templates@, parts@[k]),
        decreases parts@.len() - i,
    {
        proof {
            assert(parts@.take(i + 1).drop_last() =~= parts@.take(i as int));
            assert(parts@.take(i + 1).last() == parts@[i as int]);
        }
        match find_template(templates, &parts[i].template) {
            Some(template) => {
                let pins: Vec<(String, String)> = match &parts[i].pins {
                    Some(pins) => copy_pairs(pins),
                    None => Vec::new(),
                };
                assert(pairs_of(pins@) =~= named_pins(parts@[i as int]));
                steps.push(
                    PlaceStep {
                        template,
                        position: parts[i].position,
                        rotation_deg: rotation_for(parts[i].rotation_deg, Angle { bits: 0 }),
                        pins,
                    },
                );
            },
            None => {
                proof {
                    lemma_unknown_stays(templates@, parts@, i + 1);
                }
                return Err(no_template_message(&parts[i].template));
            },
        }
        i += 1;
    }
    assert(parts@.take(i as int) =~= parts@);
    Ok(steps)
}

/// A part that a batch placed, with the net that each named pin was put on.
#[derive(Debug)]
pub struct PlacedPart {
    pub reference: String,
    pub template: String,
    pub position: Point,
    pub rotation_deg: Angle,
    pub nets: Option<Vec<(String, String)>>,
}

fn copy_pairs(pairs: &[(String, String)]) -> (r: Vec<(String, String)>)
    ensures
        pairs_of(r@) == pairs_of(pairs@),
{
    let mut r: Vec<(String, String)> = Vec::new();
    let mut i: usize = 0;
    while i < pairs.len()
        invariant
            i <= pairs@.len(),
            r@.len() == i,
            forall|k: int|
                #![trigger r@[k]]
                0 <= k < i ==> r@[k].0@ == pairs@[k].0@ && r@[k].1@ == pairs@[k].1@,
        decreases pairs@.len() - i,
    {
        r.push((pairs[i].0.clone(), pairs[i].1.clone()));
        i += 1;
    }
    assert(pairs_of(r@) =~= pairs_of(pairs@));
    r
}

/// Whether `entry` tells where the part with that id stands.
pub open spec fn tells_of(entry: PlacedPart, parts: Seq<PlacedFootprint>, spec_of: PlacePartSpec, id: FootprintId) -> bool {
    let fp = parts[part_at(parts, id)->0];
    &&& part_at(parts, id) is Some
    &&& entry.reference@ == fp.reference@
    &&& entry.template@ == spec_of.template@
    &&& entry.position == fp.position
    &&& entry.rotation_deg == fp.rotation_deg
    &&& entry.nets is Some <==> spec_of.pins is Some
    &&& entry.nets matches Some(nets) ==> pairs_of(nets@) == pairs_of(spec_of.pins->0@)
}

/// Tells where the parts that a batch placed stand now.
pub fn placed_parts(doc: &BoardDoc, parts: &[PlacePartSpec], ids: &[FootprintId]) -> (r: Result<
    Vec<PlacedPart>,
    String,
>)
    requires
        parts@.len() == ids@.len(),
    ensures
        match r {
            Ok(entries) => {
                &&& entries@.len() == ids@.len()
                &&& forall|i: int|
                    #![trigger entries@[i]]
                    0 <= i < ids@.len() ==> tells_of(
                        entries@[i],
                        doc.footprints@,
                        parts@[i],
                        ids@[i],
                    )
            },
            Err(e) => e@ == "internal: placed footprint missing"@ && exists|i: int|
                0 <= i < ids@.len() && part_at(doc.footprints@, #[trigger] ids@[i]) is None,
        },
{
    let mut entries: Vec<PlacedPart> = Vec::new();
    let mut i: usize = 0;
    while i < ids.len()
        invariant
            i <= ids@.len(),
            parts@.len() == ids@.len(),
            entries@.len() == i,
            forall|k: int|
                #![trigger entries@[k]]
                0 <= k < i ==> tells_of(entries@[k], doc.footprints@, parts@[k], ids@[k]),
        decreases ids@.len() - i,
    {
        match doc.footprint_index(ids[i]) {
            Some(k) => {
                let fp = &doc.footprints[k];
                let nets = match &parts[i].pins {
                    Some(pins) => Some(copy_pairs(pins)),
                    None => None,
                };
                entries.push(
                    PlacedPart {
                        reference: fp.reference.clone(),
                        template: parts[i].template.clone(),
                        position: fp.position,
                        rotation_deg: fp.rotation_deg,
                        nets,
                    },
                );
            },
            None => {
                assert(part_at(doc.footprints@, ids@[i as int]) is None);
                return Err("internal: placed footprint missing".to_owned());
            },
        }
        i += 1;
    }
    Ok(entries)
}

/// A move of a batch, found on the board and in the parts library.
#[derive(Debug, Clone, Copy, PartialEq, Eq, Structural)]
pub struct MoveStep {
    pub id: FootprintId,
    pub template: usize,
    pub position: Point,
    pub rotation_deg: Angle,
}

/// Why the first part of a batch that cannot be moved cannot.
pub open spec fn first_unmovable(
    on_board: Seq<PlacedFootprint>,
    templates: Seq<FootprintTemplate>,
    parts: Seq<MovePartSpec>,
) -> Option<Seq<char>>
    decreases parts.len(),
{
    if parts.len() == 0 {
        None
    } else {
        match first_unmovable(on_board, templates, parts.drop_last()) {
            Some(problem) => Some(problem),
            None => match known_part(on_board, templates, parts.last().reference@) {
                Ok(_) => None,
                Err(problem) => Some(problem),
            },
        }
    }
}

/// Why a batch of moves is refused before anything moves.
pub open spec fn move_problem(
    on_board: Seq<PlacedFootprint>,
    templates: Seq<FootprintTemplate>,
    parts: Seq<MovePartSpec>,
) -> Option<Seq<char>> {
    match size_problem(parts.len()) {
        Some(problem) => Some(problem),
        None => first_unmovable(on_board, templates, parts),
    }
}

/// What is to be moved for a part of a batch.
pub open spec fn move_step(
    on_board: Seq<PlacedFootprint>,
    templates: Seq<FootprintTemplate>,
    part: MovePartSpec,
) -> MoveStep {
    let (k, t) = known_part(on_board, templates, part.reference@)->Ok_0;
    MoveStep {
        id: on_board[k].id,
        template: t as usize,
        position: part.position,
        rotation_deg: rotation_or(part.rotation_deg, on_board[k].rotation_deg),
    }
}

proof fn lemma_unmovable_stays(
    on_board: Seq<PlacedFootprint>,
    templates: Seq<FootprintTemplate>,
    parts: Seq<MovePartSpec>,
    k: int,
)
    requires
        0 <= k <= parts.len(),
        first_unmovable(on_board, templates, parts.take(k)) is Some,
    ensures
        first_unmovable(on_board, templates, parts) == first_unmovable(
            on_board,
            templates,
            parts.take(k),
        ),
    decreases parts.len() - k,
{
    if k < parts.len() {
        assert(parts.take(k + 1).drop_last() =~= parts.take(k));
        lemma_unmovable_stays(on_board, templates, parts, k + 1);
    } else {
        assert(parts.take(k) =~= parts);
    }
}

/// Finds the parts of a batch of moves and their templates. Nothing moves
/// unless every one is known.
pub fn resolve_move_parts(doc: &BoardDoc, templates: &[FootprintTemplate], parts: &[MovePartSpec]) -> (r:
    Result<Vec<MoveStep>, String>)
    ensures
        match r {
            Ok(steps) => {
                &&& move_problem(doc.footprints@, templates@, parts@) is None
                &&& steps@ == parts@.map_values(
                    |part: MovePartSpec| move_step(doc.footprints@, templates@, part),
                )
                &&& forall|i: int|
                    0 <= i < steps@.len() ==> (#[trigger] steps@[i]).template < templates@.len()
            },
            Err(e) => move_problem(doc.footprints@, templates@, parts@) == Some(e@),
        },
{
    match check_size(parts.len()) {
        Ok(_) => {},
        Err(e) => {
            return Err(e);
        },
    }
    let mut steps: Vec<MoveStep> = Vec::new();
    let mut i: usize = 0;
    while i < parts.len()
        invariant
            i <= parts@.len(),
            size_problem(parts@.len()) is None,
            first_unmovable(doc.footprints@, templates@, parts@.take(i as int)) is None,
            steps@.len() == i,
            forall|k: int|
                #![trigger steps@[k]]
                0 <= k < i ==> steps@[k] == move_step(doc.footprints@, templates@, parts@[k])
                    && steps@[k].template < templates@.len(),
        decreases parts@.len() - i,
    {
        proof {
            assert(parts@.take(i + 1).drop_last() =~= parts@.take(i as int));
            assert(parts@.take(i + 1).last() == parts@[i as int]);
        }
        match find_part(doc, templates, &parts[i].reference) {
            Ok((k, template)) => {
                steps.push(
                    MoveStep {
                        id: doc.footprints[k].id,
                        template,
                        position: parts[i].position,
                        rotation_deg: rotation_for(
                            parts[i].rotation_deg,
                            doc.footprints[k].rotation_deg,
                        ),
                    },
                );
            },
            Err(e) => {
                proof {
                    lemma_unmovable_stays(doc.footprints@, templates@, parts@, i + 1);
                }
                return Err(e);
            },
        }
        i += 1;
    }
    assert(parts@.take(i as int) =~= parts@);
    assert(steps@ =~= parts@.map_values(
        |part: MovePartSpec| move_step(doc.footprints@, templates@, part),
    ));
    Ok(steps)
}

/// A part that a batch moved.
#[derive(Debug)]
pub struct MovedPart {
    pub reference: String,
    pub position: Point,
    pub rotation_deg: Angle,
}

/// Tells where the parts of a batch of moves were sent.
pub fn moved_parts(parts: &[MovePartSpec], steps: &[MoveStep]) -> (r: Vec<MovedPart>)
    requires
        parts@.len() == steps@.len(),
    ensures
        r@.len() == parts@.len(),
        forall|i: int|
            #![trigger r@[i]]
            0 <= i < r@.len() ==> r@[i].reference@ == parts@[i].reference@ && r@[i].position
                == steps@[i].position && r@[i].rotation_deg == steps@[i].rotation_deg,
{
    let mut r: Vec<MovedPart> = Vec::new();
    let mut i: usize = 0;
    while i < parts.len()
        invariant
            i <= parts@.len(),
            parts@.len() == steps@.len(),
            r@.len() == i,
            forall|k: int|
                #![trigger r@[k]]
                0 <= k < i ==> r@[k].reference@ == parts@[k].reference@ && r@[k].position
                    == steps@[k].position && r@[k].rotation_deg == steps@[k].rotation_deg,
        decreases parts@.len() - i,
    {
        r.push(
            MovedPart {
                reference: parts[i].reference.clone(),
                position: steps[i].position,
                rotation_deg: steps[i].rotation_deg,
            },
        );
        i += 1;
    }
    r
}

} // verus!
