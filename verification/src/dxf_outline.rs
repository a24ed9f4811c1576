//! Board outlines from simple DXF drawings: reading the entities, joining
//! loose segments into one closed ring, and turning a contour into a polygon.
//!
//! The numbers of a drawing stay where they are: an entity names the places of
//! its coordinates in the list of groups, and their values are only read where
//! a contour is traced.

use vstd::prelude::*;

use crate::area::{Amount, Tally};
use crate::geom::{Point, Polygon};
use crate::placement::{flag, flag_at};
use crate::text::{
    chars_of, lines_in, lines_of, parse_i32, parse_unsigned, read_int, spells, string_of, texts_of,
    trim_chars, trimmed,
};

verus! {

/// Why a drawing gives no outline.
#[derive(Debug, Clone, Copy, PartialEq, Eq, Structural)]
pub enum DxfOutlineError {
    /// There is nothing in the file.
    Empty,
    /// There is no closed contour.
    NoContour,
    /// The contour has too few points or next to no area.
    Degenerate,
}

impl DxfOutlineError {
    pub open spec fn text(self) -> Seq<char> {
        match self {
            DxfOutlineError::Empty => "DXF file is empty"@,
            DxfOutlineError::NoContour =>
                "no usable outline found -- need one closed LWPOLYLINE or a single closed ring of LINE/ARC segments"@,
            DxfOutlineError::Degenerate =>
                "outline is degenerate (too few points or zero area)"@,
        }
    }

    pub fn message(self) -> (s: String)
        ensures
            s@ == self.text(),
    {
        match self {
            DxfOutlineError::Empty => "DXF file is empty".to_owned(),
            DxfOutlineError::NoContour =>
                "no usable outline found -- need one closed LWPOLYLINE or a single closed ring of LINE/ARC segments".to_owned(),
            DxfOutlineError::Degenerate =>
                "outline is degenerate (too few points or zero area)".to_owned(),
        }
    }
}

/// One pair of a group code and its value.
#[derive(Debug, Clone)]
pub struct Group {
    pub code: i32,
    pub value: String,
}

/// The 32-bit integer that a text stands for, whitespace aside.
pub open spec fn code_of(s: Seq<char>) -> Option<i32> {
    match read_int(trimmed(s)) {
        Some(n) => if i32::MIN <= n <= i32::MAX {
            Some(n as i32)
        } else {
            None
        },
        None => None,
    }
}

/// The groups that lines of text stand for: a line with an integer is a code,
/// the line behind it the value; any other line in the place of a code is
/// skipped.
pub open spec fn groups_in(lines: Seq<Seq<char>>) -> Seq<(i32, Seq<char>)>
    decreases lines.len(),
{
    if lines.len() == 0 {
        Seq::empty()
    } else {
        match code_of(lines[0]) {
            Some(code) => if lines.len() == 1 {
                seq![(code, Seq::empty())]
            } else {
                seq![(code, lines[1])] + groups_in(lines.skip(2))
            },
            None => groups_in(lines.skip(1)),
        }
    }
}

/// What a list of groups holds.
pub open spec fn group_texts(groups: Seq<Group>) -> Seq<(i32, Seq<char>)> {
    groups.map_values(|g: Group| (g.code, g.value@))
}

/// Reads the groups of a drawing.
pub fn parse_groups(text: &str) -> (r: Vec<Group>)
    ensures
        group_texts(r@) == groups_in(lines_in(text@)),
{
    let chars: Vec<char> = chars_of(text);
    groups_of(&chars)
}

fn groups_of(chars: &[char]) -> (r: Vec<Group>)
    ensures
        group_texts(r@) == groups_in(lines_in(chars@)),
{
    let lines: Vec<Vec<char>> = lines_of(chars);
    let ghost all = texts_of(lines@);
    let mut r: Vec<Group> = Vec::new();
    let mut i: usize = 0;
    proof {
        assert(all.skip(0) =~= all);
        assert(group_texts(r@) + groups_in(all) =~= groups_in(all));
    }
    while i < lines.len()
        invariant
            all == texts_of(lines@),
            i <= lines@.len(),
            group_texts(r@) + groups_in(all.skip(i as int)) == groups_in(all),
        decreases lines@.len() - i,
    {
        let ghost rest = all.skip(i as int);
        let ghost before = r@;
        assert(rest[0] == lines@[i as int]@);
        let bare: Vec<char> = trim_chars(&lines[i]);
        match parse_i32(&bare) {
            Some(code) => {
                let last = i + 1 >= lines.len();
                let value = if last {
                    String::new()
                } else {
                    string_of(&lines[i + 1])
                };
                r.push(Group { code, value });
                proof {
                    if !last {
                        assert(rest[1] == lines@[i + 1]@);
                        assert(rest.skip(2) =~= all.skip(i + 2));
                    } else {
                        assert(all.skip(i + 1) =~= Seq::<Seq<char>>::empty());
                        assert(value@ =~= Seq::<char>::empty());
                    }
                    assert(group_texts(r@) =~= group_texts(before).push((code, value@)));
                    let tail = if last {
                        all.skip(i + 1)
                    } else {
                        all.skip(i + 2)
                    };
                    assert(groups_in(rest) =~= seq![(code, value@)] + groups_in(tail));
                    assert(group_texts(before) + (seq![(code, value@)] + groups_in(tail))
                        =~= group_texts(r@) + groups_in(tail));
                }
                i = if last {
                    i + 1
                } else {
                    i + 2
                };
            },
            None => {
                assert(rest.skip(1) =~= all.skip(i + 1));
                i += 1;
            },
        }
    }
    proof {
        assert(all.skip(i as int) =~= Seq::<Seq<char>>::empty());
        assert(group_texts(r@) + groups_in(all.skip(i as int)) =~= group_texts(r@));
    }
    r
}

/// The place of the next group with code 0 from `i` on, or the end.
pub open spec fn next_zero(groups: Seq<Group>, i: int) -> int
    decreases groups.len() - i,
{
    if i >= groups.len() || groups[i].code == 0 {
        i
    } else {
        next_zero(groups, i + 1)
    }
}

/// The last of the groups from `from` up to `to` that has this code.
pub open spec fn last_with(groups: Seq<Group>, from: int, to: int, code: i32) -> Option<int>
    decreases to - from,
{
    if to <= from {
        None
    } else if groups[to - 1].code == code {
        Some(to - 1)
    } else {
        last_with(groups, from, to - 1, code)
    }
}

/// The place of the number that the groups from `from` up to `to` give under a
/// code: that of the last such group, if it holds a number at all.
pub open spec fn number_under(
    groups: Seq<Group>,
    numeric: Seq<bool>,
    from: int,
    to: int,
    code: i32,
) -> Option<usize> {
    match last_with(groups, from, to, code) {
        Some(k) => if flag(numeric, k) {
            Some(k as usize)
        } else {
            None
        },
        None => None,
    }
}

/// A straight segment, by the places of its coordinates.
#[derive(Debug, Clone, Copy, PartialEq, Eq, Structural)]
pub struct DxfLine {
    pub x1: usize,
    pub y1: usize,
    pub x2: usize,
    pub y2: usize,
}

/// A circular arc, by the places of its centre, radius and end angles.
#[derive(Debug, Clone, Copy, PartialEq, Eq, Structural)]
pub struct DxfArc {
    pub cx: usize,
    pub cy: usize,
    pub radius: usize,
    pub start_deg: usize,
    pub end_deg: usize,
}

/// A vertex of a polyline, by the places of its coordinates and of the bulge
/// of the leg that starts there.
#[derive(Debug, Clone, Copy, PartialEq, Eq, Structural)]
pub struct Vertex {
    pub x: usize,
    pub y: usize,
    pub bulge: Option<usize>,
}

/// A polyline; `closed` is its flag.
#[derive(Debug, Clone)]
pub struct LwPolyline {
    pub verts: Vec<Vertex>,
    pub closed: bool,
}

/// The segment that the groups from `from` up to `to` describe.
pub open spec fn line_in(
    groups: Seq<Group>,
    numeric: Seq<bool>,
    from: int,
    to: int,
) -> Option<DxfLine> {
    match (
        number_under(groups, numeric, from, to, 10),
        number_under(groups, numeric, from, to, 20),
        number_under(groups, numeric, from, to, 11),
        number_under(groups, numeric, from, to, 21),
    ) {
        (Some(x1), Some(y1), Some(x2), Some(y2)) => Some(DxfLine { x1, y1, x2, y2 }),
        _ => None,
    }
}

/// The arc that the groups from `from` up to `to` describe; its radius has to
/// be positive.
pub open spec fn arc_in(
    groups: Seq<Group>,
    numeric: Seq<bool>,
    positive: Seq<bool>,
    from: int,
    to: int,
) -> Option<DxfArc> {
    match (
        number_under(groups, numeric, from, to, 10),
        number_under(groups, numeric, from, to, 20),
        number_under(groups, numeric, from, to, 40),
        number_under(groups, numeric, from, to, 50),
        number_under(groups, numeric, from, to, 51),
    ) {
        (Some(cx), Some(cy), Some(radius), Some(start_deg), Some(end_deg)) => if flag(
            positive,
            radius as int,
        ) {
            Some(DxfArc { cx, cy, radius, start_deg, end_deg })
        } else {
            None
        },
        _ => None,
    }
}

/// The x coordinate that waits for its y coordinate at place `to`.
pub open spec fn pending_x(
    groups: Seq<Group>,
    numeric: Seq<bool>,
    from: int,
    to: int,
) -> Option<usize>
    decreases to - from,
{
    if to <= from {
        None
    } else if groups[to - 1].code == 10 {
        if flag(numeric, to - 1) {
            Some((to - 1) as usize)
        } else {
            None
        }
    } else if groups[to - 1].code == 20 {
        None
    } else {
        pending_x(groups, numeric, from, to - 1)
    }
}

/// The vertices that the groups from `from` up to `to` describe: a vertex for
/// every pair of coordinates, a bulge for the vertex before it.
pub open spec fn verts_in(
    groups: Seq<Group>,
    numeric: Seq<bool>,
    from: int,
    to: int,
) -> Seq<Vertex>
    decreases to - from,
{
    if to <= from {
        Seq::empty()
    } else {
        let rest = verts_in(groups, numeric, from, to - 1);
        let code = groups[to - 1].code;
        if code == 20 && flag(numeric, to - 1) {
            match pending_x(groups, numeric, from, to - 1) {
                Some(x) => rest.push(Vertex { x, y: (to - 1) as usize, bulge: None }),
                None => rest,
            }
        } else if code == 42 && flag(numeric, to - 1) && rest.len() > 0 {
            rest.update(
                rest.len() - 1,
                Vertex { bulge: Some((to - 1) as usize), ..rest.last() },
            )
        } else {
            rest
        }
    }
}

/// The closed flag that the groups from `from` up to `to` give.
pub open spec fn closed_in(groups: Seq<Group>, from: int, to: int) -> bool
    decreases to - from,
{
    if to <= from {
        false
    } else {
        match code_of(groups[to - 1].value@) {
            Some(flags) => if groups[to - 1].code == 70 {
                flags % 2 != 0
            } else {
                closed_in(groups, from, to - 1)
            },
            None => closed_in(groups, from, to - 1),
        }
    }
}

/// The vertex count that a polyline announces, if it announces one.
pub open spec fn hint_in(groups: Seq<Group>, from: int, to: int) -> Option<int> {
    match last_with(groups, from, to, 90) {
        Some(k) => match read_int(trimmed(groups[k].value@)) {
            Some(n) => if trimmed(groups[k].value@)[0] != '-' && n <= usize::MAX {
                Some(n)
            } else {
                None
            },
            None => None,
        },
        None => None,
    }
}

/// The vertices of a polyline, cut down to the announced count.
pub open spec fn polyline_in(
    groups: Seq<Group>,
    numeric: Seq<bool>,
    from: int,
    to: int,
) -> (Seq<Vertex>, bool) {
    let verts = verts_in(groups, numeric, from, to);
    let kept = match hint_in(groups, from, to) {
        Some(n) => if verts.len() > n {
            verts.take(n)
        } else {
            verts
        },
        None => verts,
    };
    (kept, closed_in(groups, from, to))
}

/// An entity of this name starts with group `i`.
pub open spec fn starts(groups: Seq<Group>, i: int, name: Seq<char>) -> bool {
    groups[i].code == 0 && trimmed(groups[i].value@) == name
}

/// The segments among the first `n` groups.
pub open spec fn lines_upto(groups: Seq<Group>, numeric: Seq<bool>, n: int) -> Seq<DxfLine>
    decreases n,
{
    if n <= 0 {
        Seq::empty()
    } else {
        let rest = lines_upto(groups, numeric, n - 1);
        match line_in(groups, numeric, n, next_zero(groups, n)) {
            Some(line) => if starts(groups, n - 1, "LINE"@) {
                rest.push(line)
            } else {
                rest
            },
            None => rest,
        }
    }
}

/// The arcs among the first `n` groups.
pub open spec fn arcs_upto(
    groups: Seq<Group>,
    numeric: Seq<bool>,
    positive: Seq<bool>,
    n: int,
) -> Seq<DxfArc>
    decreases n,
{
    if n <= 0 {
        Seq::empty()
    } else {
        let rest = arcs_upto(groups, numeric, positive, n - 1);
        match arc_in(groups, numeric, positive, n, next_zero(groups, n)) {
            Some(arc) => if starts(groups, n - 1, "ARC"@) {
                rest.push(arc)
            } else {
                rest
            },
            None => rest,
        }
    }
}

/// The polylines with any vertex among the first `n` groups.
pub open spec fn polylines_upto(
    groups: Seq<Group>,
    numeric: Seq<bool>,
    n: int,
) -> Seq<(Seq<Vertex>, bool)>
    decreases n,
{
    if n <= 0 {
        Seq::empty()
    } else {
        let rest = polylines_upto(groups, numeric, n - 1);
        let polyline = polyline_in(groups, numeric, n, next_zero(groups, n));
        if starts(groups, n - 1, "LWPOLYLINE"@) && polyline.0.len() > 0 {
            rest.push(polyline)
        } else {
            rest
        }
    }
}

/// What a list of polylines holds.
pub open spec fn polyline_models(polylines: Seq<LwPolyline>) -> Seq<(Seq<Vertex>, bool)> {
    polylines.map_values(|p: LwPolyline| (p.verts@, p.closed))
}

fn end_of_entity(groups: &[Group], from: usize) -> (to: usize)
    requires
        from <= groups@.len(),
    ensures
        to == next_zero(groups@, from as int),
        from <= to <= groups@.len(),
{
    let mut i: usize = from;
    while i < groups.len() && groups[i].code != 0
        invariant
            from <= i <= groups@.len(),
            next_zero(groups@, from as int) == next_zero(groups@, i as int),
        decreases groups@.len() - i,
    {
        i += 1;
    }
    i
}

fn find_number(
    groups: &[Group],
    numeric: &[bool],
    from: usize,
    to: usize,
    code: i32,
) -> (r: Option<usize>)
    requires
        from <= to <= groups@.len(),
    ensures
        r == number_under(groups@, numeric@, from as int, to as int, code),
{
    match find_last(groups, from, to, code) {
        Some(k) => if flag_at(numeric, k) {
            Some(k)
        } else {
            None
        },
        None => None,
    }
}

fn find_last(groups: &[Group], from: usize, to: usize, code: i32) -> (r: Option<usize>)
    requires
        from <= to <= groups@.len(),
    ensures
        match r {
            Some(k) => last_with(groups@, from as int, to as int, code) == Some(k as int) && from
                <= k < to,
            None => last_with(groups@, from as int, to as int, code) is None,
        },
{
    let mut i: usize = to;
    while i > from
        invariant
            from <= i <= to <= groups@.len(),
            last_with(groups@, from as int, to as int, code) == last_with(
                groups@,
                from as int,
                i as int,
                code,
            ),
        decreases i,
    {
        i -= 1;
        if groups[i].code == code {
            return Some(i);
        }
    }
    None
}

/// Reads one straight segment.
pub fn read_line(groups: &[Group], numeric: &[bool], from: usize, to: usize) -> (r: Option<DxfLine>)
    requires
        from <= to <= groups@.len(),
    ensures
        r == line_in(groups@, numeric@, from as int, to as int),
{
    let x1 = find_number(groups, numeric, from, to, 10);
    let y1 = find_number(groups, numeric, from, to, 20);
    let x2 = find_number(groups, numeric, from, to, 11);
    let y2 = find_number(groups, numeric, from, to, 21);
    match (x1, y1, x2, y2) {
        (Some(x1), Some(y1), Some(x2), Some(y2)) => Some(DxfLine { x1, y1, x2, y2 }),
        _ => None,
    }
}

/// Reads one arc.
pub fn read_arc(
    groups: &[Group],
    numeric: &[bool],
    positive: &[bool],
    from: usize,
    to: usize,
) -> (r: Option<DxfArc>)
    requires
        from <= to <= groups@.len(),
    ensures
        r == arc_in(groups@, numeric@, positive@, from as int, to as int),
{
    let cx = find_number(groups, numeric, from, to, 10);
    let cy = find_number(groups, numeric, from, to, 20);
    let radius = find_number(groups, numeric, from, to, 40);
    let start = find_number(groups, numeric, from, to, 50);
    let end = find_number(groups, numeric, from, to, 51);
    match (cx, cy, radius, start, end) {
        (Some(cx), Some(cy), Some(radius), Some(start_deg), Some(end_deg)) => if flag_at(
            positive,
            radius,
        ) {
            Some(DxfArc { cx, cy, radius, start_deg, end_deg })
        } else {
            None
        },
        _ => None,
    }
}

fn read_code(value: &str) -> (r: Option<i32>)
    ensures
        r == code_of(value@),
{
    let chars: Vec<char> = chars_of(value);
    let bare: Vec<char> = trim_chars(&chars);
    parse_i32(&bare)
}

fn read_count(value: &str) -> (r: Option<usize>)
    ensures
        r == (match read_int(trimmed(value@)) {
            Some(n) => if trimmed(value@)[0] != '-' && n <= usize::MAX {
                Some(n as usize)
            } else {
                None
            },
            None => None,
        }),
{
    let chars: Vec<char> = chars_of(value);
    let bare: Vec<char> = trim_chars(&chars);
    match parse_unsigned(&bare, usize::MAX as u64) {
        Some(n) => Some(n as usize),
        None => None,
    }
}

/// Reads one polyline.
pub fn read_lwpolyline(
    groups: &[Group],
    numeric: &[bool],
    from: usize,
    to: usize,
) -> (r: LwPolyline)
    requires
        from <= to <= groups@.len(),
    ensures
        (r.verts@, r.closed) == polyline_in(groups@, numeric@, from as int, to as int),
{
    let mut verts: Vec<Vertex> = Vec::new();
    let mut closed = false;
    let mut pending: Option<usize> = None;
    let mut i: usize = from;
    while i < to
        invariant
            from <= i <= to <= groups@.len(),
            verts@ == verts_in(groups@, numeric@, from as int, i as int),
            closed == closed_in(groups@, from as int, i as int),
            pending == pending_x(groups@, numeric@, from as int, i as int),
        decreases to - i,
    {
        let code: i32 = groups[i].code;
        let is_number = flag_at(numeric, i);
        if code == 70 {
            match read_code(&groups[i].value) {
                Some(flags) => {
                    closed = is_odd(flags);
                },
                None => {},
            }
        } else if code == 10 {
            pending = if is_number {
                Some(i)
            } else {
                None
            };
        } else if code == 20 {
            match pending {
                Some(x) => {
                    if is_number {
                        verts.push(Vertex { x, y: i, bulge: None });
                    }
                },
                None => {},
            }
            pending = None;
        } else if code == 42 {
            if is_number && verts.len() > 0 {
                let last: usize = verts.len() - 1;
                let was = verts[last];
                verts.set(last, Vertex { x: was.x, y: was.y, bulge: Some(i) });
            }
        }
        i += 1;
    }
    let hint: Option<usize> = match find_last(groups, from, to, 90) {
        Some(k) => read_count(&groups[k].value),
        None => None,
    };
    match hint {
        Some(n) => {
            if verts.len() > n {
                verts.truncate(n);
                assert(verts@ =~= verts_in(groups@, numeric@, from as int, to as int).take(n as int));
            }
        },
        None => {},
    }
    LwPolyline { verts, closed }
}

/// Whether the lowest bit of some flags is set.
fn is_odd(flags: i32) -> (r: bool)
    ensures
        r == (flags % 2 != 0),
{
    let r = (flags & 1) != 0;
    assert(((flags & 1) != 0) == (flags % 2 != 0)) by (bit_vector);
    r
}

/// The entities of a drawing, in the order in which they appear.
#[derive(Debug, Clone)]
pub struct Entities {
    pub polylines: Vec<LwPolyline>,
    pub lines: Vec<DxfLine>,
    pub arcs: Vec<DxfArc>,
}

/// Collects the polylines, segments and arcs of a drawing: `numeric[i]` and
/// `positive[i]` say whether the value of group `i` reads as a number, and as
/// a positive one.
pub fn collect_entities(groups: &[Group], numeric: &[bool], positive: &[bool]) -> (r: Entities)
    ensures
        polyline_models(r.polylines@) == polylines_upto(groups@, numeric@, groups@.len() as int),
        r.lines@ == lines_upto(groups@, numeric@, groups@.len() as int),
        r.arcs@ == arcs_upto(groups@, numeric@, positive@, groups@.len() as int),
{
    let mut polylines: Vec<LwPolyline> = Vec::new();
    let mut lines: Vec<DxfLine> = Vec::new();
    let mut arcs: Vec<DxfArc> = Vec::new();
    let mut i: usize = 0;
    proof {
        reveal_strlit("LINE");
        reveal_strlit("ARC");
        reveal_strlit("LWPOLYLINE");
        assert("LINE"@.len() == 4 && "ARC"@.len() == 3 && "LWPOLYLINE"@.len() == 10);
        assert(polyline_models(polylines@) =~= polylines_upto(groups@, numeric@, 0));
    }
    while i < groups.len()
        invariant
            i <= groups@.len(),
            "LINE"@.len() == 4,
            "ARC"@.len() == 3,
            "LWPOLYLINE"@.len() == 10,
            polyline_models(polylines@) == polylines_upto(groups@, numeric@, i as int),
            lines@ == lines_upto(groups@, numeric@, i as int),
            arcs@ == arcs_upto(groups@, numeric@, positive@, i as int),
        decreases groups@.len() - i,
    {
        if groups[i].code == 0 {
            let chars: Vec<char> = chars_of(&groups[i].value);
            let name: Vec<char> = trim_chars(&chars);
            let to: usize = end_of_entity(groups, i + 1);
            if spells(&name, "LWPOLYLINE") {
                let polyline = read_lwpolyline(groups, numeric, i + 1, to);
                if polyline.verts.len() > 0 {
                    let ghost before = polylines@;
                    polylines.push(polyline);
                    assert(polyline_models(polylines@) =~= polyline_models(before).push(
                        (polyline.verts@, polyline.closed),
                    ));
                }
            } else if spells(&name, "LINE") {
                match read_line(groups, numeric, i + 1, to) {
                    Some(line) => {
                        lines.push(line);
                    },
                    None => {},
                }
            } else if spells(&name, "ARC") {
                match read_arc(groups, numeric, positive, i + 1, to) {
                    Some(arc) => {
                        arcs.push(arc);
                    },
                    None => {},
                }
            }
        }
        i += 1;
    }
    Entities { polylines, lines, arcs }
}

/// The other end of the segment that end `e` belongs to: segment `i` has the
/// ends `2 * i` and `2 * i + 1`.
pub open spec fn far_end(e: int) -> int {
    if e % 2 == 0 {
        e + 1
    } else {
        e - 1
    }
}

/// End `e` meets exactly one other end.
pub open spec fn meets_one(ends: Seq<Point>, e: int) -> bool {
    exists|p: int| #[trigger] is_partner(ends, e, p)
}

/// `p` is the one other end that end `e` meets.
pub open spec fn is_partner(ends: Seq<Point>, e: int, p: int) -> bool {
    &&& 0 <= p < ends.len()
    &&& p != e
    &&& ends[p] == ends[e]
    &&& forall|q: int|
        0 <= q < ends.len() && q != e && #[trigger] ends[q] == ends[e] ==> q == p
}

/// A chain of segments, each of which shares an end with the next.
pub open spec fn is_link(ends: Seq<Point>, chain: Seq<int>) -> bool {
    &&& chain.len() > 0
    &&& forall|k: int|
        #![trigger chain[k]]
        0 <= k < chain.len() ==> 0 <= 2 * chain[k] && 2 * chain[k] + 1 < ends.len()
    &&& forall|k: int|
        #![trigger chain[k], chain[k + 1]]
        0 <= k < chain.len() - 1 ==> touching(ends, chain[k], chain[k + 1])
}

/// Two segments share an end.
pub open spec fn touching(ends: Seq<Point>, i: int, j: int) -> bool {
    exists|a: int, b: int|
        (a == 2 * i || a == 2 * i + 1) && (b == 2 * j || b == 2 * j + 1) && #[trigger] ends[a]
            == #[trigger] ends[b]
}

/// A chain leads from segment `i` to segment `j`.
pub open spec fn linked(ends: Seq<Point>, i: int, j: int) -> bool {
    exists|chain: Seq<int>|
        #[trigger] is_link(ends, chain) && chain[0] == i && chain.last() == j
}

/// The segments form one closed ring and nothing else: every end meets exactly
/// one other, and all of them hang together. A line and an arc can do so, and
/// so can a single arc that comes back to where it began.
pub open spec fn forms_one_ring(ends: Seq<Point>) -> bool {
    &&& ends.len() >= 2
    &&& forall|e: int| 0 <= e < ends.len() ==> #[trigger] meets_one(ends, e)
    &&& forall|j: int| 0 <= 2 * j && 2 * j + 1 < ends.len() ==> #[trigger] linked(ends, 0, j)
}

/// One segment of a ring, and whether it is walked from its first end to its
/// second.
#[derive(Debug, Clone, Copy, PartialEq, Eq, Structural)]
pub struct RingStep {
    pub segment: usize,
    pub forward: bool,
}

/// The end from which a step sets out.
pub open spec fn near_end(step: RingStep) -> int {
    if step.forward {
        2 * step.segment as int
    } else {
        2 * step.segment as int + 1
    }
}

/// A walk around all segments, each exactly once, from end to meeting end and
/// back to where it began.
pub open spec fn is_ring(ends: Seq<Point>, ring: Seq<RingStep>) -> bool {
    &&& ring.len() > 0
    &&& 2 * ring.len() == ends.len()
    &&& forall|k: int|
        #![trigger ring[k]]
        0 <= k < ring.len() ==> 2 * ring[k].segment + 1 < ends.len()
    &&& forall|a: int, b: int|
        #![trigger ring[a], ring[b]]
        0 <= a < b < ring.len() ==> ring[a].segment != ring[b].segment
    &&& forall|k: int|
        #![trigger ring[k], ring[k + 1]]
        0 <= k < ring.len() - 1 ==> ends[far_end(near_end(ring[k]))] == ends[near_end(ring[k + 1])]
    &&& ends[far_end(near_end(ring.last()))] == ends[near_end(ring[0])]
}

fn partner_count_is_one(ends: &[Point], e: usize) -> (r: bool)
    requires
        e < ends@.len(),
    ensures
        r == meets_one(ends@, e as int),
{
    let mut found: Option<usize> = None;
    let mut q: usize = 0;
    while q < ends.len()
        invariant
            e < ends@.len(),
            q <= ends@.len(),
            match found {
                Some(p) => p < q && p != e && ends@[p as int] == ends@[e as int] && forall|k: int|
                    0 <= k < q && k != e && #[trigger] ends@[k] == ends@[e as int] ==> k == p,
                None => forall|k: int|
                    0 <= k < q && k != e ==> #[trigger] ends@[k] != ends@[e as int],
            },
        decreases ends@.len() - q,
    {
        if q != e && ends[q] == ends[e] {
            if found.is_some() {
                proof {
                    let first = found->0 as int;
                    assert forall|p: int| !#[trigger] is_partner(ends@, e as int, p) by {
                        if is_partner(ends@, e as int, p) {
                            assert(ends@[first] == ends@[e as int]);
                            assert(ends@[q as int] == ends@[e as int]);
                        }
                    }
                }
                return false;
            }
            found = Some(q);
        }
        q += 1;
    }
    proof {
        match found {
            Some(p) => {
                assert(is_partner(ends@, e as int, p as int));
            },
            None => {
                assert forall|p: int| !#[trigger] is_partner(ends@, e as int, p) by {
                    if is_partner(ends@, e as int, p) {
                        assert(ends@[p] == ends@[e as int]);
                    }
                }
            },
        }
    }
    found.is_some()
}

/// Joins loose segments into one closed ring, if they form exactly one: `ends`
/// holds the two ends of each segment, on the grid on which ends are joined.
/// The walk begins with the first segment, from its first end.
pub fn join_ring(ends: &[Point]) -> (r: Option<Vec<RingStep>>)
    requires
        ends@.len() % 2 == 0,
    ensures
        r is Some <==> forms_one_ring(ends@),
        r matches Some(ring) ==> is_ring(ends@, ring@) && ring@[0] == (RingStep {
            segment: 0,
            forward: true,
        }),
{
    let n: usize = ends.len() / 2;
    if n == 0 {
        return None;
    }
    let mut e: usize = 0;
    while e < ends.len()
        invariant
            e <= ends@.len(),
            forall|k: int| 0 <= k < e ==> #[trigger] meets_one(ends@, k),
        decreases ends@.len() - e,
    {
        if !partner_count_is_one(ends, e) {
            return None;
        }
        e += 1;
    }
    let mut used: Vec<bool> = Vec::new();
    let mut u: usize = 0;
    while u < n
        invariant
            u <= n,
            used@.len() == u,
            forall|k: int| #![trigger used@[k]] 0 <= k < u ==> used@[k] == (k == 0),
        decreases n - u,
    {
        used.push(u == 0);
        u += 1;
    }
    let mut ring: Vec<RingStep> = Vec::new();
    ring.push(RingStep { segment: 0, forward: true });
    let mut cur: usize = 1;
    assert(ring@[0].segment == 0);
    while ring.len() < n
        invariant
            n >= 1,
            ends@.len() == 2 * n,
            forall|k: int| 0 <= k < ends@.len() ==> #[trigger] meets_one(ends@, k),
            used@.len() == n,
            1 <= ring@.len() <= n,
            ring@[0] == (RingStep { segment: 0, forward: true }),
            is_open_ring(ends@, ring@),
            cur < ends@.len(),
            cur == far_end(near_end(ring@.last())),
            forall|k: int|
                #![trigger used@[k]]
                0 <= k < n ==> used@[k] == visits(ring@, k),
        decreases n - ring@.len(),
    {
        let mut next: Option<usize> = None;
        let mut q: usize = 0;
        while q < ends.len() && next.is_none()
            invariant
                ends@.len() == 2 * n,
                used@.len() == n,
                cur < ends@.len(),
                q <= ends@.len(),
                match next {
                    Some(p) => p < ends@.len() && ends@[p as int] == ends@[cur as int]
                        && !used@[p as int / 2],
                    None => forall|k: int|
                        0 <= k < q && #[trigger] ends@[k] == ends@[cur as int] ==> used@[k / 2],
                },
            decreases ends@.len() - q,
        {
            if ends[q] == ends[cur] && !used[q / 2] {
                next = Some(q);
            }
            q += 1;
        }
        match next {
            Some(p) => {
                let step = RingStep { segment: p / 2, forward: p % 2 == 0 };
                let ghost before = ring@;
                ring.push(step);
                used.set(p / 2, true);
                cur = if p % 2 == 0 {
                    p + 1
                } else {
                    p - 1
                };
                proof {
                    assert(near_end(step) == p);
                    lemma_open_ring_grows(ends@, before, step);
                    assert forall|k: int| #![trigger used@[k]] 0 <= k < n implies used@[k] == visits(
                        ring@,
                        k,
                    ) by {
                        lemma_visits_push(before, step, k);
                    }
                }
            },
            None => {
                proof {
                    if forms_one_ring(ends@) {
                        lemma_ring_is_complete(ends@, ring@);
                        lemma_all_visited_means_full(ends@, ring@);
                    }
                }
                return None;
            },
        }
    }
    proof {
        lemma_full_means_all_visited(ring@);
        lemma_full_ring_closes(ends@, ring@);
        lemma_ring_links(ends@, ring@);
    }
    Some(ring)
}

/// The walk passes through segment `i`.
pub open spec fn visits(ring: Seq<RingStep>, i: int) -> bool {
    exists|k: int| 0 <= k < ring.len() && #[trigger] ring[k].segment == i
}

/// A walk over segments, each at most once, from end to meeting end.
spec fn is_open_ring(ends: Seq<Point>, ring: Seq<RingStep>) -> bool {
    &&& ring.len() > 0
    &&& forall|k: int|
        #![trigger ring[k]]
        0 <= k < ring.len() ==> 2 * ring[k].segment + 1 < ends.len()
    &&& forall|a: int, b: int|
        #![trigger ring[a], ring[b]]
        0 <= a < b < ring.len() ==> ring[a].segment != ring[b].segment
    &&& forall|k: int|
        #![trigger ring[k], ring[k + 1]]
        0 <= k < ring.len() - 1 ==> ends[far_end(near_end(ring[k]))] == ends[near_end(ring[k + 1])]
}

proof fn lemma_visits_push(ring: Seq<RingStep>, step: RingStep, i: int)
    ensures
        visits(ring.push(step), i) == (visits(ring, i) || step.segment == i),
{
    let more = ring.push(step);
    assert(more[ring.len() as int] == step);
    if visits(ring, i) {
        let k = choose|k: int| 0 <= k < ring.len() && #[trigger] ring[k].segment == i;
        assert(more[k].segment == i);
    }
    if visits(more, i) && step.segment != i {
        let k = choose|k: int| 0 <= k < more.len() && #[trigger] more[k].segment == i;
        assert(ring[k].segment == i);
    }
}

proof fn lemma_open_ring_grows(ends: Seq<Point>, ring: Seq<RingStep>, step: RingStep)
    requires
        is_open_ring(ends, ring),
        2 * step.segment + 1 < ends.len(),
        !visits(ring, step.segment as int),
        ends[far_end(near_end(ring.last()))] == ends[near_end(step)],
    ensures
        is_open_ring(ends, ring.push(step)),
{
    let more = ring.push(step);
    assert forall|k: int| #![trigger more[k]] 0 <= k < more.len() implies 2 * more[k].segment + 1
        < ends.len() by {
        if k < ring.len() {
            assert(more[k] == ring[k]);
        }
    }
    assert forall|a: int, b: int| #![trigger more[a], more[b]] 0 <= a < b < more.len() implies
        more[a].segment != more[b].segment by {
        assert(more[a] == ring[a]);
        if b < ring.len() {
            assert(more[b] == ring[b]);
        } else {
            assert(ring[a].segment != step.segment);
        }
    }
    assert forall|k: int| #![trigger more[k], more[k + 1]] 0 <= k < more.len() - 1 implies ends[far_end(
        near_end(more[k]),
    )] == ends[near_end(more[k + 1])] by {
        assert(more[k] == ring[k]);
        if k < ring.len() - 1 {
            assert(more[k + 1] == ring[k + 1]);
        } else {
            assert(ring[k] == ring.last());
        }
    }
}

/// The partner of the end at which a step sets out is the end at which the
/// step before it arrived.
proof fn lemma_joint(ends: Seq<Point>, ring: Seq<RingStep>, k: int, q: int)
    requires
        forall|e: int| 0 <= e < ends.len() ==> #[trigger] meets_one(ends, e),
        ends.len() % 2 == 0,
        is_open_ring(ends, ring),
        0 <= k < ring.len() - 1,
        0 <= q < ends.len(),
        ends[q] == ends[near_end(ring[k + 1])],
    ensures
        q == near_end(ring[k + 1]) || q == far_end(near_end(ring[k])),
{
    let e = near_end(ring[k + 1]);
    let o = far_end(near_end(ring[k]));
    assert(ring[k].segment != ring[k + 1].segment);
    assert(ends[o] == ends[e]);
    assert(meets_one(ends, e));
    let p = choose|p: int| #[trigger] is_partner(ends, e, p);
    assert(o == p);
    if q != e {
        assert(ends[q] == ends[e]);
    }
}

/// When no unvisited segment continues a walk, nothing unvisited touches it.
proof fn lemma_walk_is_closed(ends: Seq<Point>, ring: Seq<RingStep>, a: int, b: int)
    requires
        forall|e: int| 0 <= e < ends.len() ==> #[trigger] meets_one(ends, e),
        ends.len() % 2 == 0,
        is_open_ring(ends, ring),
        forall|q: int|
            0 <= q < ends.len() && #[trigger] ends[q] == ends[far_end(near_end(ring.last()))]
                ==> visits(ring, q / 2),
        0 <= a < ends.len(),
        0 <= b < ends.len(),
        ends[a] == ends[b],
        visits(ring, a / 2),
    ensures
        visits(ring, b / 2),
{
    let m = ring.len() - 1;
    let k = choose|k: int| 0 <= k < ring.len() && #[trigger] ring[k].segment == a / 2;
    let near = near_end(ring[k]);
    assert(a == near || a == far_end(near));
    let tip = far_end(near_end(ring.last()));
    if a == far_end(near) {
        if k == m {
            assert(ring[k] == ring.last());
            assert(ends[b] == ends[tip]);
        } else {
            assert(ends[b] == ends[near_end(ring[k + 1])]);
            lemma_joint(ends, ring, k, b);
            if b == near_end(ring[k + 1]) {
                assert(ring[k + 1].segment == b / 2);
            } else {
                assert(ring[k].segment == b / 2);
            }
        }
    } else if k > 0 {
        assert(ends[b] == ends[near_end(ring[k - 1 + 1])]);
        lemma_joint(ends, ring, k - 1, b);
        if b == near_end(ring[k]) {
            assert(ring[k].segment == b / 2);
        } else {
            assert(ring[k - 1].segment == b / 2);
        }
    } else {
        let e0 = near_end(ring[0]);
        lemma_tip_meets_start(ends, ring);
        assert(ends[tip] == ends[e0]);
        assert(tip != e0) by {
            if ring.len() > 1 {
                assert(ring[0].segment != ring[m].segment);
            }
        }
        assert(meets_one(ends, e0));
        let p = choose|p: int| #[trigger] is_partner(ends, e0, p);
        assert(tip == p);
        if b == e0 {
            assert(ring[0].segment == b / 2);
        } else {
            assert(ends[b] == ends[e0]);
            assert(b == tip);
            assert(ring[m].segment == b / 2);
        }
    }
}

/// When no unvisited segment continues a walk, it has come back to where it
/// began.
proof fn lemma_tip_meets_start(ends: Seq<Point>, ring: Seq<RingStep>)
    requires
        forall|e: int| 0 <= e < ends.len() ==> #[trigger] meets_one(ends, e),
        ends.len() % 2 == 0,
        is_open_ring(ends, ring),
        forall|q: int|
            0 <= q < ends.len() && #[trigger] ends[q] == ends[far_end(near_end(ring.last()))]
                ==> visits(ring, q / 2),
    ensures
        ends[far_end(near_end(ring.last()))] == ends[near_end(ring[0])],
{
    let m = ring.len() - 1;
    assert(ring[m] == ring.last());
    let tip = far_end(near_end(ring.last()));
    assert(0 <= tip < ends.len());
    assert(meets_one(ends, tip));
    let p = choose|p: int| #[trigger] is_partner(ends, tip, p);
    assert(ends[p] == ends[tip]);
    assert(visits(ring, p / 2));
    let k = choose|k: int| 0 <= k < ring.len() && #[trigger] ring[k].segment == p / 2;
    let near = near_end(ring[k]);
    assert(p == near || p == far_end(near));
    if p == near {
        if k > 0 {
            assert(ends[tip] == ends[near_end(ring[k - 1 + 1])]);
            lemma_joint(ends, ring, k - 1, tip);
            assert(ring[m].segment == tip / 2);
            if tip == far_end(near_end(ring[k - 1])) {
                assert(ring[k - 1].segment == tip / 2);
                if k - 1 < m {
                    assert(ring[k - 1].segment != ring[m].segment);
                }
            }
        }
    } else {
        if k < m {
            assert(ends[far_end(near_end(ring[k]))] == ends[near_end(ring[k + 1])]);
            assert(ends[tip] == ends[near_end(ring[k + 1])]);
            lemma_joint(ends, ring, k, tip);
            assert(ring[m].segment == tip / 2);
            if tip == near_end(ring[k + 1]) {
                assert(ring[k + 1].segment == tip / 2);
                if k + 1 < m {
                    assert(ring[k + 1].segment != ring[m].segment);
                }
            } else {
                assert(ring[k].segment == tip / 2);
                assert(ring[k].segment != ring[m].segment);
            }
        }
    }
}

/// A walk that nothing continues has visited everything that hangs together
/// with it.
proof fn lemma_ring_is_complete(ends: Seq<Point>, ring: Seq<RingStep>)
    requires
        forms_one_ring(ends),
        ends.len() % 2 == 0,
        is_open_ring(ends, ring),
        ring[0].segment == 0,
        forall|q: int|
            0 <= q < ends.len() && #[trigger] ends[q] == ends[far_end(near_end(ring.last()))]
                ==> visits(ring, q / 2),
    ensures
        forall|j: int| 0 <= j < ends.len() / 2 ==> #[trigger] visits(ring, j),
{
    assert forall|j: int| 0 <= j < ends.len() / 2 implies #[trigger] visits(ring, j) by {
        assert(linked(ends, 0, j));
        let chain = choose|chain: Seq<int>|
            #[trigger] is_link(ends, chain) && chain[0] == 0 && chain.last() == j;
        lemma_chain_is_visited(ends, ring, chain);
    }
}

proof fn lemma_chain_is_visited(ends: Seq<Point>, ring: Seq<RingStep>, chain: Seq<int>)
    requires
        forall|e: int| 0 <= e < ends.len() ==> #[trigger] meets_one(ends, e),
        ends.len() % 2 == 0,
        is_open_ring(ends, ring),
        ring[0].segment == 0,
        forall|q: int|
            0 <= q < ends.len() && #[trigger] ends[q] == ends[far_end(near_end(ring.last()))]
                ==> visits(ring, q / 2),
        is_link(ends, chain),
        chain[0] == 0,
    ensures
        visits(ring, chain.last()),
    decreases chain.len(),
{
    if chain.len() == 1 {
        assert(ring[0].segment == 0);
    } else {
        let shorter = chain.drop_last();
        assert(is_link(ends, shorter)) by {
            assert forall|k: int| #![trigger shorter[k]] 0 <= k < shorter.len() implies 0 <= 2
                * shorter[k] && 2 * shorter[k] + 1 < ends.len() by {
                assert(shorter[k] == chain[k]);
            }
            assert forall|k: int|
                #![trigger shorter[k], shorter[k + 1]]
                0 <= k < shorter.len() - 1 implies touching(ends, shorter[k], shorter[k + 1]) by {
                assert(shorter[k] == chain[k]);
                assert(shorter[k + 1] == chain[k + 1]);
            }
        }
        lemma_chain_is_visited(ends, ring, shorter);
        let m = chain.len() - 2;
        assert(shorter.last() == chain[m]);
        assert(chain.last() == chain[m + 1]);
        assert(touching(ends, chain[m], chain[m + 1]));
        let (a, b) = choose|a: int, b: int|
            (a == 2 * chain[m] || a == 2 * chain[m] + 1) && (b == 2 * chain[m + 1] || b == 2
                * chain[m + 1] + 1) && #[trigger] ends[a] == #[trigger] ends[b];
        lemma_walk_is_closed(ends, ring, a, b);
    }
}

/// The segments of a walk, as a sequence.
spec fn segments_of(ring: Seq<RingStep>) -> Seq<int> {
    ring.map_values(|s: RingStep| s.segment as int)
}

proof fn lemma_segments(ring: Seq<RingStep>, n: int)
    requires
        forall|k: int| #![trigger ring[k]] 0 <= k < ring.len() ==> ring[k].segment < n,
        forall|a: int, b: int|
            #![trigger ring[a], ring[b]]
            0 <= a < b < ring.len() ==> ring[a].segment != ring[b].segment,
    ensures
        segments_of(ring).no_duplicates(),
        segments_of(ring).to_set().subset_of(vstd::set_lib::set_int_range(0, n)),
        segments_of(ring).to_set().len() == ring.len(),
        segments_of(ring).to_set().finite(),
{
    let s = segments_of(ring);
    assert forall|a: int, b: int| 0 <= a < s.len() && 0 <= b < s.len() && a != b implies s[a]
        != s[b] by {
        if a < b {
            assert(ring[a].segment != ring[b].segment);
        } else {
            assert(ring[b].segment != ring[a].segment);
        }
    }
    s.unique_seq_to_set();
    assert forall|x: int| s.to_set().contains(x) implies vstd::set_lib::set_int_range(
        0,
        n,
    ).contains(x) by {
        let k = choose|k: int| 0 <= k < s.len() && s[k] == x;
        assert(ring[k].segment < n);
    }
}

/// A walk as long as there are segments has visited all of them.
pub proof fn lemma_full_means_all_visited(ring: Seq<RingStep>)
    requires
        forall|k: int| #![trigger ring[k]] 0 <= k < ring.len() ==> ring[k].segment < ring.len(),
        forall|a: int, b: int|
            #![trigger ring[a], ring[b]]
            0 <= a < b < ring.len() ==> ring[a].segment != ring[b].segment,
    ensures
        forall|j: int| 0 <= j < ring.len() ==> #[trigger] visits(ring, j),
{
    let s = segments_of(ring);
    let range = vstd::set_lib::set_int_range(0, ring.len() as int);
    lemma_segments(ring, ring.len() as int);
    vstd::set_lib::lemma_int_range(0, ring.len() as int);
    vstd::set_lib::lemma_subset_equality(s.to_set(), range);
    assert forall|j: int| 0 <= j < ring.len() implies #[trigger] visits(ring, j) by {
        assert(range.contains(j));
        assert(s.to_set().contains(j));
        let k = choose|k: int| 0 <= k < s.len() && s[k] == j;
        assert(ring[k].segment == j);
    }
}

/// A walk that has visited all segments is as long as there are segments.
proof fn lemma_all_visited_means_full(ends: Seq<Point>, ring: Seq<RingStep>)
    requires
        is_open_ring(ends, ring),
        ends.len() % 2 == 0,
        forall|j: int| 0 <= j < ends.len() / 2 ==> #[trigger] visits(ring, j),
    ensures
        2 * ring.len() == ends.len(),
{
    let s = segments_of(ring);
    let n = ends.len() as int / 2;
    let range = vstd::set_lib::set_int_range(0, n);
    lemma_segments(ring, n);
    vstd::set_lib::lemma_int_range(0, n);
    assert(s.to_set() =~= range) by {
        assert forall|j: int| range.contains(j) implies s.to_set().contains(j) by {
            assert(visits(ring, j));
            let k = choose|k: int| 0 <= k < ring.len() && #[trigger] ring[k].segment == j;
            assert(s[k] == j);
        }
    }
}

/// A walk over all segments ends where it began.
proof fn lemma_full_ring_closes(ends: Seq<Point>, ring: Seq<RingStep>)
    requires
        forall|e: int| 0 <= e < ends.len() ==> #[trigger] meets_one(ends, e),
        is_open_ring(ends, ring),
        ends.len() == 2 * ring.len(),
        forall|j: int| 0 <= j < ring.len() ==> #[trigger] visits(ring, j),
    ensures
        is_ring(ends, ring),
{
    assert forall|q: int|
        0 <= q < ends.len() && #[trigger] ends[q] == ends[far_end(
            near_end(ring.last()),
        )] implies visits(ring, q / 2) by {
    }
    lemma_tip_meets_start(ends, ring);
}

/// The segments of a ring hang together.
pub(crate) proof fn lemma_ring_links(ends: Seq<Point>, ring: Seq<RingStep>)
    requires
        is_ring(ends, ring),
        ring[0].segment == 0,
        forall|j: int| 0 <= j < ring.len() ==> #[trigger] visits(ring, j),
    ensures
        forall|j: int| 0 <= 2 * j && 2 * j + 1 < ends.len() ==> #[trigger] linked(ends, 0, j),
{
    assert forall|j: int| 0 <= 2 * j && 2 * j + 1 < ends.len() implies #[trigger] linked(ends, 0, j) by {
        assert(visits(ring, j));
        let m = choose|m: int| 0 <= m < ring.len() && #[trigger] ring[m].segment == j;
        let chain = Seq::new((m + 1) as nat, |k: int| ring[k].segment as int);
        assert forall|k: int| #![trigger chain[k]] 0 <= k < chain.len() implies 0 <= 2 * chain[k] && 2
            * chain[k] + 1 < ends.len() by {
            assert(2 * ring[k].segment + 1 < ends.len());
        }
        assert forall|k: int| #![trigger chain[k], chain[k + 1]] 0 <= k < chain.len() - 1 implies
            touching(ends, chain[k], chain[k + 1]) by {
            let a = far_end(near_end(ring[k]));
            let b = near_end(ring[k + 1]);
            assert(ends[a] == ends[b]);
        }
        assert(is_link(ends, chain));
        assert(chain.last() == j);
    }
}

/// Carries a walk on until it has been round.
proof fn lemma_walk_on(ends: Seq<Point>, ring: Seq<RingStep>) -> (full: Seq<RingStep>)
    requires
        forms_one_ring(ends),
        ends.len() % 2 == 0,
        ends.len() / 2 <= usize::MAX,
        is_open_ring(ends, ring),
        ring[0].segment == 0,
    ensures
        is_ring(ends, full),
        full[0] == ring[0],
    decreases ends.len() - 2 * ring.len(),
{
    let n = ends.len() as int / 2;
    lemma_segments(ring, n);
    vstd::set_lib::lemma_int_range(0, n);
    vstd::set_lib::lemma_len_subset(
        segments_of(ring).to_set(),
        vstd::set_lib::set_int_range(0, n),
    );
    let tip = far_end(near_end(ring.last()));
    if 2 * ring.len() == ends.len() {
        lemma_full_means_all_visited(ring);
        lemma_full_ring_closes(ends, ring);
        ring
    } else if exists|q: int|
        0 <= q < ends.len() && #[trigger] ends[q] == ends[tip] && !visits(ring, q / 2) {
        let q = choose|q: int|
            0 <= q < ends.len() && #[trigger] ends[q] == ends[tip] && !visits(ring, q / 2);
        let step = RingStep { segment: (q / 2) as usize, forward: q % 2 == 0 };
        assert(near_end(step) == q);
        lemma_open_ring_grows(ends, ring, step);
        let more = ring.push(step);
        assert(more[0] == ring[0]);
        lemma_walk_on(ends, more)
    } else {
        lemma_ring_is_complete(ends, ring);
        lemma_all_visited_means_full(ends, ring);
        ring
    }
}

/// A ring can be walked: whatever forms one can be gone round, from the first
/// end of the first segment on.
pub proof fn law_a_ring_can_be_walked(ends: Seq<Point>) -> (ring: Seq<RingStep>)
    requires
        forms_one_ring(ends),
        ends.len() % 2 == 0,
        ends.len() / 2 <= usize::MAX,
    ensures
        is_ring(ends, ring),
        ring[0] == (RingStep { segment: 0, forward: true }),
{
    lemma_walk_on(ends, seq![RingStep { segment: 0, forward: true }])
}

/// The characters of a file that holds one character per byte.
pub open spec fn latin1(bytes: Seq<u8>) -> Seq<char> {
    bytes.map_values(|b: u8| b as char)
}

/// Reads the groups of a drawing from the bytes of its file, one character
/// per byte; a file with nothing but whitespace in it is an error.
pub fn read_groups(bytes: &[u8]) -> (r: Result<Vec<Group>, DxfOutlineError>)
    ensures
        match r {
            Ok(groups) => trimmed(latin1(bytes@)).len() > 0 && group_texts(groups@) == groups_in(
                lines_in(latin1(bytes@)),
            ),
            Err(e) => trimmed(latin1(bytes@)).len() == 0 && e == DxfOutlineError::Empty,
        },
{
    let mut chars: Vec<char> = Vec::new();
    let mut i: usize = 0;
    while i < bytes.len()
        invariant
            i <= bytes@.len(),
            chars@ == latin1(bytes@.take(i as int)),
        decreases bytes@.len() - i,
    {
        chars.push(bytes[i] as char);
        i += 1;
        assert(chars@ =~= latin1(bytes@.take(i as int)));
    }
    assert(bytes@.take(i as int) =~= bytes@);
    let bare: Vec<char> = trim_chars(&chars);
    if bare.len() == 0 {
        return Err(DxfOutlineError::Empty);
    }
    Ok(groups_of(&chars))
}

/// `points` without any that repeats the one before it.
pub open spec fn without_repeats(points: Seq<Point>) -> Seq<Point>
    decreases points.len(),
{
    if points.len() == 0 {
        points
    } else {
        let rest = without_repeats(points.drop_last());
        if rest.len() > 0 && rest.last() == points.last() {
            rest
        } else {
            rest.push(points.last())
        }
    }
}

/// `points` without repeats, and without a last one on top of the first.
pub open spec fn corners_in(points: Seq<Point>) -> Seq<Point> {
    let kept = without_repeats(points);
    if kept.len() >= 2 && kept[0] == kept.last() {
        kept.drop_last()
    } else {
        kept
    }
}

/// The point after place `i` around a polygon.
pub open spec fn following(points: Seq<Point>, i: int) -> Point {
    if i + 1 == points.len() {
        points[0]
    } else {
        points[i + 1]
    }
}

/// The sum of the first `n` cross products around a polygon; all of them
/// together are twice its signed area.
pub open spec fn cross_sum(points: Seq<Point>, n: int) -> int
    decreases n,
{
    if n <= 0 {
        0
    } else {
        let a = points[n - 1];
        let b = following(points, n - 1);
        cross_sum(points, n - 1) + a.x * b.y - b.x * a.y
    }
}

/// Twice the area of a polygon.
pub open spec fn doubled_area(points: Seq<Point>) -> int {
    let twice = cross_sum(points, points.len() as int);
    if twice >= 0 {
        twice
    } else {
        -twice
    }
}

/// The polygon covers at least a square millimetre.
pub open spec fn has_area(points: Seq<Point>) -> bool {
    doubled_area(points) >= 2_000_000_000_000
}

/// Whether the polygon covers at least a square millimetre.
fn covers_enough(points: &[Point]) -> (r: bool)
    ensures
        r == has_area(points@),
{
    let mut area = Tally::new();
    let mut i: usize = 0;
    while i < points.len()
        invariant
            i <= points@.len(),
            area.amount() == Amount::Finite(cross_sum(points@, i as int)),
        decreases points@.len() - i,
    {
        let a = points[i];
        let b = if i + 1 == points.len() {
            points[0]
        } else {
            points[i + 1]
        };
        area.tally(a.x as i128, b.y as i128, false);
        area.tally(b.x as i128, a.y as i128, true);
        i += 1;
    }
    area.reaches(2_000_000_000_000)
}

/// A closed contour, as traced from a drawing: how many vertices it had before
/// they were put on the board's grid, whether it was flat, and its points on
/// that grid.
#[derive(Debug, Clone)]
pub struct Contour {
    pub vertex_count: usize,
    pub flat: bool,
    pub points: Vec<Point>,
}

/// The corners of the outline that a contour gives.
pub open spec fn outline_corners(contour: Option<Contour>) -> Result<Seq<Point>, DxfOutlineError> {
    match contour {
        None => Err(DxfOutlineError::NoContour),
        Some(c) => sound_corners(c.vertex_count as int, c.flat, c.points@),
    }
}

/// The corners of a traced contour, unless it is too small for a board.
pub open spec fn sound_corners(vertex_count: int, flat: bool, points: Seq<Point>) -> Result<
    Seq<Point>,
    DxfOutlineError,
> {
    if vertex_count < 3 || flat || corners_in(points).len() < 3 || !has_area(corners_in(points)) {
        Err(DxfOutlineError::Degenerate)
    } else {
        Ok(corners_in(points))
    }
}

/// Turns the largest contour of a drawing into an outline: repeated points are
/// dropped, and what has fewer than three corners or less than a square
/// millimetre is refused.
pub fn outline_from_contour(contour: Option<Contour>) -> (r: Result<Polygon, DxfOutlineError>)
    ensures
        match r {
            Ok(polygon) => outline_corners(contour) == Ok::<Seq<Point>, DxfOutlineError>(
                polygon.points@,
            ),
            Err(e) => outline_corners(contour) == Err::<Seq<Point>, DxfOutlineError>(e),
        },
{
    let contour = match contour {
        Some(c) => c,
        None => {
            return Err(DxfOutlineError::NoContour);
        },
    };
    if contour.vertex_count < 3 || contour.flat {
        return Err(DxfOutlineError::Degenerate);
    }
    let mut kept: Vec<Point> = Vec::new();
    let mut i: usize = 0;
    while i < contour.points.len()
        invariant
            i <= contour.points@.len(),
            kept@ == without_repeats(contour.points@.take(i as int)),
        decreases contour.points@.len() - i,
    {
        let p = contour.points[i];
        proof {
            assert(contour.points@.take(i + 1).drop_last() =~= contour.points@.take(i as int));
            assert(contour.points@.take(i + 1).last() == p);
        }
        let repeats = kept.len() > 0 && kept[kept.len() - 1] == p;
        if !repeats {
            kept.push(p);
        }
        i += 1;
    }
    assert(contour.points@.take(i as int) =~= contour.points@);
    if kept.len() >= 2 && kept[0] == kept[kept.len() - 1] {
        let ghost before = kept@;
        let last = kept.pop();
        assert(kept@ =~= before.drop_last());
    }
    if kept.len() < 3 {
        return Err(DxfOutlineError::Degenerate);
    }
    if !covers_enough(&kept) {
        return Err(DxfOutlineError::Degenerate);
    }
    Ok(Polygon::new(kept))
}

} // verus!
