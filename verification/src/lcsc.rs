//! Parts from LCSC: the replies of EasyEDA's component service, turned into
//! footprints, and the pin names in its symbol drawings.

use vstd::prelude::*;

use crate::decimal::{measured, read_number, Spot};
use crate::easyeda::{
    is_pad_line, number_or_zero, pad_rotation, parse_pad_line, parse_silk_courtyard, reads_pad, silk_courtyard,
};
use crate::footprint::{Courtyard, PadTemplate};
use crate::geom::Angle;
use crate::json::{json_of, member, member_items, member_text, parse_json, Json, JsonShape};
use crate::text::{
    chars_of, find_chars, find_from, joined, lemma_find_in_rest, pairs_of, same_text, slice_of,
    string_of, strings_in, texts_of, trim, trimmed,
};

verus! {

/// Why a part could not be fetched.
#[derive(Debug)]
pub enum FetchError {
    Network(String),
    NotFound(String),
    NoFootprint(String),
    Parse(String),
}

/// What a [`FetchError`] says.
pub enum FetchProblem {
    Network(Seq<char>),
    NotFound(Seq<char>),
    NoFootprint(Seq<char>),
    Parse(Seq<char>),
}

impl View for FetchError {
    type V = FetchProblem;

    open spec fn view(&self) -> FetchProblem {
        match *self {
            FetchError::Network(e) => FetchProblem::Network(e@),
            FetchError::NotFound(code) => FetchProblem::NotFound(code@),
            FetchError::NoFootprint(code) => FetchProblem::NoFootprint(code@),
            FetchError::Parse(e) => FetchProblem::Parse(e@),
        }
    }
}

impl FetchProblem {
    /// The message for the user.
    pub open spec fn text(self) -> Seq<char> {
        match self {
            FetchProblem::Network(e) => "couldn't reach LCSC/EasyEDA: "@ + e,
            FetchProblem::NotFound(code) => code + " wasn't found on LCSC/EasyEDA"@,
            FetchProblem::NoFootprint(code) => code + " has no PCB footprint to import"@,
            FetchProblem::Parse(e) => "couldn't understand LCSC/EasyEDA's response: "@ + e,
        }
    }
}

impl FetchError {
    /// The message for the user.
    pub fn message(&self) -> (s: String)
        ensures
            s@ == self@.text(),
    {
        match self {
            FetchError::Network(e) => joined("couldn't reach LCSC/EasyEDA: ", e),
            FetchError::NotFound(code) => joined(code, " wasn't found on LCSC/EasyEDA"),
            FetchError::NoFootprint(code) => joined(code, " has no PCB footprint to import"),
            FetchError::Parse(e) => joined("couldn't understand LCSC/EasyEDA's response: ", e),
        }
    }
}

/// A part as the service describes it. `pad_rotations` holds the text of each
/// pad's rotation; the pads themselves are unrotated until
/// [`FetchedPart::set_rotations`].
#[derive(Debug)]
pub struct FetchedPart {
    pub lcsc_code: String,
    pub name: String,
    pub reference_prefix: String,
    pub description: String,
    pub category: Option<String>,
    pub pads: Vec<PadTemplate>,
    pub pad_rotations: Vec<String>,
    pub explicit_courtyard: Option<Courtyard>,
}

/// The code to ask for: `code` without the whitespace round it, unless nothing
/// is left.
pub fn lookup_code(code: &str) -> (r: Result<String, FetchError>)
    ensures
        match r {
            Ok(c) => c@ == trimmed(code@) && c@.len() > 0,
            Err(e) => trimmed(code@).len() == 0 && e@ == FetchProblem::NotFound("(empty)"@),
        },
{
    let code: String = trim(code);
    if code.as_str().is_empty() {
        return Err(FetchError::NotFound("(empty)".to_owned()));
    }
    Ok(code)
}

/// Where the component of a code is described.
pub fn component_url(code: &str) -> (r: String)
    ensures
        r@ == "https://easyeda.com/api/products/"@ + code@ + "/components?version=6.4.19.5"@,
{
    joined(&joined("https://easyeda.com/api/products/", code), "/components?version=6.4.19.5")
}

/// Where the symbol drawings of a code are.
pub fn symbol_url(code: &str) -> (r: String)
    ensures
        r@ == "https://easyeda.com/api/products/"@ + code@ + "/svgs"@,
{
    joined(&joined("https://easyeda.com/api/products/", code), "/svgs")
}

/// What stands behind `marker` up to the next double quote.
pub open spec fn attr_in(s: Seq<char>, marker: Seq<char>) -> Option<Seq<char>> {
    match find_from(s, marker, 0) {
        Some(i) => {
            let start = i + marker.len();
            match find_from(s, seq!['"'], start) {
                Some(end) => Some(s.subrange(start, end)),
                None => None,
            }
        },
        None => None,
    }
}

/// What stands behind `marker` up to the next double quote.
pub fn extract_attr(s: &str, marker: &str) -> (r: Option<String>)
    ensures
        match r {
            Some(value) => attr_in(s@, marker@) == Some(value@),
            None => attr_in(s@, marker@) is None,
        },
{
    attr_of(&chars_of(s), marker)
}

fn attr_of(s: &[char], marker: &str) -> (r: Option<String>)
    ensures
        match r {
            Some(value) => attr_in(s@, marker@) == Some(value@),
            None => attr_in(s@, marker@) is None,
        },
{
    let mark: Vec<char> = chars_of(marker);
    let quote: Vec<char> = vec!['"'];
    assert(quote@ =~= seq!['"']);
    match find_chars(s, &mark, 0) {
        Some(i) => {
            assert(s.len() == s@.len());
            let start: usize = i + mark.len();
            match find_chars(s, &quote, start) {
                Some(end) => Some(string_of(&slice_of(s, start, end))),
                None => None,
            }
        },
        None => None,
    }
}

/// The pieces of a text that follow each occurrence of `mark`, each up to the
/// next one.
pub open spec fn pieces_after(s: Seq<char>, mark: Seq<char>) -> Seq<Seq<char>>
    decreases s.len(),
{
    match find_from(s, mark, 0) {
        Some(i) => if mark.len() > 0 && 0 <= i && i + mark.len() <= s.len() {
            let rest = s.skip(i + mark.len());
            let piece = match find_from(rest, mark, 0) {
                Some(j) => rest.take(j),
                None => rest,
            };
            seq![piece] + pieces_after(rest, mark)
        } else {
            Seq::empty()
        },
        None => Seq::empty(),
    }
}

/// The content of the first `<text ...>...</text>` element.
pub open spec fn first_text(group: Seq<char>) -> Option<Seq<char>> {
    match find_from(group, "<text"@, 0) {
        Some(start) => match find_from(group, seq!['>'], start) {
            Some(end) => match find_from(group, "</text>"@, end + 1) {
                Some(close) => Some(group.subrange(end + 1, close)),
                None => None,
            },
            None => None,
        },
        None => None,
    }
}

/// The number and the name of the pin that a group draws.
pub open spec fn pin_in(group: Seq<char>) -> Option<(Seq<char>, Seq<char>)> {
    match (attr_in(group, "c_spicepin=\""@), first_text(group)) {
        (Some(number), Some(name)) => if name.len() > 0 {
            Some((number, name))
        } else {
            None
        },
        _ => None,
    }
}

/// The pins that some groups draw, in order.
pub open spec fn pins_of_groups(groups: Seq<Seq<char>>) -> Seq<(Seq<char>, Seq<char>)>
    decreases groups.len(),
{
    if groups.len() == 0 {
        Seq::empty()
    } else {
        match pin_in(groups.last()) {
            Some(pin) => pins_of_groups(groups.drop_last()).push(pin),
            None => pins_of_groups(groups.drop_last()),
        }
    }
}

/// The pins that a symbol drawing names, in order.
pub open spec fn pins_in(svg: Seq<char>) -> Seq<(Seq<char>, Seq<char>)> {
    pins_of_groups(pieces_after(svg, "c_partid=\"part_pin\""@))
}

/// The pieces of a text that follow each occurrence of `mark`.
fn pieces_of(s: &[char], mark: &[char]) -> (r: Vec<Vec<char>>)
    requires
        mark@.len() > 0,
    ensures
        texts_of(r@) == pieces_after(s@, mark@),
{
    let mut r: Vec<Vec<char>> = Vec::new();
    let length: usize = s.len();
    let mut from: usize = 0;
    let mut next: Option<usize> = find_chars(s, mark, 0);
    proof {
        assert(s@.skip(0) =~= s@);
        assert(texts_of(r@) + pieces_after(s@, mark@) =~= pieces_after(s@, mark@));
    }
    loop
        invariant
            mark@.len() > 0,
            from <= s@.len(),
            length == s@.len(),
            match next {
                Some(i) => find_from(s@, mark@, from as int) == Some(i as int) && from <= i && i
                    + mark@.len() <= s@.len(),
                None => find_from(s@, mark@, from as int) is None,
            },
            texts_of(r@) + pieces_after(s@.skip(from as int), mark@) == pieces_after(s@, mark@),
        decreases s@.len() - from,
    {
        let ghost before = r@;
        let ghost here = s@.skip(from as int);
        proof {
            lemma_find_in_rest(s@, mark@, from as int, 0);
        }
        match next {
            Some(i) => {
                let start: usize = i + mark.len();
                next = find_chars(s, mark, start);
                let end: usize = match next {
                    Some(j) => j,
                    None => length,
                };
                let piece: Vec<char> = slice_of(s, start, end);
                proof {
                    let rest = s@.skip(start as int);
                    lemma_find_in_rest(s@, mark@, start as int, 0);
                    assert(here.skip(i - from + mark@.len()) =~= rest);
                    assert(piece@ =~= rest.take(end - start));
                    assert(rest.take(rest.len() as int) =~= rest);
                    assert(pieces_after(here, mark@) == seq![piece@] + pieces_after(rest, mark@));
                }
                r.push(piece);
                proof {
                    let rest = s@.skip(start as int);
                    assert(texts_of(r@) =~= texts_of(before).push(piece@));
                    assert(texts_of(before) + (seq![piece@] + pieces_after(rest, mark@))
                        =~= texts_of(r@) + pieces_after(rest, mark@));
                }
                from = start;
            },
            None => {
                assert(pieces_after(here, mark@) =~= Seq::<Seq<char>>::empty());
                assert(texts_of(r@) + pieces_after(here, mark@) =~= texts_of(r@));
                return r;
            },
        }
    }
}

/// The content of the first text element of a group.
fn first_text_of(group: &[char]) -> (r: Option<String>)
    ensures
        match r {
            Some(t) => first_text(group@) == Some(t@),
            None => first_text(group@) is None,
        },
{
    let open: Vec<char> = chars_of("<text");
    let shut: Vec<char> = chars_of("</text>");
    let angle: Vec<char> = vec!['>'];
    assert(angle@ =~= seq!['>']);
    assert(group.len() == group@.len());
    let start: usize = match find_chars(group, &open, 0) {
        Some(i) => i,
        None => {
            return None;
        },
    };
    let end: usize = match find_chars(group, &angle, start) {
        Some(i) => i,
        None => {
            return None;
        },
    };
    match find_chars(group, &shut, end + 1) {
        Some(close) => Some(string_of(&slice_of(group, end + 1, close))),
        None => None,
    }
}

/// The pins that a symbol drawing names: the number and the name of each
/// group of a pin that has both.
pub fn extract_pin_names_from_symbol_svg(svg: &str) -> (r: Vec<(String, String)>)
    ensures
        pairs_of(r@) == pins_in(svg@),
{
    let mark: Vec<char> = chars_of("c_partid=\"part_pin\"");
    proof {
        reveal_strlit("c_partid=\"part_pin\"");
    }
    let groups: Vec<Vec<char>> = pieces_of(&chars_of(svg), &mark);
    let ghost all = texts_of(groups@);
    let mut r: Vec<(String, String)> = Vec::new();
    let mut i: usize = 0;
    assert(pairs_of(r@) =~= pins_of_groups(all.take(0)));
    while i < groups.len()
        invariant
            i <= groups@.len(),
            all == texts_of(groups@),
            pairs_of(r@) == pins_of_groups(all.take(i as int)),
        decreases groups@.len() - i,
    {
        let ghost before = r@;
        proof {
            assert(all[i as int] == groups@[i as int]@);
            assert(all.take(i + 1).drop_last() =~= all.take(i as int));
            assert(all.take(i + 1).last() == all[i as int]);
        }
        match attr_of(&groups[i], "c_spicepin=\"") {
            Some(number) => {
                match first_text_of(&groups[i]) {
                    Some(name) => {
                        if !name.as_str().is_empty() {
                            let pair = (number, name);
                            r.push(pair);
                            assert(pairs_of(r@) =~= pairs_of(before).push((pair.0@, pair.1@)));
                        }
                    },
                    None => {},
                }
            },
            None => {},
        }
        i += 1;
    }
    assert(all.take(i as int) =~= all);
    r
}

/// Whether a drawing is a schematic symbol.
pub open spec fn is_symbol(entry: JsonShape) -> bool {
    member(entry, "docType"@) == Some(JsonShape::Number("2"@))
}

/// The pins that an entry of the drawing list names.
pub open spec fn entry_pins(entry: JsonShape) -> Seq<(Seq<char>, Seq<char>)> {
    match member_text(entry, "svg"@) {
        Some(svg) => if is_symbol(entry) {
            pins_in(svg)
        } else {
            Seq::empty()
        },
        None => Seq::empty(),
    }
}

/// The pins that some entries name, in order.
pub open spec fn pins_of_entries(entries: Seq<JsonShape>) -> Seq<(Seq<char>, Seq<char>)>
    decreases entries.len(),
{
    if entries.len() == 0 {
        Seq::empty()
    } else {
        pins_of_entries(entries.drop_last()) + entry_pins(entries.last())
    }
}

/// The pins that a reply names.
pub open spec fn reply_pins(body: JsonShape) -> Seq<(Seq<char>, Seq<char>)> {
    match member_items(body, "result"@) {
        Some(entries) => pins_of_entries(entries),
        None => Seq::empty(),
    }
}

/// The pins that the symbol drawings of a reply name, in order. Of two pairs
/// for one pin the later one counts.
pub fn parse_pin_names(body: &Json) -> (r: Vec<(String, String)>)
    ensures
        pairs_of(r@) == reply_pins(body@),
{
    let mut r: Vec<(String, String)> = Vec::new();
    assert(pairs_of(r@) =~= Seq::<(Seq<char>, Seq<char>)>::empty());
    match body.get("result") {
        Some(Json::Array(entries)) => {
            let ghost all = member_items(body@, "result"@)->0;
            let mut i: usize = 0;
            assert(pairs_of(r@) =~= pins_of_entries(all.take(0)));
            while i < entries.len()
                invariant
                    i <= entries@.len(),
                    all.len() == entries@.len(),
                    forall|k: int| 0 <= k < all.len() ==> #[trigger] all[k] == entries@[k]@,
                    pairs_of(r@) == pins_of_entries(all.take(i as int)),
                decreases entries@.len() - i,
            {
                proof {
                    assert(all.take(i + 1).drop_last() =~= all.take(i as int));
                    assert(all.take(i + 1).last() == all[i as int]);
                }
                let symbol: bool = match entries[i].get("docType") {
                    Some(Json::Number(n)) => same_text(n, "2"),
                    _ => false,
                };
                let ghost before = r@;
                let mut found: Vec<(String, String)> = match entries[i].get_text("svg") {
                    Some(svg) => if symbol {
                        extract_pin_names_from_symbol_svg(svg)
                    } else {
                        Vec::new()
                    },
                    None => Vec::new(),
                };
                assert(pairs_of(found@) =~= entry_pins(all[i as int]));
                let ghost added = found@;
                r.append(&mut found);
                assert(pairs_of(r@) =~= pairs_of(before) + pairs_of(added));
                i += 1;
            }
            assert(all.take(i as int) =~= all);
            r
        },
        _ => r,
    }
}

/// The name that the last pair for a number gives it.
pub open spec fn name_for(names: Seq<(Seq<char>, Seq<char>)>, number: Seq<char>) -> Option<Seq<char>>
    decreases names.len(),
{
    if names.len() == 0 {
        None
    } else if names.last().0 == number {
        Some(names.last().1)
    } else {
        name_for(names.drop_last(), number)
    }
}

/// The name that the last pair for a number gives it.
pub fn pin_name_for(names: &[(String, String)], number: &str) -> (r: Option<String>)
    ensures
        match r {
            Some(name) => name_for(pairs_of(names@), number@) == Some(name@),
            None => name_for(pairs_of(names@), number@) is None,
        },
{
    let ghost all = pairs_of(names@);
    let mut i: usize = names.len();
    assert(all.take(i as int) =~= all);
    while i > 0
        invariant
            i <= names@.len(),
            all == pairs_of(names@),
            name_for(all, number@) == name_for(all.take(i as int), number@),
        decreases i,
    {
        i -= 1;
        proof {
            assert(all.take(i + 1).last() == (names@[i as int].0@, names@[i as int].1@));
            assert(all.take(i + 1).drop_last() =~= all.take(i as int));
        }
        if same_text(&names[i].0, number) {
            return Some(names[i].1.clone());
        }
    }
    None
}

/// Whether `pad` is `was` with the name that the pairs give its number.
pub open spec fn named_pad(pad: PadTemplate, was: PadTemplate, names: Seq<(Seq<char>, Seq<char>)>) -> bool {
    match name_for(names, was.number@) {
        Some(name) => pad == (PadTemplate { pin_name: pad.pin_name, ..was }) && pad.pin_name is Some
            && pad.pin_name->0@ == name,
        None => pad == was,
    }
}

/// Gives every pad the name that the pairs have for its number.
pub fn name_pads(pads: &mut Vec<PadTemplate>, names: &[(String, String)])
    ensures
        final(pads)@.len() == old(pads)@.len(),
        forall|i: int|
            #![trigger final(pads)@[i]]
            0 <= i < old(pads)@.len() ==> named_pad(
                final(pads)@[i],
                old(pads)@[i],
                pairs_of(names@),
            ),
{
    let ghost before = pads@;
    let mut i: usize = 0;
    while i < pads.len()
        invariant
            i <= pads@.len(),
            pads@.len() == before.len(),
            forall|k: int|
                #![trigger pads@[k]]
                0 <= k < i ==> named_pad(pads@[k], before[k], pairs_of(names@)),
            forall|k: int| i <= k < before.len() ==> #[trigger] pads@[k] == before[k],
        decreases pads@.len() - i,
    {
        match pin_name_for(names, &pads[i].number) {
            Some(name) => {
                let ghost now = pads@;
                pads[i].pin_name = Some(name);
                assert(forall|k: int|
                    0 <= k < before.len() && k != i ==> #[trigger] pads@[k] == now[k]);
            },
            None => {},
        }
        i += 1;
    }
}

impl FetchedPart {
    /// Turns each pad by the angle at its place; pads without one stay.
    pub fn set_rotations(&mut self, angles: &[Angle])
        ensures
            final(self).pads@.len() == old(self).pads@.len(),
            forall|i: int|
                #![trigger final(self).pads@[i]]
                0 <= i < old(self).pads@.len() ==> final(self).pads@[i] == (if i < angles@.len() {
                    PadTemplate { rotation_deg: angles@[i], ..old(self).pads@[i] }
                } else {
                    old(self).pads@[i]
                }),
            *final(self) == (FetchedPart { pads: final(self).pads, ..*old(self) }),
    {
        let ghost before = self.pads@;
        let mut i: usize = 0;
        while i < self.pads.len() && i < angles.len()
            invariant
                i <= self.pads@.len(),
                i <= angles@.len(),
                self.pads@.len() == before.len(),
                *self == (FetchedPart { pads: self.pads, ..*old(self) }),
                forall|k: int|
                    #![trigger self.pads@[k]]
                    0 <= k < before.len() ==> self.pads@[k] == (if k < i {
                        PadTemplate { rotation_deg: angles@[k], ..before[k] }
                    } else {
                        before[k]
                    }),
            decreases self.pads@.len() - i,
        {
            let ghost now = self.pads@;
            self.pads[i].rotation_deg = angles[i];
            assert(forall|k: int|
                0 <= k < before.len() && k != i ==> #[trigger] self.pads@[k] == now[k]);
            i += 1;
        }
    }
}

/// The coordinate that a footprint's head gives for its origin, zero where it
/// gives none.
pub open spec fn head_coordinate(head: JsonShape, name: Seq<char>) -> int {
    match member(head, name) {
        Some(JsonShape::Number(n)) => number_or_zero(n),
        _ => 0,
    }
}

/// The origin of a footprint.
pub open spec fn head_origin(head: JsonShape) -> Spot {
    Spot {
        x: head_coordinate(head, "x"@) as i128,
        y: head_coordinate(head, "y"@) as i128,
    }
}

/// `s` without the question marks at its end.
pub open spec fn without_marks(s: Seq<char>) -> Seq<char>
    decreases s.len(),
{
    if s.len() > 0 && s.last() == '?' {
        without_marks(s.drop_last())
    } else {
        s
    }
}

/// The text that a footprint's head holds among its parameters.
pub open spec fn head_parameter(head: JsonShape, name: Seq<char>) -> Option<Seq<char>> {
    match member(head, "c_para"@) {
        Some(parameters) => member_text(parameters, name),
        None => None,
    }
}

/// The reference prefix of a part: the one its footprint gives without
/// question marks, or `U`.
pub open spec fn prefix_of(head: JsonShape) -> Seq<char> {
    match head_parameter(head, "pre"@) {
        Some(pre) => if without_marks(pre).len() > 0 {
            without_marks(pre)
        } else {
            "U"@
        },
        None => "U"@,
    }
}

/// The text, or nothing.
pub open spec fn or_empty(text: Option<Seq<char>>) -> Seq<char> {
    match text {
        Some(t) => t,
        None => Seq::empty(),
    }
}

/// The description of a part: its package and what the reply says of it.
pub open spec fn description_of(package: Seq<char>, description: Seq<char>) -> Seq<char> {
    if package.len() == 0 {
        description
    } else if description.len() == 0 {
        package
    } else {
        package + " \u{2014} "@ + description
    }
}

/// The name of a part: its title, or its code.
pub open spec fn name_of(code: Seq<char>, result: JsonShape) -> Seq<char> {
    match member_text(result, "title"@) {
        Some(title) => if title.len() > 0 {
            title
        } else {
            code
        },
        None => code,
    }
}

/// The category of a part: the first of its tags.
pub open spec fn category_of(result: JsonShape) -> Option<Seq<char>> {
    match member_items(result, "tags"@) {
        Some(tags) => if tags.len() > 0 {
            match tags[0] {
                JsonShape::Text(t) => Some(t),
                _ => None,
            }
        } else {
            None
        },
        None => None,
    }
}

/// The texts among some values, in order.
pub open spec fn texts_among(items: Seq<JsonShape>) -> Seq<Seq<char>>
    decreases items.len(),
{
    if items.len() == 0 {
        Seq::empty()
    } else {
        match items.last() {
            JsonShape::Text(t) => texts_among(items.drop_last()).push(t),
            _ => texts_among(items.drop_last()),
        }
    }
}

/// The shape lines of a footprint.
pub open spec fn shape_lines(data: JsonShape) -> Seq<Seq<char>> {
    match member_items(data, "shape"@) {
        Some(items) => texts_among(items),
        None => Seq::empty(),
    }
}

/// The readable pad lines among some lines, in order.
pub open spec fn pad_lines(lines: Seq<Seq<char>>) -> Seq<Seq<char>>
    decreases lines.len(),
{
    if lines.len() == 0 {
        Seq::empty()
    } else if is_pad_line(lines.last()) {
        pad_lines(lines.drop_last()).push(lines.last())
    } else {
        pad_lines(lines.drop_last())
    }
}

/// What is wrong with the footprint data of a part.
pub open spec fn data_problem(code: Seq<char>, data: JsonShape) -> Option<FetchProblem> {
    if member(data, "head"@) is None {
        Some(FetchProblem::Parse("footprint has no 'head'"@))
    } else if member_items(data, "shape"@) is None {
        Some(FetchProblem::Parse("footprint has no 'shape' array"@))
    } else if pad_lines(shape_lines(data)).len() == 0 {
        Some(FetchProblem::NoFootprint(code))
    } else {
        None
    }
}

/// Whether a part is what a reply and its footprint data say.
pub open spec fn reads_part(part: FetchedPart, code: Seq<char>, result: JsonShape, data: JsonShape) -> bool {
    let head = member(data, "head"@)->0;
    let lines = shape_lines(data);
    let pads = pad_lines(lines);
    &&& part.lcsc_code@ == code
    &&& part.name@ == name_of(code, result)
    &&& part.reference_prefix@ == prefix_of(head)
    &&& part.description@ == description_of(
        or_empty(head_parameter(head, "package"@)),
        or_empty(member_text(result, "description"@)),
    )
    &&& match part.category {
        Some(c) => category_of(result) == Some(c@),
        None => category_of(result) is None,
    }
    &&& part.pads@.len() == pads.len()
    &&& forall|i: int|
        #![trigger part.pads@[i]]
        0 <= i < pads.len() ==> reads_pad(part.pads@[i], pads[i], head_origin(head))
    &&& strings_in(part.pad_rotations@) == pads.map_values(|line: Seq<char>| pad_rotation(line))
    &&& part.explicit_courtyard == silk_courtyard(lines, head_origin(head))
}

fn coordinate_of(head: &Json, name: &str) -> (r: i128)
    ensures
        r == head_coordinate(head@, name@),
        measured(r as int, 1),
{
    match head.get(name) {
        Some(Json::Number(n)) => match read_number(&chars_of(n)) {
            Some(v) => v,
            None => 0,
        },
        _ => 0,
    }
}

/// `s` without the question marks at its end.
fn trim_marks(s: &str) -> (r: String)
    ensures
        r@ == without_marks(s@),
{
    let chars: Vec<char> = chars_of(s);
    let mut end: usize = chars.len();
    assert(s@.take(end as int) =~= s@);
    while end > 0 && chars[end - 1] == '?'
        invariant
            end <= chars@.len(),
            chars@ == s@,
            without_marks(s@) == without_marks(s@.take(end as int)),
        decreases end,
    {
        assert(s@.take(end as int).drop_last() =~= s@.take(end - 1));
        end -= 1;
    }
    assert(s@.take(end as int) =~= chars@.subrange(0, end as int));
    string_of(&slice_of(&chars, 0, end))
}

fn parameter_of<'a>(head: &'a Json, name: &str) -> (r: Option<&'a str>)
    ensures
        match r {
            Some(t) => head_parameter(head@, name@) == Some(t@),
            None => head_parameter(head@, name@) is None,
        },
{
    match head.get("c_para") {
        Some(parameters) => parameters.get_text(name),
        None => None,
    }
}

fn reference_prefix(head: &Json) -> (r: String)
    ensures
        r@ == prefix_of(head@),
{
    match parameter_of(head, "pre") {
        Some(pre) => {
            let kept: String = trim_marks(pre);
            if kept.as_str().is_empty() {
                "U".to_owned()
            } else {
                kept
            }
        },
        None => "U".to_owned(),
    }
}

fn first_tag(result: &Json) -> (r: Option<String>)
    ensures
        match r {
            Some(c) => category_of(result@) == Some(c@),
            None => category_of(result@) is None,
        },
{
    match result.get("tags") {
        Some(Json::Array(tags)) => {
            let ghost all = member_items(result@, "tags"@)->0;
            if tags.len() == 0 {
                return None;
            }
            assert(all[0] == tags@[0]@);
            match &tags[0] {
                Json::Text(t) => Some(t.clone()),
                _ => None,
            }
        },
        _ => None,
    }
}

/// The texts among some values.
fn texts_among_of(items: &[Json], Ghost(shapes): Ghost<Seq<JsonShape>>) -> (r: Vec<String>)
    requires
        shapes.len() == items@.len(),
        forall|k: int| 0 <= k < items@.len() ==> #[trigger] shapes[k] == items@[k]@,
    ensures
        strings_in(r@) == texts_among(shapes),
{
    let mut r: Vec<String> = Vec::new();
    let mut i: usize = 0;
    assert(strings_in(r@) =~= texts_among(shapes.take(0)));
    while i < items.len()
        invariant
            i <= items@.len(),
            shapes.len() == items@.len(),
            forall|k: int| 0 <= k < items@.len() ==> #[trigger] shapes[k] == items@[k]@,
            strings_in(r@) == texts_among(shapes.take(i as int)),
        decreases items@.len() - i,
    {
        let ghost before = r@;
        proof {
            assert(shapes.take(i + 1).drop_last() =~= shapes.take(i as int));
            assert(shapes.take(i + 1).last() == shapes[i as int]);
        }
        match &items[i] {
            Json::Text(t) => {
                r.push(t.clone());
                assert(strings_in(r@) =~= strings_in(before).push(t@));
            },
            _ => {},
        }
        i += 1;
    }
    assert(shapes.take(i as int) =~= shapes);
    r
}

/// The pads among some shape lines, and the texts of their rotations.
fn read_pads(lines: &[String], origin: Spot) -> (r: (Vec<PadTemplate>, Vec<String>))
    requires
        origin.within(1),
    ensures
        ({
            let pads = pad_lines(strings_in(lines@));
            &&& r.0@.len() == pads.len()
            &&& forall|i: int|
                #![trigger r.0@[i]]
                0 <= i < pads.len() ==> reads_pad(r.0@[i], pads[i], origin)
            &&& strings_in(r.1@) == pads.map_values(|line: Seq<char>| pad_rotation(line))
        }),
{
    let ghost all = strings_in(lines@);
    let mut pads: Vec<PadTemplate> = Vec::new();
    let mut rotations: Vec<String> = Vec::new();
    let mut i: usize = 0;
    assert(strings_in(rotations@) =~= pad_lines(all.take(0)).map_values(
        |line: Seq<char>| pad_rotation(line),
    ));
    while i < lines.len()
        invariant
            i <= lines@.len(),
            origin.within(1),
            all == strings_in(lines@),
            pads@.len() == pad_lines(all.take(i as int)).len(),
            forall|k: int|
                #![trigger pads@[k]]
                0 <= k < pads@.len() ==> reads_pad(pads@[k], pad_lines(all.take(i as int))[k], origin),
            strings_in(rotations@) == pad_lines(all.take(i as int)).map_values(
                |line: Seq<char>| pad_rotation(line),
            ),
        decreases lines@.len() - i,
    {
        let ghost before = pad_lines(all.take(i as int));
        let ghost rotations_before = rotations@;
        proof {
            assert(all.take(i + 1).drop_last() =~= all.take(i as int));
            assert(all.take(i + 1).last() == all[i as int]);
        }
        match parse_pad_line(&lines[i], origin) {
            Some((pad, rotation)) => {
                let ghost line = all[i as int];
                assert(pad_lines(all.take(i + 1)) == before.push(line));
                pads.push(pad);
                rotations.push(rotation);
                proof {
                    assert(strings_in(rotations@) =~= strings_in(rotations_before).push(
                        rotation@,
                    ));
                    assert(before.push(line).map_values(|line: Seq<char>| pad_rotation(line))
                        =~= before.map_values(|line: Seq<char>| pad_rotation(line)).push(
                        pad_rotation(line),
                    ));
                }
            },
            None => {},
        }
        i += 1;
    }
    assert(all.take(i as int) =~= all);
    (pads, rotations)
}

fn described(package: &str, description: &str) -> (r: String)
    ensures
        r@ == description_of(package@, description@),
{
    if package.is_empty() {
        description.to_owned()
    } else if description.is_empty() {
        package.to_owned()
    } else {
        joined(&joined(package, " \u{2014} "), description)
    }
}

/// Reads a part from the `result` of a reply and its footprint data.
pub fn part_from_data(code: &str, result: &Json, data: &Json) -> (r: Result<FetchedPart, FetchError>)
    ensures
        match r {
            Ok(part) => data_problem(code@, data@) is None && reads_part(
                part,
                code@,
                result@,
                data@,
            ),
            Err(e) => data_problem(code@, data@) == Some(e@),
        },
{
    let head: &Json = match data.get("head") {
        Some(head) => head,
        None => {
            return Err(FetchError::Parse("footprint has no 'head'".to_owned()));
        },
    };
    let origin = Spot { x: coordinate_of(head, "x"), y: coordinate_of(head, "y") };
    let lines: Vec<String> = match data.get("shape") {
        Some(Json::Array(items)) => {
            let ghost shapes = member_items(data@, "shape"@)->0;
            texts_among_of(items, Ghost(shapes))
        },
        _ => {
            return Err(FetchError::Parse("footprint has no 'shape' array".to_owned()));
        },
    };
    let (pads, pad_rotations) = read_pads(&lines, origin);
    if pads.len() == 0 {
        return Err(FetchError::NoFootprint(code.to_owned()));
    }
    let name: String = match result.get_text("title") {
        Some(title) => if title.is_empty() {
            code.to_owned()
        } else {
            title.to_owned()
        },
        None => code.to_owned(),
    };
    let package: &str = match parameter_of(head, "package") {
        Some(package) => package,
        None => "",
    };
    let description: &str = match result.get_text("description") {
        Some(description) => description,
        None => "",
    };
    proof {
        reveal_strlit("");
        assert(""@ =~= Seq::<char>::empty());
    }
    Ok(
        FetchedPart {
            lcsc_code: code.to_owned(),
            name,
            reference_prefix: reference_prefix(head),
            description: described(package, description),
            category: first_tag(result),
            pads,
            pad_rotations,
            explicit_courtyard: parse_silk_courtyard(&lines, origin),
        },
    )
}

/// Where a reply keeps its footprint data.
pub open spec fn data_field(result: JsonShape) -> Option<JsonShape> {
    match member(result, "packageDetail"@) {
        Some(package) => member(package, "dataStr"@),
        None => None,
    }
}

/// The footprint data of a reply, or the message of the error in it. Data
/// that stands there as a text is read as JSON.
pub open spec fn footprint_data(field: JsonShape) -> Result<JsonShape, Seq<char>> {
    match field {
        JsonShape::Text(t) => json_of(t),
        other => Ok(other),
    }
}

/// What is wrong with a reply.
pub open spec fn response_problem(code: Seq<char>, body: JsonShape) -> Option<FetchProblem> {
    if member(body, "success"@) != Some(JsonShape::Bool(true)) {
        Some(FetchProblem::NotFound(code))
    } else {
        match member(body, "result"@) {
            None => Some(FetchProblem::Parse("missing 'result'"@)),
            Some(result) => match data_field(result) {
                None => Some(FetchProblem::NoFootprint(code)),
                Some(field) => match footprint_data(field) {
                    Err(message) => Some(FetchProblem::Parse(message)),
                    Ok(data) => data_problem(code, data),
                },
            },
        }
    }
}

/// Reads the part that a reply describes.
pub fn parse_response(code: &str, body: &Json) -> (r: Result<FetchedPart, FetchError>)
    ensures
        match r {
            Ok(part) => response_problem(code@, body@) is None && reads_part(
                part,
                code@,
                member(body@, "result"@)->0,
                footprint_data(data_field(member(body@, "result"@)->0)->0)->Ok_0,
            ),
            Err(e) => response_problem(code@, body@) == Some(e@),
        },
{
    match body.get("success") {
        Some(Json::Bool(true)) => {},
        _ => {
            return Err(FetchError::NotFound(code.to_owned()));
        },
    }
    let result: &Json = match body.get("result") {
        Some(result) => result,
        None => {
            return Err(FetchError::Parse("missing 'result'".to_owned()));
        },
    };
    let package: &Json = match result.get("packageDetail") {
        Some(package) => package,
        None => {
            return Err(FetchError::NoFootprint(code.to_owned()));
        },
    };
    match package.get("dataStr") {
        Some(Json::Text(text)) => match parse_json(text) {
            Ok(data) => part_from_data(code, result, &data),
            Err(message) => Err(FetchError::Parse(message)),
        },
        Some(data) => part_from_data(code, result, data),
        None => Err(FetchError::NoFootprint(code.to_owned())),
    }
}

/// Reads the part that the text of a reply describes.
pub fn read_component(code: &str, reply: &str) -> (r: Result<FetchedPart, FetchError>)
    ensures
        match (json_of(reply@), r) {
            (Err(message), Err(e)) => e@ == FetchProblem::Parse(message),
            (Ok(body), Ok(part)) => response_problem(code@, body) is None && reads_part(
                part,
                code@,
                member(body, "result"@)->0,
                footprint_data(data_field(member(body, "result"@)->0)->0)->Ok_0,
            ),
            (Ok(body), Err(e)) => response_problem(code@, body) == Some(e@),
            _ => false,
        },
{
    match parse_json(reply) {
        Ok(body) => parse_response(code, &body),
        Err(message) => Err(FetchError::Parse(message)),
    }
}

/// The pins that the text of a reply names; none if it is no JSON.
pub fn read_pin_names(reply: &str) -> (r: Vec<(String, String)>)
    ensures
        pairs_of(r@) == (match json_of(reply@) {
            Ok(body) => reply_pins(body),
            Err(_) => Seq::empty(),
        }),
{
    match parse_json(reply) {
        Ok(body) => parse_pin_names(&body),
        Err(_) => {
            let none: Vec<(String, String)> = Vec::new();
            assert(pairs_of(none@) =~= Seq::<(Seq<char>, Seq<char>)>::empty());
            none
        },
    }
}

} // verus!
