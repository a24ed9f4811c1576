//! Rebuilding an editable board from what a board file holds: a template for
//! every footprint, and a board on which the footprints stand as they did.

use vstd::prelude::*;

use crate::board_doc::{
    half, halved, net_ids_ok, silk_text_ids_ok, BoardDoc, CopperWeight, LayerCount, NetRecord,
    SilkText, SilkTextId,
};
use crate::footprint::{
    fits, larger, smaller, FootprintTemplate, HoleTemplate, PadShapeKind, PadTemplate,
};
use crate::geom::{Angle, Point, Polygon, Unit};
use crate::item::{obstacles_in, Entry, Item, ItemId, LayerId, NetId, Node, ZoneConnection};
use crate::kicad_export::{shape_written, WritePadShape};
use crate::matrix::{item_total, lemma_item_total_grows};
use crate::parts::{parts_only, with_pad_nets};
use crate::placement::PlacedShape;
use crate::text::{chars_of, decimal, decimal_string, joined, string_of};

verus! {

/// A pad as a board file holds it.
#[derive(Debug, Clone)]
pub struct ImportedPad {
    pub number: String,
    pub offset: Point,
    pub shape: WritePadShape,
    pub rotation_deg: Angle,
    pub drill: Option<Unit>,
    pub layer: LayerId,
    pub net: Option<NetId>,
}

/// A footprint as a board file holds it.
#[derive(Debug, Clone)]
pub struct ImportedFootprint {
    pub reference: String,
    pub position: Point,
    pub rotation_deg: Angle,
    pub pads: Vec<ImportedPad>,
    pub holes: Vec<HoleTemplate>,
}

/// A silkscreen text as a board file holds it.
#[derive(Debug, Clone)]
pub struct ImportedText {
    pub text: String,
    pub position: Point,
    pub rotation_deg: Angle,
    pub layer: LayerId,
    pub height: Unit,
    pub line_width: Unit,
}

/// What a board file holds besides its footprints. Net 0 is the file's way of
/// saying "no net".
#[derive(Debug)]
pub struct FlatBoard {
    pub outline: Vec<Polygon>,
    pub items: Vec<Item>,
    pub nets: Vec<(u32, String)>,
    pub silk_texts: Vec<ImportedText>,
}

/// A rebuilt board and the templates that its parts refer to.
#[derive(Debug)]
pub struct ImportedDoc {
    pub doc: BoardDoc,
    pub templates: Vec<FootprintTemplate>,
}

/// The radius that a pad counts with: half of its shorter side, and at least
/// one.
pub open spec fn radius_of(w: Unit, h: Unit) -> int {
    larger(half(smaller(w as int, h as int)), 1)
}

/// The radius that a pad counts with.
pub fn collision_radius(w: Unit, h: Unit) -> (r: Unit)
    ensures
        r == radius_of(w, h),
{
    let shorter: Unit = if w <= h {
        w
    } else {
        h
    };
    let radius: Unit = halved(shorter);
    if radius >= 1 {
        radius
    } else {
        1
    }
}

/// The true shape of a pad that was read.
pub open spec fn kind_read(shape: WritePadShape) -> PadShapeKind {
    match shape {
        WritePadShape::Circle { .. } => PadShapeKind::Circle,
        WritePadShape::Rect { width, height } => PadShapeKind::Rect { width, height },
        WritePadShape::Oval { width, height } => PadShapeKind::Oval { width, height },
    }
}

/// The true shape of a pad that was read.
pub fn pad_shape_kind(shape: WritePadShape) -> (r: PadShapeKind)
    ensures
        r == kind_read(shape),
{
    match shape {
        WritePadShape::Circle { .. } => PadShapeKind::Circle,
        WritePadShape::Rect { width, height } => PadShapeKind::Rect { width, height },
        WritePadShape::Oval { width, height } => PadShapeKind::Oval { width, height },
    }
}

/// The sides of a pad that was read.
pub open spec fn sides_read(shape: WritePadShape) -> (Unit, Unit) {
    match shape {
        WritePadShape::Circle { diameter } => (diameter, diameter),
        WritePadShape::Rect { width, height } => (width, height),
        WritePadShape::Oval { width, height } => (width, height),
    }
}

/// The sides of a pad that was read.
pub fn shape_dims(shape: WritePadShape) -> (r: (Unit, Unit))
    ensures
        r == sides_read(shape),
{
    match shape {
        WritePadShape::Circle { diameter } => (diameter, diameter),
        WritePadShape::Rect { width, height } => (width, height),
        WritePadShape::Oval { width, height } => (width, height),
    }
}

/// An ASCII letter.
pub open spec fn is_letter(c: char) -> bool {
    ('A' <= c && c <= 'Z') || ('a' <= c && c <= 'z')
}

/// The letters that a text begins with.
pub open spec fn leading_letters(s: Seq<char>) -> Seq<char>
    decreases s.len(),
{
    if s.len() > 0 && is_letter(s[0]) {
        seq![s[0]] + leading_letters(s.drop_first())
    } else {
        Seq::empty()
    }
}

/// The prefix for new references of a part like the one with this reference.
pub open spec fn prefix_of(reference: Seq<char>) -> Seq<char> {
    if leading_letters(reference).len() == 0 {
        "P"@
    } else {
        leading_letters(reference)
    }
}

/// The prefix for new references of a part like the one with this reference.
pub fn reference_prefix_of(reference: &str) -> (r: String)
    ensures
        r@ == prefix_of(reference@),
{
    let chars: Vec<char> = chars_of(reference);
    let mut prefix: Vec<char> = Vec::new();
    let mut i: usize = 0;
    proof {
        assert(chars@.skip(0) =~= chars@);
        assert(prefix@ + leading_letters(chars@.skip(0)) =~= leading_letters(reference@));
    }
    while i < chars.len() && (('A' <= chars[i] && chars[i] <= 'Z') || ('a' <= chars[i] && chars[i]
        <= 'z'))
        invariant
            i <= chars@.len(),
            prefix@ + leading_letters(chars@.skip(i as int)) == leading_letters(reference@),
        decreases chars@.len() - i,
    {
        let ghost before = prefix@;
        let ghost rest = chars@.skip(i as int);
        assert(rest[0] == chars@[i as int]);
        assert(rest.drop_first() =~= chars@.skip(i + 1));
        prefix.push(chars[i]);
        assert(before + (seq![rest[0]] + leading_letters(chars@.skip(i + 1))) =~= prefix@
            + leading_letters(chars@.skip(i + 1)));
        i += 1;
    }
    proof {
        if i < chars@.len() {
            assert(chars@.skip(i as int)[0] == chars@[i as int]);
        }
        assert(prefix@ + Seq::<char>::empty() =~= prefix@);
    }
    if prefix.len() == 0 {
        "P".to_owned()
    } else {
        string_of(&prefix)
    }
}

/// The name of the template of a footprint that was read: by its reference or
/// its place in the file, with the label of the board if there is one.
pub open spec fn template_text(reference: Seq<char>, index: int, label: Seq<char>) -> Seq<char> {
    if reference.len() == 0 && label.len() == 0 {
        "Imported footprint #"@ + decimal((index + 1) as nat)
    } else if reference.len() == 0 {
        "Imported ["@ + label + "] footprint #"@ + decimal((index + 1) as nat)
    } else if label.len() == 0 {
        "Imported: "@ + reference
    } else {
        "Imported ["@ + label + "]: "@ + reference
    }
}

/// The name of the template of a footprint that was read.
pub fn template_name_for(reference: &str, index: usize, board_label: &str) -> (r: String)
    requires
        index < u64::MAX,
    ensures
        r@ == template_text(reference@, index as int, board_label@),
{
    if reference.is_empty() {
        let number = decimal_string(index as u64 + 1);
        if board_label.is_empty() {
            return joined("Imported footprint #", &number);
        }
        let mut s = joined("Imported [", board_label);
        s.append("] footprint #");
        s.append(&number);
        return s;
    }
    if board_label.is_empty() {
        return joined("Imported: ", reference);
    }
    let mut s = joined("Imported [", board_label);
    s.append("]: ");
    s.append(reference);
    s
}

/// The same reference imported from two boards never gives the same template
/// name: a name tells the label it was made with, as long as labels have no
/// closing bracket in them.
pub proof fn law_labeled_names_do_not_collide(
    r1: Seq<char>,
    i1: int,
    l1: Seq<char>,
    r2: Seq<char>,
    i2: int,
    l2: Seq<char>,
)
    requires
        l1.len() > 0,
        l2.len() > 0,
        !l1.contains(']'),
        !l2.contains(']'),
        template_text(r1, i1, l1) == template_text(r2, i2, l2),
    ensures
        l1 == l2,
{
    reveal_strlit("Imported [");
    reveal_strlit("]: ");
    reveal_strlit("] footprint #");
    let name = template_text(r1, i1, l1);
    let h = "Imported ["@.len() as int;
    let a = l1.len() as int;
    let b = l2.len() as int;
    assert(name[h + a] == ']');
    assert(template_text(r2, i2, l2)[h + b] == ']');
    assert(name.subrange(h, h + a) =~= l1);
    assert(template_text(r2, i2, l2).subrange(h, h + b) =~= l2);
    if a < b {
        assert(l2[a] == name[h + a]);
    }
    if b < a {
        assert(l1[b] == template_text(r2, i2, l2)[h + b]);
    }
}

/// One footprint read from boards with different labels never gets the same
/// template name, whatever the labels are; and a name with a reference in it
/// does not depend on the footprint's place in the file.
pub proof fn law_a_name_tells_its_label(
    reference: Seq<char>,
    index: int,
    l1: Seq<char>,
    l2: Seq<char>,
    other_index: int,
)
    ensures
        l1 != l2 ==> template_text(reference, index, l1) != template_text(reference, index, l2),
        reference.len() > 0 ==> template_text(reference, index, l1) == template_text(
            reference,
            other_index,
            l1,
        ),
{
    reveal_strlit("Imported [");
    reveal_strlit("Imported: ");
    reveal_strlit("Imported footprint #");
    let a = template_text(reference, index, l1);
    let b = template_text(reference, index, l2);
    let h = "Imported ["@.len() as int;
    if a == b {
        if l1.len() > 0 && l2.len() > 0 {
            let tail = if reference.len() == 0 {
                "] footprint #"@ + decimal((index + 1) as nat)
            } else {
                "]: "@ + reference
            };
            assert(a =~= "Imported ["@ + l1 + tail);
            assert(b =~= "Imported ["@ + l2 + tail);
            assert(l1.len() == l2.len());
            assert(a.subrange(h, h + l1.len()) =~= l1);
            assert(b.subrange(h, h + l2.len()) =~= l2);
        } else if l1.len() > 0 {
            assert(a[9] == '[');
            assert(b[9] != '[');
        } else if l2.len() > 0 {
            assert(b[9] == '[');
            assert(a[9] != '[');
        } else {
            assert(l1 =~= l2);
        }
    }
}

/// `t` is the pad of a template made from a pad that was read.
pub open spec fn is_pad_read(t: PadTemplate, pad: ImportedPad) -> bool {
    let (w, h) = sides_read(pad.shape);
    &&& t.offset == pad.offset
    &&& t.radius == radius_of(w, h)
    &&& t.layer == pad.layer
    &&& t.number@ == pad.number@
    &&& t.shape == kind_read(pad.shape)
    &&& t.rotation_deg == pad.rotation_deg
    &&& t.hole_diameter == pad.drill
    &&& t.pin_name is None
    &&& t.zone_connection == ZoneConnection::Thermal
}

/// `t` is the template made from a footprint that was read; one with nothing
/// but mechanical holes is no line of a bill.
pub open spec fn is_template_read(
    t: FootprintTemplate,
    fp: ImportedFootprint,
    index: int,
    label: Seq<char>,
) -> bool {
    &&& t.name@ == template_text(fp.reference@, index, label)
    &&& t.reference_prefix@ == prefix_of(fp.reference@)
    &&& t.pads@.len() == fp.pads@.len()
    &&& forall|k: int|
        #![trigger t.pads@[k]]
        0 <= k < t.pads@.len() ==> is_pad_read(t.pads@[k], fp.pads@[k])
    &&& t.holes@ == fp.holes@
    &&& t.exclude_from_bom == (fp.holes@.len() > 0 && fp.pads@.len() == 0)
    &&& t.explicit_courtyard is None
}

/// The template of a footprint that was read.
pub fn build_template(fp: &ImportedFootprint, index: usize, board_label: &str) -> (t:
    FootprintTemplate)
    requires
        index < u64::MAX,
    ensures
        is_template_read(t, *fp, index as int, board_label@),
{
    let mut pads: Vec<PadTemplate> = Vec::new();
    let mut i: usize = 0;
    while i < fp.pads.len()
        invariant
            i <= fp.pads@.len(),
            pads@.len() == i,
            forall|k: int| #![trigger pads@[k]] 0 <= k < i ==> is_pad_read(pads@[k], fp.pads@[k]),
        decreases fp.pads@.len() - i,
    {
        let pad = &fp.pads[i];
        let (w, h): (Unit, Unit) = shape_dims(pad.shape);
        pads.push(
            PadTemplate {
                offset: pad.offset,
                radius: collision_radius(w, h),
                layer: pad.layer,
                number: pad.number.clone(),
                shape: pad_shape_kind(pad.shape),
                rotation_deg: pad.rotation_deg,
                hole_diameter: pad.drill,
                pin_name: None,
                zone_connection: ZoneConnection::Thermal,
            },
        );
        i += 1;
    }
    let mut holes: Vec<HoleTemplate> = Vec::new();
    let mut k: usize = 0;
    while k < fp.holes.len()
        invariant
            k <= fp.holes@.len(),
            holes@ == fp.holes@.take(k as int),
        decreases fp.holes@.len() - k,
    {
        holes.push(fp.holes[k]);
        k += 1;
        assert(holes@ =~= fp.holes@.take(k as int));
    }
    assert(fp.holes@.take(k as int) =~= fp.holes@);
    let exclude_from_bom = holes.len() > 0 && pads.len() == 0;
    FootprintTemplate {
        name: template_name_for(&fp.reference, index, board_label),
        reference_prefix: reference_prefix_of(&fp.reference),
        pads,
        holes,
        exclude_from_bom,
        explicit_courtyard: None,
    }
}

/// The item is on the back copper.
pub open spec fn uses_back(item: Item) -> bool {
    match item {
        Item::Pad { layer, hole_diameter, .. } => layer == LayerId::BCu || hole_diameter is Some,
        Item::Track { layer, .. } => layer == LayerId::BCu,
        Item::Via { .. } => true,
        Item::Hole { .. } => true,
        Item::Zone { layer, .. } => layer == LayerId::BCu,
    }
}

fn is_on_back(item: &Item) -> (r: bool)
    ensures
        r == uses_back(*item),
{
    match item {
        Item::Pad { layer, hole_diameter, .. } => *layer == LayerId::BCu
            || hole_diameter.is_some(),
        Item::Track { layer, .. } => *layer == LayerId::BCu,
        Item::Via { .. } => true,
        Item::Hole { .. } => true,
        Item::Zone { layer, .. } => *layer == LayerId::BCu,
    }
}

/// Some item is on the back copper.
pub open spec fn back_used(entries: Seq<Entry>) -> bool {
    exists|i: int| 0 <= i < entries.len() && uses_back((#[trigger] entries[i]).item)
}

/// Some pad of some footprint is on the back copper.
pub open spec fn back_pads(fps: Seq<ImportedFootprint>) -> bool {
    exists|f: int| 0 <= f < fps.len() && #[trigger] has_back_pad(fps[f])
}

/// Some pad of the footprint is on the back copper.
pub open spec fn has_back_pad(fp: ImportedFootprint) -> bool {
    exists|k: int| 0 <= k < fp.pads@.len() && (#[trigger] fp.pads@[k]).layer == LayerId::BCu
}

/// Two layers if anything is on the back copper, else one.
pub fn guess_layer_count(node: &Node, footprints: &[ImportedFootprint]) -> (r: LayerCount)
    ensures
        r == if back_used(node.entries@) || back_pads(footprints@) {
            LayerCount::Two
        } else {
            LayerCount::One
        },
{
    let mut i: usize = 0;
    while i < node.entries.len()
        invariant
            i <= node.entries@.len(),
            forall|k: int| 0 <= k < i ==> !uses_back((#[trigger] node.entries@[k]).item),
        decreases node.entries@.len() - i,
    {
        if is_on_back(&node.entries[i].item) {
            assert(uses_back(node.entries@[i as int].item));
            return LayerCount::Two;
        }
        i += 1;
    }
    let mut f: usize = 0;
    while f < footprints.len()
        invariant
            f <= footprints@.len(),
            !back_used(node.entries@),
            forall|k: int| 0 <= k < f ==> !#[trigger] has_back_pad(footprints@[k]),
        decreases footprints@.len() - f,
    {
        let mut k: usize = 0;
        while k < footprints[f].pads.len()
            invariant
                f < footprints@.len(),
                k <= footprints@[f as int].pads@.len(),
                forall|m: int|
                    0 <= m < k ==> (#[trigger] footprints@[f as int].pads@[m]).layer != LayerId::BCu,
            decreases footprints@[f as int].pads@.len() - k,
        {
            if footprints[f].pads[k].layer == LayerId::BCu {
                assert(footprints@[f as int].pads@[k as int].layer == LayerId::BCu);
                assert(has_back_pad(footprints@[f as int]));
                return LayerCount::Two;
            }
            k += 1;
        }
        f += 1;
    }
    LayerCount::One
}

/// The items that no footprint owns.
pub open spec fn loose_items(items: Seq<Item>) -> Seq<Item>
    decreases items.len(),
{
    if items.len() == 0 {
        items
    } else {
        let rest = loose_items(items.drop_last());
        if items.last() is Pad || items.last() is Hole {
            rest
        } else {
            rest.push(items.last())
        }
    }
}

/// The largest net number, or 0.
pub open spec fn largest_net(nets: Seq<(u32, String)>) -> int
    decreases nets.len(),
{
    if nets.len() == 0 {
        0
    } else {
        larger(largest_net(nets.drop_last()), nets.last().0 as int)
    }
}

/// No net number stands in the table twice.
pub open spec fn numbers_are_unique(nets: Seq<(u32, String)>) -> bool {
    forall|i: int, j: int|
        #![trigger nets[i], nets[j]]
        0 <= i < j < nets.len() ==> nets[i].0 != nets[j].0
}

/// The table has this number under this name, and it is a real net.
pub open spec fn table_has(nets: Seq<(u32, String)>, id: u32, name: Seq<char>) -> bool {
    id != 0 && exists|i: int|
        0 <= i < nets.len() && (#[trigger] nets[i]).0 == id && nets[i].1@ == name
}

/// The records have this number under this name.
pub open spec fn records_have(records: Seq<NetRecord>, id: u32, name: Seq<char>) -> bool {
    exists|i: int|
        0 <= i < records.len() && (#[trigger] records[i]).id == NetId(id) && records[i].name@ == name
}

/// The records stand in the order of their numbers, none of them twice.
pub open spec fn records_in_order(records: Seq<NetRecord>) -> bool {
    forall|i: int, j: int|
        #![trigger records[i], records[j]]
        0 <= i < j < records.len() ==> records[i].id.0 < records[j].id.0
}

/// The nets of the table as records, in the order of their numbers.
#[verifier::spinoff_prover]
#[verifier::rlimit(40)]
fn records_of(nets: &[(u32, String)]) -> (r: Vec<NetRecord>)
    requires
        numbers_are_unique(nets@),
    ensures
        records_in_order(r@),
        forall|id: u32, name: Seq<char>| #[trigger]
            records_have(r@, id, name) <==> table_has(nets@, id, name),
        forall|i: int| #![trigger r@[i]] 0 <= i < r@.len() ==> r@[i].id.0 <= largest_net(nets@),
{
    let mut r: Vec<NetRecord> = Vec::new();
    let mut i: usize = 0;
    while i < nets.len()
        invariant
            i <= nets@.len(),
            numbers_are_unique(nets@),
            records_in_order(r@),
            forall|id: u32, name: Seq<char>| #[trigger]
                records_have(r@, id, name) <==> table_has(nets@.take(i as int), id, name),
            forall|k: int|
                #![trigger r@[k]]
                0 <= k < r@.len() ==> r@[k].id.0 <= largest_net(nets@.take(i as int)) && exists|m:
                    int|
                    0 <= m < i && (#[trigger] nets@[m]).0 == r@[k].id.0,
        decreases nets@.len() - i,
    {
        let ghost before = r@;
        let ghost so_far = nets@.take(i as int);
        let ghost more = nets@.take(i + 1);
        let id: u32 = nets[i].0;
        proof {
            assert(more.drop_last() =~= so_far);
            assert(more.last() == nets@[i as int]);
            assert forall|x: u32, name: Seq<char>| #[trigger] table_has(more, x, name) <==> table_has(
                so_far,
                x,
                name,
            ) || (x != 0 && x == id && name == nets@[i as int].1@) by {
                assert(more[i as int] == nets@[i as int]);
                if table_has(so_far, x, name) {
                    let k = choose|k: int|
                        0 <= k < so_far.len() && (#[trigger] so_far[k]).0 == x && so_far[k].1@ == name;
                    assert(more[k].0 == x);
                }
                if table_has(more, x, name) {
                    let k = choose|k: int|
                        0 <= k < more.len() && (#[trigger] more[k]).0 == x && more[k].1@ == name;
                    if k < i {
                        assert(so_far[k].0 == x);
                    }
                }
            }
        }
        if id != 0 {
            let mut p: usize = r.len();
            while p > 0 && r[p - 1].id.0 > id
                invariant
                    p <= r@.len(),
                    r@ == before,
                    forall|k: int| p <= k < r@.len() ==> (#[trigger] r@[k]).id.0 > id,
                decreases p,
            {
                p -= 1;
            }
            proof {
                assert forall|k: int| 0 <= k < before.len() implies (#[trigger] before[k]).id.0 != id by {
                    let m = choose|m: int| 0 <= m < i && (#[trigger] nets@[m]).0 == before[k].id.0;
                    assert(nets@[m].0 != nets@[i as int].0);
                }
            }
            let record = NetRecord { id: NetId(id), name: nets[i].1.clone() };
            r.insert(p, record);
            proof {
                let after = r@;
                assert(after == before.insert(p as int, record));
                let place = |k: int|
                    if k < p {
                        k
                    } else {
                        k + 1
                    };
                assert forall|k: int| 0 <= k < before.len() implies #[trigger] before[k]
                    == after[place(k)] by {
                }
                assert(after[p as int] == record);
                assert forall|a: int, b: int| #![trigger after[a], after[b]] 0 <= a < b
                    < after.len() implies after[a].id.0 < after[b].id.0 by {
                    let a2 = if a < p {
                        a
                    } else {
                        a - 1
                    };
                    let b2 = if b < p {
                        b
                    } else {
                        b - 1
                    };
                    if a != p {
                        assert(after[a] == before[a2]);
                    }
                    if b != p {
                        assert(after[b] == before[b2]);
                    }
                    if b == p && a < p - 1 {
                        assert(before[a].id.0 < before[p - 1].id.0);
                    }
                }
                assert forall|x: u32, name: Seq<char>| #[trigger] records_have(after, x, name)
                    <==> records_have(before, x, name) || (x == id && name == record.name@) by {
                    if records_have(before, x, name) {
                        let k = choose|k: int|
                            0 <= k < before.len() && (#[trigger] before[k]).id == NetId(x)
                                && before[k].name@ == name;
                        assert(after[place(k)].id == NetId(x));
                    }
                    if records_have(after, x, name) {
                        let k = choose|k: int|
                            0 <= k < after.len() && (#[trigger] after[k]).id == NetId(x)
                                && after[k].name@ == name;
                        if k != p {
                            let k2 = if k < p {
                                k
                            } else {
                                k - 1
                            };
                            assert(before[k2] == after[k]);
                        }
                    }
                }
                assert forall|k: int| #![trigger after[k]] 0 <= k < after.len() implies after[k].id.0
                    <= largest_net(more) && exists|m: int|
                    0 <= m < i + 1 && (#[trigger] nets@[m]).0 == after[k].id.0 by {
                    if k != p {
                        let k2 = if k < p {
                            k
                        } else {
                            k - 1
                        };
                        assert(before[k2] == after[k]);
                        let m = choose|m: int|
                            0 <= m < i && (#[trigger] nets@[m]).0 == before[k2].id.0;
                        assert(nets@[m].0 == after[k].id.0);
                    } else {
                        assert(nets@[i as int].0 == after[k].id.0);
                    }
                }
            }
        } else {
            proof {
                assert forall|k: int| #![trigger r@[k]] 0 <= k < r@.len() implies r@[k].id.0
                    <= largest_net(more) && exists|m: int|
                    0 <= m < i + 1 && (#[trigger] nets@[m]).0 == r@[k].id.0 by {
                    let m = choose|m: int| 0 <= m < i && (#[trigger] nets@[m]).0 == r@[k].id.0;
                    assert(nets@[m].0 == r@[k].id.0);
                }
            }
        }
        i += 1;
    }
    assert(nets@.take(i as int) =~= nets@);
    r
}

fn find_largest_net(nets: &[(u32, String)]) -> (r: u32)
    ensures
        r == largest_net(nets@),
{
    let mut r: u32 = 0;
    let mut i: usize = 0;
    while i < nets.len()
        invariant
            i <= nets@.len(),
            r == largest_net(nets@.take(i as int)),
        decreases nets@.len() - i,
    {
        assert(nets@.take(i + 1).drop_last() =~= nets@.take(i as int));
        assert(nets@.take(i + 1).last() == nets@[i as int]);
        if nets[i].0 > r {
            r = nets[i].0;
        }
        i += 1;
    }
    assert(nets@.take(i as int) =~= nets@);
    r
}

/// `t` is a text that was read, under the number of its place.
pub open spec fn is_text_read(t: SilkText, text: ImportedText, index: int) -> bool {
    &&& t.id == SilkTextId(index as usize)
    &&& t.text@ == text.text@
    &&& t.position == text.position
    &&& t.rotation_deg == text.rotation_deg
    &&& t.layer == text.layer
    &&& t.height == text.height
    &&& t.line_width == text.line_width
}

/// A board with everything that was read but the footprints.
pub open spec fn is_base_board(
    doc: BoardDoc,
    flat: FlatBoard,
    footprints: Seq<ImportedFootprint>,
) -> bool {
    &&& doc.outline@ == flat.outline@
    &&& doc.layer_count == if back_used(doc.node.entries@) || back_pads(footprints) {
        LayerCount::Two
    } else {
        LayerCount::One
    }
    &&& doc.copper_weight == CopperWeight::OneOz
    &&& doc.node.entries@ == Seq::new(
        loose_items(flat.items@).len(),
        |i: int| Entry { id: ItemId(i as u64), item: loose_items(flat.items@)[i] },
    )
    &&& doc.node.next == loose_items(flat.items@).len()
    &&& doc.node.revision == obstacles_in(loose_items(flat.items@))
    &&& doc.footprints@.len() == 0
    &&& doc.next_footprint_serial == 0
    &&& records_in_order(doc.nets@)
    &&& forall|id: u32, name: Seq<char>| #[trigger]
        records_have(doc.nets@, id, name) <==> table_has(flat.nets@, id, name)
    &&& doc.next_net_serial == largest_net(flat.nets@)
    &&& doc.zones@.len() == 0
    &&& doc.next_zone_serial == 0
    &&& doc.silk_texts@.len() == flat.silk_texts@.len()
    &&& forall|i: int|
        #![trigger doc.silk_texts@[i]]
        0 <= i < doc.silk_texts@.len() ==> is_text_read(
            doc.silk_texts@[i],
            flat.silk_texts@[i],
            i,
        )
    &&& doc.next_silk_text_serial == flat.silk_texts@.len()
    &&& doc.silk_dots@.len() == 0
    &&& doc.next_silk_dot_serial == 0
}

/// The nets of the pads of a footprint that was read.
pub open spec fn pad_nets_read(fp: ImportedFootprint) -> Seq<Option<NetId>> {
    fp.pads@.map_values(|p: ImportedPad| p.net)
}

/// `after` is `before` with one footprint that was read standing on it.
pub open spec fn is_import_step(
    before: BoardDoc,
    after: BoardDoc,
    template: FootprintTemplate,
    fp: ImportedFootprint,
    shape: PlacedShape,
) -> bool {
    after.has_new_part(
        &before,
        template.name@,
        fp.reference@,
        fp.position,
        fp.rotation_deg,
        with_pad_nets(shape.items@, pad_nets_read(fp)),
        shape.courtyard,
        shape.drills,
    )
}

/// Boards each of which has one more footprint than the one before.
pub open spec fn is_import_chain(
    boards: Seq<BoardDoc>,
    templates: Seq<FootprintTemplate>,
    footprints: Seq<ImportedFootprint>,
    shapes: Seq<PlacedShape>,
) -> bool {
    &&& boards.len() > 0
    &&& forall|i: int|
        #![trigger boards[i]]
        0 <= i < boards.len() - 1 ==> is_import_step(
            boards[i],
            boards[i + 1],
            templates[i],
            footprints[i],
            shapes[i],
        )
}

/// Everything that was read but the footprints, as a board.
fn base_board(flat: FlatBoard, footprints: &[ImportedFootprint]) -> (doc: BoardDoc)
    requires
        numbers_are_unique(flat.nets@),
    ensures
        doc.wf(),
        is_base_board(doc, flat, footprints@),
{
    let FlatBoard { outline, items, nets, silk_texts } = flat;
    let ghost all = items@;
    let mut node = Node::new();
    let count: usize = items.len();
    let mut read: usize = 0;
    proof {
        assert(node.entries@ =~= Seq::new(
            loose_items(all.take(0)).len(),
            |i: int| Entry { id: ItemId(i as u64), item: loose_items(all.take(0))[i] },
        ));
    }
    for item in it: items
        invariant
            it.seq() == all,
            count == all.len(),
            read == it.index(),
            node.wf(),
            node.entries@ == Seq::new(
                loose_items(all.take(read as int)).len(),
                |i: int|
                    Entry { id: ItemId(i as u64), item: loose_items(all.take(read as int))[i] },
            ),
            node.next == loose_items(all.take(read as int)).len(),
            node.next <= read,
            node.revision == obstacles_in(loose_items(all.take(read as int))),
            node.revision <= read,
    {
        let ghost kept = loose_items(all.take(read as int));
        proof {
            assert(all.take(read + 1).drop_last() =~= all.take(read as int));
            assert(all.take(read + 1).last() == item);
        }
        if !item.is_pad() && !item.is_hole() {
            let ghost new = item;
            let id = node.add(item);
            proof {
                let more = loose_items(all.take(read + 1));
                assert(more == kept.push(new));
                assert(more.drop_last() =~= kept);
                assert(node.entries@ =~= Seq::new(
                    more.len(),
                    |i: int| Entry { id: ItemId(i as u64), item: more[i] },
                ));
            }
        }
        read += 1;
    }
    assert(all.take(all.len() as int) =~= all);
    let layer_count = guess_layer_count(&node, footprints);
    let records: Vec<NetRecord> = records_of(&nets);
    let last_net: u32 = find_largest_net(&nets);
    let mut texts: Vec<SilkText> = Vec::new();
    let mut i: usize = 0;
    while i < silk_texts.len()
        invariant
            i <= silk_texts@.len(),
            texts@.len() == i,
            forall|k: int|
                #![trigger texts@[k]]
                0 <= k < i ==> is_text_read(texts@[k], silk_texts@[k], k),
        decreases silk_texts@.len() - i,
    {
        let t = &silk_texts[i];
        texts.push(
            SilkText {
                id: SilkTextId(i),
                text: t.text.clone(),
                position: t.position,
                rotation_deg: t.rotation_deg,
                layer: t.layer,
                height: t.height,
                line_width: t.line_width,
            },
        );
        i += 1;
    }
    let text_count: usize = texts.len();
    let doc = BoardDoc {
        outline,
        layer_count,
        copper_weight: CopperWeight::OneOz,
        node,
        footprints: Vec::new(),
        next_footprint_serial: 0,
        nets: records,
        next_net_serial: last_net,
        zones: Vec::new(),
        next_zone_serial: 0,
        silk_texts: texts,
        next_silk_text_serial: text_count,
        silk_dots: Vec::new(),
        next_silk_dot_serial: 0,
    };
    proof {
        assert(net_ids_ok(doc.nets@, doc.next_net_serial as int)) by {
            assert forall|a: int, b: int|
                #![trigger doc.nets@[a], doc.nets@[b]]
                0 <= a < b < doc.nets@.len() implies doc.nets@[a].id != doc.nets@[b].id by {
            }
        }
        assert(silk_text_ids_ok(doc.silk_texts@, doc.next_silk_text_serial as int)) by {
            assert forall|a: int, b: int|
                #![trigger doc.silk_texts@[a], doc.silk_texts@[b]]
                0 <= a < b < doc.silk_texts@.len() implies doc.silk_texts@[a].id
                != doc.silk_texts@[b].id by {
                assert(is_text_read(doc.silk_texts@[a], flat.silk_texts@[a], a));
                assert(is_text_read(doc.silk_texts@[b], flat.silk_texts@[b], b));
            }
            assert forall|a: int| #![trigger doc.silk_texts@[a]] 0 <= a < doc.silk_texts@.len() implies
                doc.silk_texts@[a].id.0 < doc.next_silk_text_serial by {
                assert(is_text_read(doc.silk_texts@[a], flat.silk_texts@[a], a));
            }
        }
    }
    doc
}

/// Rebuilds an editable board from what was read; `shapes[i]` is footprint `i`
/// where it stands. Nothing is checked: what the file holds is taken as it is.
pub fn import_kicad_pcb_with_label(
    flat: FlatBoard,
    footprints: &[ImportedFootprint],
    shapes: Vec<PlacedShape>,
    board_label: &str,
) -> (r: ImportedDoc)
    requires
        numbers_are_unique(flat.nets@),
        shapes@.len() == footprints@.len(),
        forall|i: int| #![trigger shapes@[i]] 0 <= i < shapes@.len() ==> parts_only(shapes@[i].items@),
        flat.items@.len() + item_total(shapes@) <= u64::MAX,
    ensures
        r.doc.wf(),
        r.templates@.len() == footprints@.len(),
        forall|i: int|
            #![trigger r.templates@[i]]
            0 <= i < r.templates@.len() ==> is_template_read(
                r.templates@[i],
                footprints@[i],
                i,
                board_label@,
            ),
        exists|boards: Seq<BoardDoc>|
            {
                &&& #[trigger] is_import_chain(boards, r.templates@, footprints@, shapes@)
                &&& boards.len() == footprints@.len() + 1
                &&& is_base_board(boards[0], flat, footprints@)
                &&& boards.last() == r.doc
            },
{
    let ghost all = shapes@;
    let ghost loose = loose_items(flat.items@);
    proof {
        lemma_loose_items_few(flat.items@);
    }
    let mut doc = base_board(flat, footprints);
    let ghost mut boards: Seq<BoardDoc> = seq![doc];
    let mut templates: Vec<FootprintTemplate> = Vec::new();
    let mut i: usize = 0;
    assert(all.take(0) =~= Seq::<PlacedShape>::empty());
    for shape in it: shapes
        invariant
            it.seq() == all,
            i == it.index(),
            all.len() == footprints@.len(),
            forall|k: int| #![trigger all[k]] 0 <= k < all.len() ==> parts_only(all[k].items@),
            loose.len() + item_total(all) <= u64::MAX,
            doc.wf(),
            doc.node.next == loose.len() + item_total(all.take(i as int)),
            doc.node.revision <= loose.len() + item_total(all.take(i as int)),
            doc.next_footprint_serial == i,
            templates@.len() == i,
            forall|k: int|
                #![trigger templates@[k]]
                0 <= k < i ==> is_template_read(templates@[k], footprints@[k], k, board_label@),
            boards.len() == i + 1,
            is_base_board(boards[0], flat, footprints@),
            boards.last() == doc,
            is_import_chain(boards, templates@, footprints@, all),
    {
        let ghost before = boards;
        let ghost named = templates@;
        proof {
            assert(parts_only(all[i as int].items@));
            assert(all.take(i + 1).drop_last() =~= all.take(i as int));
            assert(all.take(i + 1).last() == all[i as int]);
            lemma_item_total_grows(all, i + 1);
        }
        let fp = &footprints[i];
        let template = build_template(fp, i, board_label);
        let mut pad_nets: Vec<Option<NetId>> = Vec::new();
        let mut k: usize = 0;
        while k < fp.pads.len()
            invariant
                k <= fp.pads@.len(),
                pad_nets@ == pad_nets_read(*fp).take(k as int),
            decreases fp.pads@.len() - k,
        {
            pad_nets.push(fp.pads[k].net);
            k += 1;
            assert(pad_nets@ =~= pad_nets_read(*fp).take(k as int));
        }
        assert(pad_nets_read(*fp).take(k as int) =~= pad_nets_read(*fp));
        let id = doc.insert_footprint_unchecked(
            &template,
            fp.reference.clone(),
            fp.position,
            fp.rotation_deg,
            shape,
            &pad_nets,
        );
        templates.push(template);
        proof {
            boards = before.push(doc);
            assert(boards[0] == before[0]);
            assert forall|k: int| #![trigger boards[k]] 0 <= k < boards.len() - 1 implies is_import_step(
                boards[k],
                boards[k + 1],
                templates@[k],
                footprints@[k],
                all[k],
            ) by {
                if k < i {
                    assert(boards[k] == before[k]);
                    assert(boards[k + 1] == before[k + 1]);
                    assert(templates@[k] == named[k]);
                }
            }
        }
        i += 1;
    }
    assert(is_import_chain(boards, templates@, footprints@, all));
    ImportedDoc { doc, templates }
}

proof fn lemma_loose_items_few(items: Seq<Item>)
    ensures
        loose_items(items).len() <= items.len(),
        obstacles_in(loose_items(items)) <= loose_items(items).len(),
    decreases items.len(),
{
    if items.len() > 0 {
        lemma_loose_items_few(items.drop_last());
        let rest = loose_items(items.drop_last());
        assert(rest.push(items.last()).drop_last() =~= rest);
    }
}

/// Rebuilds an editable board whose templates carry plain names.
pub fn import_kicad_pcb(
    flat: FlatBoard,
    footprints: &[ImportedFootprint],
    shapes: Vec<PlacedShape>,
) -> (r: ImportedDoc)
    requires
        numbers_are_unique(flat.nets@),
        shapes@.len() == footprints@.len(),
        forall|i: int| #![trigger shapes@[i]] 0 <= i < shapes@.len() ==> parts_only(shapes@[i].items@),
        flat.items@.len() + item_total(shapes@) <= u64::MAX,
    ensures
        r.doc.wf(),
        r.templates@.len() == footprints@.len(),
        forall|i: int|
            #![trigger r.templates@[i]]
            0 <= i < r.templates@.len() ==> is_template_read(
                r.templates@[i],
                footprints@[i],
                i,
                Seq::empty(),
            ),
        exists|boards: Seq<BoardDoc>|
            {
                &&& #[trigger] is_import_chain(boards, r.templates@, footprints@, shapes@)
                &&& boards.len() == footprints@.len() + 1
                &&& is_base_board(boards[0], flat, footprints@)
                &&& boards.last() == r.doc
            },
{
    proof {
        reveal_strlit("");
        assert(""@ =~= Seq::<char>::empty());
    }
    import_kicad_pcb_with_label(flat, footprints, shapes, "")
}

/// The shape that a pad is written with reads back.
pub proof fn law_pad_shapes_read_back(kind: PadShapeKind, radius: Unit)
    ensures
        kind_read(shape_written(kind, radius)) == kind,
{
}

/// The radius of a round pad reads back from its written diameter.
pub proof fn law_round_pads_read_back(radius: Unit)
    requires
        radius >= 1,
        fits(radius * 2),
    ensures
        ({
            let dims = sides_read(shape_written(PadShapeKind::Circle, radius));
            radius_of(dims.0, dims.1) == radius
        }),
{
}

} // verus!
