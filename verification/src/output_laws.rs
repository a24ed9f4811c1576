//! What is written out of a board: the bill of materials and what goes into a
//! board file, told by the parts, zones and print on the board.

use vstd::prelude::*;

use crate::board_doc::{BoardDoc, NetRecord, PlacedFootprint, ZoneRecord};
use crate::bom::{
    bill_designators, comma_list, csv_text, designators_of, doubled_quotes, field_text, is_bill,
    is_listed, is_row_of, needs_quotes, row_text, rows_about, text_leq, uppercase_of, BomRow,
    PartInfo,
};
use crate::footprint::{FootprintTemplate, PadShapeKind};
use crate::geom::Segment;
use crate::item::{item_of, Entry, Item, ItemId, LayerId, NetId};
use crate::kicad_export::{
    corners_of_all, is_written_part, is_written_zone, islands_written, known_parts, markers_written,
    strokes_written, written_name, PadMount, WriteFootprint, WriteSilkDot, WriteSilkLine,
    WritePadShape, WriteZone,
};
use crate::nets::auto_name;
use crate::part_laws::law_a_template_is_found_by_its_name;
use crate::parts::template_named;
use crate::text::strings_in;

verus! {

/// Texts are in alphabetical order: by the first letter in which they differ,
/// and a text before any longer one that starts with it.
pub proof fn law_text_order_is_alphabetical(a: Seq<char>, b: Seq<char>, p: int)
    requires
        0 <= p <= a.len(),
        p <= b.len(),
        forall|i: int| 0 <= i < p ==> a[i] == b[i],
    ensures
        p < a.len() && p < b.len() && a[p] < b[p] ==> text_leq(a, b) && !text_leq(b, a),
        p == a.len() ==> text_leq(a, b),
        p == a.len() && p < b.len() ==> !text_leq(b, a),
    decreases a.len(),
{
    if p > 0 {
        let x = a.drop_first();
        let y = b.drop_first();
        assert(a[0] == b[0]);
        assert forall|i: int| 0 <= i < p - 1 implies x[i] == y[i] by {
            assert(a[i + 1] == b[i + 1]);
        }
        law_text_order_is_alphabetical(x, y, p - 1);
    }
}

/// Every part on the board that is not kept out of the bill is in it, in the
/// row of its footprint.
pub proof fn law_every_part_is_in_the_bill(
    rows: Seq<BomRow>,
    fps: Seq<PlacedFootprint>,
    designators: Seq<Seq<char>>,
    templates: Seq<FootprintTemplate>,
    parts: Seq<Option<PartInfo>>,
    f: int,
    t: int,
) -> (i: int)
    requires
        is_bill(rows, fps, designators, templates, parts),
        designators.len() == fps.len(),
        0 <= f < fps.len(),
        0 <= t < templates.len(),
        templates[t].name@ == fps[f].template_name@,
        forall|j: int| 0 <= j < t ==> (#[trigger] templates[j]).name@ != templates[t].name@,
        !templates[t].exclude_from_bom,
    ensures
        0 <= i < rows.len(),
        rows[i].footprint@ == fps[f].template_name@,
        exists|k: int|
            0 <= k < rows[i].designators@.len() && (#[trigger] rows[i].designators@[k])@
                == designators[f],
        parts.len() > t ==> match parts[t] {
            Some(info) => {
                &&& info.description@.len() > 0 ==> rows[i].comment@ == info.description@
                &&& info.description@.len() == 0 ==> rows[i].comment@ == fps[f].template_name@
                &&& info.lcsc_code matches Some(code) ==> (
                rows[i].lcsc_part_number matches Some(number) && number@ == code@)
                &&& info.lcsc_code is None ==> rows[i].lcsc_part_number is None
            },
            None => rows[i].comment@ == fps[f].template_name@ && rows[i].lcsc_part_number is None,
        },
{
    let name = fps[f].template_name@;
    law_a_template_is_found_by_its_name(templates, name);
    let u = template_named(templates, name)->0;
    assert(u == t) by {
        if u < t {
            assert(templates[u].name@ != templates[t].name@);
        }
        if t < u {
            assert(templates[t].name@ != name);
        }
    }
    assert(fps[f].template_name@ == name);
    assert(is_listed(fps, templates, name));
    assert(rows_about(rows).contains(name));
    let i = choose|i: int| 0 <= i < rows_about(rows).len() && rows_about(rows)[i] == name;
    assert(rows[i].footprint@ == name);
    assert(is_row_of(rows[i], fps, designators, templates, parts));
    lemma_designators_hold(fps, designators, name, f);
    let wanted = designators_of(fps, designators, name);
    let got = strings_in(rows[i].designators@);
    lemma_same_members(wanted, got, designators[f]);
    let k = choose|k: int| 0 <= k < got.len() && got[k] == designators[f];
    assert(rows[i].designators@[k]@ == designators[f]);
    i
}

proof fn lemma_same_members(a: Seq<Seq<char>>, b: Seq<Seq<char>>, x: Seq<char>)
    requires
        a.to_multiset() == b.to_multiset(),
    ensures
        a.contains(x) == b.contains(x),
        a.len() == b.len(),
{
    broadcast use vstd::seq_lib::group_to_multiset_ensures;

    a.to_multiset_ensures();
    b.to_multiset_ensures();
    assert(a.contains(x) <==> a.to_multiset().count(x) > 0);
    assert(b.contains(x) <==> b.to_multiset().count(x) > 0);
}

proof fn lemma_designators_hold(
    fps: Seq<PlacedFootprint>,
    designators: Seq<Seq<char>>,
    name: Seq<char>,
    f: int,
)
    requires
        0 <= f < fps.len(),
        fps[f].template_name@ == name,
    ensures
        designators_of(fps, designators, name).contains(designators[f]),
    decreases fps.len(),
{
    let init = fps.drop_last();
    let rest = designators_of(init, designators, name);
    let all = designators_of(fps, designators, name);
    if f < init.len() {
        assert(init[f] == fps[f]);
        lemma_designators_hold(init, designators, name, f);
        let k = choose|k: int| 0 <= k < rest.len() && rest[k] == designators[f];
        assert(all[k] == designators[f]);
    } else {
        assert(all[rest.len() as int] == designators[f]);
    }
}

proof fn lemma_designators_from(
    fps: Seq<PlacedFootprint>,
    designators: Seq<Seq<char>>,
    name: Seq<char>,
    k: int,
) -> (f: int)
    requires
        0 <= k < designators_of(fps, designators, name).len(),
    ensures
        0 <= f < fps.len(),
        fps[f].template_name@ == name,
        designators_of(fps, designators, name)[k] == designators[f],
    decreases fps.len(),
{
    let init = fps.drop_last();
    let rest = designators_of(init, designators, name);
    if k < rest.len() {
        let f = lemma_designators_from(init, designators, name, k);
        assert(init[f] == fps[f]);
        f
    } else {
        fps.len() - 1
    }
}

/// Every designator in the bill is that of a part with the row's footprint,
/// whose template is known and not kept out of the bill; designators stand in
/// alphabetical order.
pub proof fn law_the_bill_lists_only_parts(
    rows: Seq<BomRow>,
    fps: Seq<PlacedFootprint>,
    designators: Seq<Seq<char>>,
    templates: Seq<FootprintTemplate>,
    parts: Seq<Option<PartInfo>>,
    i: int,
    k: int,
) -> (f: int)
    requires
        is_bill(rows, fps, designators, templates, parts),
        0 <= i < rows.len(),
        0 <= k < rows[i].designators@.len(),
    ensures
        0 <= f < fps.len(),
        fps[f].template_name@ == rows[i].footprint@,
        rows[i].designators@[k]@ == designators[f],
        exists|t: int|
            0 <= t < templates.len() && (#[trigger] templates[t]).name@ == rows[i].footprint@
                && !templates[t].exclude_from_bom,
        k > 0 ==> text_leq(rows[i].designators@[k - 1]@, rows[i].designators@[k]@),
{
    let name = rows[i].footprint@;
    assert(is_row_of(rows[i], fps, designators, templates, parts));
    law_a_template_is_found_by_its_name(templates, name);
    let t = template_named(templates, name)->0;
    assert(templates[t].name@ == name);
    let wanted = designators_of(fps, designators, name);
    let got = strings_in(rows[i].designators@);
    assert(got[k] == rows[i].designators@[k]@);
    if k > 0 {
        assert(got[k - 1] == rows[i].designators@[k - 1]@);
    }
    lemma_same_members(wanted, got, got[k]);
    assert(got.contains(got[k]));
    let j = choose|j: int| 0 <= j < wanted.len() && wanted[j] == got[k];
    lemma_designators_from(fps, designators, name, j)
}

/// There is one row for each footprint, in alphabetical order, and it lists as
/// many designators as there are parts with that footprint.
pub proof fn law_a_footprint_has_one_row(
    rows: Seq<BomRow>,
    fps: Seq<PlacedFootprint>,
    designators: Seq<Seq<char>>,
    templates: Seq<FootprintTemplate>,
    parts: Seq<Option<PartInfo>>,
    i: int,
    j: int,
)
    requires
        is_bill(rows, fps, designators, templates, parts),
        0 <= i < j < rows.len(),
    ensures
        rows[i].footprint@ != rows[j].footprint@,
        text_leq(rows[i].footprint@, rows[j].footprint@),
        rows[i].designators@.len() == parts_with(fps, rows[i].footprint@),
        rows[j].designators@.len() == parts_with(fps, rows[j].footprint@),
{
    assert(rows_about(rows)[i] == rows[i].footprint@);
    assert(rows_about(rows)[j] == rows[j].footprint@);
    assert(is_row_of(rows[i], fps, designators, templates, parts));
    assert(is_row_of(rows[j], fps, designators, templates, parts));
    lemma_row_length(rows[i], fps, designators);
    lemma_row_length(rows[j], fps, designators);
}

/// The number of parts with a footprint of that name.
pub open spec fn parts_with(fps: Seq<PlacedFootprint>, name: Seq<char>) -> int
    decreases fps.len(),
{
    if fps.len() == 0 {
        0
    } else if fps[0].template_name@ == name {
        1 + parts_with(fps.drop_first(), name)
    } else {
        parts_with(fps.drop_first(), name)
    }
}

proof fn lemma_row_length(row: BomRow, fps: Seq<PlacedFootprint>, designators: Seq<Seq<char>>)
    requires
        strings_in(row.designators@).to_multiset() == designators_of(
            fps,
            designators,
            row.footprint@,
        ).to_multiset(),
    ensures
        row.designators@.len() == parts_with(fps, row.footprint@),
{
    lemma_same_members(
        strings_in(row.designators@),
        designators_of(fps, designators, row.footprint@),
        Seq::empty(),
    );
    lemma_designators_count(fps, designators, row.footprint@);
}

proof fn lemma_parts_with_last(fps: Seq<PlacedFootprint>, name: Seq<char>)
    requires
        fps.len() > 0,
    ensures
        parts_with(fps, name) == parts_with(fps.drop_last(), name) + if fps.last().template_name@
            == name {
            1int
        } else {
            0
        },
    decreases fps.len(),
{
    if fps.len() > 1 {
        let tail = fps.drop_first();
        lemma_parts_with_last(tail, name);
        assert(tail.drop_last() =~= fps.drop_last().drop_first());
        assert(fps.drop_last()[0] == fps[0]);
        assert(tail.last() == fps.last());
    } else {
        assert(fps.drop_first() =~= Seq::empty());
        assert(fps.drop_last() =~= Seq::empty());
        assert(fps[0] == fps.last());
    }
}

proof fn lemma_designators_count(
    fps: Seq<PlacedFootprint>,
    designators: Seq<Seq<char>>,
    name: Seq<char>,
)
    ensures
        designators_of(fps, designators, name).len() == parts_with(fps, name),
    decreases fps.len(),
{
    if fps.len() > 0 {
        lemma_designators_count(fps.drop_last(), designators, name);
        lemma_parts_with_last(fps, name);
    }
}

/// A part's designator is its reference in capitals.
pub proof fn law_a_designator_is_the_reference_in_capitals(fps: Seq<PlacedFootprint>, f: int)
    requires
        0 <= f < fps.len(),
    ensures
        bill_designators(fps).len() == fps.len(),
        bill_designators(fps)[f] == uppercase_of(fps[f].reference@),
{
}

/// A field is written as it is unless it holds a comma, a quote or a line
/// end; then it stands in quotes, with its own quotes written twice.
pub proof fn law_which_fields_are_quoted(s: Seq<char>)
    ensures
        (forall|i: int|
            0 <= i < s.len() ==> #[trigger] s[i] != ',' && s[i] != '"' && s[i] != '\n')
            ==> field_text(s) == s,
        (exists|i: int|
            0 <= i < s.len() && (#[trigger] s[i] == ',' || s[i] == '"' || s[i] == '\n')) ==> {
            let w = field_text(s);
            &&& w.len() >= s.len() + 2
            &&& w[0] == '"'
            &&& w.last() == '"'
        },
        (forall|i: int| 0 <= i < s.len() ==> #[trigger] s[i] != '"') && s.contains(',')
            ==> field_text(s) == seq!['"'] + s + seq!['"'],
{
    if exists|i: int|
        0 <= i < s.len() && (#[trigger] s[i] == ',' || s[i] == '"' || s[i] == '\n') {
        let i = choose|i: int|
            0 <= i < s.len() && (#[trigger] s[i] == ',' || s[i] == '"' || s[i] == '\n');
        assert(needs_quotes(s));
        lemma_doubled_length(s);
    }
    if forall|i: int| 0 <= i < s.len() ==> #[trigger] s[i] != '"' {
        lemma_nothing_doubled(s);
    }
}

proof fn lemma_doubled_length(s: Seq<char>)
    ensures
        doubled_quotes(s).len() >= s.len(),
    decreases s.len(),
{
    if s.len() > 0 {
        lemma_doubled_length(s.drop_last());
    }
}

proof fn lemma_nothing_doubled(s: Seq<char>)
    requires
        forall|i: int| 0 <= i < s.len() ==> #[trigger] s[i] != '"',
    ensures
        doubled_quotes(s) == s,
    decreases s.len(),
{
    if s.len() > 0 {
        assert(s[s.len() - 1] != '"');
        lemma_nothing_doubled(s.drop_last());
        assert(s.drop_last().push(s.last()) =~= s);
    }
}

/// The file starts with the names of its columns, and each further row is a
/// line with comment, designators, footprint and part number in that order.
pub proof fn law_a_row_is_a_line_of_four_fields(rows: Seq<BomRow>, row: BomRow)
    ensures
        csv_text(Seq::empty()) == "Comment,Designator,Footprint,LCSC Part #\n"@,
        csv_text(rows.push(row)) == csv_text(rows) + field_text(row.comment@) + seq![',']
            + field_text(comma_list(strings_in(row.designators@))) + seq![','] + field_text(
            row.footprint@,
        ) + seq![','] + field_text(
            match row.lcsc_part_number {
                Some(number) => number@,
                None => Seq::empty(),
            },
        ) + seq!['\n'],
{
    reveal_strlit(",");
    reveal_strlit("\n");
    assert(rows.push(row).drop_last() =~= rows);
    assert(","@ =~= seq![',']);
    assert("\n"@ =~= seq!['\n']);
    assert(csv_text(rows.push(row)) == csv_text(rows) + row_text(row));
    assert(csv_text(rows) + row_text(row) =~= csv_text(rows) + field_text(row.comment@) + seq![',']
        + field_text(comma_list(strings_in(row.designators@))) + seq![','] + field_text(
        row.footprint@,
    ) + seq![','] + field_text(
        match row.lcsc_part_number {
            Some(number) => number@,
            None => Seq::empty(),
        },
    ) + seq!['\n']);
}

/// A list is its members in order with a comma and a space between them.
pub proof fn law_a_list_has_commas_between(texts: Seq<Seq<char>>, last: Seq<char>)
    ensures
        comma_list(Seq::empty()) == Seq::<char>::empty(),
        comma_list(seq![last]) == last,
        texts.len() > 0 ==> comma_list(texts.push(last)) == comma_list(texts) + seq![',', ' ']
            + last,
{
    reveal_strlit(", ");
    assert(texts.push(last).drop_last() =~= texts);
    assert(", "@ =~= seq![',', ' ']);
}

/// A part is written out with the name, value and pose it has, each pad as
/// the template has it on the net the pad is on, drilled ones as plated and
/// others as surface-mount; holes follow as unplated.
pub proof fn law_a_part_is_written_as_it_stands(
    w: WriteFootprint,
    doc: BoardDoc,
    fp: PlacedFootprint,
    template: FootprintTemplate,
    k: int,
)
    requires
        is_written_part(w, doc, fp, template),
        fp.pad_item_ids@.len() == template.pads@.len(),
    ensures
        w.reference@ == fp.reference@,
        w.value@ == template.name@,
        w.position == fp.position,
        w.rotation_deg == fp.rotation_deg,
        w.pads@.len() == template.pads@.len() + template.holes@.len(),
        0 <= k < template.pads@.len() ==> {
            let pad = template.pads@[k];
            let out = w.pads@[k];
            &&& out.number@ == pad.number@
            &&& out.offset == pad.offset
            &&& out.rotation_deg == pad.rotation_deg
            &&& out.layer == pad.layer
            &&& out.drill == pad.hole_diameter
            &&& pad.hole_diameter is Some ==> out.mount == PadMount::ThruHole
            &&& pad.hole_diameter is None ==> out.mount == PadMount::Smd
            &&& match pad.shape {
                PadShapeKind::Circle => out.shape matches WritePadShape::Circle { diameter } && (
                i64::MIN <= pad.radius * 2 <= i64::MAX ==> diameter == pad.radius * 2),
                PadShapeKind::Rect { width, height } => out.shape == (WritePadShape::Rect {
                    width,
                    height,
                }),
                PadShapeKind::Oval { width, height } => out.shape == (WritePadShape::Oval {
                    width,
                    height,
                }),
            }
            &&& match item_of(doc.node.entries@, fp.pad_item_ids@[k]) {
                Some(Item::Pad { net: Some(net), .. }) => out.net matches Some(n) && n.0 == net.0
                    && n.1@ == written_name(doc.nets@, net),
                _ => out.net is None,
            }
        },
        0 <= k < template.holes@.len() ==> {
            let hole = template.holes@[k];
            let out = w.pads@[template.pads@.len() + k];
            &&& out.mount == PadMount::NpThruHole
            &&& out.drill == Some(hole.drill)
            &&& out.shape == (WritePadShape::Circle { diameter: hole.drill })
            &&& out.offset == hole.offset
            &&& out.number@.len() == 0
            &&& out.net is None
            &&& out.layer == LayerId::FCu
            &&& out.rotation_deg.bits == 0
        },
{
    if 0 <= k < template.pads@.len() {
        assert(w.pads@[k] == w.pads@[k]);
    }
    if 0 <= k < template.holes@.len() {
        let out = w.pads@[template.pads@.len() + k];
        assert(out == out);
    }
}

/// A net is written under the name it has on the board, and under the name
/// its number gives where the board has no record of it.
pub proof fn law_a_net_is_written_by_its_name(nets: Seq<NetRecord>, id: NetId)
    ensures
        (exists|k: int|
            0 <= k < nets.len() && (#[trigger] nets[k]).id == id && written_name(nets, id)
                == nets[k].name@ && forall|j: int| 0 <= j < k ==> (#[trigger] nets[j]).id != id)
            || ((forall|j: int| 0 <= j < nets.len() ==> (#[trigger] nets[j]).id != id)
            && written_name(nets, id) == auto_name(id.0 as nat)),
    decreases nets.len(),
{
    if nets.len() > 0 {
        if nets[0].id != id {
            let rest = nets.drop_first();
            law_a_net_is_written_by_its_name(rest, id);
            assert forall|j: int| 0 < j < nets.len() implies #[trigger] nets[j] == rest[j - 1] by {}
            if exists|k: int|
                0 <= k < rest.len() && (#[trigger] rest[k]).id == id && written_name(rest, id)
                    == rest[k].name@ && forall|j: int|
                    0 <= j < k ==> (#[trigger] rest[j]).id != id {
                let k = choose|k: int|
                    0 <= k < rest.len() && (#[trigger] rest[k]).id == id && written_name(rest, id)
                        == rest[k].name@ && forall|j: int|
                        0 <= j < k ==> (#[trigger] rest[j]).id != id;
                assert(nets[k + 1] == rest[k]);
                assert forall|j: int| 0 <= j < k + 1 implies (#[trigger] nets[j]).id != id by {
                    if j > 0 {
                        assert(nets[j] == rest[j - 1]);
                    }
                }
            }
        } else {
            assert(nets[0].id == id);
        }
    }
}

/// The parts written out are those whose template is known: none of them is
/// left out, and no other is written.
pub proof fn law_every_known_part_is_written(
    fps: Seq<PlacedFootprint>,
    templates: Seq<FootprintTemplate>,
    fp: PlacedFootprint,
)
    ensures
        known_parts(fps, templates).contains(fp) <==> fps.contains(fp) && exists|t: int|
            0 <= t < templates.len() && (#[trigger] templates[t]).name@ == fp.template_name@,
        known_parts(fps, templates).len() <= fps.len(),
        (forall|f: int|
            0 <= f < fps.len() ==> exists|t: int|
                0 <= t < templates.len() && (#[trigger] templates[t]).name@ == (
                #[trigger] fps[f]).template_name@) ==> known_parts(fps, templates) == fps,
    decreases fps.len(),
{
    if fps.len() > 0 {
        let init = fps.drop_last();
        let last = fps.last();
        law_every_known_part_is_written(init, templates, fp);
        law_a_template_is_found_by_its_name(templates, last.template_name@);
        let rest = known_parts(init, templates);
        let all = known_parts(fps, templates);
        assert(fps[fps.len() - 1] == last);
        if rest.contains(fp) {
            let k = choose|k: int| 0 <= k < rest.len() && rest[k] == fp;
            assert(all[k] == fp);
        }
        if init.contains(fp) {
            let k = choose|k: int| 0 <= k < init.len() && init[k] == fp;
            assert(fps[k] == fp);
        }
        if fps.contains(fp) && !init.contains(fp) {
            let k = choose|k: int| 0 <= k < fps.len() && fps[k] == fp;
            if k < init.len() {
                assert(init[k] == fp);
            }
        }
        if all.contains(fp) && !rest.contains(fp) {
            let k = choose|k: int| 0 <= k < all.len() && all[k] == fp;
            if k < rest.len() {
                assert(rest[k] == fp);
            }
        }
        if template_named(templates, last.template_name@) is Some {
            assert(all[rest.len() as int] == last);
            let t = template_named(templates, last.template_name@)->0;
            assert(templates[t].name@ == last.template_name@);
        }
        if forall|f: int|
            0 <= f < fps.len() ==> exists|t: int|
                0 <= t < templates.len() && (#[trigger] templates[t]).name@ == (
                #[trigger] fps[f]).template_name@ {
            assert forall|f: int| 0 <= f < init.len() implies exists|t: int|
                0 <= t < templates.len() && (#[trigger] templates[t]).name@ == (
                #[trigger] init[f]).template_name@ by {
                assert(init[f] == fps[f]);
            }
            assert(fps[fps.len() - 1].template_name@ == last.template_name@);
            assert(init.push(last) =~= fps);
        }
    }
}

/// A zone is written with its outline, layer, net and every island it has on
/// the board.
pub proof fn law_a_zone_is_written_with_its_islands(
    w: WriteZone,
    doc: BoardDoc,
    zone: ZoneRecord,
    m: int,
)
    requires
        is_written_zone(w, doc, zone),
        forall|k: int|
            0 <= k < zone.item_ids@.len() ==> (item_of(
                doc.node.entries@,
                #[trigger] zone.item_ids@[k],
            ) matches Some(item) && item is Zone),
        0 <= m < zone.item_ids@.len(),
    ensures
        w.outline.points@ == zone.outline.points@,
        w.layer == zone.layer,
        w.net.0 == zone.net.0,
        w.net.1@ == written_name(doc.nets@, zone.net),
        w.islands@.len() == zone.item_ids@.len(),
        item_of(doc.node.entries@, zone.item_ids@[m]) matches Some(Item::Zone { outline, .. })
            && w.islands@[m].points@ == outline.points@,
{
    lemma_islands_written(doc.node.entries@, zone.item_ids@, m);
    assert(corners_of_all(w.islands@)[m] == w.islands@[m].points@);
}

proof fn lemma_islands_written(entries: Seq<Entry>, ids: Seq<ItemId>, m: int)
    requires
        forall|k: int|
            0 <= k < ids.len() ==> (item_of(entries, #[trigger] ids[k]) matches Some(item)
                && item is Zone),
        0 <= m < ids.len(),
    ensures
        islands_written(entries, ids).len() == ids.len(),
        item_of(entries, ids[m]) matches Some(Item::Zone { outline, .. }) && islands_written(
            entries,
            ids,
        )[m] == outline.points@,
    decreases ids.len(),
{
    let init = ids.drop_last();
    assert(ids[ids.len() - 1] == ids.last());
    assert forall|k: int| 0 <= k < init.len() implies (item_of(
        entries,
        #[trigger] init[k],
    ) matches Some(item) && item is Zone) by {
        assert(init[k] == ids[k]);
    }
    if init.len() > 0 {
        lemma_islands_written(
            entries,
            init,
            if m < init.len() {
                m
            } else {
                0
            },
        );
    }
    assert(islands_written(entries, init).len() == init.len());
    if m < init.len() {
        assert(init[m] == ids[m]);
    }
}

/// Every stroke of every text is written, on the layer of its text.
pub proof fn law_every_stroke_is_written(
    doc: BoardDoc,
    strokes: Seq<Vec<Segment>>,
    n: int,
    t: int,
    s: int,
)
    requires
        0 <= t < n,
        0 <= s < strokes[t]@.len(),
    ensures
        strokes_written(doc, strokes, n).contains(
            WriteSilkLine {
                start: strokes[t]@[s].a,
                end: strokes[t]@[s].b,
                width: strokes[t]@[s].width,
                layer: doc.silk_texts@[t].layer,
            },
        ),
    decreases n,
{
    let line = WriteSilkLine {
        start: strokes[t]@[s].a,
        end: strokes[t]@[s].b,
        width: strokes[t]@[s].width,
        layer: doc.silk_texts@[t].layer,
    };
    let rest = strokes_written(doc, strokes, n - 1);
    let all = strokes_written(doc, strokes, n);
    if t < n - 1 {
        law_every_stroke_is_written(doc, strokes, n - 1, t, s);
        let k = choose|k: int| 0 <= k < rest.len() && rest[k] == line;
        assert(all[k] == line);
    } else {
        assert(all[rest.len() + s] == line);
    }
}

/// Every line written is a stroke of some text.
pub proof fn law_every_line_written_is_a_stroke(
    doc: BoardDoc,
    strokes: Seq<Vec<Segment>>,
    n: int,
    k: int,
) -> (at: (int, int))
    requires
        0 <= k < strokes_written(doc, strokes, n).len(),
    ensures
        0 <= at.0 < n,
        0 <= at.1 < strokes[at.0]@.len(),
        strokes_written(doc, strokes, n)[k].start == strokes[at.0]@[at.1].a,
        strokes_written(doc, strokes, n)[k].end == strokes[at.0]@[at.1].b,
        strokes_written(doc, strokes, n)[k].width == strokes[at.0]@[at.1].width,
        strokes_written(doc, strokes, n)[k].layer == doc.silk_texts@[at.0].layer,
    decreases n,
{
    let rest = strokes_written(doc, strokes, n - 1);
    if k < rest.len() {
        law_every_line_written_is_a_stroke(doc, strokes, n - 1, k)
    } else {
        (n - 1, k - rest.len())
    }
}

/// The marker of every part that has one is written, four tenths of a
/// millimetre across and on the front, and nothing else is written as one.
pub proof fn law_every_marker_is_written(fps: Seq<PlacedFootprint>, dot: WriteSilkDot)
    ensures
        markers_written(fps).contains(dot) <==> dot.diameter == 400_000 && dot.layer
            == LayerId::FCu && exists|f: int|
            0 <= f < fps.len() && ((#[trigger] fps[f]).pin1_marker matches Some(marker)
                && marker.center == dot.center),
    decreases fps.len(),
{
    if fps.len() > 0 {
        let init = fps.drop_last();
        law_every_marker_is_written(init, dot);
        let rest = markers_written(init);
        let all = markers_written(fps);
        assert(fps[fps.len() - 1] == fps.last());
        assert forall|f: int| 0 <= f < init.len() implies #[trigger] fps[f] == init[f] by {}
        if rest.contains(dot) {
            let k = choose|k: int| 0 <= k < rest.len() && rest[k] == dot;
            assert(all[k] == dot);
            let f = choose|f: int|
                0 <= f < init.len() && ((#[trigger] init[f]).pin1_marker matches Some(marker)
                    && marker.center == dot.center);
            assert(fps[f] == init[f]);
        }
        if fps.last().pin1_marker is Some {
            assert(all[rest.len() as int].center == (fps.last().pin1_marker->0).center);
        }
        if all.contains(dot) && !rest.contains(dot) {
            let k = choose|k: int| 0 <= k < all.len() && all[k] == dot;
            if k < rest.len() {
                assert(rest[k] == dot);
            }
        }
        if dot.diameter == 400_000 && dot.layer == LayerId::FCu && exists|f: int|
            0 <= f < fps.len() && ((#[trigger] fps[f]).pin1_marker matches Some(marker)
                && marker.center == dot.center) {
            let f = choose|f: int|
                0 <= f < fps.len() && ((#[trigger] fps[f]).pin1_marker matches Some(marker)
                    && marker.center == dot.center);
            if f < init.len() {
                assert(init[f] == fps[f]);
            } else {
                assert(all[rest.len() as int] == dot);
            }
        }
    }
}

} // verus!
