//! The bill of materials: one row per distinct part, designators grouped, and
//! its rendering as CSV.

use vstd::prelude::*;

use crate::board_doc::{BoardDoc, PlacedFootprint};
use crate::footprint::FootprintTemplate;
use crate::parts::{find_template, template_named};
use crate::text::{
    chars_of, contains_text, same_text, string_of, strings_in, uppercased,
};

verus! {

/// One line of the bill: all placed parts that share a template.
#[derive(Debug, Clone)]
pub struct BomRow {
    pub comment: String,
    pub designators: Vec<String>,
    pub footprint: String,
    pub lcsc_part_number: Option<String>,
}

/// What the parts database knows of a template.
#[derive(Debug, Clone)]
pub struct PartInfo {
    pub description: String,
    pub lcsc_code: Option<String>,
}

/// What `str::to_uppercase` makes of a text.
pub uninterp spec fn uppercase_of(s: Seq<char>) -> Seq<char>;

/// `str::to_uppercase`: the upper-case form of a text by Unicode's rules,
/// which is named [`uppercase_of`]; on ASCII text it changes the letters a to
/// z only.
#[verifier::external_body]
fn to_uppercase(s: &str) -> (r: String)
    ensures
        r@ == uppercase_of(s@),
        s.is_ascii() ==> r@ == uppercased(s@),
{
    s.to_uppercase()
}

/// `a` comes before `b`, or is the same, in the order of strings.
pub open spec fn text_leq(a: Seq<char>, b: Seq<char>) -> bool
    decreases a.len(),
{
    if a.len() == 0 {
        true
    } else if b.len() == 0 {
        false
    } else if a[0] == b[0] {
        text_leq(a.drop_first(), b.drop_first())
    } else {
        a[0] < b[0]
    }
}

/// The strings stand in order.
pub open spec fn is_sorted(texts: Seq<Seq<char>>) -> bool {
    forall|i: int, j: int|
        #![trigger texts[i], texts[j]]
        0 <= i < j < texts.len() ==> text_leq(texts[i], texts[j])
}

/// The strings stand in order and none of them twice.
pub open spec fn is_sorted_set(texts: Seq<Seq<char>>) -> bool {
    is_sorted(texts) && texts.no_duplicates()
}

/// Of any two strings one comes first.
pub proof fn law_text_order_is_total(a: Seq<char>, b: Seq<char>)
    ensures
        text_leq(a, b) || text_leq(b, a),
    decreases a.len(),
{
    if a.len() > 0 && b.len() > 0 {
        if a[0] == b[0] {
            law_text_order_is_total(a.drop_first(), b.drop_first());
        }
    }
}

/// The order of strings is transitive.
pub proof fn law_text_order_is_transitive(a: Seq<char>, b: Seq<char>, c: Seq<char>)
    requires
        text_leq(a, b),
        text_leq(b, c),
    ensures
        text_leq(a, c),
    decreases a.len(),
{
    if a.len() > 0 {
        if a[0] == b[0] && b[0] == c[0] {
            law_text_order_is_transitive(a.drop_first(), b.drop_first(), c.drop_first());
        }
    }
}

/// Two different strings do not both come before each other.
pub proof fn law_text_order_is_antisymmetric(a: Seq<char>, b: Seq<char>)
    requires
        text_leq(a, b),
        text_leq(b, a),
    ensures
        a == b,
    decreases a.len(),
{
    if a.len() == 0 {
        assert(b.len() == 0);
        assert(a =~= b);
    } else {
        assert(b.len() > 0);
        if a[0] == b[0] {
            law_text_order_is_antisymmetric(a.drop_first(), b.drop_first());
            assert(a =~= seq![a[0]] + a.drop_first());
            assert(b =~= seq![b[0]] + b.drop_first());
        }
    }
}

/// Whether `a` comes before `b` or is the same.
pub fn comes_before(a: &str, b: &str) -> (r: bool)
    ensures
        r == text_leq(a@, b@),
{
    let xs: Vec<char> = chars_of(a);
    let ys: Vec<char> = chars_of(b);
    let mut i: usize = 0;
    assert(xs@.skip(0) =~= xs@);
    assert(ys@.skip(0) =~= ys@);
    while i < xs.len()
        invariant
            i <= xs@.len(),
            i <= ys@.len(),
            xs@ == a@,
            ys@ == b@,
            text_leq(xs@, ys@) == text_leq(xs@.skip(i as int), ys@.skip(i as int)),
        decreases xs@.len() - i,
    {
        assert(xs@.skip(i as int)[0] == xs@[i as int]);
        if i >= ys.len() {
            return false;
        }
        assert(ys@.skip(i as int)[0] == ys@[i as int]);
        if xs[i] != ys[i] {
            return xs[i] < ys[i];
        }
        assert(xs@.skip(i as int).drop_first() =~= xs@.skip(i + 1));
        assert(ys@.skip(i as int).drop_first() =~= ys@.skip(i + 1));
        i += 1;
    }
    true
}

/// Puts `text` into a sorted list, behind everything that comes before it.
fn insert_sorted(list: &mut Vec<String>, text: String)
    requires
        is_sorted(strings_in(old(list)@)),
    ensures
        is_sorted(strings_in(final(list)@)),
        strings_in(final(list)@).to_multiset() == strings_in(old(list)@).to_multiset().insert(text@),
        final(list)@.len() == old(list)@.len() + 1,
        forall|t: Seq<char>| #[trigger]
            strings_in(final(list)@).contains(t) <==> strings_in(old(list)@).contains(t) || t
                == text@,
{
    let ghost before = strings_in(list@);
    let ghost word = text@;
    let mut p: usize = list.len();
    while p > 0 && !comes_before(&list[p - 1], &text)
        invariant
            p <= list@.len(),
            before == strings_in(list@),
            word == text@,
            forall|k: int| p <= k < list@.len() ==> !text_leq(#[trigger] before[k], word),
        decreases p,
    {
        p -= 1;
    }
    proof {
        if p > 0 {
            assert(before[p - 1] == list@[p - 1]@);
        }
    }
    list.insert(p, text);
    proof {
        let after = strings_in(list@);
        assert(after =~= before.insert(p as int, word));
        vstd::seq_lib::to_multiset_insert(before, p as int, word);
        assert forall|i: int, j: int| #![trigger after[i], after[j]] 0 <= i < j < after.len() implies
            text_leq(after[i], after[j]) by {
            let a = if i < p {
                i
            } else {
                i - 1
            };
            let b = if j < p {
                j
            } else {
                j - 1
            };
            if i != p && j != p {
                assert(after[i] == before[a] && after[j] == before[b]);
            } else if j == p {
                assert(after[i] == before[i]);
                if i < p - 1 {
                    assert(text_leq(before[i], before[p - 1]));
                    law_text_order_is_transitive(before[i], before[p - 1], word);
                }
            } else {
                assert(after[j] == before[b]);
                law_text_order_is_total(before[b], word);
            }
        }
        assert forall|t: Seq<char>| #[trigger] after.contains(t) <==> before.contains(t) || t == word by {
            assert(after[p as int] == word);
            if before.contains(t) {
                let k = choose|k: int| 0 <= k < before.len() && before[k] == t;
                assert(after[if k < p {
                    k
                } else {
                    k + 1
                }] == t);
            }
            if after.contains(t) && t != word {
                let k = choose|k: int| 0 <= k < after.len() && after[k] == t;
                assert(before[if k < p {
                    k
                } else {
                    k - 1
                }] == t);
            }
        }
    }
}

/// Some placed part has this template.
pub open spec fn is_placed(fps: Seq<PlacedFootprint>, name: Seq<char>) -> bool {
    exists|i: int| 0 <= i < fps.len() && (#[trigger] fps[i]).template_name@ == name
}

/// A placed template that is known and belongs on the bill.
pub open spec fn is_listed(
    fps: Seq<PlacedFootprint>,
    templates: Seq<FootprintTemplate>,
    name: Seq<char>,
) -> bool {
    &&& is_placed(fps, name)
    &&& template_named(templates, name) matches Some(k) && !templates[k].exclude_from_bom
}

/// The designators of the parts with this template, in the order in which they
/// were placed; `designators[i]` is that of part `i`.
pub open spec fn designators_of(
    fps: Seq<PlacedFootprint>,
    designators: Seq<Seq<char>>,
    name: Seq<char>,
) -> Seq<Seq<char>>
    decreases fps.len(),
{
    if fps.len() == 0 {
        Seq::empty()
    } else {
        let rest = designators_of(fps.drop_last(), designators, name);
        if fps.last().template_name@ == name {
            rest.push(designators[fps.len() - 1])
        } else {
            rest
        }
    }
}

/// What is known of the template at place `k`.
pub open spec fn info_at(parts: Seq<Option<PartInfo>>, k: int) -> Option<PartInfo> {
    if 0 <= k < parts.len() {
        parts[k]
    } else {
        None
    }
}

/// A row as it has to be: all designators of its template, in order, the
/// description of the part unless there is none, and its part number.
pub open spec fn is_row_of(
    row: BomRow,
    fps: Seq<PlacedFootprint>,
    designators: Seq<Seq<char>>,
    templates: Seq<FootprintTemplate>,
    parts: Seq<Option<PartInfo>>,
) -> bool {
    let name = row.footprint@;
    let k = template_named(templates, name)->0;
    let info = info_at(parts, k);
    &&& is_listed(fps, templates, name)
    &&& is_sorted(strings_in(row.designators@))
    &&& strings_in(row.designators@).to_multiset() == designators_of(
        fps,
        designators,
        name,
    ).to_multiset()
    &&& row.comment@ == (match info {
        Some(part) => if part.description@.len() > 0 {
            part.description@
        } else {
            name
        },
        None => name,
    })
    &&& match info {
        Some(part) => match (part.lcsc_code, row.lcsc_part_number) {
            (Some(code), Some(number)) => number@ == code@,
            (None, None) => true,
            _ => false,
        },
        None => row.lcsc_part_number is None,
    }
}

/// The templates that rows are about.
pub open spec fn rows_about(rows: Seq<BomRow>) -> Seq<Seq<char>> {
    rows.map_values(|r: BomRow| r.footprint@)
}

/// The rows of a bill as they have to be: one for every listed template, in
/// the order of their names.
pub open spec fn is_bill(
    rows: Seq<BomRow>,
    fps: Seq<PlacedFootprint>,
    designators: Seq<Seq<char>>,
    templates: Seq<FootprintTemplate>,
    parts: Seq<Option<PartInfo>>,
) -> bool {
    &&& is_sorted_set(rows_about(rows))
    &&& forall|name: Seq<char>| #[trigger]
        rows_about(rows).contains(name) <==> is_listed(fps, templates, name)
    &&& forall|i: int|
        #![trigger rows[i]]
        0 <= i < rows.len() ==> is_row_of(rows[i], fps, designators, templates, parts)
}

/// The designators as the bill writes them.
pub open spec fn bill_designators(fps: Seq<PlacedFootprint>) -> Seq<Seq<char>> {
    fps.map_values(|fp: PlacedFootprint| uppercase_of(fp.reference@))
}

/// The bill of a board: `parts[k]` is what the parts database knows of template
/// `k`.
pub fn build_bom_rows(
    doc: &BoardDoc,
    templates: &[FootprintTemplate],
    parts: &[Option<PartInfo>],
) -> (rows: Vec<BomRow>)
    ensures
        is_bill(
            rows@,
            doc.footprints@,
            bill_designators(doc.footprints@),
            templates@,
            parts@,
        ),
{
    let mut designators: Vec<String> = Vec::new();
    let mut i: usize = 0;
    while i < doc.footprints.len()
        invariant
            i <= doc.footprints@.len(),
            designators@.len() == i,
            forall|k: int|
                #![trigger designators@[k]]
                0 <= k < i ==> designators@[k]@ == uppercase_of(doc.footprints@[k].reference@),
        decreases doc.footprints@.len() - i,
    {
        designators.push(to_uppercase(&doc.footprints[i].reference));
        i += 1;
    }
    assert(strings_in(designators@) =~= bill_designators(doc.footprints@));
    rows_from(&doc.footprints, &designators, templates, parts)
}

/// The bill of some placed parts, `designators[i]` being that of part `i`.
pub fn rows_from(
    fps: &[PlacedFootprint],
    designators: &[String],
    templates: &[FootprintTemplate],
    parts: &[Option<PartInfo>],
) -> (rows: Vec<BomRow>)
    requires
        designators@.len() == fps@.len(),
    ensures
        is_bill(rows@, fps@, strings_in(designators@), templates@, parts@),
{
    let names: Vec<String> = listed_names(fps, templates);
    let ghost all = strings_in(names@);
    let mut rows: Vec<BomRow> = Vec::new();
    let mut i: usize = 0;
    while i < names.len()
        invariant
            i <= names@.len(),
            all == strings_in(names@),
            is_sorted_set(all),
            forall|name: Seq<char>| #[trigger]
                all.contains(name) <==> is_listed(fps@, templates@, name),
            designators@.len() == fps@.len(),
            rows@.len() == i,
            forall|k: int|
                #![trigger rows@[k]]
                0 <= k < i ==> rows@[k].footprint@ == all[k] && is_row_of(
                    rows@[k],
                    fps@,
                    strings_in(designators@),
                    templates@,
                    parts@,
                ),
        decreases names@.len() - i,
    {
        assert(all[i as int] == names@[i as int]@);
        assert(all.contains(all[i as int]));
        let row = row_of(&names[i], fps, designators, templates, parts);
        rows.push(row);
        i += 1;
    }
    assert(rows_about(rows@) =~= all);
    rows
}

/// The listed templates, in order.
fn listed_names(fps: &[PlacedFootprint], templates: &[FootprintTemplate]) -> (names: Vec<String>)
    ensures
        is_sorted_set(strings_in(names@)),
        forall|name: Seq<char>| #[trigger]
            strings_in(names@).contains(name) <==> is_listed(fps@, templates@, name),
{
    let mut names: Vec<String> = Vec::new();
    let mut i: usize = 0;
    assert(strings_in(names@) =~= Seq::<Seq<char>>::empty());
    while i < fps.len()
        invariant
            i <= fps@.len(),
            is_sorted_set(strings_in(names@)),
            forall|name: Seq<char>| #[trigger]
                strings_in(names@).contains(name) <==> is_listed(
                    fps@.take(i as int),
                    templates@,
                    name,
                ),
        decreases fps@.len() - i,
    {
        let ghost before = names@;
        let ghost so_far = fps@.take(i as int);
        let ghost more = fps@.take(i + 1);
        let name = &fps[i].template_name;
        let listed = match find_template(templates, name) {
            Some(k) => !templates[k].exclude_from_bom,
            None => false,
        };
        let known = contains_text(&names, name);
        proof {
            assert forall|t: Seq<char>| #[trigger] is_placed(more, t) <==> is_placed(so_far, t) || t
                == name@ by {
                assert(more[i as int] == fps@[i as int]);
                if is_placed(so_far, t) {
                    let k = choose|k: int|
                        0 <= k < so_far.len() && (#[trigger] so_far[k]).template_name@ == t;
                    assert(more[k].template_name@ == t);
                }
                if is_placed(more, t) && t != name@ {
                    let k = choose|k: int|
                        0 <= k < more.len() && (#[trigger] more[k]).template_name@ == t;
                    assert(so_far[k].template_name@ == t);
                }
            }
        }
        if listed && !known {
            insert_sorted(&mut names, name.clone());
            proof {
                let a = strings_in(before);
                let b = strings_in(names@);
                a.lemma_multiset_has_no_duplicates();
                assert(b.to_multiset() == a.to_multiset().insert(name@));
                assert(a.to_multiset().count(name@) == 0) by {
                    a.to_multiset_ensures();
                }
                b.lemma_multiset_has_no_duplicates_conv();
            }
        }
        proof {
            assert forall|t: Seq<char>| #[trigger] strings_in(names@).contains(t) <==> is_listed(
                more,
                templates@,
                t,
            ) by {
                assert(strings_in(before).contains(t) <==> is_listed(so_far, templates@, t));
                assert(is_placed(more, t) <==> is_placed(so_far, t) || t == name@);
            }
        }
        i += 1;
    }
    assert(fps@.take(i as int) =~= fps@);
    names
}

/// The row of one listed template.
fn row_of(
    name: &String,
    fps: &[PlacedFootprint],
    designators: &[String],
    templates: &[FootprintTemplate],
    parts: &[Option<PartInfo>],
) -> (row: BomRow)
    requires
        designators@.len() == fps@.len(),
        is_listed(fps@, templates@, name@),
    ensures
        row.footprint@ == name@,
        is_row_of(row, fps@, strings_in(designators@), templates@, parts@),
{
    let ghost refs = strings_in(designators@);
    let mut own: Vec<String> = Vec::new();
    let mut i: usize = 0;
    assert(strings_in(own@) =~= designators_of(fps@.take(0), refs, name@));
    while i < fps.len()
        invariant
            i <= fps@.len(),
            designators@.len() == fps@.len(),
            refs == strings_in(designators@),
            is_sorted(strings_in(own@)),
            strings_in(own@).to_multiset() == designators_of(
                fps@.take(i as int),
                refs,
                name@,
            ).to_multiset(),
        decreases fps@.len() - i,
    {
        proof {
            assert(fps@.take(i + 1).drop_last() =~= fps@.take(i as int));
            assert(fps@.take(i + 1).last() == fps@[i as int]);
            assert(refs[i as int] == designators@[i as int]@);
            vstd::seq_lib::to_multiset_build(
                designators_of(fps@.take(i as int), refs, name@),
                refs[i as int],
            );
        }
        if same_text(&fps[i].template_name, name) {
            insert_sorted(&mut own, designators[i].clone());
        }
        i += 1;
    }
    assert(fps@.take(i as int) =~= fps@);
    let mut comment = name.clone();
    let mut lcsc_part_number: Option<String> = None;
    match find_template(templates, name) {
        Some(k) => {
            if k < parts.len() {
                match &parts[k] {
                    Some(part) => {
                        if !part.description.as_str().is_empty() {
                            comment = part.description.clone();
                        }
                        match &part.lcsc_code {
                            Some(code) => {
                                lcsc_part_number = Some(code.clone());
                            },
                            None => {},
                        }
                    },
                    None => {},
                }
            }
        },
        None => {},
    }
    BomRow { comment, designators: own, footprint: name.clone(), lcsc_part_number }
}

/// A field that cannot stand in a CSV line as it is.
pub open spec fn needs_quotes(s: Seq<char>) -> bool {
    s.contains(',') || s.contains('"') || s.contains('\n')
}

/// `s` with every quote doubled.
pub open spec fn doubled_quotes(s: Seq<char>) -> Seq<char>
    decreases s.len(),
{
    if s.len() == 0 {
        s
    } else {
        let rest = doubled_quotes(s.drop_last());
        if s.last() == '"' {
            rest.push('"').push('"')
        } else {
            rest.push(s.last())
        }
    }
}

/// A text as a CSV field: in quotes only where it has to be.
pub open spec fn field_text(s: Seq<char>) -> Seq<char> {
    if needs_quotes(s) {
        seq!['"'] + doubled_quotes(s) + seq!['"']
    } else {
        s
    }
}

/// A text as a CSV field.
pub fn csv_field(s: &str) -> (r: String)
    ensures
        r@ == field_text(s@),
{
    let chars: Vec<char> = chars_of(s);
    let mut special = false;
    let mut out: Vec<char> = Vec::new();
    out.push('"');
    let mut i: usize = 0;
    assert(out@ =~= seq!['"'] + doubled_quotes(chars@.take(0)));
    while i < chars.len()
        invariant
            i <= chars@.len(),
            special == (exists|k: int|
                0 <= k < i && ((#[trigger] chars@[k]) == ',' || chars@[k] == '"' || chars@[k]
                    == '\n')),
            out@ == seq!['"'] + doubled_quotes(chars@.take(i as int)),
        decreases chars@.len() - i,
    {
        let c = chars[i];
        let ghost was = special;
        proof {
            assert(chars@.take(i + 1).drop_last() =~= chars@.take(i as int));
            assert(chars@.take(i + 1).last() == c);
        }
        if c == ',' || c == '"' || c == '\n' {
            special = true;
            assert(chars@[i as int] == c);
        }
        out.push(c);
        if c == '"' {
            out.push('"');
        }
        assert(out@ =~= seq!['"'] + doubled_quotes(chars@.take(i + 1)));
        i += 1;
    }
    proof {
        assert(chars@.take(i as int) =~= chars@);
        if special {
            let k = choose|k: int|
                0 <= k < i && ((#[trigger] chars@[k]) == ',' || chars@[k] == '"' || chars@[k]
                    == '\n');
            assert(s@[k] == chars@[k]);
        }
    }
    if !special {
        assert(!needs_quotes(s@));
        return s.to_owned();
    }
    out.push('"');
    assert(out@ =~= field_text(s@));
    string_of(&out)
}

/// Some texts, one behind the other with a comma and a blank between them.
pub open spec fn comma_list(texts: Seq<Seq<char>>) -> Seq<char>
    decreases texts.len(),
{
    if texts.len() == 0 {
        Seq::empty()
    } else if texts.len() == 1 {
        texts[0]
    } else {
        comma_list(texts.drop_last()) + ", "@ + texts.last()
    }
}

fn join_with_commas(texts: &[String]) -> (r: String)
    ensures
        r@ == comma_list(strings_in(texts@)),
{
    let ghost all = strings_in(texts@);
    let mut r = String::new();
    let mut i: usize = 0;
    assert(r@ =~= comma_list(all.take(0)));
    while i < texts.len()
        invariant
            i <= texts@.len(),
            all == strings_in(texts@),
            r@ == comma_list(all.take(i as int)),
        decreases texts@.len() - i,
    {
        proof {
            assert(all.take(i + 1).drop_last() =~= all.take(i as int));
            assert(all.take(i + 1).last() == texts@[i as int]@);
            assert(all.take(i + 1)[0] == all[0]);
        }
        if i > 0 {
            r.append(", ");
        }
        r.append(&texts[i]);
        proof {
            if i == 0 {
                assert(r@ =~= comma_list(all.take(1)));
            }
        }
        i += 1;
    }
    assert(all.take(i as int) =~= all);
    r
}

/// The text of an optional part number.
pub open spec fn number_text(number: Option<String>) -> Seq<char> {
    match number {
        Some(s) => s@,
        None => Seq::empty(),
    }
}

/// One line of the CSV.
pub open spec fn row_text(row: BomRow) -> Seq<char> {
    field_text(row.comment@) + ","@ + field_text(comma_list(strings_in(row.designators@))) + ","@
        + field_text(row.footprint@) + ","@ + field_text(number_text(row.lcsc_part_number)) + "\n"@
}

/// The whole CSV, header first.
pub open spec fn csv_text(rows: Seq<BomRow>) -> Seq<char>
    decreases rows.len(),
{
    if rows.len() == 0 {
        "Comment,Designator,Footprint,LCSC Part #\n"@
    } else {
        csv_text(rows.drop_last()) + row_text(rows.last())
    }
}

/// Renders the bill as CSV.
pub fn to_csv(rows: &[BomRow]) -> (r: String)
    ensures
        r@ == csv_text(rows@),
{
    let mut out = "Comment,Designator,Footprint,LCSC Part #\n".to_owned();
    let mut i: usize = 0;
    while i < rows.len()
        invariant
            i <= rows@.len(),
            out@ == csv_text(rows@.take(i as int)),
        decreases rows@.len() - i,
    {
        proof {
            assert(rows@.take(i + 1).drop_last() =~= rows@.take(i as int));
            assert(rows@.take(i + 1).last() == rows@[i as int]);
        }
        let ghost before = out@;
        let row = &rows[i];
        let comment = csv_field(&row.comment);
        out.append(&comment);
        out.append(",");
        let list = join_with_commas(&row.designators);
        let designators = csv_field(&list);
        out.append(&designators);
        out.append(",");
        let footprint = csv_field(&row.footprint);
        out.append(&footprint);
        out.append(",");
        let number = match &row.lcsc_part_number {
            Some(s) => csv_field(s),
            None => csv_field(""),
        };
        proof {
            reveal_strlit("");
            assert(""@ =~= Seq::<char>::empty());
        }
        out.append(&number);
        out.append("\n");
        assert(out@ =~= before + row_text(*row));
        i += 1;
    }
    assert(rows@.take(i as int) =~= rows@);
    out
}

/// What stands inside quotes, with every doubled quote made a single one.
pub open spec fn halved_quotes(s: Seq<char>) -> Seq<char>
    decreases s.len(),
{
    if s.len() == 0 {
        s
    } else if s.last() == '"' && s.len() >= 2 {
        halved_quotes(s.drop_last().drop_last()).push('"')
    } else {
        halved_quotes(s.drop_last()).push(s.last())
    }
}

/// The text that a CSV field stands for.
pub open spec fn field_value(field: Seq<char>) -> Seq<char> {
    if field.len() >= 2 && field[0] == '"' {
        halved_quotes(field.subrange(1, field.len() - 1))
    } else {
        field
    }
}

/// A CSV field reads back as the text it was made from.
pub proof fn law_csv_field_reads_back(s: Seq<char>)
    ensures
        field_value(field_text(s)) == s,
{
    let field = field_text(s);
    if needs_quotes(s) {
        assert(field.subrange(1, field.len() - 1) =~= doubled_quotes(s));
        lemma_quotes_undo(s);
    } else if field.len() >= 2 && field[0] == '"' {
        assert(s.contains(s[0]));
    }
}

proof fn lemma_quotes_undo(s: Seq<char>)
    ensures
        halved_quotes(doubled_quotes(s)) == s,
    decreases s.len(),
{
    if s.len() > 0 {
        lemma_quotes_undo(s.drop_last());
        let rest = doubled_quotes(s.drop_last());
        if s.last() == '"' {
            assert(rest.push('"').push('"').drop_last().drop_last() =~= rest);
        } else {
            assert(rest.push(s.last()).drop_last() =~= rest);
        }
        assert(s =~= s.drop_last().push(s.last()));
    }
}

} // verus!
