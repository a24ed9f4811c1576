//! What is read of a part's drawing and symbol: the curves round its body and
//! the names of its pins.

use vstd::prelude::*;

use crate::decimal::number_value;
use crate::easyeda::{numbers_in, pairs_in, path_spots};
use crate::json::{member, member_items, member_text, JsonShape};
use crate::lcsc::{
    category_of, description_of, first_text, head_origin, pieces_after, pins_in, pins_of_entries,
    pins_of_groups, reply_pins,
};
use crate::lcsc_laws::{is_ordinary, lemma_first_char};
use crate::template_laws::law_a_text_is_found_where_it_stands;
use crate::text::find_from;

verus! {

/// The numbers among some words are all of them that are numbers, in order.
pub proof fn law_every_number_is_kept(words: Seq<Seq<char>>, last: Seq<char>)
    ensures
        numbers_in(Seq::empty()) == Seq::<int>::empty(),
        numbers_in(words.push(last)) == match number_value(last) {
            Some(v) => numbers_in(words).push(v),
            None => numbers_in(words),
        },
{
    assert(words.push(last).drop_last() =~= words);
}

/// Numbers are points by twos: the first of two across, the second upward.
pub proof fn law_numbers_are_points_by_twos(numbers: Seq<int>, k: int)
    requires
        0 <= k,
        2 * k + 1 < numbers.len(),
    ensures
        pairs_in(numbers).len() == numbers.len() / 2,
        pairs_in(numbers)[k] == (numbers[2 * k], numbers[2 * k + 1]),
{
}

/// A path goes on to a point: the point counts, and a curve may start there.
pub proof fn law_a_path_goes_on_to_a_point(
    words: Seq<Seq<char>>,
    i: int,
    last: Option<(int, int)>,
    x: int,
    y: int,
)
    requires
        0 <= i,
        i + 2 < words.len(),
        words[i] == seq!['M'] || words[i] == seq!['L'],
        number_value(words[i + 1]) == Some(x),
        number_value(words[i + 2]) == Some(y),
    ensures
        path_spots(words, i, last) == seq![(x, y)] + path_spots(words, i + 3, Some((x, y))),
{
    reveal_strlit("M");
    reveal_strlit("L");
    assert("M"@ =~= seq!['M']);
    assert("L"@ =~= seq!['L']);
}

/// A curve counts with the box of its radii round both of its ends.
pub proof fn law_a_curve_counts_round_both_ends(
    words: Seq<Seq<char>>,
    i: int,
    start: (int, int),
    rx: int,
    ry: int,
    x: int,
    y: int,
)
    requires
        0 <= i,
        i + 7 < words.len(),
        words[i] == seq!['A'],
        number_value(words[i + 1]) == Some(rx),
        number_value(words[i + 2]) == Some(ry),
        number_value(words[i + 6]) == Some(x),
        number_value(words[i + 7]) == Some(y),
        is_ordinary(start.0),
        is_ordinary(start.1),
        is_ordinary(rx),
        is_ordinary(ry),
        is_ordinary(x),
        is_ordinary(y),
    ensures
        path_spots(words, i, Some(start)) == seq![
            (start.0 - rx, start.1 - ry),
            (start.0 + rx, start.1 + ry),
            (x - rx, y - ry),
            (x + rx, y + ry),
        ] + path_spots(words, i + 8, Some((x, y))),
        path_spots(words, i, None) == seq![(x - rx, y - ry), (x + rx, y + ry)] + path_spots(
            words,
            i + 8,
            Some((x, y)),
        ),
{
    reveal_strlit("M");
    reveal_strlit("L");
    reveal_strlit("A");
    assert("A"@ =~= seq!['A']);
    assert(words[i][0] == 'A');
    assert("M"@[0] == 'M' && "L"@[0] == 'L');
    let rest = path_spots(words, i + 8, Some((x, y)));
    assert(path_spots(words, i, Some(start)) =~= seq![
        (start.0 - rx, start.1 - ry),
        (start.0 + rx, start.1 + ry),
        (x - rx, y - ry),
        (x + rx, y + ry),
    ] + rest);
}

/// The first text of a group is what stands between its opening and closing
/// marks.
pub proof fn law_a_text_stands_between_its_marks(
    before: Seq<char>,
    inside: Seq<char>,
    name: Seq<char>,
    after: Seq<char>,
)
    requires
        !inside.contains('>'),
        !name.contains('<'),
        find_from(
            before + (seq!['<', 't', 'e', 'x', 't'] + (inside + (seq!['>'] + (name + (seq![
                '<',
                '/',
                't',
                'e',
                'x',
                't',
                '>',
            ] + after))))),
            seq!['<', 't', 'e', 'x', 't'],
            0,
        ) == Some(before.len() as int),
    ensures
        first_text(
            before + (seq!['<', 't', 'e', 'x', 't'] + (inside + (seq!['>'] + (name + (seq![
                '<',
                '/',
                't',
                'e',
                'x',
                't',
                '>',
            ] + after))))),
        ) == Some(name),
{
    reveal_strlit("<text");
    reveal_strlit("</text>");
    let open = seq!['<', 't', 'e', 'x', 't'];
    let close = seq!['<', '/', 't', 'e', 'x', 't', '>'];
    assert("<text"@ =~= open);
    assert("</text>"@ =~= close);
    let s = before + (open + (inside + (seq!['>'] + (name + (close + after)))));
    let b = before.len() as int;
    let end = b + 5 + inside.len();
    assert forall|k: int| b <= k < end implies #[trigger] s[k] != '>' by {
        if k < b + 5 {
            assert(s[k] == open[k - b]);
        } else {
            assert(s[k] == inside[k - b - 5]);
            assert(inside.contains(inside[k - b - 5]));
        }
    }
    assert(s[end] == '>');
    lemma_first_char(s, '>', b, end);
    let from = end + 1;
    let at = from + name.len();
    law_a_text_is_found_where_it_stands(s, close, from);
    assert(s.subrange(at, at + 7) =~= close);
    assert(s.subrange(at, at + close.len()) == close);
    let found = find_from(s, close, from)->0;
    assert(found == at) by {
        if found < at {
            assert(s.subrange(found, found + close.len())[0] == s[found]);
            assert(s[found] == name[found - from]);
            assert(name.contains(name[found - from]));
        }
    }
    assert(s.subrange(from, at) =~= name);
}

/// A pin is named by the first text of its group, if that is not empty and the
/// group has a number; every such pin is read, and no other.
pub proof fn law_every_named_pin_is_read(
    groups: Seq<Seq<char>>,
    number: Seq<char>,
    name: Seq<char>,
)
    ensures
        pins_of_groups(groups).contains((number, name)) <==> name.len() > 0 && exists|g: int|
            0 <= g < groups.len() && #[trigger] crate::lcsc::attr_in(
                groups[g],
                "c_spicepin=\""@,
            ) == Some(number) && first_text(groups[g]) == Some(name),
    decreases groups.len(),
{
    if groups.len() > 0 {
        let init = groups.drop_last();
        law_every_named_pin_is_read(init, number, name);
        let rest = pins_of_groups(init);
        let all = pins_of_groups(groups);
        let last = groups.len() - 1;
        assert(groups[last] == groups.last());
        let pin = (number, name);
        if rest.contains(pin) {
            let k = choose|k: int| 0 <= k < rest.len() && rest[k] == pin;
            assert(all[k] == pin);
            let g = choose|g: int|
                0 <= g < init.len() && #[trigger] crate::lcsc::attr_in(
                    init[g],
                    "c_spicepin=\""@,
                ) == Some(number) && first_text(init[g]) == Some(name);
            assert(crate::lcsc::attr_in(groups[g], "c_spicepin=\""@) == Some(number));
        }
        if all.contains(pin) && !rest.contains(pin) {
            let k = choose|k: int| 0 <= k < all.len() && all[k] == pin;
            if k < rest.len() {
                assert(rest[k] == pin);
            }
            assert(crate::lcsc::attr_in(groups[last], "c_spicepin=\""@) == Some(number));
        }
        if name.len() > 0 && exists|g: int|
            0 <= g < groups.len() && #[trigger] crate::lcsc::attr_in(
                groups[g],
                "c_spicepin=\""@,
            ) == Some(number) && first_text(groups[g]) == Some(name) {
            let g = choose|g: int|
                0 <= g < groups.len() && #[trigger] crate::lcsc::attr_in(
                    groups[g],
                    "c_spicepin=\""@,
                ) == Some(number) && first_text(groups[g]) == Some(name);
            if g < init.len() {
                assert(crate::lcsc::attr_in(init[g], "c_spicepin=\""@) == Some(number));
            } else {
                assert(all[rest.len() as int] == pin);
            }
        }
    }
}

/// The groups of a symbol are what stands behind each mark, up to the next.
pub proof fn law_a_group_reaches_to_the_next_mark(
    before: Seq<char>,
    mark: Seq<char>,
    rest: Seq<char>,
)
    requires
        mark.len() > 0,
        find_from(before + mark + rest, mark, 0) == Some(before.len() as int),
    ensures
        pieces_after(before + mark + rest, mark).len() > 0,
        pieces_after(before + mark + rest, mark).drop_first() == pieces_after(rest, mark),
        match find_from(rest, mark, 0) {
            Some(j) => pieces_after(before + mark + rest, mark)[0] == rest.take(j),
            None => pieces_after(before + mark + rest, mark) == seq![rest],
        },
        find_from(rest, mark, 0) is None ==> pieces_after(rest, mark).len() == 0,
{
    let s = before + mark + rest;
    assert(s.skip((before.len() + mark.len()) as int) =~= rest);
    let all = pieces_after(s, mark);
    let tail = pieces_after(rest, mark);
    assert(all.drop_first() =~= tail);
    if find_from(rest, mark, 0) is None {
        assert(tail =~= Seq::empty());
        assert(all =~= seq![rest]);
    }
}

/// Pins are read from symbols, the documents of type two, and from nothing
/// else in a reply; those of every symbol count.
pub proof fn law_pins_are_read_from_symbols(entries: Seq<JsonShape>, last: JsonShape)
    ensures
        pins_of_entries(Seq::empty()) == Seq::<(Seq<char>, Seq<char>)>::empty(),
        pins_of_entries(entries.push(last)) == pins_of_entries(entries) + (if member(
            last,
            "docType"@,
        ) == Some(JsonShape::Number(seq!['2'])) && member_text(last, "svg"@) is Some {
            pins_in(member_text(last, "svg"@)->0)
        } else {
            Seq::empty()
        }),
        member_items(last, "result"@) matches Some(items) ==> reply_pins(last) == pins_of_entries(
            items,
        ),
        member_items(last, "result"@) is None ==> reply_pins(last).len() == 0,
{
    reveal_strlit("2");
    assert("2"@ =~= seq!['2']);
    assert(entries.push(last).drop_last() =~= entries);
}

/// A part's category is the first of its tags, if that is a text.
pub proof fn law_a_category_is_the_first_tag(result: JsonShape)
    ensures
        category_of(result) == match member_items(result, "tags"@) {
            Some(tags) => if tags.len() > 0 && tags[0] is Text {
                Some(tags[0]->Text_0)
            } else {
                None
            },
            None => None,
        },
{
}

/// A part is described by its package and what it is, with a dash between
/// them if both are told.
pub proof fn law_a_part_is_described_by_package_and_kind(
    package: Seq<char>,
    description: Seq<char>,
)
    ensures
        description_of(Seq::empty(), description) == description,
        description_of(package, Seq::empty()) == package,
        package.len() > 0 && description.len() > 0 ==> {
            let d = description_of(package, description);
            &&& d.take(package.len() as int) == package
            &&& d.skip(d.len() - description.len()) == description
            &&& d.len() == package.len() + 3 + description.len()
        },
{
    reveal_strlit(" \u{2014} ");
    if package.len() > 0 && description.len() > 0 {
        let d = description_of(package, description);
        assert(d.take(package.len() as int) =~= package);
        assert(d.skip(d.len() - description.len()) =~= description);
    }
}

/// A footprint's origin is what its head says, and zero where it says nothing
/// that is a number.
pub proof fn law_the_origin_is_in_the_head(head: JsonShape, text: Seq<char>, v: int)
    requires
        number_value(text) == Some(v),
        i128::MIN <= v <= i128::MAX,
    ensures
        member(head, "x"@) == Some(JsonShape::Number(text)) ==> head_origin(head).x == v,
        member(head, "y"@) == Some(JsonShape::Number(text)) ==> head_origin(head).y == v,
        member(head, "x"@) is None ==> head_origin(head).x == 0,
        member(head, "y"@) is None ==> head_origin(head).y == 0,
{
}

} // verus!
