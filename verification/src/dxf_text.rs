//! A drawing's text as a list of groups: what is written reads back, and a
//! text behind whole groups is read for itself.

use vstd::prelude::*;

use crate::dxf_outline::{code_of, groups_in};
use crate::text::{
    decimal, digit_char, digit_value, digits_value, find_from, is_digit, is_space, lines_in,
    read_int, trimmed_end, trimmed_start, without_cr,
};

verus! {

/// A group code in decimal notation.
pub open spec fn code_text(code: i32) -> Seq<char> {
    if code < 0 {
        seq!['-'] + decimal((-code) as nat)
    } else {
        decimal(code as nat)
    }
}

/// A group as two lines of text.
pub open spec fn group_text(group: (i32, Seq<char>)) -> Seq<char> {
    code_text(group.0) + seq!['\n'] + group.1 + seq!['\n']
}

/// Groups as text, one behind the other.
pub open spec fn groups_text(groups: Seq<(i32, Seq<char>)>) -> Seq<char>
    decreases groups.len(),
{
    if groups.len() == 0 {
        Seq::empty()
    } else {
        group_text(groups[0]) + groups_text(groups.drop_first())
    }
}

/// Whether a text stands on one line.
pub open spec fn on_one_line(s: Seq<char>) -> bool {
    !s.contains('\n') && !s.contains('\r')
}

/// Decimal notation is made of digits, and they stand for the number.
proof fn lemma_decimal_reads_back(n: nat)
    ensures
        decimal(n).len() > 0,
        forall|i: int| 0 <= i < decimal(n).len() ==> is_digit(#[trigger] decimal(n)[i]),
        digits_value(decimal(n)) == Some(n),
    decreases n,
{
    let last = digit_char(n % 10);
    assert(is_digit(last) && digit_value(last) == n % 10);
    if n < 10 {
        assert(n % 10 == n);
        assert(decimal(n) =~= seq![last]);
        assert(decimal(n).last() == last);
    } else {
        lemma_decimal_reads_back(n / 10);
        let s = decimal(n);
        assert(s == decimal(n / 10).push(last));
        assert(s.drop_last() =~= decimal(n / 10));
        assert(s.last() == last);
        assert forall|i: int| 0 <= i < s.len() implies is_digit(#[trigger] s[i]) by {
            if i < s.len() - 1 {
                assert(s[i] == decimal(n / 10)[i]);
            }
        }
    }
}

/// A code reads back from its notation, which stands on one line.
proof fn lemma_code_reads_back(code: i32)
    ensures
        code_of(code_text(code)) == Some(code),
        on_one_line(code_text(code)),
{
    let s = code_text(code);
    let size = if code < 0 {
        (-code) as nat
    } else {
        code as nat
    };
    let digits = decimal(size);
    lemma_decimal_reads_back(size);
    assert forall|i: int| 0 <= i < s.len() implies s[i] == '-' || is_digit(#[trigger] s[i]) by {
        if code < 0 {
            if i > 0 {
                assert(s[i] == digits[i - 1]);
            }
        } else {
            assert(s[i] == digits[i]);
        }
    }
    assert(!is_space(s[0]));
    assert(s.last() == s[s.len() - 1]);
    assert(!is_space(s.last()));
    assert(trimmed_start(s) == s);
    assert(trimmed_end(s) == s);
    if code < 0 {
        assert(s.drop_first() =~= digits);
    } else {
        assert(is_digit(digits[0]));
    }
    assert(read_int(s) == Some(code as int));
}

/// A line feed is found behind a text that holds none.
proof fn lemma_feed_is_found(line: Seq<char>, rest: Seq<char>, from: int)
    requires
        !line.contains('\n'),
        0 <= from <= line.len(),
    ensures
        find_from(line + seq!['\n'] + rest, seq!['\n'], from) == Some(line.len() as int),
    decreases line.len() - from,
{
    let s = line + seq!['\n'] + rest;
    if from == line.len() {
        assert(s.subrange(from, from + 1) =~= seq!['\n']);
    } else {
        assert(s[from] == line[from]);
        assert(line.contains(line[from]));
        assert(s.subrange(from, from + 1)[0] != '\n');
        assert(s.subrange(from, from + 1) != seq!['\n']);
        lemma_feed_is_found(line, rest, from + 1);
    }
}

/// A line in front of a text is its first line.
proof fn lemma_first_line(line: Seq<char>, rest: Seq<char>)
    requires
        on_one_line(line),
    ensures
        lines_in(line + seq!['\n'] + rest) == seq![line] + lines_in(rest),
{
    let s = line + seq!['\n'] + rest;
    lemma_feed_is_found(line, rest, 0);
    assert(s.take(line.len() as int) =~= line);
    assert(s.skip(line.len() as int + 1) =~= rest);
    assert(without_cr(line) == line) by {
        if line.len() > 0 {
            assert(line.contains(line.last()));
        }
    }
}

/// A text made of whole groups reads back as those groups, values untrimmed,
/// and what stands behind it is read for itself.
pub proof fn law_groups_read_back(groups: Seq<(i32, Seq<char>)>, rest: Seq<char>)
    requires
        forall|i: int| 0 <= i < groups.len() ==> on_one_line((#[trigger] groups[i]).1),
    ensures
        groups_in(lines_in(groups_text(groups))) == groups,
        groups_in(lines_in(groups_text(groups) + rest)) == groups_in(
            lines_in(groups_text(groups)),
        ) + groups_in(lines_in(rest)),
{
    lemma_groups_in_front(groups, Seq::empty());
    assert(groups_text(groups) + Seq::<char>::empty() =~= groups_text(groups));
    assert(groups + groups_in(lines_in(Seq::empty())) =~= groups);
    lemma_groups_in_front(groups, rest);
}

proof fn lemma_groups_in_front(groups: Seq<(i32, Seq<char>)>, rest: Seq<char>)
    requires
        forall|i: int| 0 <= i < groups.len() ==> on_one_line((#[trigger] groups[i]).1),
    ensures
        groups_in(lines_in(groups_text(groups) + rest)) == groups + groups_in(lines_in(rest)),
    decreases groups.len(),
{
    if groups.len() == 0 {
        assert(groups_text(groups) + rest =~= rest);
        assert(groups + groups_in(lines_in(rest)) =~= groups_in(lines_in(rest)));
    } else {
        let (code, value) = groups[0];
        let less = groups.drop_first();
        let behind = groups_text(less) + rest;
        assert forall|i: int| 0 <= i < less.len() implies on_one_line((#[trigger] less[i]).1) by {
            assert(less[i] == groups[i + 1]);
        }
        lemma_groups_in_front(less, rest);
        lemma_code_reads_back(code);
        let tail = value + seq!['\n'] + behind;
        assert(groups_text(groups) + rest =~= code_text(code) + seq!['\n'] + tail);
        lemma_first_line(code_text(code), tail);
        lemma_first_line(value, behind);
        let lines = lines_in(groups_text(groups) + rest);
        assert(lines =~= seq![code_text(code), value] + lines_in(behind));
        assert(lines[0] == code_text(code));
        assert(lines[1] == value);
        assert(lines.skip(2) =~= lines_in(behind));
        assert(groups_in(lines) =~= groups + groups_in(lines_in(rest)));
    }
}

} // verus!
