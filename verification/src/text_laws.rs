//! What texts and numbers in them mean: trimming, capitals, lines, and numbers
//! that read back as what was written.

use vstd::arithmetic::power::pow;
use vstd::prelude::*;

use crate::decimal::{
    all_digits, exponent_of, fraction_part, grid, has_exponent, is_infinity, is_nan, is_number,
    mantissa, mark_from, minus, number_value, opposite, plus, point_from, pow10, run_value, shifted,
    unsigned_part, whole_part, INFINITE, LIMIT, NAN,
};
use crate::template_laws::law_a_text_is_found_where_it_stands;
use crate::text::{
    decimal, digit_char, digits_value, find_from, is_digit, is_space, lines_in, mm_text, padded,
    read_int, signed_mm_text, trimmed, trimmed_end, trimmed_start, upper, uppercased,
    without_end_zeros,
};

verus! {

/// Among ASCII characters, tabulators, line ends and the blank are white
/// space, and nothing else is.
pub proof fn law_what_white_space_is(c: char)
    requires
        (c as u32) < 0x80,
    ensures
        is_space(c) <==> c == '\t' || c == '\n' || c as u32 == 0x0b || c as u32 == 0x0c || c
            == '\r' || c == ' ',
{
}

/// A trimmed text is the text without white space at its ends: what is cut off
/// is white space, and neither end of what is left is.
pub proof fn law_trimming_cuts_white_space_off(s: Seq<char>) -> (cut: (int, int))
    ensures
        0 <= cut.0 <= cut.1 <= s.len(),
        trimmed(s) == s.subrange(cut.0, cut.1),
        forall|i: int| 0 <= i < cut.0 ==> is_space(#[trigger] s[i]),
        forall|i: int| cut.1 <= i < s.len() ==> is_space(#[trigger] s[i]),
        cut.0 < cut.1 ==> !is_space(s[cut.0]) && !is_space(s[cut.1 - 1]),
{
    let a = lemma_trimmed_start(s);
    let rest = s.skip(a);
    let b = lemma_trimmed_end(rest);
    assert(rest.take(b) =~= s.subrange(a, a + b));
    assert forall|i: int| a + b <= i < s.len() implies is_space(#[trigger] s[i]) by {
        assert(rest[i - a] == s[i]);
    }
    if b > 0 {
        assert(rest[b - 1] == s[a + b - 1]);
    }
    (a, a + b)
}

proof fn lemma_trimmed_start(s: Seq<char>) -> (a: int)
    ensures
        0 <= a <= s.len(),
        trimmed_start(s) == s.skip(a),
        forall|i: int| 0 <= i < a ==> is_space(#[trigger] s[i]),
        a < s.len() ==> !is_space(s[a]),
    decreases s.len(),
{
    if s.len() > 0 && is_space(s[0]) {
        let rest = s.drop_first();
        let a = lemma_trimmed_start(rest);
        assert(rest.skip(a) =~= s.skip(a + 1));
        assert forall|i: int| 0 <= i < a + 1 implies is_space(#[trigger] s[i]) by {
            if i > 0 {
                assert(rest[i - 1] == s[i]);
            }
        }
        a + 1
    } else {
        assert(s.skip(0) =~= s);
        0
    }
}

proof fn lemma_trimmed_end(s: Seq<char>) -> (b: int)
    ensures
        0 <= b <= s.len(),
        trimmed_end(s) == s.take(b),
        forall|i: int| b <= i < s.len() ==> is_space(#[trigger] s[i]),
        b > 0 ==> !is_space(s[b - 1]),
    decreases s.len(),
{
    if s.len() > 0 && is_space(s.last()) {
        let rest = s.drop_last();
        let b = lemma_trimmed_end(rest);
        assert(rest.take(b) =~= s.take(b));
        assert forall|i: int| b <= i < s.len() implies is_space(#[trigger] s[i]) by {
            if i < rest.len() {
                assert(rest[i] == s[i]);
            }
        }
        b
    } else {
        assert(s.take(s.len() as int) =~= s);
        s.len() as int
    }
}

/// In capitals a small letter becomes the large one and all else stays.
pub proof fn law_capitals_change_small_letters_only(s: Seq<char>, i: int)
    requires
        0 <= i < s.len(),
    ensures
        uppercased(s).len() == s.len(),
        'a' <= s[i] <= 'z' ==> uppercased(s)[i] as u32 + 32 == s[i] as u32,
        !('a' <= s[i] <= 'z') ==> uppercased(s)[i] == s[i],
        upper('a') == 'A',
{
}

/// A number written in decimal reads back as that number; it has no leading
/// zero unless it is zero.
pub proof fn law_a_decimal_reads_back(n: nat)
    ensures
        digits_value(decimal(n)) == Some(n),
        decimal(n).len() > 0,
        n > 0 ==> decimal(n)[0] != '0',
        forall|i: int| 0 <= i < decimal(n).len() ==> '0' <= #[trigger] decimal(n)[i] <= '9',
    decreases n,
{
    if n >= 10 {
        law_a_decimal_reads_back(n / 10);
        let rest = decimal(n / 10);
        assert(decimal(n).drop_last() =~= rest);
        assert(decimal(n)[0] == rest[0]);
        assert forall|i: int| 0 <= i < decimal(n).len() implies '0' <= #[trigger] decimal(n)[i]
            <= '9' by {
            if i < rest.len() {
                assert(decimal(n)[i] == rest[i]);
            }
        }
    }
}

/// A whole number is read with its sign.
pub proof fn law_a_whole_number_is_read_with_its_sign(n: nat)
    ensures
        read_int(decimal(n)) == Some(n as int),
        read_int(seq!['-'] + decimal(n)) == Some(-(n as int)),
        read_int(seq!['+'] + decimal(n)) == Some(n as int),
        read_int(Seq::empty()) is None,
{
    law_a_decimal_reads_back(n);
    assert((seq!['-'] + decimal(n)).drop_first() =~= decimal(n));
    assert((seq!['+'] + decimal(n)).drop_first() =~= decimal(n));
    assert('0' <= decimal(n)[0] <= '9');
}

/// Only digits, after at most one sign, are a whole number.
pub proof fn law_a_whole_number_has_only_digits(s: Seq<char>)
    ensures
        read_int(s) is Some <==> {
            let signed = s.len() > 0 && (s[0] == '-' || s[0] == '+');
            let from = if signed {
                1int
            } else {
                0
            };
            s.len() > from && forall|i: int| from <= i < s.len() ==> '0' <= #[trigger] s[i] <= '9'
        },
{
    lemma_digits_only(s);
    if s.len() > 0 {
        let rest = s.drop_first();
        lemma_digits_only(rest);
        if forall|i: int| 1 <= i < s.len() ==> '0' <= #[trigger] s[i] <= '9' {
            assert forall|i: int| 0 <= i < rest.len() implies '0' <= #[trigger] rest[i] <= '9' by {
                assert(rest[i] == s[i + 1]);
            }
        }
        if forall|i: int| 0 <= i < rest.len() ==> '0' <= #[trigger] rest[i] <= '9' {
            assert forall|i: int| 1 <= i < s.len() implies '0' <= #[trigger] s[i] <= '9' by {
                assert(rest[i - 1] == s[i]);
            }
        }
    }
}

proof fn lemma_digits_only(s: Seq<char>)
    ensures
        digits_value(s) is Some <==> s.len() > 0 && forall|i: int|
            0 <= i < s.len() ==> '0' <= #[trigger] s[i] <= '9',
    decreases s.len(),
{
    if s.len() > 0 {
        let init = s.drop_last();
        lemma_digits_only(init);
        assert(s[s.len() - 1] == s.last());
        if s.len() > 1 && digits_value(init) is Some && is_digit(s.last()) {
            assert forall|i: int| 0 <= i < s.len() implies '0' <= #[trigger] s[i] <= '9' by {
                if i < init.len() {
                    assert(init[i] == s[i]);
                }
            }
        }
        if forall|i: int| 0 <= i < s.len() ==> '0' <= #[trigger] s[i] <= '9' {
            assert forall|i: int| 0 <= i < init.len() implies '0' <= #[trigger] init[i] <= '9' by {
                assert(init[i] == s[i]);
            }
        }
    }
}

/// A text is cut into lines at every line end, which belongs to no line, nor
/// does a carriage return before it. What follows the last line end is a line
/// if it is not empty.
pub proof fn law_lines_end_at_line_ends(a: Seq<char>, b: Seq<char>)
    requires
        !a.contains('\n'),
    ensures
        lines_in(a + seq!['\n'] + b) == seq![
            if a.len() > 0 && a.last() == '\r' {
                a.drop_last()
            } else {
                a
            },
        ] + lines_in(b),
        a.len() > 0 ==> lines_in(a) == seq![a],
        lines_in(Seq::empty()) == Seq::<Seq<char>>::empty(),
{
    let s = a + seq!['\n'] + b;
    let end = seq!['\n'];
    law_a_text_is_found_where_it_stands(s, end, 0);
    assert(s.subrange(a.len() as int, a.len() as int + 1) =~= end);
    let i = find_from(s, end, 0)->0;
    assert(i == a.len()) by {
        assert(s.subrange(a.len() as int, a.len() as int + end.len()) == end);
        if i < a.len() {
            assert(s.subrange(i, i + end.len())[0] == a[i]);
            assert(end[0] == '\n');
        }
    }
    assert(s.take(i) =~= a);
    assert(s.skip(i + 1) =~= b);
    law_a_text_is_found_where_it_stands(a, end, 0);
    if let Some(j) = find_from(a, end, 0) {
        assert(a.subrange(j, j + end.len())[0] == a[j]);
        assert(end[0] == '\n');
    }
}

proof fn lemma_pow10(n: nat)
    ensures
        pow10(n) == pow(10, n),
        pow10(n) > 0,
    decreases n,
{
    reveal(pow);
    if n > 0 {
        lemma_pow10((n - 1) as nat);
    }
}

proof fn lemma_run(s: Seq<char>, n: nat)
    requires
        digits_value(s) == Some(n),
    ensures
        run_value(s) == n,
    decreases s.len(),
{
    if s.len() > 1 {
        let init = s.drop_last();
        lemma_run(init, digits_value(init)->0);
    } else {
        assert(s.drop_last() =~= Seq::empty());
        assert(run_value(s.drop_last()) == 0);
    }
}

proof fn lemma_no_mark(s: Seq<char>, from: int)
    requires
        0 <= from <= s.len(),
        forall|i: int| 0 <= i < s.len() ==> is_digit(#[trigger] s[i]) || s[i] == '.',
    ensures
        mark_from(s, from) == s.len(),
    decreases s.len() - from,
{
    if from < s.len() {
        assert(is_digit(s[from]) || s[from] == '.');
        lemma_no_mark(s, from + 1);
    }
}

proof fn lemma_point_at(s: Seq<char>, from: int, p: int)
    requires
        0 <= from <= p <= s.len(),
        forall|i: int| 0 <= i < p ==> is_digit(#[trigger] s[i]),
        p < s.len() ==> s[p] == '.',
    ensures
        point_from(s, from) == p,
    decreases p - from,
{
    if from < p {
        assert(is_digit(s[from]));
        lemma_point_at(s, from + 1, p);
    }
}

proof fn lemma_not_a_word(s: Seq<char>)
    requires
        s.len() > 0,
        is_digit(unsigned_part(s)[0]) || unsigned_part(s)[0] == '.',
        unsigned_part(s).len() > 0,
    ensures
        !is_infinity(s),
        !is_nan(s),
{
    reveal_strlit("INF");
    reveal_strlit("INFINITY");
    reveal_strlit("NAN");
    let u = uppercased(unsigned_part(s));
    assert(u[0] == unsigned_part(s)[0]);
    assert("INF"@[0] == 'I' && "INFINITY"@[0] == 'I' && "NAN"@[0] == 'N');
}

/// A decimal number is read as what its digits say, moved by as many places as
/// stand behind the point: in steps of a millionth of a millionth of a
/// millionth. A minus sign makes it negative.
pub proof fn law_a_number_is_what_its_digits_say(whole: Seq<char>, fraction: Seq<char>, n: nat)
    requires
        whole.len() > 0,
        fraction.len() <= 18,
        digits_value(whole + fraction) == Some(n),
        n * pow(10, (18 - fraction.len()) as nat) < LIMIT,
    ensures
        number_value(whole + seq!['.'] + fraction) == Some(
            n * pow(10, (18 - fraction.len()) as nat),
        ),
        number_value(seq!['-'] + (whole + seq!['.'] + fraction)) == Some(
            -(n * pow(10, (18 - fraction.len()) as nat)),
        ),
        fraction.len() == 0 ==> number_value(whole) == Some(n * pow(10, 18)),
        fraction.len() == 0 ==> number_value(seq!['-'] + whole) == Some(-(n * pow(10, 18))),
{
    lemma_digits_only(whole + fraction);
    assert forall|i: int| 0 <= i < whole.len() implies is_digit(#[trigger] whole[i]) by {
        assert((whole + fraction)[i] == whole[i]);
    }
    assert forall|i: int| 0 <= i < fraction.len() implies is_digit(#[trigger] fraction[i]) by {
        assert((whole + fraction)[whole.len() + i] == fraction[i]);
    }
    let s = whole + seq!['.'] + fraction;
    lemma_plain(s, whole, fraction, n);
    let t = seq!['-'] + s;
    assert(t.drop_first() =~= s);
    lemma_plain(t, whole, fraction, n);
    if fraction.len() == 0 {
        assert(whole + fraction =~= whole);
        lemma_plain(whole, whole, fraction, n);
        let u = seq!['-'] + whole;
        assert(u.drop_first() =~= whole);
        lemma_plain(u, whole, fraction, n);
    }
}

proof fn lemma_plain(s: Seq<char>, whole: Seq<char>, fraction: Seq<char>, n: nat)
    requires
        whole.len() > 0,
        fraction.len() <= 18,
        all_digits(whole),
        all_digits(fraction),
        digits_value(whole + fraction) == Some(n),
        n * pow(10, (18 - fraction.len()) as nat) < LIMIT,
        s.len() > 0,
        unsigned_part(s) == whole + seq!['.'] + fraction || (fraction.len() == 0 && unsigned_part(s)
            == whole),
    ensures
        s[0] != '-' ==> number_value(s) == Some(n * pow(10, (18 - fraction.len()) as nat)),
        s[0] == '-' ==> number_value(s) == Some(-(n * pow(10, (18 - fraction.len()) as nat))),
{
    let u = unsigned_part(s);
    assert(whole[0] == u[0]);
    assert(is_digit(whole[0]));
    lemma_not_a_word(s);
    assert forall|i: int| 0 <= i < u.len() implies is_digit(#[trigger] u[i]) || u[i] == '.' by {
        if i < whole.len() {
            assert(u[i] == whole[i]);
        } else if i > whole.len() {
            assert(u[i] == fraction[i - whole.len() - 1]);
        }
    }
    lemma_no_mark(u, 0);
    assert(mantissa(s) =~= u);
    assert forall|i: int| 0 <= i < whole.len() implies is_digit(#[trigger] u[i]) by {
        assert(u[i] == whole[i]);
    }
    lemma_point_at(u, 0, whole.len() as int);
    assert(whole_part(s) =~= whole);
    assert(fraction_part(s) =~= fraction);
    assert(!has_exponent(s));
    assert(exponent_of(s) == 0);
    assert(is_number(s));
    lemma_run(whole + fraction, n);
    let places = (18 - fraction.len()) as nat;
    lemma_pow10(places);
    lemma_pow10(327);
    assert(n * pow10(places) == n * pow(10, places));
    assert(n * pow10(places) >= n) by (nonlinear_arith)
        requires
            pow10(places) >= 1,
    ;
    assert(shifted(n, 18 - fraction.len()) == n * pow10(places));
    lemma_limit();
}

proof fn lemma_limit()
    ensures
        pow10(327) > LIMIT,
{
    assert(pow10(37) == 10_000_000_000_000_000_000_000_000_000_000_000_000) by {
        reveal_with_fuel(pow10, 38);
    }
    lemma_pow10_more(38, 327);
    assert(pow10(38) == 10 * pow10(37));
}

proof fn lemma_pow10_more(a: nat, b: nat)
    requires
        a <= b,
    ensures
        pow10(a) <= pow10(b),
    decreases b - a,
{
    if a < b {
        lemma_pow10_more(a, (b - 1) as nat);
        lemma_pow10((b - 1) as nat);
    }
}

/// An exponent moves the point: a whole number with one is that number times
/// as many tens, or by that many tens divided if it is negative.
pub proof fn law_an_exponent_moves_the_point(whole: Seq<char>, mark: char, n: nat, k: nat)
    requires
        digits_value(whole) == Some(n),
        mark == 'e' || mark == 'E',
        k <= 18,
        n * pow(10, 18 + k) < LIMIT,
    ensures
        number_value(whole + seq![mark] + decimal(k)) == Some(n * pow(10, 18 + k)),
        number_value(whole + seq![mark] + (seq!['+'] + decimal(k))) == Some(n * pow(10, 18 + k)),
        number_value(whole + seq![mark] + (seq!['-'] + decimal(k))) == Some(
            n * pow(10, (18 - k) as nat),
        ),
{
    lemma_digits_only(whole);
    law_a_decimal_reads_back(k);
    lemma_run_of_whole(k);
    lemma_run(whole, n);
    lemma_with_exponent(whole, mark, decimal(k), n, k as int);
    let plus = seq!['+'] + decimal(k);
    assert(plus.drop_first() =~= decimal(k));
    lemma_with_exponent(whole, mark, plus, n, k as int);
    let minus = seq!['-'] + decimal(k);
    assert(minus.drop_first() =~= decimal(k));
    lemma_pow10(18 + k);
    lemma_pow10((18 - k) as nat);
    lemma_pow10_more((18 - k) as nat, 18 + k);
    assert(n * pow10((18 - k) as nat) <= n * pow10(18 + k)) by (nonlinear_arith)
        requires
            pow10((18 - k) as nat) <= pow10(18 + k),
    ;
    lemma_with_exponent(whole, mark, minus, n, -(k as int));
}

proof fn lemma_mark_at(s: Seq<char>, from: int, p: int)
    requires
        0 <= from <= p < s.len(),
        forall|i: int| 0 <= i < p ==> is_digit(#[trigger] s[i]),
        s[p] == 'e' || s[p] == 'E',
    ensures
        mark_from(s, from) == p,
    decreases p - from,
{
    if from < p {
        assert(is_digit(s[from]));
        lemma_mark_at(s, from + 1, p);
    }
}

proof fn lemma_with_exponent(
    whole: Seq<char>,
    mark: char,
    exponent: Seq<char>,
    n: nat,
    k: int,
)
    requires
        whole.len() > 0,
        forall|i: int| 0 <= i < whole.len() ==> '0' <= #[trigger] whole[i] <= '9',
        run_value(whole) == n,
        mark == 'e' || mark == 'E',
        exponent.len() > 0,
        unsigned_part(exponent).len() > 0,
        all_digits(unsigned_part(exponent)),
        -18 <= k <= 18,
        run_value(unsigned_part(exponent)) == if k < 0 {
            -k
        } else {
            k
        },
        (exponent[0] == '-') ==> k <= 0,
        (exponent[0] != '-') ==> k >= 0,
        n * pow(10, (18 + k) as nat) < LIMIT,
    ensures
        number_value(whole + seq![mark] + exponent) == Some(n * pow(10, (18 + k) as nat)),
{
    let s = whole + seq![mark] + exponent;
    assert(s[0] == whole[0]);
    assert(unsigned_part(s) == s);
    lemma_not_a_word(s);
    assert forall|i: int| 0 <= i < whole.len() implies is_digit(#[trigger] s[i]) by {
        assert(s[i] == whole[i]);
    }
    lemma_mark_at(s, 0, whole.len() as int);
    assert(mantissa(s) =~= whole);
    lemma_point_at(whole, 0, whole.len() as int);
    assert(whole_part(s) =~= whole);
    assert(fraction_part(s) =~= Seq::<char>::empty());
    assert(whole_part(s) + fraction_part(s) =~= whole);
    assert(crate::decimal::exponent_part(s) =~= exponent);
    assert(exponent_of(s) == k);
    assert(is_number(s));
    let places = (18 + k) as nat;
    lemma_pow10(places);
    lemma_pow10(327);
    lemma_limit();
    assert(n * pow10(places) >= n) by (nonlinear_arith)
        requires
            pow10(places) >= 1,
    ;
    assert(shifted(n, 18 + k) == n * pow10(places));
}

/// A length written in millimetres reads back to the nanometre, with no more
/// digits behind the point than it needs.
pub proof fn law_a_length_reads_back(nm: nat)
    requires
        nm < 10_000_000_000_000_000_000_000_000,
    ensures
        number_value(mm_text(nm)) == Some((nm * 1_000_000_000_000) as int),
        nm > 0 ==> number_value(signed_mm_text(-(nm as int))) == Some(-(nm * 1_000_000_000_000)),
        signed_mm_text(nm as int) == mm_text(nm),
        nm % 1_000_000 == 0 ==> mm_text(nm) == decimal(nm / 1_000_000),
        nm % 1_000_000 != 0 ==> mm_text(nm).last() != '0',
{
    let whole = decimal(nm / 1_000_000);
    let rest = nm % 1_000_000;
    let six = padded(rest, 6);
    let fraction = without_end_zeros(six);
    law_a_decimal_reads_back(nm / 1_000_000);
    assert(pow10(6) == 1_000_000) by {
        reveal_with_fuel(pow10, 7);
    }
    lemma_padded(rest, 6);
    let k = lemma_without_zeros(six);
    lemma_run_of_whole(nm / 1_000_000);
    let f = fraction.len();
    lemma_joined_run(whole, fraction);
    let m = run_value(whole + fraction);
    assert(all_digits(whole + fraction)) by {
        assert forall|i: int| 0 <= i < (whole + fraction).len() implies is_digit(
            #[trigger] (whole + fraction)[i],
        ) by {
            if i < whole.len() {
                assert((whole + fraction)[i] == whole[i]);
            } else {
                assert((whole + fraction)[i] == fraction[i - whole.len()]);
            }
        }
    }
    lemma_digits_run(whole + fraction);
    lemma_pow10_sum(f, k);
    lemma_pow10(f);
    lemma_pow10(k);
    lemma_pow10((18 - f) as nat);
    lemma_pow10_sum(k, 12);
    assert(pow10(12) == 1_000_000_000_000) by {
        reveal_with_fuel(pow10, 13);
    }
    let w = nm / 1_000_000;
    let r = run_value(fraction);
    assert(m == w * pow10(f) + r);
    assert(rest == r * pow10(k));
    assert(m * pow10((18 - f) as nat) == nm * 1_000_000_000_000) by {
        assert(pow10((18 - f) as nat) == pow10(k) * 1_000_000_000_000);
        assert(m * pow10(k) == nm) by {
            assert((w * pow10(f) + r) * pow10(k) == w * (pow10(f) * pow10(k)) + r * pow10(k))
                by (nonlinear_arith);
            assert(nm == w * 1_000_000 + rest);
        }
        assert(m * (pow10(k) * 1_000_000_000_000) == (m * pow10(k)) * 1_000_000_000_000)
            by (nonlinear_arith);
    }
    law_a_number_is_what_its_digits_say(whole, fraction, m);
    if rest == 0 {
        lemma_padded_zero(6);
        lemma_all_zeros(six);
    } else if f > 0 {
        assert(mm_text(nm).last() == fraction.last());
    } else {
        assert(run_value(fraction) == 0);
    }
}

proof fn lemma_padded_zero(n: nat)
    ensures
        padded(0, n).len() == n,
        forall|i: int| 0 <= i < n ==> #[trigger] padded(0, n)[i] == '0',
    decreases n,
{
    if n > 0 {
        lemma_padded_zero((n - 1) as nat);
    }
}

proof fn lemma_all_zeros(s: Seq<char>)
    requires
        forall|i: int| 0 <= i < s.len() ==> #[trigger] s[i] == '0',
    ensures
        without_end_zeros(s).len() == 0,
    decreases s.len(),
{
    if s.len() > 0 {
        assert(s[s.len() - 1] == '0');
        lemma_all_zeros(s.drop_last());
    }
}

proof fn lemma_padded(value: nat, n: nat)
    requires
        value < pow10(n),
    ensures
        padded(value, n).len() == n,
        all_digits(padded(value, n)),
        run_value(padded(value, n)) == value,
    decreases n,
{
    if n > 0 {
        assert(value / 10 < pow10((n - 1) as nat));
        lemma_padded(value / 10, (n - 1) as nat);
        let rest = padded(value / 10, (n - 1) as nat);
        let all = padded(value, n);
        assert(all.drop_last() =~= rest);
        assert(all.last() == digit_char(value % 10));
        assert forall|i: int| 0 <= i < all.len() implies is_digit(#[trigger] all[i]) by {
            if i < rest.len() {
                assert(all[i] == rest[i]);
            }
        }
    }
}

proof fn lemma_without_zeros(s: Seq<char>) -> (k: nat)
    requires
        all_digits(s),
    ensures
        without_end_zeros(s).len() + k == s.len(),
        all_digits(without_end_zeros(s)),
        run_value(s) == run_value(without_end_zeros(s)) * pow10(k),
        without_end_zeros(s).len() > 0 ==> without_end_zeros(s).last() != '0',
    decreases s.len(),
{
    if s.len() > 0 && s.last() == '0' {
        let init = s.drop_last();
        assert forall|i: int| 0 <= i < init.len() implies is_digit(#[trigger] init[i]) by {
            assert(init[i] == s[i]);
        }
        let k = lemma_without_zeros(init);
        let r = run_value(without_end_zeros(init));
        assert((r * pow10(k)) * 10 == r * (10 * pow10(k))) by (nonlinear_arith);
        assert(pow10(k + 1) == 10 * pow10(k));
        k + 1
    } else {
        assert(pow10(0) == 1);
        assert(run_value(s) * 1 == run_value(s));
        0
    }
}

proof fn lemma_digits_run(s: Seq<char>)
    requires
        s.len() > 0,
        all_digits(s),
    ensures
        digits_value(s) == Some(run_value(s)),
    decreases s.len(),
{
    let init = s.drop_last();
    assert(s[s.len() - 1] == s.last());
    if s.len() > 1 {
        assert forall|i: int| 0 <= i < init.len() implies is_digit(#[trigger] init[i]) by {
            assert(init[i] == s[i]);
        }
        lemma_digits_run(init);
    } else {
        assert(run_value(init) == 0);
    }
}

proof fn lemma_run_of_whole(n: nat)
    ensures
        run_value(decimal(n)) == n,
        all_digits(decimal(n)),
{
    law_a_decimal_reads_back(n);
    lemma_run(decimal(n), n);
}

proof fn lemma_joined_run(a: Seq<char>, b: Seq<char>)
    ensures
        run_value(a + b) == run_value(a) * pow10(b.len()) + run_value(b),
    decreases b.len(),
{
    if b.len() > 0 {
        let init = b.drop_last();
        lemma_joined_run(a, init);
        assert((a + b).drop_last() =~= a + init);
        assert((a + b).last() == b.last());
        let x = run_value(a);
        let p = pow10(init.len());
        assert((x * p) * 10 == x * (10 * p)) by (nonlinear_arith);
        assert(pow10(b.len()) == 10 * p);
    } else {
        assert(a + b =~= a);
        assert(pow10(0) == 1);
        assert(run_value(a) * 1 == run_value(a));
    }
}

proof fn lemma_pow10_sum(a: nat, b: nat)
    ensures
        pow10(a + b) == pow10(a) * pow10(b),
    decreases a,
{
    if a > 0 {
        lemma_pow10_sum((a - 1) as nat, b);
        let p = pow10((a - 1) as nat);
        let q = pow10(b);
        assert((10 * p) * q == 10 * (p * q)) by (nonlinear_arith);
        assert(pow10(a + b) == 10 * pow10((a + b - 1) as nat));
    } else {
        assert(pow10(a) == 1);
        assert(1 * pow10(b) == pow10(b));
    }
}

/// Numbers add and subtract as numbers do; what is no number stays none, and
/// what is out of all bounds stays so.
pub proof fn law_numbers_add_up(a: int, b: int)
    requires
        -INFINITE < a < INFINITE,
        -INFINITE < b < INFINITE,
    ensures
        plus(a, b) == a + b,
        minus(a, b) == a - b,
        opposite(a) == -a,
        plus(NAN as int, b) == NAN,
        plus(a, NAN as int) == NAN,
        minus(NAN as int, b) == NAN,
        minus(a, NAN as int) == NAN,
        plus(INFINITE as int, b) == INFINITE,
        plus(a, INFINITE as int) == INFINITE,
        minus(a, INFINITE as int) == -INFINITE,
        minus(INFINITE as int, INFINITE as int) == NAN,
{
}

/// A number is put on the grid at the nearest place; what is no number is put
/// at zero.
pub proof fn law_the_grid_place_is_the_nearest(v: int, d: int)
    requires
        d > 0,
        v != NAN,
        -9_000_000_000_000_000_000 * d <= v <= 9_000_000_000_000_000_000 * d,
    ensures
        -d <= 2 * (grid(v, d) * d - v) <= d,
        grid(NAN as int, d) == 0,
{
    crate::outline_laws::lemma_rounded(v, d);
    let r = crate::decimal::rounded(v, d);
    assert(-9_000_000_000_000_000_001 <= r <= 9_000_000_000_000_000_001) by (nonlinear_arith)
        requires
            d > 0,
            -9_000_000_000_000_000_000 * d <= v <= 9_000_000_000_000_000_000 * d,
            -d <= 2 * (r * d - v) <= d,
    ;
}

} // verus!
