//! Decimal numbers as they stand in text, read as whole multiples of
//! 10^-18. Digits further behind the point are dropped, but a number that is
//! not zero stays apart from it: it counts as one step at least. A number
//! further than 10^19 from zero counts as that limit, and from 10^309 on as
//! infinite.
//!
//! The words for infinity and `nan` are numbers too. They stand beyond the
//! limit, and sums, bounds and grids treat them as their names say: infinity
//! less infinity is `nan`, bounds pass `nan` over, and on a grid it is nought.

use vstd::arithmetic::div_mod::lemma_div_denominator;
use vstd::prelude::*;

use crate::geom::Unit;
use crate::text::{ascii_upper_chars, digit_value, is_digit, slice_of, spells, uppercased};

verus! {

/// The largest magnitude that a finite number is read as, in steps of 10^-18:
/// the largest power of ten of which sixteen add up within the integer.
pub const LIMIT: i128 = 10_000_000_000_000_000_000_000_000_000_000_000_000;

/// Infinity; its opposite is minus infinity.
pub const INFINITE: i128 = 170_141_183_460_469_231_731_687_303_715_884_105_727;

/// What is no number of any size.
pub const NAN: i128 = -170_141_183_460_469_231_731_687_303_715_884_105_728;

/// Exponents count up to this.
pub const EXPONENT_LIMIT: i64 = 1_000_000_000;

/// How many digits behind the point are kept.
pub const PLACES: i64 = 18;

/// A number with so many places in steps of 10^-18 behind its first digit is
/// infinite.
pub const INFINITE_PLACES: i128 = 327;

/// Ten to the power `n`.
pub open spec fn pow10(n: nat) -> nat
    decreases n,
{
    if n == 0 {
        1
    } else {
        10 * pow10((n - 1) as nat)
    }
}

/// Whether a character is a sign.
pub open spec fn is_sign(c: char) -> bool {
    c == '-' || c == '+'
}

/// Whether a character announces an exponent.
pub open spec fn is_exponent_mark(c: char) -> bool {
    c == 'e' || c == 'E'
}

/// `s` without the sign in front of it.
pub open spec fn unsigned_part(s: Seq<char>) -> Seq<char> {
    if s.len() > 0 && is_sign(s[0]) {
        s.drop_first()
    } else {
        s
    }
}

/// Where the exponent mark stands, at `from` or behind it; the end of the
/// text if there is none.
pub open spec fn mark_from(s: Seq<char>, from: int) -> int
    decreases s.len() - from,
{
    if from >= s.len() || is_exponent_mark(s[from]) {
        from
    } else {
        mark_from(s, from + 1)
    }
}

/// Where the point stands, at `from` or behind it; the end of the text if
/// there is none.
pub open spec fn point_from(s: Seq<char>, from: int) -> int
    decreases s.len() - from,
{
    if from >= s.len() || s[from] == '.' {
        from
    } else {
        point_from(s, from + 1)
    }
}

/// What stands in front of the exponent mark.
pub open spec fn mantissa(s: Seq<char>) -> Seq<char> {
    unsigned_part(s).take(mark_from(unsigned_part(s), 0))
}

/// The digits in front of the point.
pub open spec fn whole_part(s: Seq<char>) -> Seq<char> {
    mantissa(s).take(point_from(mantissa(s), 0))
}

/// The digits behind the point.
pub open spec fn fraction_part(s: Seq<char>) -> Seq<char> {
    let m = mantissa(s);
    let p = point_from(m, 0);
    if p < m.len() {
        m.skip(p + 1)
    } else {
        Seq::empty()
    }
}

/// Whether the text has an exponent mark.
pub open spec fn has_exponent(s: Seq<char>) -> bool {
    mark_from(unsigned_part(s), 0) < unsigned_part(s).len()
}

/// What stands behind the exponent mark.
pub open spec fn exponent_part(s: Seq<char>) -> Seq<char> {
    unsigned_part(s).skip(mark_from(unsigned_part(s), 0) + 1)
}

/// Whether every character is a digit.
pub open spec fn all_digits(s: Seq<char>) -> bool {
    forall|i: int| 0 <= i < s.len() ==> is_digit(#[trigger] s[i])
}

/// The number that a run of digits stands for, zero for an empty run.
pub open spec fn run_value(s: Seq<char>) -> nat
    decreases s.len(),
{
    if s.len() == 0 {
        0
    } else {
        run_value(s.drop_last()) * 10 + digit_value(s.last())
    }
}

/// Whether a text is a number: an optional sign, digits with at most one
/// point among them, and an optional exponent.
pub open spec fn is_number(s: Seq<char>) -> bool {
    &&& all_digits(whole_part(s))
    &&& all_digits(fraction_part(s))
    &&& whole_part(s).len() + fraction_part(s).len() > 0
    &&& has_exponent(s) ==> unsigned_part(exponent_part(s)).len() > 0 && all_digits(
        unsigned_part(exponent_part(s)),
    )
}

/// The power of ten that the exponent stands for.
pub open spec fn exponent_of(s: Seq<char>) -> int {
    if !has_exponent(s) {
        0
    } else {
        let e = exponent_part(s);
        let n = run_value(unsigned_part(e)) as int;
        let size = if n < EXPONENT_LIMIT {
            n
        } else {
            EXPONENT_LIMIT as int
        };
        if e[0] == '-' {
            -size
        } else {
            size
        }
    }
}

/// `n` moved by `places` decimal places, whatever falls behind the point
/// dropped.
pub open spec fn shifted(n: nat, places: int) -> nat {
    if places >= 0 {
        n * pow10(places as nat)
    } else {
        n / pow10((-places) as nat)
    }
}

/// The size of a number in steps of 10^-18: one at least if it is not zero,
/// and up to the limit unless it is so large that it is infinite.
pub open spec fn size_of_number(s: Seq<char>) -> int {
    let digits = run_value(whole_part(s) + fraction_part(s));
    let n = shifted(digits, PLACES - fraction_part(s).len() + exponent_of(s)) as int;
    if n == 0 && digits > 0 {
        1
    } else if n >= pow10(INFINITE_PLACES as nat) {
        INFINITE as int
    } else if n < LIMIT {
        n
    } else {
        LIMIT as int
    }
}

/// Whether a text is a word for infinity, behind an optional sign.
pub open spec fn is_infinity(s: Seq<char>) -> bool {
    uppercased(unsigned_part(s)) == "INF"@ || uppercased(unsigned_part(s)) == "INFINITY"@
}

/// Whether a text is the word for no number of any size, behind an optional
/// sign.
pub open spec fn is_nan(s: Seq<char>) -> bool {
    uppercased(unsigned_part(s)) == "NAN"@
}

/// The number that a text stands for, in steps of 10^-18.
pub open spec fn number_value(s: Seq<char>) -> Option<int> {
    let size = if is_infinity(s) {
        INFINITE as int
    } else {
        size_of_number(s)
    };
    if is_nan(s) {
        Some(NAN as int)
    } else if !is_infinity(s) && !is_number(s) {
        None
    } else if s.len() > 0 && s[0] == '-' {
        Some(-size)
    } else {
        Some(size)
    }
}

/// Whether `v` is no number, infinite, or within `n` times the limit.
pub open spec fn measured(v: int, n: int) -> bool {
    v == NAN || v == INFINITE || v == -INFINITE || -n * LIMIT <= v <= n * LIMIT
}

/// The opposite of a number.
pub open spec fn opposite(v: int) -> int {
    if v == NAN {
        v
    } else {
        -v
    }
}

/// The sum of two numbers.
pub open spec fn plus(a: int, b: int) -> int {
    if a == NAN || b == NAN {
        NAN as int
    } else if a == INFINITE || a == -INFINITE {
        if b == -a {
            NAN as int
        } else {
            a
        }
    } else if b == INFINITE || b == -INFINITE {
        b
    } else {
        a + b
    }
}

/// The difference of two numbers.
pub open spec fn minus(a: int, b: int) -> int {
    plus(a, opposite(b))
}

/// The sum of two numbers.
pub(crate) fn sum_of(a: i128, b: i128, Ghost(n): Ghost<int>, Ghost(m): Ghost<int>) -> (r: i128)
    requires
        measured(a as int, n),
        measured(b as int, m),
        0 <= n,
        0 <= m,
        n + m <= 16,
    ensures
        r == plus(a as int, b as int),
        measured(r as int, n + m),
{
    proof {
        assert((n + m) * LIMIT == n * LIMIT + m * LIMIT) by (nonlinear_arith);
        assert(n * LIMIT <= (n + m) * LIMIT && m * LIMIT <= (n + m) * LIMIT) by (nonlinear_arith)
            requires
                0 <= n,
                0 <= m,
        ;
        assert(-(n + m) * LIMIT == -n * LIMIT - m * LIMIT) by (nonlinear_arith);
        assert((n + m) * LIMIT <= 16 * LIMIT) by (nonlinear_arith)
            requires
                n + m <= 16,
        ;
        assert(-n * LIMIT == -(n * LIMIT) && -m * LIMIT == -(m * LIMIT)) by (nonlinear_arith);
    }
    if a == NAN || b == NAN {
        NAN
    } else if a == INFINITE || a == -INFINITE {
        if b == -a {
            NAN
        } else {
            a
        }
    } else if b == INFINITE || b == -INFINITE {
        b
    } else {
        a + b
    }
}

/// The opposite of a number.
pub(crate) fn opposite_of(a: i128, Ghost(n): Ghost<int>) -> (r: i128)
    requires
        measured(a as int, n),
    ensures
        r == opposite(a as int),
        measured(r as int, n),
{
    assert(-n * LIMIT == -(n * LIMIT)) by (nonlinear_arith);
    if a == NAN {
        a
    } else {
        -a
    }
}

/// The difference of two numbers.
pub(crate) fn difference_of(a: i128, b: i128, Ghost(n): Ghost<int>, Ghost(m): Ghost<int>) -> (r: i128)
    requires
        measured(a as int, n),
        measured(b as int, m),
        0 <= n,
        0 <= m,
        n + m <= 16,
    ensures
        r == minus(a as int, b as int),
        measured(r as int, n + m),
{
    sum_of(a, opposite_of(b, Ghost(m)), Ghost(n), Ghost(m))
}

proof fn lemma_mark_bounds(s: Seq<char>, from: int)
    requires
        0 <= from <= s.len(),
    ensures
        from <= mark_from(s, from) <= s.len(),
    decreases s.len() - from,
{
    if from < s.len() && !is_exponent_mark(s[from]) {
        lemma_mark_bounds(s, from + 1);
    }
}

proof fn lemma_point_bounds(s: Seq<char>, from: int)
    requires
        0 <= from <= s.len(),
    ensures
        from <= point_from(s, from) <= s.len(),
    decreases s.len() - from,
{
    if from < s.len() && s[from] != '.' {
        lemma_point_bounds(s, from + 1);
    }
}

proof fn lemma_pow10_positive(n: nat)
    ensures
        pow10(n) > 0,
    decreases n,
{
    if n > 0 {
        lemma_pow10_positive((n - 1) as nat);
    }
}

/// Dividing by a power of ten drops digits from the back.
proof fn lemma_dropping_digits(s: Seq<char>, j: nat)
    requires
        all_digits(s),
    ensures
        run_value(s) / pow10(j) == (if j <= s.len() {
            run_value(s.take(s.len() - j))
        } else {
            0
        }),
    decreases j,
{
    if j == 0 {
        assert(pow10(0) == 1);
        assert(s.take(s.len() as int) =~= s);
        assert(run_value(s) / 1 == run_value(s)) by (nonlinear_arith);
    } else {
        let below = (j - 1) as nat;
        lemma_pow10_positive(below);
        lemma_div_denominator(run_value(s) as int, 10, pow10(below) as int);
        assert(run_value(s) / pow10(j) == run_value(s) / 10 / pow10(below));
        if s.len() == 0 {
            lemma_dropping_digits(s, below);
            assert(run_value(s) == 0);
            assert(run_value(s.take(0)) == 0);
            assert(run_value(s) / 10 == run_value(s));
        } else {
            assert(is_digit(s.last()));
            assert(run_value(s) / 10 == run_value(s.drop_last()));
            assert(all_digits(s.drop_last())) by {
                assert forall|i: int| 0 <= i < s.drop_last().len() implies is_digit(
                    #[trigger] s.drop_last()[i],
                ) by {
                    assert(is_digit(s[i]));
                }
            }
            lemma_dropping_digits(s.drop_last(), below);
            if j <= s.len() {
                assert(s.drop_last().take(s.drop_last().len() - below) =~= s.take(s.len() - j));
            }
        }
    }
}

proof fn lemma_pow10_adds(a: nat, b: nat)
    ensures
        pow10(a + b) == pow10(a) * pow10(b),
    decreases a,
{
    if a > 0 {
        let c = (a - 1) as nat;
        lemma_pow10_adds(c, b);
        assert((10 * pow10(c)) * pow10(b) == 10 * (pow10(c) * pow10(b))) by (nonlinear_arith);
        assert((a + b - 1) as nat == c + b);
    } else {
        let p = pow10(b);
        assert(pow10(0) == 1);
        assert(1 * p == p) by (nonlinear_arith);
    }
}

proof fn lemma_pow10_grows(a: nat, b: nat)
    requires
        a <= b,
    ensures
        pow10(a) <= pow10(b),
    decreases b,
{
    if a < b {
        lemma_pow10_grows(a, (b - 1) as nat);
    }
}

/// Digits stand for less than a power of ten, and for no less than the one
/// below if the first of them is no zero.
proof fn lemma_run_bounds(s: Seq<char>)
    requires
        all_digits(s),
    ensures
        run_value(s) < pow10(s.len()),
        s.len() > 0 && s[0] != '0' ==> run_value(s) >= pow10((s.len() - 1) as nat),
    decreases s.len(),
{
    if s.len() > 0 {
        let init = s.drop_last();
        assert(all_digits(init)) by {
            assert forall|i: int| 0 <= i < init.len() implies is_digit(#[trigger] init[i]) by {
                assert(is_digit(s[i]));
            }
        }
        lemma_run_bounds(init);
        assert(is_digit(s.last()));
        if s.len() > 1 {
            assert(init[0] == s[0]);
        } else {
            assert(s.last() == s[0]);
            assert(run_value(init) == 0);
        }
    }
}

/// Zeros in front count for nothing.
proof fn lemma_leading_zero(s: Seq<char>)
    requires
        s.len() > 0,
        s[0] == '0',
    ensures
        run_value(s) == run_value(s.drop_first()),
    decreases s.len(),
{
    let rest = s.drop_first();
    if s.len() == 1 {
        assert(s.last() == '0');
        assert(run_value(s.drop_last()) == 0);
    } else {
        lemma_leading_zero(s.drop_last());
        assert(s.drop_last().drop_first() =~= rest.drop_last());
        assert(rest.last() == s.last());
    }
}

/// Whether a number is so large that it is infinite, by its first digit that
/// is no zero.
proof fn lemma_infinite(s: Seq<char>, shift: int)
    requires
        all_digits(s),
        s.len() > 0 ==> s[0] != '0',
    ensures
        shifted(run_value(s), shift) >= pow10(INFINITE_PLACES as nat) <==> s.len() > 0 && s.len() - 1
            + shift >= INFINITE_PLACES,
{
    let v = run_value(s);
    let m = s.len();
    let top = INFINITE_PLACES as nat;
    lemma_run_bounds(s);
    lemma_pow10_positive(top);
    if shift >= 0 {
        let z = shift as nat;
        lemma_pow10_positive(z);
        lemma_pow10_adds(m, z);
        assert(v * pow10(z) < pow10(m) * pow10(z)) by (nonlinear_arith)
            requires
                v < pow10(m),
                pow10(z) > 0,
        ;
        if m > 0 && m - 1 + shift >= top {
            let b = (m - 1) as nat;
            lemma_pow10_adds(b, z);
            lemma_pow10_grows(top, b + z);
            assert(v * pow10(z) >= pow10(b) * pow10(z)) by (nonlinear_arith)
                requires
                    v >= pow10(b),
                    pow10(z) > 0,
            ;
        } else if m > 0 {
            lemma_pow10_grows(m + z, top);
        } else {
            assert(v == 0);
            assert(0 * pow10(z) == 0) by (nonlinear_arith);
        }
    } else {
        let z = (-shift) as nat;
        lemma_pow10_positive(z);
        lemma_pow10_adds(top, z);
        let d = pow10(z);
        let t = pow10(top);
        assert(v / d >= t <==> v >= t * d) by {
            assert(v >= t * d ==> v / d >= t) by (nonlinear_arith)
                requires
                    d > 0,
                    v >= 0,
                    t >= 0,
            ;
            assert(v < t * d ==> v / d < t) by (nonlinear_arith)
                requires
                    d > 0,
                    v >= 0,
                    t >= 0,
            ;
        }
        if m > 0 && m - 1 + shift >= top {
            lemma_pow10_grows(top + z, (m - 1) as nat);
        } else if m > 0 {
            lemma_pow10_grows(m, top + z);
        } else {
            lemma_pow10_positive(top + z);
        }
    }
}

/// Whether digits moved by `shift` places are so large that they are infinite.
fn is_overlong(digits: &[char], shift: i128) -> (r: bool)
    requires
        all_digits(digits@),
        -0x1_0000_0000_0000_0000_0000 <= shift <= 0x1_0000_0000_0000_0000_0000,
    ensures
        r == (shifted(run_value(digits@), shift as int) >= pow10(INFINITE_PLACES as nat)),
{
    let mut z: usize = 0;
    assert(digits@.skip(0) =~= digits@);
    while z < digits.len() && digits[z] == '0'
        invariant
            z <= digits@.len(),
            all_digits(digits@),
            run_value(digits@) == run_value(digits@.skip(z as int)),
        decreases digits@.len() - z,
    {
        proof {
            let rest = digits@.skip(z as int);
            assert(rest[0] == '0');
            lemma_leading_zero(rest);
            assert(rest.drop_first() =~= digits@.skip(z + 1));
        }
        z += 1;
    }
    proof {
        let rest = digits@.skip(z as int);
        assert forall|i: int| 0 <= i < rest.len() implies is_digit(#[trigger] rest[i]) by {
            assert(is_digit(digits@[z + i]));
        }
        lemma_infinite(rest, shift as int);
    }
    let left: usize = digits.len() - z;
    left > 0 && left as i128 - 1 + shift >= INFINITE_PLACES
}

/// Whether every character from `from` up to `to` is a digit.
fn is_digit_run(s: &[char], from: usize, to: usize) -> (r: bool)
    requires
        from <= to <= s@.len(),
    ensures
        r == all_digits(s@.subrange(from as int, to as int)),
{
    let ghost run = s@.subrange(from as int, to as int);
    let mut i: usize = from;
    while i < to
        invariant
            from <= i <= to <= s@.len(),
            run == s@.subrange(from as int, to as int),
            forall|k: int| from <= k < i ==> is_digit(#[trigger] s@[k]),
        decreases to - i,
    {
        let c: char = s[i];
        if !('0' <= c && c <= '9') {
            assert(run[i - from] == c);
            return false;
        }
        i += 1;
    }
    assert forall|k: int| 0 <= k < run.len() implies is_digit(#[trigger] run[k]) by {
        assert(run[k] == s@[from + k]);
    }
    true
}

/// The number that the first `count` digits stand for, or `cap` if that is
/// less.
fn capped_run(s: &[char], count: usize, cap: i128) -> (r: i128)
    requires
        count <= s@.len(),
        all_digits(s@),
        0 < cap <= LIMIT,
    ensures
        r == (if run_value(s@.take(count as int)) < cap {
            run_value(s@.take(count as int)) as int
        } else {
            cap as int
        }),
{
    let mut r: i128 = 0;
    let mut i: usize = 0;
    while i < count
        invariant
            i <= count <= s@.len(),
            all_digits(s@),
            0 < cap <= LIMIT,
            r == (if run_value(s@.take(i as int)) < cap {
                run_value(s@.take(i as int)) as int
            } else {
                cap as int
            }),
        decreases count - i,
    {
        proof {
            assert(is_digit(s@[i as int]));
            assert(s@.take(i + 1).drop_last() =~= s@.take(i as int));
            assert(s@.take(i + 1).last() == s@[i as int]);
        }
        let digit: i128 = (s[i] as u32 - '0' as u32) as i128;
        r = r * 10 + digit;
        if r > cap {
            r = cap;
        }
        i += 1;
    }
    r
}

proof fn lemma_times_pow10(n: nat, k: nat)
    ensures
        n * pow10(k + 1) == (n * pow10(k)) * 10,
{
    assert(n * (10 * pow10(k)) == (n * pow10(k)) * 10) by (nonlinear_arith);
}

proof fn lemma_zeros_stay(n: nat, i: nat, k: nat)
    requires
        i <= k,
    ensures
        n * pow10(i) <= n * pow10(k),
        n == 0 ==> n * pow10(k) == 0,
    decreases k - i,
{
    if i < k {
        lemma_zeros_stay(n, i, (k - 1) as nat);
        lemma_times_pow10(n, (k - 1) as nat);
    }
}

/// `start`, which is `n` up to the limit, with `zeros` zeros behind it, up to
/// the limit.
fn capped_zeros(start: i128, zeros: i128, Ghost(n): Ghost<nat>) -> (r: i128)
    requires
        start == (if n < LIMIT {
            n as int
        } else {
            LIMIT as int
        }),
        zeros >= 0,
    ensures
        r == (if n * pow10(zeros as nat) < LIMIT {
            (n * pow10(zeros as nat)) as int
        } else {
            LIMIT as int
        }),
{
    let mut r: i128 = start;
    let mut i: i128 = 0;
    assert(pow10(0) == 1);
    assert(n * 1 == n) by (nonlinear_arith);
    while i < zeros
        invariant
            0 <= i <= zeros,
            r == (if n * pow10(i as nat) < LIMIT {
                (n * pow10(i as nat)) as int
            } else {
                LIMIT as int
            }),
        decreases zeros - i,
    {
        if r == 0 || r == LIMIT {
            proof {
                lemma_zeros_stay(n, i as nat, zeros as nat);
                if r == 0 {
                    lemma_pow10_positive(i as nat);
                    assert(n == 0) by (nonlinear_arith)
                        requires
                            n * pow10(i as nat) == 0,
                            pow10(i as nat) > 0,
                            n >= 0,
                    ;
                }
            }
            return r;
        }
        proof {
            lemma_times_pow10(n, i as nat);
        }
        r = r * 10;
        if r > LIMIT {
            r = LIMIT;
        }
        i += 1;
    }
    r
}

/// The number that some digits stand for, moved by `shift` places, up to the
/// limit.
fn shifted_size(digits: &[char], shift: i128) -> (r: i128)
    requires
        all_digits(digits@),
        -0x1_0000_0000_0000_0000_0000 <= shift <= 0x1_0000_0000_0000_0000_0000,
    ensures
        r == (if shifted(run_value(digits@), shift as int) < LIMIT {
            shifted(run_value(digits@), shift as int) as int
        } else {
            LIMIT as int
        }),
{
    if shift >= 0 {
        let start: i128 = capped_run(digits, digits.len(), LIMIT);
        assert(digits@.take(digits@.len() as int) =~= digits@);
        return capped_zeros(start, shift, Ghost(run_value(digits@)));
    }
    let ghost dropped = (-shift) as nat;
    proof {
        lemma_dropping_digits(digits@, dropped);
    }
    let count: i128 = digits.len() as i128 + shift;
    if count < 0 {
        return 0;
    }
    capped_run(digits, count as usize, LIMIT)
}

/// Reads the exponent that begins at `from`.
fn read_exponent(s: &[char], from: usize) -> (r: Option<i64>)
    requires
        from <= s@.len(),
    ensures
        ({
            let e = s@.skip(from as int);
            let n = run_value(unsigned_part(e)) as int;
            let size = if n < EXPONENT_LIMIT {
                n
            } else {
                EXPONENT_LIMIT as int
            };
            match r {
                Some(v) => unsigned_part(e).len() > 0 && all_digits(unsigned_part(e)) && v == (
                if e[0] == '-' {
                    -size
                } else {
                    size
                }),
                None => !(unsigned_part(e).len() > 0 && all_digits(unsigned_part(e))),
            }
        }),
{
    let ghost e = s@.skip(from as int);
    if from == s.len() {
        return None;
    }
    let first: usize = if s[from] == '-' || s[from] == '+' {
        from + 1
    } else {
        from
    };
    assert(unsigned_part(e) =~= s@.subrange(first as int, s@.len() as int));
    if first == s.len() || !is_digit_run(s, first, s.len()) {
        return None;
    }
    let run: Vec<char> = slice_of(s, first, s.len());
    let size: i128 = capped_run(&run, run.len(), EXPONENT_LIMIT as i128);
    assert(run@.take(run@.len() as int) =~= run@);
    if s[from] == '-' {
        Some(-(size as i64))
    } else {
        Some(size as i64)
    }
}

/// Where the parts of a number stand: the digits in front of the point from
/// `start` to `point`, those behind it from `after` to `mark`, and behind
/// `mark` the exponent.
struct Layout {
    start: usize,
    point: usize,
    after: usize,
    mark: usize,
}

/// Finds the parts of a number.
fn layout_of(s: &[char]) -> (r: Layout)
    ensures
        r.start <= r.point <= r.after <= r.mark <= s@.len(),
        r.point == r.start && r.after == r.mark ==> whole_part(s@).len() + fraction_part(s@).len()
            == 0,
        whole_part(s@) == s@.subrange(r.start as int, r.point as int),
        fraction_part(s@) == s@.subrange(r.after as int, r.mark as int),
        has_exponent(s@) == (r.mark < s@.len()),
        r.mark < s@.len() ==> exponent_part(s@) == s@.skip(r.mark + 1),
{
    let start: usize = if s.len() > 0 && (s[0] == '-' || s[0] == '+') {
        1
    } else {
        0
    };
    let ghost body = unsigned_part(s@);
    assert(body =~= s@.skip(start as int));
    let mut mark: usize = start;
    while mark < s.len() && s[mark] != 'e' && s[mark] != 'E'
        invariant
            start <= mark <= s@.len(),
            body == s@.skip(start as int),
            mark_from(body, 0) == mark_from(body, mark - start),
        decreases s@.len() - mark,
    {
        mark += 1;
    }
    assert(mark_from(body, 0) == mark - start);
    let ghost m = mantissa(s@);
    assert(m =~= s@.subrange(start as int, mark as int));
    let mut point: usize = start;
    while point < mark && s[point] != '.'
        invariant
            start <= point <= mark <= s@.len(),
            m == s@.subrange(start as int, mark as int),
            point_from(m, 0) == point_from(m, point - start),
        decreases mark - point,
    {
        point += 1;
    }
    assert(point_from(m, 0) == point - start);
    let after: usize = if point < mark {
        point + 1
    } else {
        point
    };
    proof {
        assert(whole_part(s@) =~= s@.subrange(start as int, point as int));
        assert(fraction_part(s@) =~= s@.subrange(after as int, mark as int));
        if mark < s@.len() {
            assert(exponent_part(s@) =~= s@.skip(mark + 1));
        }
    }
    Layout { start, point, after, mark }
}

/// The capitals of a word behind its sign.
fn capitals_of(s: &[char]) -> (r: Vec<char>)
    ensures
        r@ == uppercased(unsigned_part(s@)),
{
    let start: usize = if s.len() > 0 && (s[0] == '-' || s[0] == '+') {
        1
    } else {
        0
    };
    let word: Vec<char> = slice_of(s, start, s.len());
    assert(word@ =~= unsigned_part(s@));
    ascii_upper_chars(&word)
}

/// Reads a number, in steps of 10^-18.
pub fn read_number(s: &[char]) -> (r: Option<i128>)
    ensures
        match r {
            Some(v) => number_value(s@) == Some(v as int) && measured(v as int, 1),
            None => number_value(s@) is None,
        },
{
    let word: Vec<char> = capitals_of(s);
    if spells(&word, "NAN") {
        return Some(NAN);
    }
    if spells(&word, "INF") || spells(&word, "INFINITY") {
        return if s.len() > 0 && s[0] == '-' {
            Some(-INFINITE)
        } else {
            Some(INFINITE)
        };
    }
    let at = layout_of(s);
    if !is_digit_run(s, at.start, at.point) || !is_digit_run(s, at.after, at.mark) {
        return None;
    }
    if at.point == at.start && at.after == at.mark {
        return None;
    }
    let exponent: i64 = if at.mark < s.len() {
        match read_exponent(s, at.mark + 1) {
            Some(e) => e,
            None => {
                return None;
            },
        }
    } else {
        0
    };
    let mut digits: Vec<char> = slice_of(s, at.start, at.point);
    let mut behind: Vec<char> = slice_of(s, at.after, at.mark);
    let places: usize = behind.len();
    digits.append(&mut behind);
    let ghost all = whole_part(s@) + fraction_part(s@);
    assert(digits@ =~= all);
    assert(all_digits(digits@));
    assert(exponent == exponent_of(s@));
    let shift: i128 = PLACES as i128 - places as i128 + exponent as i128;
    proof {
        lemma_pow10_positive(INFINITE_PLACES as nat);
    }
    let mut size: i128 = if is_overlong(&digits, shift) {
        INFINITE
    } else {
        shifted_size(&digits, shift)
    };
    if size == 0 && capped_run(&digits, digits.len(), 1) > 0 {
        size = 1;
    }
    assert(digits@.take(digits@.len() as int) =~= digits@);
    if s.len() > 0 && s[0] == '-' {
        Some(-size)
    } else {
        Some(size)
    }
}

/// A place, each coordinate in steps of 10^-18.
#[derive(Debug, Clone, Copy, PartialEq, Eq, Structural)]
pub struct Spot {
    pub x: i128,
    pub y: i128,
}

impl Spot {
    /// Whether each coordinate is no number, infinite, or within `n` times the
    /// limit.
    pub open spec fn within(self, n: int) -> bool {
        measured(self.x as int, n) && measured(self.y as int, n)
    }
}

/// The quotient rounded to the nearest integer, halves away from zero.
pub open spec fn rounded(n: int, d: int) -> int {
    if n >= 0 {
        (2 * n + d) / (2 * d)
    } else {
        -((-2 * n + d) / (2 * d))
    }
}

/// `n`, or the nearest value that a length can have.
pub open spec fn clamped(n: int) -> int {
    if n < i64::MIN {
        i64::MIN as int
    } else if n > i64::MAX {
        i64::MAX as int
    } else {
        n
    }
}

/// A number on a grid with steps of `d`; what is no number lies at nought.
pub open spec fn grid(v: int, d: int) -> int {
    if v == NAN {
        0
    } else {
        clamped(rounded(v, d))
    }
}

/// A number on a grid with steps of `d`.
pub fn grid_unit(n: i128, d: i128) -> (r: Unit)
    requires
        0 < d <= 1_000_000_000_000_000_000,
    ensures
        r == grid(n as int, d as int),
{
    if n == NAN {
        return 0;
    }
    let size: i128 = if n >= 0 {
        n
    } else {
        -n
    };
    if size > 8 * LIMIT {
        proof {
            let q = (2 * size + d) / (2 * d);
            assert(q > 0x8000_0000_0000_0000) by (nonlinear_arith)
                requires
                    size > 8 * LIMIT,
                    0 < d <= 1_000_000_000_000_000_000,
                    q == (2 * size + d) / (2 * d),
            ;
        }
        return if n >= 0 {
            0x7fff_ffff_ffff_ffff
        } else {
            -0x8000_0000_0000_0000
        };
    }
    let top: i128 = 2 * size + d;
    let bottom: i128 = 2 * d;
    proof {
        assert(0 <= top / bottom <= top) by (nonlinear_arith)
            requires
                top >= 0,
                bottom >= 1,
        ;
    }
    let q: i128 = if n >= 0 {
        top / bottom
    } else {
        -(top / bottom)
    };
    if q < -0x8000_0000_0000_0000 {
        -0x8000_0000_0000_0000
    } else if q > 0x7fff_ffff_ffff_ffff {
        0x7fff_ffff_ffff_ffff
    } else {
        q as Unit
    }
}

/// The smaller of two numbers; one that is none of any size is passed over.
pub open spec fn least(a: int, b: int) -> int {
    if a == NAN || (b != NAN && b < a) {
        b
    } else {
        a
    }
}

/// The larger of two numbers; one that is none of any size is passed over.
pub open spec fn greatest(a: int, b: int) -> int {
    if a == NAN || (b != NAN && b > a) {
        b
    } else {
        a
    }
}

/// The smaller of two numbers.
pub fn least_of(a: i128, b: i128) -> (r: i128)
    ensures
        r == least(a as int, b as int),
{
    if a == NAN || (b != NAN && b < a) {
        b
    } else {
        a
    }
}

/// The larger of two numbers.
pub fn greatest_of(a: i128, b: i128) -> (r: i128)
    ensures
        r == greatest(a as int, b as int),
{
    if a == NAN || (b != NAN && b > a) {
        b
    } else {
        a
    }
}

/// The smallest of some numbers.
pub open spec fn lowest(values: Seq<int>) -> int
    decreases values.len(),
{
    if values.len() == 0 {
        NAN as int
    } else {
        least(lowest(values.drop_last()), values.last())
    }
}

/// The largest of some numbers.
pub open spec fn highest(values: Seq<int>) -> int
    decreases values.len(),
{
    if values.len() == 0 {
        NAN as int
    } else {
        greatest(highest(values.drop_last()), values.last())
    }
}

/// Every number of a size lies between the smallest and the largest, and these
/// are among the numbers if any has a size.
pub proof fn law_bounds_hold_every_value(values: Seq<int>, i: int)
    requires
        0 <= i < values.len(),
        values[i] != NAN,
    ensures
        lowest(values) <= values[i] <= highest(values),
        values.contains(lowest(values)),
        values.contains(highest(values)),
        lowest(values) != NAN,
        highest(values) != NAN,
    decreases values.len(),
{
    let init = values.drop_last();
    let n = values.len() - 1;
    assert(values[n] == values.last());
    if i < n {
        assert(init[i] == values[i]);
        law_bounds_hold_every_value(init, i);
        let a = choose|a: int| 0 <= a < init.len() && init[a] == lowest(init);
        let b = choose|b: int| 0 <= b < init.len() && init[b] == highest(init);
        assert(values[a] == lowest(init));
        assert(values[b] == highest(init));
    } else {
        lemma_bounds_are_among(init);
        if lowest(init) != NAN {
            let a = choose|a: int| 0 <= a < init.len() && init[a] == lowest(init);
            assert(values[a] == lowest(init));
        }
        if highest(init) != NAN {
            let b = choose|b: int| 0 <= b < init.len() && init[b] == highest(init);
            assert(values[b] == highest(init));
        }
    }
}

/// The bounds are among the numbers, unless none has a size.
pub proof fn lemma_bounds_are_among(values: Seq<int>)
    ensures
        lowest(values) == NAN || values.contains(lowest(values)),
        highest(values) == NAN || values.contains(highest(values)),
    decreases values.len(),
{
    if values.len() > 0 {
        let init = values.drop_last();
        lemma_bounds_are_among(init);
        assert(values[values.len() - 1] == values.last());
        if init.contains(lowest(init)) {
            let a = choose|a: int| 0 <= a < init.len() && init[a] == lowest(init);
            assert(values[a] == lowest(init));
        }
        if init.contains(highest(init)) {
            let b = choose|b: int| 0 <= b < init.len() && init[b] == highest(init);
            assert(values[b] == highest(init));
        }
    }
}

/// The bounds of some numbers depend only on which numbers there are.
pub proof fn law_bounds_depend_on_the_numbers_alone(a: Seq<int>, b: Seq<int>)
    requires
        forall|v: int| a.contains(v) <==> #[trigger] b.contains(v),
    ensures
        lowest(a) == lowest(b),
        highest(a) == highest(b),
{
    lemma_bounds_are_among(a);
    lemma_bounds_are_among(b);
    assert(lowest(a) != NAN ==> b.contains(lowest(a)));
    assert(highest(a) != NAN ==> b.contains(highest(a)));
    if lowest(a) != NAN {
        lemma_bounds_hold(b, lowest(a));
    }
    if highest(a) != NAN {
        lemma_bounds_hold(b, highest(a));
    }
    if lowest(b) != NAN {
        assert(a.contains(lowest(b)));
        lemma_bounds_hold(a, lowest(b));
    }
    if highest(b) != NAN {
        assert(a.contains(highest(b)));
        lemma_bounds_hold(a, highest(b));
    }
}

proof fn lemma_bounds_hold(values: Seq<int>, v: int)
    requires
        values.contains(v),
        v != NAN,
    ensures
        lowest(values) <= v <= highest(values),
        lowest(values) != NAN,
        highest(values) != NAN,
{
    let i = choose|i: int| 0 <= i < values.len() && values[i] == v;
    law_bounds_hold_every_value(values, i);
}

} // verus!
