//! Character-level text tools: whitespace, trimming, decimal numbers,
//! comparison and assembly of strings, all stated over the sequence of
//! characters that a string holds.

use vstd::prelude::*;

verus! {

/// `String::push` puts the character at the end of the string.
pub assume_specification[ String::push ](s: &mut String, c: char)
    ensures
        final(s)@ == old(s)@.push(c),
;

/// The characters of `s`, in order.
pub fn chars_of(s: &str) -> (v: Vec<char>)
    ensures
        v@ == s@,
{
    let mut v: Vec<char> = Vec::new();
    for c in iter: s.chars()
        invariant
            iter.seq() == s@,
            v@ == s@.take(iter.index()),
    {
        v.push(c);
        assert(v@ =~= s@.take(iter.index() + 1));
    }
    assert(s@.take(s@.len() as int) =~= s@);
    v
}

/// The string that holds `chars`.
pub fn string_of(chars: &[char]) -> (s: String)
    ensures
        s@ == chars@,
{
    let mut s = String::new();
    let mut i: usize = 0;
    while i < chars.len()
        invariant
            i <= chars@.len(),
            s@ == chars@.take(i as int),
        decreases chars@.len() - i,
    {
        s.push(chars[i]);
        i += 1;
        assert(s@ =~= chars@.take(i as int));
    }
    assert(chars@.take(i as int) =~= chars@);
    s
}

/// Whether two character sequences are the same.
pub fn same_chars(xs: &[char], ys: &[char]) -> (r: bool)
    ensures
        r == (xs@ == ys@),
{
    if xs.len() != ys.len() {
        return false;
    }
    let mut i: usize = 0;
    while i < xs.len()
        invariant
            i <= xs@.len(),
            xs@.len() == ys@.len(),
            forall|j: int| 0 <= j < i ==> xs@[j] == ys@[j],
        decreases xs@.len() - i,
    {
        if xs[i] != ys[i] {
            assert(xs@[i as int] != ys@[i as int]);
            return false;
        }
        i += 1;
    }
    assert(xs@ =~= ys@);
    true
}

/// Whether two strings hold the same characters.
pub fn same_text(a: &str, b: &str) -> (r: bool)
    ensures
        r == (a@ == b@),
{
    let xs: Vec<char> = chars_of(a);
    let ys: Vec<char> = chars_of(b);
    same_chars(&xs, &ys)
}

/// The characters with the Unicode property `White_Space`.
pub open spec fn is_space(c: char) -> bool {
    ||| 0x09 <= c as u32 <= 0x0d
    ||| c as u32 == 0x20
    ||| c as u32 == 0x85
    ||| c as u32 == 0xa0
    ||| c as u32 == 0x1680
    ||| 0x2000 <= c as u32 <= 0x200a
    ||| c as u32 == 0x2028
    ||| c as u32 == 0x2029
    ||| c as u32 == 0x202f
    ||| c as u32 == 0x205f
    ||| c as u32 == 0x3000
}

/// Whether `c` is whitespace.
pub fn is_whitespace(c: char) -> (r: bool)
    ensures
        r == is_space(c),
{
    let u: u32 = c as u32;
    (0x09 <= u && u <= 0x0d) || u == 0x20 || u == 0x85 || u == 0xa0 || u == 0x1680 || (0x2000 <= u
        && u <= 0x200a) || u == 0x2028 || u == 0x2029 || u == 0x202f || u == 0x205f || u == 0x3000
}

/// `s` without the whitespace at its front.
pub open spec fn trimmed_start(s: Seq<char>) -> Seq<char>
    decreases s.len(),
{
    if s.len() > 0 && is_space(s[0]) {
        trimmed_start(s.drop_first())
    } else {
        s
    }
}

/// `s` without the whitespace at its back.
pub open spec fn trimmed_end(s: Seq<char>) -> Seq<char>
    decreases s.len(),
{
    if s.len() > 0 && is_space(s.last()) {
        trimmed_end(s.drop_last())
    } else {
        s
    }
}

/// `s` without the whitespace at either end.
pub open spec fn trimmed(s: Seq<char>) -> Seq<char> {
    trimmed_end(trimmed_start(s))
}

/// `chars` without the whitespace at either end.
pub fn trim_chars(chars: &[char]) -> (r: Vec<char>)
    ensures
        r@ == trimmed(chars@),
{
    let mut lo: usize = 0;
    assert(chars@.skip(0) =~= chars@);
    while lo < chars.len() && is_whitespace(chars[lo])
        invariant
            lo <= chars@.len(),
            trimmed_start(chars@) == trimmed_start(chars@.skip(lo as int)),
        decreases chars@.len() - lo,
    {
        assert(chars@.skip(lo as int).drop_first() =~= chars@.skip(lo + 1));
        lo += 1;
    }
    let ghost body = chars@.skip(lo as int);
    assert(trimmed_start(chars@) == body);
    let mut hi: usize = chars.len();
    assert(body.take(hi - lo) =~= body);
    while hi > lo && is_whitespace(chars[hi - 1])
        invariant
            lo <= hi <= chars@.len(),
            body == chars@.skip(lo as int),
            trimmed_end(body) == trimmed_end(body.take(hi - lo)),
        decreases hi,
    {
        assert(body.take(hi - lo).drop_last() =~= body.take(hi - lo - 1));
        assert(body.take(hi - lo).last() == chars@[hi - 1]);
        hi -= 1;
    }
    proof {
        if hi > lo {
            assert(body.take(hi - lo).last() == chars@[hi - 1]);
        }
    }
    let mut r: Vec<char> = Vec::new();
    let mut i: usize = lo;
    while i < hi
        invariant
            lo <= i <= hi <= chars@.len(),
            body == chars@.skip(lo as int),
            r@ == body.take(i - lo),
        decreases hi - i,
    {
        r.push(chars[i]);
        i += 1;
        assert(r@ =~= body.take(i - lo));
    }
    r
}

/// `s` without the whitespace at either end.
pub fn trim(s: &str) -> (r: String)
    ensures
        r@ == trimmed(s@),
{
    let chars: Vec<char> = chars_of(s);
    let kept: Vec<char> = trim_chars(&chars);
    string_of(&kept)
}

/// The decimal digit `d`.
pub open spec fn digit_char(d: nat) -> char {
    if d == 0 {
        '0'
    } else if d == 1 {
        '1'
    } else if d == 2 {
        '2'
    } else if d == 3 {
        '3'
    } else if d == 4 {
        '4'
    } else if d == 5 {
        '5'
    } else if d == 6 {
        '6'
    } else if d == 7 {
        '7'
    } else if d == 8 {
        '8'
    } else {
        '9'
    }
}

fn digit(d: u64) -> (c: char)
    requires
        d < 10,
    ensures
        c == digit_char(d as nat),
{
    match d {
        0 => '0',
        1 => '1',
        2 => '2',
        3 => '3',
        4 => '4',
        5 => '5',
        6 => '6',
        7 => '7',
        8 => '8',
        _ => '9',
    }
}

/// The decimal notation of `n`: no sign, no leading zero.
pub open spec fn decimal(n: nat) -> Seq<char>
    decreases n,
{
    if n < 10 {
        seq![digit_char(n)]
    } else {
        decimal(n / 10).push(digit_char(n % 10))
    }
}

/// The decimal notation of `n`.
pub fn decimal_string(n: u64) -> (s: String)
    ensures
        s@ == decimal(n as nat),
    decreases n,
{
    let mut s = if n < 10 {
        String::new()
    } else {
        decimal_string(n / 10)
    };
    s.push(digit(n % 10));
    assert(n < 10 ==> s@ =~= decimal(n as nat));
    s
}

proof fn lemma_digit_char_is_injective(a: nat, b: nat)
    requires
        a < 10,
        b < 10,
        digit_char(a) == digit_char(b),
    ensures
        a == b,
{
}

/// Two numbers with the same decimal notation are the same number.
pub proof fn law_decimal_is_injective(a: nat, b: nat)
    requires
        decimal(a) == decimal(b),
    ensures
        a == b,
    decreases a,
{
    lemma_decimal_len(a);
    lemma_decimal_len(b);
    if a < 10 && b < 10 {
        assert(decimal(a)[0] == digit_char(a));
        assert(decimal(b)[0] == digit_char(b));
        lemma_digit_char_is_injective(a, b);
    } else if a >= 10 && b >= 10 {
        assert(decimal(a).drop_last() =~= decimal(a / 10));
        assert(decimal(b).drop_last() =~= decimal(b / 10));
        law_decimal_is_injective(a / 10, b / 10);
        assert(decimal(a).last() == digit_char(a % 10));
        assert(decimal(b).last() == digit_char(b % 10));
        lemma_digit_char_is_injective(a % 10, b % 10);
    }
}

proof fn lemma_decimal_len(n: nat)
    ensures
        decimal(n).len() >= 1,
        n < 10 <==> decimal(n).len() == 1,
    decreases n,
{
    if n >= 10 {
        lemma_decimal_len(n / 10);
    }
}

/// `a` followed by `b`.
pub fn joined(a: &str, b: &str) -> (s: String)
    ensures
        s@ == a@ + b@,
{
    let mut s = a.to_owned();
    s.append(b);
    s
}

/// The first place at or after `from` where `part` occurs in `s`.
pub open spec fn find_from(s: Seq<char>, part: Seq<char>, from: int) -> Option<int>
    decreases s.len() - from + 1,
{
    if from + part.len() > s.len() {
        None
    } else if s.subrange(from, from + part.len()) == part {
        Some(from)
    } else {
        find_from(s, part, from + 1)
    }
}

/// Whether `part` stands in `s` at place `i`.
fn occurs_at(s: &[char], part: &[char], i: usize) -> (r: bool)
    requires
        i + part@.len() <= s@.len(),
    ensures
        r == (s@.subrange(i as int, i + part@.len()) == part@),
{
    let n: usize = s.len();
    let mut k: usize = 0;
    while k < part.len()
        invariant
            k <= part@.len(),
            n == s@.len(),
            i + part@.len() <= n,
            forall|j: int| 0 <= j < k ==> s@[i + j] == part@[j],
        decreases part@.len() - k,
    {
        if s[i + k] != part[k] {
            assert(s@.subrange(i as int, i + part@.len())[k as int] != part@[k as int]);
            return false;
        }
        k += 1;
    }
    assert(s@.subrange(i as int, i + part@.len()) =~= part@);
    true
}

/// The first place at or after `from` where `part` occurs in `s`.
pub fn find_chars(s: &[char], part: &[char], from: usize) -> (r: Option<usize>)
    ensures
        match r {
            Some(i) => find_from(s@, part@, from as int) == Some(i as int) && from <= i && i
                + part@.len() <= s@.len() && s@.subrange(i as int, i + part@.len()) == part@,
            None => find_from(s@, part@, from as int) is None,
        },
{
    let mut i: usize = from;
    while i <= s.len() && part.len() <= s.len() - i
        invariant
            from <= i,
            find_from(s@, part@, from as int) == find_from(s@, part@, i as int),
        decreases s@.len() + 1 - i,
    {
        if occurs_at(s, part, i) {
            return Some(i);
        }
        if i == s.len() {
            assert(find_from(s@, part@, i + 1) is None);
            return None;
        }
        i += 1;
    }
    None
}

/// Whether `s` begins with `part`.
pub fn starts_with(s: &[char], part: &[char]) -> (r: bool)
    ensures
        r == part@.is_prefix_of(s@),
{
    if part.len() > s.len() {
        return false;
    }
    let r = occurs_at(s, part, 0);
    assert(r == part@.is_prefix_of(s@));
    r
}

/// `c` with an ASCII lower-case letter made upper-case.
pub open spec fn upper(c: char) -> char {
    if 'a' <= c && c <= 'z' {
        (c as u32 - 32) as char
    } else {
        c
    }
}

/// `s` with every ASCII letter made upper-case.
pub open spec fn uppercased(s: Seq<char>) -> Seq<char> {
    s.map_values(|c: char| upper(c))
}

/// `c` with an ASCII lower-case letter made upper-case.
pub fn ascii_upper(c: char) -> (r: char)
    ensures
        r == upper(c),
{
    if 'a' <= c && c <= 'z' {
        ((c as u32 - 32) as u8) as char
    } else {
        c
    }
}

/// `s` with every ASCII letter made upper-case.
pub fn ascii_upper_chars(s: &[char]) -> (r: Vec<char>)
    ensures
        r@ == uppercased(s@),
{
    let mut r: Vec<char> = Vec::new();
    let mut i: usize = 0;
    while i < s.len()
        invariant
            i <= s@.len(),
            r@ == uppercased(s@.take(i as int)),
        decreases s@.len() - i,
    {
        r.push(ascii_upper(s[i]));
        i += 1;
        assert(r@ =~= uppercased(s@.take(i as int)));
    }
    assert(s@.take(i as int) =~= s@);
    r
}

/// An ASCII letter or digit.
pub open spec fn is_alnum(c: char) -> bool {
    ('0' <= c && c <= '9') || ('A' <= c && c <= 'Z') || ('a' <= c && c <= 'z')
}

/// An ASCII digit.
pub open spec fn is_digit(c: char) -> bool {
    '0' <= c && c <= '9'
}

/// Whether `chars` spell `word`.
pub fn spells(chars: &[char], word: &str) -> (r: bool)
    ensures
        r == (chars@ == word@),
{
    let letters: Vec<char> = chars_of(word);
    same_chars(chars, &letters)
}

/// Whether `word` occurs anywhere in `chars`.
pub fn mentions(chars: &[char], word: &str) -> (r: bool)
    ensures
        r == (find_from(chars@, word@, 0) is Some),
{
    let letters: Vec<char> = chars_of(word);
    find_chars(chars, &letters, 0).is_some()
}

/// `line` without the carriage return at its end.
pub open spec fn without_cr(line: Seq<char>) -> Seq<char> {
    if line.len() > 0 && line.last() == '\r' {
        line.drop_last()
    } else {
        line
    }
}

/// The lines of a text: what stands before each line feed, without a carriage
/// return right in front of it, and what stands behind the last line feed
/// unless that is nothing.
pub open spec fn lines_in(s: Seq<char>) -> Seq<Seq<char>>
    decreases s.len(),
{
    if s.len() == 0 {
        Seq::empty()
    } else {
        match find_from(s, seq!['\n'], 0) {
            Some(i) => if 0 <= i < s.len() {
                seq![without_cr(s.take(i))] + lines_in(s.skip(i + 1))
            } else {
                Seq::empty()
            },
            None => seq![s],
        }
    }
}

/// What each of some character lists holds.
pub open spec fn texts_of(lists: Seq<Vec<char>>) -> Seq<Seq<char>> {
    lists.map_values(|v: Vec<char>| v@)
}

/// The characters from `from` up to `to`.
pub fn slice_of(s: &[char], from: usize, to: usize) -> (r: Vec<char>)
    requires
        from <= to <= s@.len(),
    ensures
        r@ == s@.subrange(from as int, to as int),
{
    let mut r: Vec<char> = Vec::new();
    let mut i: usize = from;
    while i < to
        invariant
            from <= i <= to <= s@.len(),
            r@ == s@.subrange(from as int, i as int),
        decreases to - i,
    {
        r.push(s[i]);
        i += 1;
        assert(r@ =~= s@.subrange(from as int, i as int));
    }
    r
}

/// Searching a rest of a text is searching the text from there on.
pub proof fn lemma_find_in_rest(s: Seq<char>, part: Seq<char>, start: int, from: int)
    requires
        0 <= start <= s.len(),
        0 <= from,
    ensures
        find_from(s.skip(start), part, from) == (match find_from(s, part, start + from) {
            Some(i) => Some(i - start),
            None => None,
        }),
    decreases s.len() - start - from + 1,
{
    let rest = s.skip(start);
    if from + part.len() <= rest.len() {
        assert(rest.subrange(from, from + part.len()) =~= s.subrange(
            start + from,
            start + from + part.len(),
        ));
        lemma_find_in_rest(s, part, start, from + 1);
    }
}

/// The lines of a text.
pub fn lines_of(s: &[char]) -> (r: Vec<Vec<char>>)
    ensures
        texts_of(r@) == lines_in(s@),
{
    let mut r: Vec<Vec<char>> = Vec::new();
    let mut start: usize = 0;
    let feed: Vec<char> = chars_of("\n");
    proof {
        reveal_strlit("\n");
        assert(feed@ =~= seq!['\n']);
        assert(s@.skip(0) =~= s@);
        assert(texts_of(r@) + lines_in(s@.skip(0)) =~= lines_in(s@));
    }
    while start < s.len()
        invariant
            start <= s@.len(),
            feed@ == seq!['\n'],
            texts_of(r@) + lines_in(s@.skip(start as int)) == lines_in(s@),
        decreases s@.len() - start,
    {
        let ghost rest = s@.skip(start as int);
        let ghost before = r@;
        proof {
            lemma_find_in_rest(s@, seq!['\n'], start as int, 0);
        }
        match find_chars(s, &feed, start) {
            Some(i) => {
                let mut end: usize = i;
                assert(rest.take(i - start) =~= s@.subrange(start as int, i as int));
                if end > start && s[end - 1] == '\r' {
                    end -= 1;
                }
                let line: Vec<char> = slice_of(s, start, end);
                proof {
                    let whole = s@.subrange(start as int, i as int);
                    if i > start {
                        assert(whole.last() == s@[i - 1]);
                    }
                    assert(line@ =~= without_cr(whole));
                    assert(rest.skip(i - start + 1) =~= s@.skip(i + 1));
                }
                r.push(line);
                proof {
                    assert(texts_of(r@) =~= texts_of(before).push(line@));
                    assert(texts_of(before) + (seq![line@] + lines_in(s@.skip(i + 1)))
                        =~= texts_of(r@) + lines_in(s@.skip(i + 1)));
                }
                start = i + 1;
            },
            None => {
                let line: Vec<char> = slice_of(s, start, s.len());
                r.push(line);
                proof {
                    assert(line@ =~= rest);
                    assert(texts_of(r@) =~= texts_of(before).push(line@));
                    assert(texts_of(before) + seq![rest] =~= texts_of(r@));
                    assert(s@.skip(s@.len() as int) =~= Seq::<char>::empty());
                    assert(texts_of(r@) + lines_in(s@.skip(s@.len() as int)) =~= texts_of(r@));
                }
                start = s.len();
            },
        }
    }
    proof {
        assert(s@.skip(start as int) =~= Seq::<char>::empty());
        assert(texts_of(r@) + lines_in(s@.skip(start as int)) =~= texts_of(r@));
    }
    r
}

/// What stands between the separators of a text, in order.
pub open spec fn fields_in(s: Seq<char>, separator: char) -> Seq<Seq<char>>
    decreases s.len(),
{
    match find_from(s, seq![separator], 0) {
        Some(i) => if 0 <= i < s.len() {
            seq![s.take(i)] + fields_in(s.skip(i + 1), separator)
        } else {
            seq![s]
        },
        None => seq![s],
    }
}

/// Splits a text at every separator.
pub fn fields_of(s: &[char], separator: char) -> (r: Vec<Vec<char>>)
    ensures
        texts_of(r@) == fields_in(s@, separator),
{
    let mut r: Vec<Vec<char>> = Vec::new();
    let mut start: usize = 0;
    let mark: Vec<char> = vec![separator];
    let length: usize = s.len();
    proof {
        assert(mark@ =~= seq![separator]);
        assert(s@.skip(0) =~= s@);
        assert(texts_of(r@) + fields_in(s@, separator) =~= fields_in(s@, separator));
    }
    loop
        invariant
            start <= s@.len(),
            length == s@.len(),
            mark@ == seq![separator],
            texts_of(r@) + fields_in(s@.skip(start as int), separator) == fields_in(s@, separator),
        decreases s@.len() - start,
    {
        let ghost rest = s@.skip(start as int);
        let ghost before = r@;
        proof {
            lemma_find_in_rest(s@, seq![separator], start as int, 0);
        }
        match find_chars(s, &mark, start) {
            Some(i) => {
                let field: Vec<char> = slice_of(s, start, i);
                proof {
                    assert(rest.take(i - start) =~= field@);
                    assert(rest.skip(i - start + 1) =~= s@.skip(i + 1));
                }
                r.push(field);
                proof {
                    assert(texts_of(r@) =~= texts_of(before).push(field@));
                    assert(texts_of(before) + (seq![field@] + fields_in(s@.skip(i + 1), separator))
                        =~= texts_of(r@) + fields_in(s@.skip(i + 1), separator));
                }
                start = i + 1;
            },
            None => {
                let field: Vec<char> = slice_of(s, start, length);
                r.push(field);
                proof {
                    assert(field@ =~= rest);
                    assert(texts_of(r@) =~= texts_of(before).push(field@));
                    assert(texts_of(before) + seq![rest] =~= texts_of(r@));
                }
                return r;
            },
        }
    }
}

/// The first place at or after `from` that holds no whitespace, or the end.
pub open spec fn space_end(s: Seq<char>, from: int) -> int
    decreases s.len() - from,
{
    if from < s.len() && is_space(s[from]) {
        space_end(s, from + 1)
    } else {
        from
    }
}

/// The first place at or after `from` that holds whitespace, or the end.
pub open spec fn word_end(s: Seq<char>, from: int) -> int
    decreases s.len() - from,
{
    if from < s.len() && !is_space(s[from]) {
        word_end(s, from + 1)
    } else {
        from
    }
}

/// The runs without whitespace from `from` on, in order.
pub open spec fn words_from(s: Seq<char>, from: int) -> Seq<Seq<char>>
    decreases s.len() - from,
{
    let a = space_end(s, from);
    let b = word_end(s, a);
    if from <= a < b <= s.len() {
        seq![s.subrange(a, b)] + words_from(s, b)
    } else {
        Seq::empty()
    }
}

/// The words of a text: its runs without whitespace.
pub open spec fn words_in(s: Seq<char>) -> Seq<Seq<char>> {
    words_from(s, 0)
}

/// Splits a text at its whitespace.
pub fn words_of(s: &[char]) -> (r: Vec<Vec<char>>)
    ensures
        texts_of(r@) == words_in(s@),
{
    let mut r: Vec<Vec<char>> = Vec::new();
    let mut from: usize = 0;
    assert(texts_of(r@) + words_from(s@, 0) =~= words_in(s@));
    loop
        invariant
            from <= s@.len(),
            texts_of(r@) + words_from(s@, from as int) == words_in(s@),
        decreases s@.len() - from,
    {
        let mut a: usize = from;
        while a < s.len() && is_whitespace(s[a])
            invariant
                from <= a <= s@.len(),
                space_end(s@, from as int) == space_end(s@, a as int),
            decreases s@.len() - a,
        {
            a += 1;
        }
        let mut b: usize = a;
        while b < s.len() && !is_whitespace(s[b])
            invariant
                a <= b <= s@.len(),
                word_end(s@, a as int) == word_end(s@, b as int),
            decreases s@.len() - b,
        {
            b += 1;
        }
        if a == b {
            assert(words_from(s@, from as int) =~= Seq::<Seq<char>>::empty());
            assert(texts_of(r@) + words_from(s@, from as int) =~= texts_of(r@));
            return r;
        }
        let ghost before = r@;
        let word: Vec<char> = slice_of(s, a, b);
        r.push(word);
        proof {
            assert(texts_of(r@) =~= texts_of(before).push(word@));
            assert(texts_of(before) + (seq![word@] + words_from(s@, b as int)) =~= texts_of(r@)
                + words_from(s@, b as int));
        }
        from = b;
    }
}

/// The value of a decimal digit.
pub open spec fn digit_value(c: char) -> nat {
    (c as u32 - '0' as u32) as nat
}

/// The number that a run of decimal digits stands for; none for an empty run
/// or one with anything else in it.
pub open spec fn digits_value(s: Seq<char>) -> Option<nat>
    decreases s.len(),
{
    if s.len() == 0 || !is_digit(s.last()) {
        None
    } else if s.len() == 1 {
        Some(digit_value(s.last()))
    } else {
        match digits_value(s.drop_last()) {
            Some(n) => Some(n * 10 + digit_value(s.last())),
            None => None,
        }
    }
}

/// The integer that a text stands for: digits with an optional sign in front.
pub open spec fn read_int(s: Seq<char>) -> Option<int> {
    if s.len() > 0 && s[0] == '-' {
        match digits_value(s.drop_first()) {
            Some(n) => Some(-(n as int)),
            None => None,
        }
    } else if s.len() > 0 && s[0] == '+' {
        match digits_value(s.drop_first()) {
            Some(n) => Some(n as int),
            None => None,
        }
    } else {
        match digits_value(s) {
            Some(n) => Some(n as int),
            None => None,
        }
    }
}

/// The number that the characters from `from` on stand for, if it does not
/// exceed `limit`.
fn parse_digits(s: &[char], from: usize, limit: u64) -> (r: Option<u64>)
    requires
        from <= s@.len(),
    ensures
        match r {
            Some(n) => digits_value(s@.skip(from as int)) == Some(n as nat) && n <= limit,
            None => digits_value(s@.skip(from as int)) matches Some(n) ==> n > limit,
        },
{
    let ghost digits = s@.skip(from as int);
    if from >= s.len() {
        return None;
    }
    let mut value: u64 = 0;
    let mut over = false;
    let mut i: usize = from;
    while i < s.len()
        invariant
            from <= i <= s@.len(),
            digits == s@.skip(from as int),
            from < s@.len(),
            i == from ==> value == 0 && !over,
            i > from ==> (digits_value(digits.take(i - from)) matches Some(n) && if over {
                n > limit
            } else {
                n == value && value <= limit
            }),
        decreases s@.len() - i,
    {
        let c = s[i];
        let ghost so_far = digits.take(i + 1 - from);
        proof {
            assert(so_far.last() == c);
            assert(so_far.drop_last() =~= digits.take(i - from));
        }
        if !('0' <= c && c <= '9') {
            proof {
                lemma_digits_stop(digits, i - from);
            }
            return None;
        }
        let d: u64 = (c as u32 - '0' as u32) as u64;
        if !over {
            if value > limit / 10 || value * 10 > limit - (if d <= limit {
                d
            } else {
                limit
            }) || d > limit {
                over = true;
            } else {
                value = value * 10 + d;
            }
        }
        i += 1;
    }
    assert(digits.take(i - from) =~= digits);
    if over {
        None
    } else {
        Some(value)
    }
}

/// Something that is no digit spoils the whole run.
proof fn lemma_digits_stop(s: Seq<char>, i: int)
    requires
        0 <= i < s.len(),
        !is_digit(s[i]),
    ensures
        digits_value(s) is None,
    decreases s.len(),
{
    if i < s.len() - 1 {
        assert(s.drop_last()[i] == s[i]);
        lemma_digits_stop(s.drop_last(), i);
    }
}

/// Reads a signed 32-bit integer.
pub fn parse_i32(s: &[char]) -> (r: Option<i32>)
    ensures
        r == (match read_int(s@) {
            Some(n) => if i32::MIN <= n <= i32::MAX {
                Some(n as i32)
            } else {
                None
            },
            None => None,
        }),
{
    if s.len() > 0 && s[0] == '-' {
        assert(s@.skip(1) =~= s@.drop_first());
        return match parse_digits(s, 1, 0x8000_0000) {
            Some(n) => Some((0 - n as i64) as i32),
            None => None,
        };
    }
    let from: usize = if s.len() > 0 && s[0] == '+' {
        1
    } else {
        0
    };
    assert(from == 1 ==> s@.skip(1) =~= s@.drop_first());
    assert(from == 0 ==> s@.skip(0) =~= s@);
    match parse_digits(s, from, 0x7fff_ffff) {
        Some(n) => Some(n as i32),
        None => None,
    }
}

/// Reads an unsigned number up to `limit`; a minus sign is not part of one.
pub fn parse_unsigned(s: &[char], limit: u64) -> (r: Option<u64>)
    ensures
        r == (match read_int(s@) {
            Some(n) => if s@[0] != '-' && n <= limit {
                Some(n as u64)
            } else {
                None
            },
            None => None,
        }),
{
    if s.len() > 0 && s[0] == '-' {
        return None;
    }
    let from: usize = if s.len() > 0 && s[0] == '+' {
        1
    } else {
        0
    };
    assert(from == 1 ==> s@.skip(1) =~= s@.drop_first());
    assert(from == 0 ==> s@.skip(0) =~= s@);
    parse_digits(s, from, limit)
}

/// What each of some strings holds.
pub open spec fn strings_in(strings: Seq<String>) -> Seq<Seq<char>> {
    strings.map_values(|s: String| s@)
}

/// What each of some pairs holds.
pub open spec fn pairs_of(pairs: Seq<(String, String)>) -> Seq<(Seq<char>, Seq<char>)> {
    pairs.map_values(|p: (String, String)| (p.0@, p.1@))
}

/// Whether one of some strings is this text.
pub fn contains_text(strings: &[String], text: &str) -> (r: bool)
    ensures
        r == strings_in(strings@).contains(text@),
{
    let mut i: usize = 0;
    while i < strings.len()
        invariant
            i <= strings@.len(),
            forall|k: int| 0 <= k < i ==> (#[trigger] strings@[k])@ != text@,
        decreases strings@.len() - i,
    {
        if same_text(&strings[i], text) {
            assert(strings_in(strings@)[i as int] == text@);
            return true;
        }
        i += 1;
    }
    proof {
        if strings_in(strings@).contains(text@) {
            let k = choose|k: int|
                0 <= k < strings_in(strings@).len() && strings_in(strings@)[k] == text@;
            assert(strings@[k]@ == text@);
        }
    }
    false
}

/// Copies of some strings.
pub fn copy_strings(strings: &[String]) -> (r: Vec<String>)
    ensures
        strings_in(r@) == strings_in(strings@),
{
    let mut r: Vec<String> = Vec::new();
    let mut i: usize = 0;
    while i < strings.len()
        invariant
            i <= strings@.len(),
            r@.len() == i,
            forall|k: int| #![trigger r@[k]] 0 <= k < i ==> r@[k]@ == strings@[k]@,
        decreases strings@.len() - i,
    {
        r.push(strings[i].clone());
        i += 1;
    }
    assert(strings_in(r@) =~= strings_in(strings@));
    r
}

/// `digits` with the zeros at its end cut off.
pub open spec fn without_end_zeros(digits: Seq<char>) -> Seq<char>
    decreases digits.len(),
{
    if digits.len() > 0 && digits.last() == '0' {
        without_end_zeros(digits.drop_last())
    } else {
        digits
    }
}

/// The last `n` decimal digits of a number, with leading zeros.
pub open spec fn padded(value: nat, n: nat) -> Seq<char>
    decreases n,
{
    if n == 0 {
        Seq::empty()
    } else {
        padded(value / 10, (n - 1) as nat).push(digit_char(value % 10))
    }
}

/// A length in nanometres written in millimetres, without superfluous zeros.
pub open spec fn mm_text(nm: nat) -> Seq<char> {
    let fraction = without_end_zeros(padded(nm % 1_000_000, 6));
    if fraction.len() == 0 {
        decimal(nm / 1_000_000)
    } else {
        decimal(nm / 1_000_000) + seq!['.'] + fraction
    }
}

fn padded_chars(value: u64, n: usize) -> (r: Vec<char>)
    ensures
        r@ == padded(value as nat, n as nat),
    decreases n,
{
    if n == 0 {
        let r: Vec<char> = Vec::new();
        assert(r@ =~= padded(value as nat, 0));
        return r;
    }
    let mut r: Vec<char> = padded_chars(value / 10, n - 1);
    r.push(digit(value % 10));
    r
}

/// A length in nanometres written in millimetres, without superfluous zeros.
pub fn mm_string(nm: u64) -> (s: String)
    ensures
        s@ == mm_text(nm as nat),
{
    let mut s = decimal_string(nm / 1_000_000);
    let mut fraction: Vec<char> = padded_chars(nm % 1_000_000, 6);
    let ghost whole = fraction@;
    while fraction.len() > 0 && fraction[fraction.len() - 1] == '0'
        invariant
            without_end_zeros(fraction@) == without_end_zeros(whole),
        decreases fraction@.len(),
    {
        let ghost now = fraction@;
        let last = fraction.pop();
        assert(fraction@ =~= now.drop_last());
    }
    assert(fraction@ == without_end_zeros(whole));
    if fraction.len() > 0 {
        s.push('.');
        let digits = string_of(&fraction);
        s.append(&digits);
        assert(s@ =~= mm_text(nm as nat));
    }
    s
}

/// A length in nanometres written in millimetres, with a minus sign where it is
/// negative.
pub open spec fn signed_mm_text(nm: int) -> Seq<char> {
    if nm < 0 {
        seq!['-'] + mm_text((-nm) as nat)
    } else {
        mm_text(nm as nat)
    }
}

/// A length in nanometres written in millimetres, with a minus sign where it is
/// negative.
pub fn signed_mm_string(nm: i64) -> (s: String)
    ensures
        s@ == signed_mm_text(nm as int),
{
    if nm >= 0 {
        return mm_string(nm as u64);
    }
    let size: u64 = (-(nm as i128)) as u64;
    let text = mm_string(size);
    proof {
        reveal_strlit("-");
    }
    let s = joined("-", &text);
    assert(s@ =~= signed_mm_text(nm as int));
    s
}

} // verus!
