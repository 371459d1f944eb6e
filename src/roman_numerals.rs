//! Roman numerals: recognising the strict form of a numeral and reading its value.

use vstd::prelude::*;
use crate::text::{chars_of, parse_i16, parsed_i16, trim, trim_range};

verus! {

/// `c` is the letter given as `(upper, lower)`, in either case.
pub open spec fn is_letter(c: char, l: (char, char)) -> bool {
    c == l.0 || c == l.1
}

/// `s` is at most `max` copies of the letter `l`.
pub open spec fn repeats(s: Seq<char>, l: (char, char), max: int) -> bool {
    s.len() <= max && forall|i: int| 0 <= i < s.len() ==> is_letter(#[trigger] s[i], l)
}

/// One decimal place of a numeral, written with the letters for one, five and
/// ten of that place: `V?I{0,3}`, `IX` or `IV` in the units place.
pub open spec fn place_form(s: Seq<char>, one: (char, char), five: (char, char), ten: (char, char)) -> bool {
    ||| repeats(s, one, 3)
    ||| (s.len() >= 1 && is_letter(s[0], five) && repeats(s.drop_first(), one, 3))
    ||| (s.len() == 2 && is_letter(s[0], one) && is_letter(s[1], ten))
    ||| (s.len() == 2 && is_letter(s[0], one) && is_letter(s[1], five))
}

/// The letters of the numerals, as `(upper, lower)`.
pub open spec fn letter_m() -> (char, char) { ('M', 'm') }
pub open spec fn letter_d() -> (char, char) { ('D', 'd') }
pub open spec fn letter_c() -> (char, char) { ('C', 'c') }
pub open spec fn letter_l() -> (char, char) { ('L', 'l') }
pub open spec fn letter_x() -> (char, char) { ('X', 'x') }
pub open spec fn letter_v() -> (char, char) { ('V', 'v') }
pub open spec fn letter_i() -> (char, char) { ('I', 'i') }

/// `s` splits at `a <= b <= c` into thousands `M{0,3}`, then the hundreds,
/// tens and units places.
pub open spec fn roman_split(s: Seq<char>, a: int, b: int, c: int) -> bool {
    &&& 0 <= a <= b <= c <= s.len()
    &&& repeats(s.subrange(0, a), letter_m(), 3)
    &&& place_form(s.subrange(a, b), letter_c(), letter_d(), letter_m())
    &&& place_form(s.subrange(b, c), letter_x(), letter_l(), letter_c())
    &&& place_form(s.subrange(c, s.len() as int), letter_i(), letter_v(), letter_x())
}

/// The strict form of a roman numeral, in either case:
/// `M{0,3}(D?C{0,3}|CM|CD)(L?X{0,3}|XC|XL)(V?I{0,3}|IX|IV)` over the whole text.
/// The empty text has this form.
pub open spec fn is_roman(s: Seq<char>) -> bool {
    exists|a: int, b: int, c: int| roman_split(s, a, b, c)
}

/// Value of one roman letter, in either case; 0 for any other character.
pub open spec fn letter_value(c: char) -> int {
    if c == 'I' || c == 'i' {
        1
    } else if c == 'V' || c == 'v' {
        5
    } else if c == 'X' || c == 'x' {
        10
    } else if c == 'L' || c == 'l' {
        50
    } else if c == 'C' || c == 'c' {
        100
    } else if c == 'D' || c == 'd' {
        500
    } else if c == 'M' || c == 'm' {
        1000
    } else {
        0
    }
}

/// Every character of `s` is a roman letter.
pub open spec fn all_letters(s: Seq<char>) -> bool {
    forall|i: int| 0 <= i < s.len() ==> letter_value(#[trigger] s[i]) > 0
}

/// Largest letter value in `s`; 0 when empty.
pub open spec fn max_letter(s: Seq<char>) -> int
    decreases s.len(),
{
    if s.len() == 0 {
        0
    } else {
        let rest = max_letter(s.drop_first());
        if letter_value(s[0]) > rest {
            letter_value(s[0])
        } else {
            rest
        }
    }
}

/// Value of a string of roman letters, read from the right: a letter is added
/// unless some letter to its right is worth more, in which case it is subtracted.
pub open spec fn numeral_total(s: Seq<char>) -> int
    decreases s.len(),
{
    if s.len() == 0 {
        0
    } else {
        let v = letter_value(s[0]);
        numeral_total(s.drop_first()) + if v >= max_letter(s.drop_first()) {
            v
        } else {
            -v
        }
    }
}

/// The running totals of `s`, read from the right, all fit in an `i16`.
pub open spec fn totals_fit(s: Seq<char>) -> bool {
    forall|k: int|
        0 <= k <= s.len() ==> i16::MIN <= #[trigger] numeral_total(s.subrange(k, s.len() as int))
            <= i16::MAX
}

/// The value of a numeral when its letters are read by the rule of `numeral_total`
/// and every running total fits in an `i16`.
pub open spec fn roman_value_of(s: Seq<char>) -> Option<i16> {
    if all_letters(s) && totals_fit(s) {
        Some(numeral_total(s) as i16)
    } else {
        None
    }
}

/// Relies on `numerals::roman::Roman::parse`, which maps each of `IVXLCDM` in either
/// case to its numeral and fails on any other character, and on
/// `Roman::value_checked`, which adds the numerals up from the right (subtracting
/// one that is smaller than the largest seen so far) and fails on `i16` overflow.
#[verifier::external_body]
pub(crate) fn roman_value(s: &str) -> (r: Option<i16>)
    ensures
        r == roman_value_of(s@),
{
    match numerals::roman::Roman::parse(s) {
        Some(numeral) => numeral.value_checked(),
        None => None,
    }
}

/// A token read as a number: its roman value where it has the strict roman
/// form, else a plain decimal integer, else nothing.
pub open spec fn number_of(s: Seq<char>) -> Option<i16> {
    if is_roman(s) {
        roman_value_of(s)
    } else {
        parsed_i16(s)
    }
}

fn letter_at(v: &Vec<char>, i: usize, l: (char, char)) -> (r: bool)
    requires
        i < v@.len(),
    ensures
        r == is_letter(v@[i as int], l),
{
    v[i] == l.0 || v[i] == l.1
}

fn repeats_at(v: &Vec<char>, from: usize, to: usize, l: (char, char), max: usize) -> (r: bool)
    requires
        from <= to <= v@.len(),
    ensures
        r == repeats(v@.subrange(from as int, to as int), l, max as int),
{
    if to - from > max {
        return false;
    }
    let mut i = from;
    while i < to
        invariant
            from <= i <= to <= v@.len(),
            forall|j: int| from <= j < i ==> is_letter(#[trigger] v@[j], l),
        decreases to - i,
    {
        if !letter_at(v, i, l) {
            assert(v@.subrange(from as int, to as int)[i - from] == v@[i as int]);
            return false;
        }
        i = i + 1;
    }
    assert forall|j: int| 0 <= j < to - from implies is_letter(
        #[trigger] v@.subrange(from as int, to as int)[j],
        l,
    ) by {
        assert(v@.subrange(from as int, to as int)[j] == v@[from + j]);
    }
    true
}

fn place_at(
    v: &Vec<char>,
    from: usize,
    to: usize,
    one: (char, char),
    five: (char, char),
    ten: (char, char),
) -> (r: bool)
    requires
        from <= to <= v@.len(),
    ensures
        r == place_form(v@.subrange(from as int, to as int), one, five, ten),
{
    let ghost s = v@.subrange(from as int, to as int);
    if repeats_at(v, from, to, one, 3) {
        return true;
    }
    if to - from >= 1 && letter_at(v, from, five) && repeats_at(v, from + 1, to, one, 3) {
        assert(s.drop_first() =~= v@.subrange(from + 1, to as int));
        return true;
    }
    if to - from >= 1 {
        assert(s.drop_first() =~= v@.subrange(from + 1, to as int));
    }
    to - from == 2 && letter_at(v, from, one) && (letter_at(v, from + 1, ten) || letter_at(
        v,
        from + 1,
        five,
    ))
}

proof fn lemma_place_len(s: Seq<char>, one: (char, char), five: (char, char), ten: (char, char))
    requires
        place_form(s, one, five, ten),
    ensures
        s.len() <= 4,
{
}

fn split_at(v: &Vec<char>, a: usize, b: usize, c: usize) -> (r: bool)
    requires
        a <= b <= c <= v@.len(),
    ensures
        r == roman_split(v@, a as int, b as int, c as int),
{
    repeats_at(v, 0, a, ('M', 'm'), 3) && place_at(v, a, b, ('C', 'c'), ('D', 'd'), ('M', 'm'))
        && place_at(v, b, c, ('X', 'x'), ('L', 'l'), ('C', 'c')) && place_at(
        v,
        c,
        v.len(),
        ('I', 'i'),
        ('V', 'v'),
        ('X', 'x'),
    )
}

proof fn lemma_split_bounds(s: Seq<char>, a: int, b: int, c: int)
    requires
        roman_split(s, a, b, c),
    ensures
        a <= 3,
        b - a <= 4,
        c - b <= 4,
        s.len() - c <= 4,
{
    lemma_place_len(s.subrange(a, b), letter_c(), letter_d(), letter_m());
    lemma_place_len(s.subrange(b, c), letter_x(), letter_l(), letter_c());
    lemma_place_len(s.subrange(c, s.len() as int), letter_i(), letter_v(), letter_x());
}

fn is_roman_chars(v: &Vec<char>) -> (r: bool)
    ensures
        r == is_roman(v@),
{
    let n = v.len();
    if n > 15 {
        assert forall|a: int, b: int, c: int| !roman_split(v@, a, b, c) by {
            if roman_split(v@, a, b, c) {
                lemma_split_bounds(v@, a, b, c);
            }
        }
        return false;
    }
    let mut a: usize = 0;
    while a <= 3 && a <= n
        invariant
            n == v@.len() <= 15,
            forall|a2: int, b2: int, c2: int| 0 <= a2 < a ==> !#[trigger] roman_split(v@, a2, b2, c2),
        decreases 4 - a,
    {
        let mut b: usize = a;
        while b <= a + 4 && b <= n
            invariant
                n == v@.len() <= 15,
                a <= 3,
                a <= b,
                forall|a2: int, b2: int, c2: int| 0 <= a2 < a ==> !#[trigger] roman_split(v@, a2, b2, c2),
                forall|b2: int, c2: int| a <= b2 < b ==> !#[trigger] roman_split(v@, a as int, b2, c2),
            decreases a + 5 - b,
        {
            let mut c: usize = b;
            while c <= b + 4 && c <= n
                invariant
                    n == v@.len() <= 15,
                    a <= b <= c,
                    b <= a + 4,
                    b <= n,
                    forall|a2: int, b2: int, c2: int| 0 <= a2 < a ==> !#[trigger] roman_split(v@, a2, b2, c2),
                    forall|b2: int, c2: int| a <= b2 < b ==> !#[trigger] roman_split(v@, a as int, b2, c2),
                    forall|c2: int| b <= c2 < c ==> !#[trigger] roman_split(v@, a as int, b as int, c2),
                decreases b + 5 - c,
            {
                if split_at(v, a, b, c) {
                    return true;
                }
                c = c + 1;
            }
            assert forall|c2: int| !#[trigger] roman_split(v@, a as int, b as int, c2) by {
                if roman_split(v@, a as int, b as int, c2) {
                    lemma_split_bounds(v@, a as int, b as int, c2);
                }
            }
            b = b + 1;
        }
        assert forall|b2: int, c2: int| !#[trigger] roman_split(v@, a as int, b2, c2) by {
            if roman_split(v@, a as int, b2, c2) {
                lemma_split_bounds(v@, a as int, b2, c2);
            }
        }
        a = a + 1;
    }
    assert forall|a2: int, b2: int, c2: int| !#[trigger] roman_split(v@, a2, b2, c2) by {
        if roman_split(v@, a2, b2, c2) {
            lemma_split_bounds(v@, a2, b2, c2);
        }
    }
    false
}

/// Whether `numeral` is a roman numeral in its strict form (either case, whole text).
pub fn is_roman_numeral(numeral: &str) -> (r: bool)
    ensures
        r == is_roman(numeral@),
{
    let v = chars_of(numeral);
    is_roman_chars(&v)
}

proof fn lemma_total_bound(s: Seq<char>)
    ensures
        -1000 * s.len() <= numeral_total(s) <= 1000 * s.len(),
    decreases s.len(),
{
    if s.len() > 0 {
        lemma_total_bound(s.drop_first());
    }
}

proof fn lemma_place_letters(p: Seq<char>, one: (char, char), five: (char, char), ten: (char, char))
    requires
        place_form(p, one, five, ten),
    ensures
        forall|j: int|
            0 <= j < p.len() ==> is_letter(#[trigger] p[j], one) || is_letter(p[j], five)
                || is_letter(p[j], ten),
{
    assert forall|j: int| 0 <= j < p.len() implies is_letter(#[trigger] p[j], one) || is_letter(
        p[j],
        five,
    ) || is_letter(p[j], ten) by {
        if !repeats(p, one, 3) && j >= 1 && p.len() >= 1 && is_letter(p[0], five) && repeats(
            p.drop_first(),
            one,
            3,
        ) {
            assert(p.drop_first()[j - 1] == p[j]);
        }
    }
}

proof fn lemma_roman_fits(s: Seq<char>)
    requires
        is_roman(s),
    ensures
        all_letters(s),
        totals_fit(s),
        i16::MIN <= numeral_total(s) <= i16::MAX,
{
    let (a, b, c) = choose|a: int, b: int, c: int| roman_split(s, a, b, c);
    lemma_split_bounds(s, a, b, c);
    let hundreds = s.subrange(a, b);
    let tens = s.subrange(b, c);
    let units = s.subrange(c, s.len() as int);
    lemma_place_letters(hundreds, letter_c(), letter_d(), letter_m());
    lemma_place_letters(tens, letter_x(), letter_l(), letter_c());
    lemma_place_letters(units, letter_i(), letter_v(), letter_x());
    assert forall|i: int| 0 <= i < s.len() implies letter_value(#[trigger] s[i]) > 0 by {
        if i < a {
            assert(s.subrange(0, a)[i] == s[i]);
        } else if i < b {
            assert(hundreds[i - a] == s[i]);
        } else if i < c {
            assert(tens[i - b] == s[i]);
        } else {
            assert(units[i - c] == s[i]);
        }
    }
    assert forall|k: int| 0 <= k <= s.len() implies i16::MIN <= #[trigger] numeral_total(
        s.subrange(k, s.len() as int),
    ) <= i16::MAX by {
        lemma_total_bound(s.subrange(k, s.len() as int));
    }
    lemma_total_bound(s);
}

/// Value of a roman numeral in its strict form, whitespace at either end left out.
pub fn convert_to_numbers(numeral: &str) -> (r: i16)
    requires
        is_roman(trim(numeral@)),
    ensures
        r as int == numeral_total(trim(numeral@)),
{
    let v = chars_of(numeral);
    let (a, b) = trim_range(&v, 0, v.len());
    assert(v@.subrange(0, v@.len() as int) =~= v@);
    let t = numeral.substring_char(a, b);
    proof {
        lemma_roman_fits(t@);
    }
    match roman_value(t) {
        Some(x) => x,
        None => 0,
    }
}

/// A token read as a number: a roman numeral in strict form gives its value,
/// anything else is read as a decimal integer; `None` when neither works.
pub fn convert_str_to_address_num(num: &String) -> (r: Option<i16>)
    ensures
        r == number_of(num@),
{
    if is_roman_numeral(num.as_str()) {
        proof {
            lemma_roman_fits(num@);
        }
        roman_value(num.as_str())
    } else {
        parse_i16(num.as_str())
    }
}

} // verus!
