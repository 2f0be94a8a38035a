//! The decisions of the console menu and the reading of numbers typed at it.

use vstd::prelude::*;
use crate::text::chars_of;

verus! {

/// A menu of numbered options.
pub struct Menu<'a> {
    /// Shown in the menu's heading.
    pub name: String,
    /// The options, numbered from 0.
    pub options: Vec<&'a str>,
}

impl<'a> Menu<'a> {
    /// Decides on one answer to the menu's question: an answer from 0 to
    /// the number of options (both included) is taken; any other is
    /// refused, and the question is asked again. A menu is asked only where
    /// it has an option, and a non-negative answer is held against the
    /// number of options as an `i8`.
    pub fn get_option(&self, select: i8) -> (r: Option<i8>)
        requires
            self.options@.len() >= 1,
            select < 0 || self.options@.len() <= i8::MAX,
        ensures
            r == (if 0 <= select <= self.options@.len() {
                Some(select)
            } else {
                None
            }),
    {
        if select < 0 {
            return None;
        }
        let count: i8 = self.options.len() as i8;
        if select > count {
            None
        } else {
            Some(select)
        }
    }
}

/// Whether a character is an ASCII decimal digit.
pub open spec fn is_digit(c: char) -> bool {
    '0' <= c && c <= '9'
}

/// The value of a string of decimal digits, most significant first.
pub open spec fn digits_value(ds: Seq<char>) -> int
    decreases ds.len(),
{
    if ds.len() == 0 {
        0
    } else {
        10 * digits_value(ds.drop_last()) + (ds.last() as int - '0' as int)
    }
}

/// The digits of a decimal numeral after its optional sign.
pub open spec fn numeral_digits(s: Seq<char>) -> Seq<char> {
    if s.len() > 0 && (s[0] == '+' || s[0] == '-') {
        s.drop_first()
    } else {
        s
    }
}

/// The integer that a string writes in decimal, as Rust's integer `parse`
/// reads it: an optional `+` or `-`, then one or more ASCII digits and
/// nothing else; `None` for any other string.
pub open spec fn decimal_value(s: Seq<char>) -> Option<int> {
    let ds = numeral_digits(s);
    if ds.len() > 0 && forall|i: int| 0 <= i < ds.len() ==> is_digit(#[trigger] ds[i]) {
        if s[0] == '-' {
            Some(-digits_value(ds))
        } else {
            Some(digits_value(ds))
        }
    } else {
        None
    }
}

/// The digit character for a value from 0 to 9.
pub open spec fn digit_char(d: int) -> char {
    if d == 0 { '0' } else if d == 1 { '1' } else if d == 2 { '2' } else if d == 3 { '3' } else if d == 4 { '4' }
    else if d == 5 { '5' } else if d == 6 { '6' } else if d == 7 { '7' } else if d == 8 { '8' } else { '9' }
}

/// The decimal digits of `n`, most significant first, without leading zeros.
pub open spec fn decimal_digits(n: nat) -> Seq<char>
    decreases n,
{
    if n < 10 {
        seq![digit_char(n as int)]
    } else {
        decimal_digits(n / 10).push(digit_char((n % 10) as int))
    }
}

proof fn lemma_digit_char(d: int)
    requires
        0 <= d < 10,
    ensures
        is_digit(digit_char(d)),
        digit_char(d) as int - '0' as int == d,
{
}

proof fn lemma_digits_of(n: nat)
    ensures
        decimal_digits(n).len() > 0,
        forall|i: int| 0 <= i < decimal_digits(n).len() ==> is_digit(#[trigger] decimal_digits(n)[i]),
        digits_value(decimal_digits(n)) == n,
    decreases n,
{
    if n < 10 {
        lemma_digit_char(n as int);
        let t = decimal_digits(n);
        assert(t.drop_last() =~= Seq::<char>::empty());
        assert(digits_value(t) == 10 * digits_value(t.drop_last()) + (t.last() as int - '0' as int));
    } else {
        lemma_digits_of(n / 10);
        lemma_digit_char((n % 10) as int);
        let s = decimal_digits(n / 10);
        let t = decimal_digits(n);
        assert(t.drop_last() =~= s);
        assert(n == 10 * (n / 10) + n % 10);
        assert forall|i: int| 0 <= i < t.len() implies is_digit(#[trigger] t[i]) by {
            if i < s.len() {
                assert(t[i] == s[i]);
            }
        }
    }
}

/// Reading a numeral gives back the number it writes: the decimal digits of
/// any `n`, bare or after `+`, read as `n`, and after `-` as `-n`; leading
/// zeros change nothing.
pub proof fn lemma_decimal_round_trip(n: nat, zeros: nat)
    ensures
        decimal_value(decimal_digits(n)) == Some(n as int),
        decimal_value(seq!['+'] + decimal_digits(n)) == Some(n as int),
        decimal_value(seq!['-'] + decimal_digits(n)) == Some(-(n as int)),
        decimal_value(Seq::new(zeros, |i: int| '0') + decimal_digits(n)) == Some(n as int),
{
    lemma_digits_of(n);
    let d = decimal_digits(n);
    assert((seq!['+'] + d).drop_first() =~= d);
    assert((seq!['-'] + d).drop_first() =~= d);
    assert(numeral_digits(seq!['+'] + d) == d);
    assert(numeral_digits(seq!['-'] + d) == d);
    lemma_leading_zeros(d, zeros);
}

proof fn lemma_leading_zeros(d: Seq<char>, zeros: nat)
    requires
        d.len() > 0,
        forall|i: int| 0 <= i < d.len() ==> is_digit(#[trigger] d[i]),
    ensures
        decimal_value(Seq::new(zeros, |i: int| '0') + d) == decimal_value(d),
    decreases d.len(),
{
    let z = Seq::new(zeros, |i: int| '0');
    let s = z + d;
    assert(s.len() > 0);
    assert forall|i: int| 0 <= i < s.len() implies is_digit(#[trigger] s[i]) by {
        if i >= zeros {
            assert(s[i] == d[i - zeros]);
        }
    }
    assert(s[0] != '+' && s[0] != '-');
    assert(d[0] != '+' && d[0] != '-');
    assert(numeral_digits(s) == s);
    assert(numeral_digits(d) == d);
    lemma_zeros_value(z, d);
}

proof fn lemma_zeros_value(z: Seq<char>, d: Seq<char>)
    requires
        forall|i: int| 0 <= i < z.len() ==> #[trigger] z[i] == '0',
    ensures
        digits_value(z + d) == digits_value(d),
    decreases d.len(), z.len(),
{
    if d.len() == 0 {
        assert(z + d =~= z);
        lemma_all_zeros(z);
    } else {
        assert((z + d).drop_last() =~= z + d.drop_last());
        lemma_zeros_value(z, d.drop_last());
    }
}

proof fn lemma_all_zeros(z: Seq<char>)
    requires
        forall|i: int| 0 <= i < z.len() ==> #[trigger] z[i] == '0',
    ensures
        digits_value(z) == 0,
    decreases z.len(),
{
    if z.len() > 0 {
        assert forall|i: int| 0 <= i < z.drop_last().len() implies #[trigger] z.drop_last()[i] == '0' by {
            assert(z.drop_last()[i] == z[i]);
        }
        lemma_all_zeros(z.drop_last());
    }
}

/// Only numerals are read: an empty string, a lone sign, and a string with
/// any character other than a digit after its optional sign read as nothing.
pub proof fn lemma_decimal_rejects(s: Seq<char>, j: int)
    ensures
        decimal_value(Seq::empty()) is None,
        decimal_value(seq!['+']) is None,
        decimal_value(seq!['-']) is None,
        (0 <= j < s.len() && !is_digit(s[j]) && !(j == 0 && (s[0] == '+' || s[0] == '-'))) ==> decimal_value(s) is None,
{
    assert(seq!['+'].drop_first().len() == 0);
    assert(seq!['-'].drop_first().len() == 0);
    if 0 <= j < s.len() && !is_digit(s[j]) && !(j == 0 && (s[0] == '+' || s[0] == '-')) {
        let ds = numeral_digits(s);
        if s.len() > 0 && (s[0] == '+' || s[0] == '-') {
            assert(ds[j - 1] == s[j]);
        } else {
            assert(ds[j] == s[j]);
        }
    }
}

/// The value of a decimal numeral where it lies from `min` to `max`.
fn parse_decimal(s: &str, min: i64, max: i64) -> (r: Option<i64>)
    requires
        -0x1_0000_0000 <= min <= 0 <= max <= 0x1_0000_0000,
    ensures
        r is Some <==> (decimal_value(s@) matches Some(v) && min <= v <= max),
        r matches Some(x) ==> decimal_value(s@) == Some(x as int),
{
    let chars = chars_of(s);
    let n = chars.len();
    let mut start: usize = 0;
    let mut neg = false;
    if n > 0 && (chars[0] == '+' || chars[0] == '-') {
        start = 1;
        neg = chars[0] == '-';
    }
    let ghost ds = numeral_digits(s@);
    assert(ds =~= chars@.skip(start as int));
    if start >= n {
        return None;
    }
    let cap: u64 = if neg {
        (0 - min) as u64
    } else {
        max as u64
    };
    let mut mag: u64 = 0;
    let mut big = false;
    let mut i: usize = start;
    while i < n
        invariant
            chars@ == s@,
            n == chars@.len(),
            start <= i <= n,
            ds == chars@.skip(start as int),
            ds == numeral_digits(s@),
            ds.len() > 0,
            neg == (s@.len() > 0 && s@[0] == '-'),
            cap == (if neg { -min } else { max as int }),
            -0x1_0000_0000 <= min <= 0 <= max <= 0x1_0000_0000,
            forall|j: int| 0 <= j < i - start ==> is_digit(#[trigger] ds[j]),
            digits_value(ds.take(i - start)) >= 0,
            !big ==> mag == digits_value(ds.take(i - start)) && mag <= cap,
            big ==> digits_value(ds.take(i - start)) > cap,
        decreases n - i,
    {
        let c = chars[i];
        if c < '0' || c > '9' {
            assert(!is_digit(ds[i - start]));
            return None;
        }
        let ghost k = i - start;
        assert(ds.take(k + 1).drop_last() =~= ds.take(k));
        assert(ds.take(k + 1).last() == c);
        let d: u64 = (c as u32 - '0' as u32) as u64;
        if !big {
            let next = mag * 10 + d;
            if next > cap {
                big = true;
            } else {
                mag = next;
            }
        }
        i = i + 1;
    }
    assert(ds.take(ds.len() as int) =~= ds);
    if big {
        None
    } else if neg {
        Some(0 - (mag as i64))
    } else {
        Some(mag as i64)
    }
}

/// Reads a typed answer as an `i32`, as `str::parse` does: `None` where the
/// answer is no decimal numeral or lies outside the range of `i32`.
pub fn get_input_i32(answer: &str) -> (r: Option<i32>)
    ensures
        r is Some <==> (decimal_value(answer@) matches Some(v) && i32::MIN <= v <= i32::MAX),
        r matches Some(x) ==> decimal_value(answer@) == Some(x as int),
{
    match parse_decimal(answer, i32::MIN as i64, i32::MAX as i64) {
        Some(v) => Some(v as i32),
        None => None,
    }
}

/// Reads a typed answer as an `i16`, as `str::parse` does: `None` where the
/// answer is no decimal numeral or lies outside the range of `i16`.
pub fn get_input_i16(answer: &str) -> (r: Option<i16>)
    ensures
        r is Some <==> (decimal_value(answer@) matches Some(v) && i16::MIN <= v <= i16::MAX),
        r matches Some(x) ==> decimal_value(answer@) == Some(x as int),
{
    match parse_decimal(answer, i16::MIN as i64, i16::MAX as i64) {
        Some(v) => Some(v as i16),
        None => None,
    }
}

/// Reads a typed answer as an `i8`, as `str::parse` does: `None` where the
/// answer is no decimal numeral or lies outside the range of `i8`.
pub fn get_input_i8(answer: &str) -> (r: Option<i8>)
    ensures
        r is Some <==> (decimal_value(answer@) matches Some(v) && i8::MIN <= v <= i8::MAX),
        r matches Some(x) ==> decimal_value(answer@) == Some(x as int),
{
    match parse_decimal(answer, i8::MIN as i64, i8::MAX as i64) {
        Some(v) => Some(v as i8),
        None => None,
    }
}

} // verus!
