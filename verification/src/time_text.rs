//! Reading and writing timestamps as text: `hh:mm:ss.mmm`, with the hour
//! and minute fields optional on input, and a bare-seconds form accepted.

use vstd::prelude::*;

use crate::rat::{Rational, RAT_BOUND};
use crate::time::Timestamp;

verus! {

/// Why a timestamp string was rejected: the wrong shape (too many fields),
/// or a field that is not a plain decimal number in range.
#[derive(Debug, Clone, Copy, PartialEq, Eq, Structural)]
pub enum TimestampParseError {
    InvalidFormat,
    ParseInt,
}

pub open spec fn is_digit_char(c: char) -> bool {
    '0' <= c && c <= '9'
}

pub open spec fn digit_of(c: char) -> int {
    c as int - 48
}

pub open spec fn all_digits(s: Seq<char>) -> bool {
    forall|i: int| 0 <= i < s.len() ==> is_digit_char(#[trigger] s[i])
}

/// The number the digit string denotes.
pub open spec fn digits_val(s: Seq<char>) -> int
    decreases s.len(),
{
    if s.len() == 0 {
        0
    } else {
        digits_val(s.drop_last()) * 10 + digit_of(s.last())
    }
}

/// A field is a non-empty run of decimal digits.
pub open spec fn valid_field(s: Seq<char>) -> bool {
    s.len() > 0 && all_digits(s)
}

/// The first position of `c` in `s` at or after `from`, or the length.
pub open spec fn first_at(s: Seq<char>, c: char, from: int) -> int
    decreases s.len() - from,
{
    if from < 0 || from >= s.len() {
        s.len() as int
    } else if s[from] == c {
        from
    } else {
        first_at(s, c, from + 1)
    }
}

proof fn lemma_first_at(s: Seq<char>, c: char, from: int, i: int)
    requires
        0 <= from <= i <= s.len(),
        forall|k: int| from <= k < i ==> s[k] != c,
        i < s.len() ==> s[i] == c,
    ensures
        first_at(s, c, from) == i,
    decreases i - from,
{
    if from < i {
        lemma_first_at(s, c, from + 1, i);
    }
}

proof fn lemma_first_at_range(s: Seq<char>, c: char, from: int)
    requires
        0 <= from,
    ensures
        first_at(s, c, from) <= s.len(),
        from <= s.len() ==> from <= first_at(s, c, from),
        first_at(s, c, from) < s.len() ==> from <= first_at(s, c, from) && s[first_at(
            s,
            c,
            from,
        )] == c,
        forall|k: int| from <= k < first_at(s, c, from) ==> s[k] != c,
    decreases
            if from < s.len() {
                s.len() - from
            } else {
                0
            },
{
    if 0 <= from < s.len() && s[from] != c {
        lemma_first_at_range(s, c, from + 1);
    }
}

proof fn lemma_digits_val_nonneg(s: Seq<char>)
    requires
        all_digits(s),
    ensures
        digits_val(s) >= 0,
    decreases s.len(),
{
    if s.len() > 0 {
        assert forall|i: int|
            0 <= i < s.drop_last().len() implies is_digit_char(#[trigger] s.drop_last()[i]) by {
            assert(is_digit_char(s[i]));
        }
        lemma_digits_val_nonneg(s.drop_last());
        assert(is_digit_char(s[s.len() - 1]));
    }
}

proof fn lemma_digits_val_prefix(s: Seq<char>, i: int)
    requires
        all_digits(s),
        0 <= i <= s.len(),
    ensures
        digits_val(s.take(i)) <= digits_val(s),
    decreases s.len() - i,
{
    assert forall|k: int| 0 <= k < s.take(i).len() implies is_digit_char(#[trigger] s.take(i)[k]) by {
        assert(is_digit_char(s[k]));
    }
    lemma_digits_val_nonneg(s.take(i));
    if i == s.len() {
        assert(s.take(i) =~= s);
    } else {
        lemma_digits_val_prefix(s, i + 1);
        assert(s.take(i + 1).drop_last() =~= s.take(i));
        assert(s.take(i + 1).last() == s[i]);
        assert(is_digit_char(s[i]));
    }
}

/// Parses the digit field `s[from..to]`. The field parses exactly when it
/// is a non-empty run of decimal digits whose value fits the result type.
pub fn parse_field(s: &str, from: usize, to: usize) -> (r: Result<u64, TimestampParseError>)
    requires
        from <= to <= s@.len(),
    ensures
        match r {
            Ok(v) => valid_field(s@.subrange(from as int, to as int)) && v == digits_val(
                s@.subrange(from as int, to as int),
            ),
            Err(e) => e == TimestampParseError::ParseInt && !(valid_field(
                s@.subrange(from as int, to as int),
            ) && digits_val(s@.subrange(from as int, to as int)) <= u64::MAX),
        },
{
    let ghost field = s@.subrange(from as int, to as int);
    if from == to {
        return Err(TimestampParseError::ParseInt);
    }
    let mut v: u64 = 0;
    let mut i = from;
    while i < to
        invariant
            from <= i <= to <= s@.len(),
            field == s@.subrange(from as int, to as int),
            field.len() > 0,
            all_digits(field.take(i - from)),
            v == digits_val(field.take(i - from)),
        decreases to - i,
    {
        let c = s.get_char(i);
        proof {
            assert(c == field[i - from]);
        }
        if c < '0' || c > '9' {
            proof {
                assert(!is_digit_char(field[i - from]));
            }
            return Err(TimestampParseError::ParseInt);
        }
        let d = (c as u32 as u64) - 48;
        proof {
            assert(field.take(i - from + 1).drop_last() =~= field.take(i - from));
            assert(field.take(i - from + 1).last() == field[i - from]);
        }
        if v > (u64::MAX - d) / 10 {
            proof {
                assert(digits_val(field.take(i - from + 1)) == v * 10 + d);
                assert(v * 10 + d > u64::MAX);
                if valid_field(field) {
                    lemma_digits_val_prefix(field, i - from + 1);
                }
            }
            return Err(TimestampParseError::ParseInt);
        }
        v = v * 10 + d;
        i = i + 1;
    }
    proof {
        assert(field.take(field.len() as int) =~= field);
    }
    Ok(v)
}


/// The colon structure of a timestamp string: the first and second colon
/// positions (the string length where absent).
pub open spec fn colon1(s: Seq<char>) -> int {
    first_at(s, ':', 0)
}

pub open spec fn colon2(s: Seq<char>) -> int {
    first_at(s, ':', colon1(s) + 1)
}

/// At most two colons: a third field separator makes the string invalid.
pub open spec fn ts_shape_ok(s: Seq<char>) -> bool {
    first_at(s, ':', colon2(s) + 1) == s.len()
}

/// Where the seconds part (the last colon-separated part) begins.
pub open spec fn sec_lo(s: Seq<char>) -> int {
    if colon1(s) == s.len() {
        0
    } else if colon2(s) == s.len() {
        colon1(s) + 1
    } else {
        colon2(s) + 1
    }
}

/// The dot splitting seconds from milliseconds, or the length.
pub open spec fn dot_at(s: Seq<char>) -> int {
    first_at(s, '.', sec_lo(s))
}

/// The hour field, present only in the three-part form.
pub open spec fn hour_val(s: Seq<char>) -> int {
    if colon2(s) < s.len() {
        digits_val(s.subrange(0, colon1(s)))
    } else {
        0
    }
}

/// The minute field, present in the two- and three-part forms.
pub open spec fn min_val(s: Seq<char>) -> int {
    if colon2(s) < s.len() {
        digits_val(s.subrange(colon1(s) + 1, colon2(s)))
    } else if colon1(s) < s.len() {
        digits_val(s.subrange(0, colon1(s)))
    } else {
        0
    }
}

pub open spec fn sec_val(s: Seq<char>) -> int {
    digits_val(s.subrange(sec_lo(s), dot_at(s)))
}

/// The millisecond field: the digits after the dot, taken at face value.
pub open spec fn msec_val(s: Seq<char>) -> int {
    if dot_at(s) < s.len() {
        digits_val(s.subrange(dot_at(s) + 1, s.len() as int))
    } else {
        0
    }
}

/// Every present field is a non-empty run of digits.
pub open spec fn ts_fields_ok(s: Seq<char>) -> bool {
    &&& valid_field(s.subrange(sec_lo(s), dot_at(s)))
    &&& (colon2(s) < s.len() ==> valid_field(s.subrange(0, colon1(s))) && valid_field(
        s.subrange(colon1(s) + 1, colon2(s)),
    ))
    &&& (colon2(s) == s.len() && colon1(s) < s.len() ==> valid_field(s.subrange(0, colon1(s))))
    &&& (dot_at(s) < s.len() ==> valid_field(s.subrange(dot_at(s) + 1, s.len() as int)))
}

/// The denoted time in whole milliseconds.
pub open spec fn ts_total_ms(s: Seq<char>) -> int {
    (hour_val(s) * 3600 + min_val(s) * 60 + sec_val(s)) * 1000 + msec_val(s)
}

/// The first position of `c` in `s` at or after `from`, or the length.
fn find_char(s: &str, n: usize, c: char, from: usize) -> (r: usize)
    requires
        n == s@.len(),
        from <= n,
    ensures
        r == first_at(s@, c, from as int),
        from <= r <= n,
{
    let mut i = from;
    while i < n
        invariant
            from <= i <= n,
            n == s@.len(),
            forall|k: int| from <= k < i ==> s@[k] != c,
        decreases n - i,
    {
        if s.get_char(i) == c {
            proof {
                lemma_first_at(s@, c, from as int, i as int);
            }
            return i;
        }
        i = i + 1;
    }
    proof {
        lemma_first_at(s@, c, from as int, n as int);
    }
    n
}

/// Every present, valid field contributes non-negatively, so the total is
/// at least each field's contribution.
proof fn lemma_total_floor(s: Seq<char>)
    requires
        ts_fields_ok(s),
    ensures
        hour_val(s) >= 0 && min_val(s) >= 0 && sec_val(s) >= 0 && msec_val(s) >= 0,
        ts_total_ms(s) >= hour_val(s),
        ts_total_ms(s) >= min_val(s),
        ts_total_ms(s) >= sec_val(s),
        ts_total_ms(s) >= msec_val(s),
{
    lemma_first_at_range(s, ':', 0);
    lemma_first_at_range(s, ':', colon1(s) + 1);
    lemma_first_at_range(s, '.', sec_lo(s));
    lemma_digits_val_nonneg(s.subrange(sec_lo(s), dot_at(s)));
    if colon2(s) < s.len() {
        lemma_digits_val_nonneg(s.subrange(0, colon1(s)));
        lemma_digits_val_nonneg(s.subrange(colon1(s) + 1, colon2(s)));
    }
    if colon2(s) == s.len() && colon1(s) < s.len() {
        lemma_digits_val_nonneg(s.subrange(0, colon1(s)));
    }
    if dot_at(s) < s.len() {
        lemma_digits_val_nonneg(s.subrange(dot_at(s) + 1, s.len() as int));
    }
    let h = hour_val(s);
    let m = min_val(s);
    let sec = sec_val(s);
    let ms = msec_val(s);
    assert((h * 3600 + m * 60 + sec) * 1000 + ms >= h && (h * 3600 + m * 60 + sec) * 1000 + ms
        >= m && (h * 3600 + m * 60 + sec) * 1000 + ms >= sec && (h * 3600 + m * 60 + sec) * 1000
        + ms >= ms) by (nonlinear_arith)
        requires
            h >= 0,
            m >= 0,
            sec >= 0,
            ms >= 0,
    ;
}

/// Parses `hh:mm:ss.mmm`, `mm:ss`, or bare seconds, the fractional part
/// optional, into an exact timestamp (the fractional digits are read as
/// whole milliseconds). Returns `InvalidFormat` for more than three parts,
/// and `ParseInt` exactly when a present field is not a plain decimal
/// number or the denoted time is out of machine range.
pub fn parse_timestamp(s: &str) -> (r: Result<Timestamp, TimestampParseError>)
    ensures
        match r {
            Ok(t) => ts_shape_ok(s@) && ts_fields_ok(s@) && ts_total_ms(s@) < RAT_BOUND && t.wf()
                && t.rat() == (Rational { num: ts_total_ms(s@) as i64, den: 1000 }),
            Err(e) => if e is InvalidFormat {
                !ts_shape_ok(s@)
            } else {
                ts_shape_ok(s@) && !(ts_fields_ok(s@) && ts_total_ms(s@) < RAT_BOUND)
            },
        },
{
    let n = s.unicode_len();
    let c1 = find_char(s, n, ':', 0);
    let c2 = if c1 < n {
        find_char(s, n, ':', c1 + 1)
    } else {
        n
    };
    proof {
        assert(c1 == colon1(s@));
        assert(c2 == colon2(s@));
    }
    let c3 = if c2 < n {
        find_char(s, n, ':', c2 + 1)
    } else {
        n
    };
    proof {
        if c2 == n {
            assert(first_at(s@, ':', c2 as int + 1) == n as int);
        }
        assert(c3 == first_at(s@, ':', colon2(s@) + 1));
    }
    if c3 < n {
        return Err(TimestampParseError::InvalidFormat);
    }
    proof {
        assert(ts_shape_ok(s@));
    }
    let lo = if c1 == n {
        0
    } else if c2 == n {
        c1 + 1
    } else {
        c2 + 1
    };
    let dot = find_char(s, n, '.', lo);
    proof {
        assert(lo == sec_lo(s@));
        assert(dot == dot_at(s@));
    }
    let sec = match parse_field(s, lo, if dot < n { dot } else { n }) {
        Ok(v) => v,
        Err(_) => {
            proof {
                if ts_fields_ok(s@) {
                    lemma_total_floor(s@);
                }
            }
            return Err(TimestampParseError::ParseInt);
        },
    };
    let msec = if dot < n {
        match parse_field(s, dot + 1, n) {
            Ok(v) => v,
            Err(_) => {
                proof {
                    if ts_fields_ok(s@) {
                        lemma_total_floor(s@);
                    }
                }
                return Err(TimestampParseError::ParseInt);
            },
        }
    } else {
        0
    };
    let min = if c1 < n {
        let f = if c2 < n {
            c1 + 1
        } else {
            0
        };
        let t2 = if c2 < n {
            c2
        } else {
            c1
        };
        match parse_field(s, f, t2) {
            Ok(v) => v,
            Err(_) => {
                proof {
                    if ts_fields_ok(s@) {
                        lemma_total_floor(s@);
                    }
                }
                return Err(TimestampParseError::ParseInt);
            },
        }
    } else {
        0
    };
    let hour = if c2 < n {
        match parse_field(s, 0, c1) {
            Ok(v) => v,
            Err(_) => {
                proof {
                    if ts_fields_ok(s@) {
                        lemma_total_floor(s@);
                    }
                }
                return Err(TimestampParseError::ParseInt);
            },
        }
    } else {
        0
    };
    proof {
        assert(hour == hour_val(s@));
        assert(min == min_val(s@));
        assert(sec == sec_val(s@));
        assert(msec == msec_val(s@));
        assert((hour as u128) * 3600 < 0x100000000000000000000u128) by (nonlinear_arith)
            requires
                hour <= u64::MAX,
        ;
        assert((min as u128) * 60 < 0x100000000000000000000u128) by (nonlinear_arith)
            requires
                min <= u64::MAX,
        ;
        assert(((hour as u128) * 3600 + (min as u128) * 60 + (sec as u128)) * 1000
            < 0x10000000000000000000000000u128) by (nonlinear_arith)
            requires
                (hour as u128) * 3600 < 0x100000000000000000000u128,
                (min as u128) * 60 < 0x100000000000000000000u128,
                sec <= u64::MAX,
        ;
    }
    let total: u128 = ((hour as u128) * 3600 + (min as u128) * 60 + (sec as u128)) * 1000
        + (msec as u128);
    if total < RAT_BOUND as u128 {
        proof {
            assert(total == ts_total_ms(s@));
        }
        Ok(Timestamp::new(Rational::new(total as i64, 1000)))
    } else {
        Err(TimestampParseError::ParseInt)
    }
}

/// The character of one decimal digit.
pub open spec fn digit_char(d: int) -> char {
    if d == 0 {
        '0'
    } else if d == 1 {
        '1'
    } else if d == 2 {
        '2'
    } else if d == 3 {
        '3'
    } else if d == 4 {
        '4'
    } else if d == 5 {
        '5'
    } else if d == 6 {
        '6'
    } else if d == 7 {
        '7'
    } else if d == 8 {
        '8'
    } else {
        '9'
    }
}

/// The decimal digits of `n`, most significant first.
pub open spec fn dec_digits(n: nat) -> Seq<char>
    decreases n,
{
    if n < 10 {
        seq![digit_char(n as int)]
    } else {
        dec_digits(n / 10).push(digit_char((n % 10) as int))
    }
}

/// The decimal digits of `n`, padded to at least two places.
pub open spec fn padded2(n: nat) -> Seq<char> {
    if n < 10 {
        seq!['0'] + dec_digits(n)
    } else {
        dec_digits(n)
    }
}

/// How the timestamp `num / den` seconds reads: `hh:mm:ss.mmm`, the hour,
/// minute and second fields padded to two places, the milliseconds (rounded
/// towards zero) to exactly three.
pub open spec fn ts_display(num: int, den: int) -> Seq<char> {
    let total_sec = num / den;
    let ms = (num % den) * 1000 / den;
    padded2((total_sec / 3600) as nat) + seq![':'] + padded2(((total_sec / 60) % 60) as nat)
        + seq![':'] + padded2((total_sec % 60) as nat) + seq!['.'] + seq![
        digit_char(ms / 100),
        digit_char((ms / 10) % 10),
        digit_char(ms % 10),
    ]
}

/// One decimal digit as text.
fn digit_str(d: u64) -> (r: &'static str)
    requires
        d < 10,
    ensures
        r@ == seq![digit_char(d as int)],
{
    proof {
        reveal_strlit("0");
        reveal_strlit("1");
        reveal_strlit("2");
        reveal_strlit("3");
        reveal_strlit("4");
        reveal_strlit("5");
        reveal_strlit("6");
        reveal_strlit("7");
        reveal_strlit("8");
        reveal_strlit("9");
    }
    match d {
        0 => "0",
        1 => "1",
        2 => "2",
        3 => "3",
        4 => "4",
        5 => "5",
        6 => "6",
        7 => "7",
        8 => "8",
        _ => "9",
    }
}

/// `n` in decimal.
fn decimal_string(n: u64) -> (r: String)
    ensures
        r@ == dec_digits(n as nat),
    decreases n,
{
    if n < 10 {
        digit_str(n).to_owned()
    } else {
        let mut r = decimal_string(n / 10);
        r.append(digit_str(n % 10));
        proof {
            assert(r@ =~= dec_digits((n / 10) as nat).push(digit_char((n % 10) as int)));
        }
        r
    }
}

/// `n` in decimal, padded to at least two places.
fn padded2_string(n: u64) -> (r: String)
    ensures
        r@ == padded2(n as nat),
{
    if n < 10 {
        proof {
            reveal_strlit("0");
        }
        let mut r = "0".to_owned();
        r.append(digit_str(n));
        proof {
            assert(r@ =~= padded2(n as nat));
        }
        r
    } else {
        decimal_string(n)
    }
}

/// Renders a non-negative timestamp as `hh:mm:ss.mmm` (milliseconds rounded
/// towards zero, the hour field growing past two places when needed).
pub fn format_timestamp(ts: &Timestamp) -> (r: String)
    requires
        ts.wf(),
        ts.rat().num >= 0,
    ensures
        r@ == ts_display(ts.rat().num as int, ts.rat().den as int),
{
    proof {
        reveal_strlit(":");
        reveal_strlit(".");
    }
    let rat = ts.as_ratio();
    let total_sec = rat.num / rat.den;
    let rem = rat.num % rat.den;
    proof {
        assert(0 <= rem < rat.den) by (nonlinear_arith)
            requires
                rat.num >= 0,
                rat.den > 0,
                rem == rat.num % rat.den,
        ;
        assert((rem as int) * 1000 / (rat.den as int) < 1000 && (rem as int) * 1000 / (
        rat.den as int) >= 0) by (nonlinear_arith)
            requires
                0 <= rem < rat.den,
        ;
        assert(total_sec >= 0) by (nonlinear_arith)
            requires
                rat.num >= 0,
                rat.den > 0,
                total_sec == rat.num / rat.den,
        ;
    }
    let ms = ((rem as i128) * 1000 / (rat.den as i128)) as i64;
    let mut r = padded2_string((total_sec / 3600) as u64);
    r.append(":");
    r.append(padded2_string(((total_sec / 60) % 60) as u64).as_str());
    r.append(":");
    r.append(padded2_string((total_sec % 60) as u64).as_str());
    r.append(".");
    r.append(digit_str((ms / 100) as u64));
    r.append(digit_str(((ms / 10) % 10) as u64));
    r.append(digit_str((ms % 10) as u64));
    proof {
        assert(r@ =~= ts_display(ts.rat().num as int, ts.rat().den as int));
    }
    r
}

} // verus!
