//! Capture times as EXIF records them: `"YYYY:MM:DD HH:MM:SS"`, read as UTC
//! seconds since the Unix epoch on the proleptic Gregorian calendar.
use vstd::prelude::*;
use crate::path::slice_chars;
use crate::text::chars_of;

verus! {

/// `char::is_whitespace`: the Unicode `White_Space` property.
pub open spec fn is_whitespace(c: char) -> bool {
    let u = c as u32;
    (0x09 <= u <= 0x0D) || u == 0x20 || u == 0x85 || u == 0xA0 || u == 0x1680 || (0x2000 <= u
        <= 0x200A) || u == 0x2028 || u == 0x2029 || u == 0x202F || u == 0x205F || u == 0x3000
}

fn is_ws(c: char) -> (r: bool)
    ensures
        r == is_whitespace(c),
{
    let u = c as u32;
    (0x09 <= u && u <= 0x0D) || u == 0x20 || u == 0x85 || u == 0xA0 || u == 0x1680 || (0x2000 <= u
        && u <= 0x200A) || u == 0x2028 || u == 0x2029 || u == 0x202F || u == 0x205F || u == 0x3000
}

/// Index of the first non-whitespace char at or after `i` (the length when none).
pub open spec fn first_non_ws(s: Seq<char>, i: int) -> int
    decreases s.len() - i,
{
    if i >= s.len() || !is_whitespace(s[i]) {
        i
    } else {
        first_non_ws(s, i + 1)
    }
}

/// End of `s[..e]` once trailing whitespace is dropped.
pub open spec fn end_non_ws(s: Seq<char>, e: int) -> int
    decreases e,
{
    if e <= 0 || !is_whitespace(s[e - 1]) {
        e
    } else {
        end_non_ws(s, e - 1)
    }
}

/// `str::trim`: `s` without leading and trailing whitespace.
pub open spec fn trim_spec(s: Seq<char>) -> Seq<char> {
    let a = first_non_ws(s, 0);
    if a >= s.len() {
        Seq::empty()
    } else {
        s.subrange(a, end_non_ws(s, s.len() as int))
    }
}

proof fn lemma_first_non_ws(s: Seq<char>, i: int)
    requires
        0 <= i <= s.len(),
    ensures
        i <= first_non_ws(s, i) <= s.len(),
        first_non_ws(s, i) < s.len() ==> !is_whitespace(s[first_non_ws(s, i)]),
    decreases s.len() - i,
{
    if i < s.len() && is_whitespace(s[i]) {
        lemma_first_non_ws(s, i + 1);
    }
}

proof fn lemma_end_non_ws(s: Seq<char>, a: int, e: int)
    requires
        0 <= a < e <= s.len(),
        !is_whitespace(s[a]),
    ensures
        a < end_non_ws(s, e) <= e,
    decreases e,
{
    if e - 1 > a && is_whitespace(s[e - 1]) {
        lemma_end_non_ws(s, a, e - 1);
    }
}

/// `char::len_utf8`: how many bytes the char takes in UTF-8.
pub open spec fn utf8_width(c: char) -> nat {
    let u = c as u32;
    if u < 0x80 {
        1
    } else if u < 0x800 {
        2
    } else if u < 0x10000 {
        3
    } else {
        4
    }
}

fn width(c: char) -> (w: usize)
    ensures
        w == utf8_width(c),
{
    let u = c as u32;
    if u < 0x80 {
        1
    } else if u < 0x800 {
        2
    } else if u < 0x10000 {
        3
    } else {
        4
    }
}

/// Byte offset, in the UTF-8 form of `t`, of the char at index `i`.
pub open spec fn byte_offset(t: Seq<char>, i: int) -> nat
    decreases i,
{
    if i <= 0 {
        0
    } else {
        byte_offset(t, i - 1) + utf8_width(t[i - 1])
    }
}

/// Byte offset `k` of `t` falls between two chars (`str::is_char_boundary`).
pub open spec fn is_boundary(t: Seq<char>, k: int) -> bool {
    exists|i: int| 0 <= i <= t.len() && byte_offset(t, i) == k
}

/// The char index at byte offset `k`.
pub open spec fn char_index(t: Seq<char>, k: int) -> int {
    choose|i: int| 0 <= i <= t.len() && byte_offset(t, i) == k
}

/// `&t[a..b]`, byte offsets read as char indices.
pub open spec fn byte_slice(t: Seq<char>, a: int, b: int) -> Seq<char> {
    t.subrange(char_index(t, a), char_index(t, b))
}

proof fn lemma_byte_offset_grows(t: Seq<char>, i: int, j: int)
    requires
        0 <= i < j,
    ensures
        byte_offset(t, i) < byte_offset(t, j),
    decreases j,
{
    if i < j - 1 {
        lemma_byte_offset_grows(t, i, j - 1);
    }
}

proof fn lemma_char_index(t: Seq<char>, k: int, i: int)
    requires
        0 <= i <= t.len(),
        byte_offset(t, i) == k,
    ensures
        char_index(t, k) == i,
{
    let j = char_index(t, k);
    if j < i {
        lemma_byte_offset_grows(t, j, i);
    } else if i < j {
        lemma_byte_offset_grows(t, i, j);
    }
}

/// Walk `t` until byte offset `k` is reached or passed, or `t` ends.
fn scan_bytes(t: &Vec<char>, k: usize) -> (r: (usize, usize))
    requires
        k <= 19,
    ensures
        r.0 <= t@.len(),
        r.1 == byte_offset(t@, r.0 as int),
        forall|j: int| 0 <= j < r.0 ==> byte_offset(t@, j) < k,
        r.1 >= k || r.0 == t@.len(),
        r.1 <= k + 3,
{
    let mut i: usize = 0;
    let mut acc: usize = 0;
    while i < t.len() && acc < k
        invariant
            k <= 19,
            i <= t@.len(),
            acc == byte_offset(t@, i as int),
            acc <= k + 3,
            forall|j: int| 0 <= j < i ==> byte_offset(t@, j) < k,
        decreases t@.len() - i,
    {
        proof {
            assert forall|j: int| 0 <= j < i + 1 implies byte_offset(t@, j) < k by {
                if j < i {
                    lemma_byte_offset_grows(t@, j, i as int);
                }
            }
        }
        acc = acc + width(t[i]);
        i = i + 1;
    }
    (i, acc)
}

/// The char index at byte offset `k`, if `k` is a char boundary of `t`.
fn char_at_byte(t: &Vec<char>, k: usize) -> (r: Option<usize>)
    requires
        k <= 19,
    ensures
        match r {
            Some(i) => i <= t@.len() && byte_offset(t@, i as int) == k && char_index(t@, k as int) == i,
            None => !is_boundary(t@, k as int),
        },
{
    let (i, acc) = scan_bytes(t, k);
    if acc == k {
        proof {
            lemma_char_index(t@, k as int, i as int);
        }
        Some(i)
    } else {
        proof {
            assert forall|j: int| 0 <= j <= t@.len() implies byte_offset(t@, j) != k by {
                if j > i {
                    lemma_byte_offset_grows(t@, i as int, j);
                }
            }
        }
        None
    }
}

pub open spec fn is_digit(c: char) -> bool {
    '0' <= c <= '9'
}

/// The number written by the decimal digits `ds`.
pub open spec fn digits_value(ds: Seq<char>) -> nat
    decreases ds.len(),
{
    if ds.len() == 0 {
        0
    } else {
        digits_value(ds.drop_last()) * 10 + ((ds.last() as u32) - 48) as nat
    }
}

pub open spec fn all_digits(ds: Seq<char>) -> bool {
    ds.len() > 0 && forall|i: int| 0 <= i < ds.len() ==> is_digit(#[trigger] ds[i])
}

/// `u32::from_str` on a short string: an optional `+`, then at least one digit.
pub open spec fn parse_unsigned(cs: Seq<char>) -> Option<nat> {
    let ds = if cs.len() > 0 && cs[0] == '+' {
        cs.drop_first()
    } else {
        cs
    };
    if all_digits(ds) {
        Some(digits_value(ds))
    } else {
        None
    }
}

/// `i32::from_str` on a short string: an optional `+` or `-`, then at least one digit.
pub open spec fn parse_signed(cs: Seq<char>) -> Option<int> {
    if cs.len() > 0 && cs[0] == '-' {
        if all_digits(cs.drop_first()) {
            Some(-digits_value(cs.drop_first()))
        } else {
            None
        }
    } else {
        match parse_unsigned(cs) {
            Some(v) => Some(v as int),
            None => None,
        }
    }
}

proof fn lemma_digits_value_bound(ds: Seq<char>)
    requires
        forall|i: int| 0 <= i < ds.len() ==> is_digit(#[trigger] ds[i]),
    ensures
        digits_value(ds) < crate::text::pow10(ds.len()),
    decreases ds.len(),
{
    if ds.len() > 0 {
        assert forall|i: int| 0 <= i < ds.drop_last().len() implies is_digit(#[trigger] ds.drop_last()[i]) by {
            assert(ds.drop_last()[i] == ds[i]);
        }
        lemma_digits_value_bound(ds.drop_last());
        assert(is_digit(ds[ds.len() - 1]));
    }
}

/// The value of the digits `cs[start..]`, when they are all digits.
fn digits_from(cs: &Vec<char>, start: usize) -> (r: Option<u32>)
    requires
        start <= cs@.len(),
        cs@.len() - start <= 4,
    ensures
        match r {
            Some(v) => all_digits(cs@.skip(start as int)) && v == digits_value(cs@.skip(start as int)),
            None => !all_digits(cs@.skip(start as int)),
        },
{
    if start == cs.len() {
        return None;
    }
    let mut v: u32 = 0;
    let mut i = start;
    while i < cs.len()
        invariant
            start <= i <= cs@.len(),
            cs@.len() - start <= 4,
            forall|j: int| start <= j < i ==> is_digit(#[trigger] cs@[j]),
            v == digits_value(cs@.subrange(start as int, i as int)),
            v < crate::text::pow10((i - start) as nat),
        decreases cs@.len() - i,
    {
        let c = cs[i];
        if !('0' <= c && c <= '9') {
            proof {
                assert(cs@.skip(start as int)[i - start] == c);
            }
            return None;
        }
        proof {
            let sub = cs@.subrange(start as int, i + 1);
            assert(sub.drop_last() =~= cs@.subrange(start as int, i as int));
            assert(sub.last() == c);
            assert forall|j: int| 0 <= j < sub.len() implies is_digit(#[trigger] sub[j]) by {
                assert(sub[j] == cs@[start + j]);
            }
            lemma_digits_value_bound(sub);
            assert(crate::text::pow10((i + 1 - start) as nat) <= 10000) by {
                reveal_with_fuel(crate::text::pow10, 5);
            }
        }
        v = v * 10 + ((c as u32) - 48);
        i = i + 1;
    }
    proof {
        assert(cs@.subrange(start as int, cs@.len() as int) =~= cs@.skip(start as int));
        assert forall|j: int| 0 <= j < cs@.skip(start as int).len() implies is_digit(
            #[trigger] cs@.skip(start as int)[j],
        ) by {
            assert(cs@.skip(start as int)[j] == cs@[start + j]);
        }
    }
    Some(v)
}

fn parse_u32_short(cs: &Vec<char>) -> (r: Option<u32>)
    requires
        cs@.len() <= 4,
    ensures
        match r {
            Some(v) => parse_unsigned(cs@) == Some(v as nat),
            None => parse_unsigned(cs@) is None,
        },
{
    if cs.len() > 0 && cs[0] == '+' {
        proof {
            assert(cs@.skip(1) =~= cs@.drop_first());
        }
        digits_from(cs, 1)
    } else {
        proof {
            assert(cs@.skip(0) =~= cs@);
        }
        digits_from(cs, 0)
    }
}

fn parse_i32_short(cs: &Vec<char>) -> (r: Option<i32>)
    requires
        cs@.len() <= 4,
    ensures
        match r {
            Some(v) => parse_signed(cs@) == Some(v as int),
            None => parse_signed(cs@) is None,
        },
{
    if cs.len() > 0 && cs[0] == '-' {
        proof {
            assert(cs@.skip(1) =~= cs@.drop_first());
        }
        match digits_from(cs, 1) {
            Some(v) => {
                proof {
                    assert(forall|j: int| 0 <= j < cs@.drop_first().len() ==> is_digit(#[trigger] cs@.drop_first()[j]));
                    lemma_digits_value_bound(cs@.drop_first());
                    reveal_with_fuel(crate::text::pow10, 5);
                }
                Some(-(v as i32))
            },
            None => None,
        }
    } else {
        match parse_u32_short(cs) {
            Some(v) => {
                proof {
                    let ds = if cs@.len() > 0 && cs@[0] == '+' { cs@.drop_first() } else { cs@ };
                    assert(forall|j: int| 0 <= j < ds.len() ==> is_digit(#[trigger] ds[j]));
                    lemma_digits_value_bound(ds);
                    reveal_with_fuel(crate::text::pow10, 5);
                }
                Some(v as i32)
            },
            None => None,
        }
    }
}

/// Gregorian leap year.
pub open spec fn is_leap(y: int) -> bool {
    (y % 4 == 0 && y % 100 != 0) || y % 400 == 0
}

/// Leap years in `1..y` (extended to all `y` by the same floor formula).
pub open spec fn leaps_before(y: int) -> int {
    (y - 1) / 4 - (y - 1) / 100 + (y - 1) / 400
}

/// Days in the months before month `m` of a common year.
pub open spec fn month_start(m: int) -> int {
    if m <= 1 {
        0
    } else if m == 2 {
        31
    } else if m == 3 {
        59
    } else if m == 4 {
        90
    } else if m == 5 {
        120
    } else if m == 6 {
        151
    } else if m == 7 {
        181
    } else if m == 8 {
        212
    } else if m == 9 {
        243
    } else if m == 10 {
        273
    } else if m == 11 {
        304
    } else {
        334
    }
}

/// Days from 1970-01-01 to year `y`, month `m`, day `d` of the proleptic
/// Gregorian calendar (a day past the month's end counts on into the next).
pub open spec fn civil_days(y: int, m: int, d: int) -> int {
    365 * (y - 1970) + leaps_before(y) - leaps_before(1970) + month_start(m) + (if m > 2 && is_leap(
        y,
    ) {
        1int
    } else {
        0int
    }) + d - 1
}

proof fn lemma_civil_days_bound(y: int, m: int, d: int)
    requires
        -0x8000_0000 <= y < 0x8000_0000,
        1 <= m <= 12,
        1 <= d <= 31,
    ensures
        -1_000_000_000_000 <= civil_days(y, m, d) <= 1_000_000_000_000,
{
    assert(-0x8000_0001 <= y - 1 < 0x8000_0000);
    assert(-0x2000_0001 <= (y - 1) / 4 <= 0x2000_0000) by (nonlinear_arith)
        requires
            -0x8000_0001 <= y - 1 < 0x8000_0000,
    ;
    assert(-0x200_0000 <= (y - 1) / 100 <= 0x200_0000) by (nonlinear_arith)
        requires
            -0x8000_0001 <= y - 1 < 0x8000_0000,
    ;
    assert(-0x80_0000 <= (y - 1) / 400 <= 0x80_0000) by (nonlinear_arith)
        requires
            -0x8000_0001 <= y - 1 < 0x8000_0000,
    ;
}

proof fn lemma_floor_step(y: int, k: int)
    requires
        k > 0,
    ensures
        y / k - (y - 1) / k == if y % k == 0 {
            1int
        } else {
            0int
        },
{
    let q = y / k;
    let r = y % k;
    vstd::arithmetic::div_mod::lemma_fundamental_div_mod(y, k);
    assert(0 <= r < k) by {
        vstd::arithmetic::div_mod::lemma_mod_bound(y, k);
    }
    if r > 0 {
        assert(y - 1 == q * k + (r - 1)) by (nonlinear_arith)
            requires
                y == k * q + r,
        ;
        vstd::arithmetic::div_mod::lemma_fundamental_div_mod_converse(y - 1, k, q, r - 1);
    } else {
        assert(y - 1 == (q - 1) * k + (k - 1)) by (nonlinear_arith)
            requires
                y == k * q + r,
                r == 0,
        ;
        vstd::arithmetic::div_mod::lemma_fundamental_div_mod_converse(y - 1, k, q - 1, k - 1);
    }
}

proof fn lemma_divides_down(y: int, k: int, j: int)
    requires
        k > 0,
        j > 0,
        y % (k * j) == 0,
    ensures
        y % k == 0,
{
    assert(k * j > 0) by (nonlinear_arith)
        requires
            k > 0,
            j > 0,
    ;
    vstd::arithmetic::div_mod::lemma_fundamental_div_mod(y, k * j);
    let q = y / (k * j);
    assert(y == (q * j) * k + 0) by (nonlinear_arith)
        requires
            y == (k * j) * q + y % (k * j),
            y % (k * j) == 0,
    ;
    vstd::arithmetic::div_mod::lemma_fundamental_div_mod_converse(y, k, q * j, 0);
}

/// The calendar behind `parse_datetime`: a year has 366 days when it is a
/// Gregorian leap year and 365 otherwise, and a day is one day after the one
/// before it.
pub proof fn lemma_calendar(y: int, m: int, d: int)
    ensures
        civil_days(y + 1, 1, 1) - civil_days(y, 1, 1) == if is_leap(y) {
            366int
        } else {
            365int
        },
        civil_days(y, m, d + 1) == civil_days(y, m, d) + 1,
{
    lemma_floor_step(y, 4);
    lemma_floor_step(y, 100);
    lemma_floor_step(y, 400);
    if y % 400 == 0 {
        lemma_divides_down(y, 100, 4);
        lemma_divides_down(y, 4, 100);
    }
    if y % 100 == 0 {
        lemma_divides_down(y, 4, 25);
    }
    assert(leaps_before(y + 1) - leaps_before(y) == if is_leap(y) { 1int } else { 0int });
}

/// The number of days in month `m` of year `y`: thirty days hath September,
/// April, June and November; February has 28, or 29 in a leap year; the rest
/// have 31.
pub open spec fn days_in_month(y: int, m: int) -> int {
    if m == 2 {
        if is_leap(y) {
            29
        } else {
            28
        }
    } else if m == 4 || m == 6 || m == 9 || m == 11 {
        30
    } else {
        31
    }
}

/// The day count is anchored and steps by the calendar: 1970-01-01 is day 0,
/// the first of each month is as many days after the first of the month
/// before as that month is long, each year's first day is 365 or 366 days
/// after the previous one's, and each day is one after the day before.
pub proof fn lemma_days_follow_the_calendar(y: int, m: int, d: int)
    ensures
        days_from_epoch_spec(1970, 1, 1) == Some(0int),
        1 <= m < 12 ==> days_from_epoch_spec(y, m + 1, 1)->0 - days_from_epoch_spec(y, m, 1)->0 == days_in_month(y, m),
        days_from_epoch_spec(y + 1, 1, 1)->0 - days_from_epoch_spec(y, 12, 1)->0 == days_in_month(y, 12),
        1 <= m <= 12 && 1 <= d < 31 ==> days_from_epoch_spec(y, m, d + 1)->0 == days_from_epoch_spec(y, m, d)->0 + 1,
{
    lemma_calendar(y, m, d);
    lemma_calendar(y, 12, 1);
}

/// Days from the epoch, or `None` when the month is not `1..=12` or the day
/// not `1..=31`.
pub open spec fn days_from_epoch_spec(y: int, m: int, d: int) -> Option<int> {
    if 1 <= m <= 12 && 1 <= d <= 31 {
        Some(civil_days(y, m, d))
    } else {
        None
    }
}

/// Number of days from the Unix epoch (1970-01-01) to the given date.
pub fn days_from_epoch(year: i32, month: u32, day: u32) -> (r: Option<i64>)
    ensures
        match r {
            Some(v) => days_from_epoch_spec(year as int, month as int, day as int) == Some(v as int),
            None => days_from_epoch_spec(year as int, month as int, day as int) is None,
        },
{
    if !(1 <= month && month <= 12) || !(1 <= day && day <= 31) {
        return None;
    }
    // shift by whole 400-year cycles so every division is of a non-negative number
    let k: u64 = 10_000_000;
    let x: u64 = ((year as i64) - 1 + 4_000_000_000i64) as u64;
    let ghost xi = year as int - 1;
    proof {
        assert(x == xi + 400 * k);
        assert((xi + 400 * 10_000_000) / 4 == xi / 4 + 100 * 10_000_000) by (nonlinear_arith);
        assert((xi + 400 * 10_000_000) / 100 == xi / 100 + 4 * 10_000_000) by (nonlinear_arith);
        assert((xi + 400 * 10_000_000) / 400 == xi / 400 + 10_000_000) by (nonlinear_arith);
    }
    let leaps: i64 = (x / 4) as i64 - (x / 100) as i64 + (x / 400) as i64 - 970_000_000;
    let yy: u64 = x + 1;
    proof {
        assert((xi + 1 + 400 * 10_000_000) % 4 == (xi + 1) % 4) by (nonlinear_arith);
        assert((xi + 1 + 400 * 10_000_000) % 100 == (xi + 1) % 100) by (nonlinear_arith);
        assert((xi + 1 + 400 * 10_000_000) % 400 == (xi + 1) % 400) by (nonlinear_arith);
    }
    let leap = (yy % 4 == 0 && yy % 100 != 0) || yy % 400 == 0;
    let ms: i64 = if month <= 1 {
        0
    } else if month == 2 {
        31
    } else if month == 3 {
        59
    } else if month == 4 {
        90
    } else if month == 5 {
        120
    } else if month == 6 {
        151
    } else if month == 7 {
        181
    } else if month == 8 {
        212
    } else if month == 9 {
        243
    } else if month == 10 {
        273
    } else if month == 11 {
        304
    } else {
        334
    };
    let extra: i64 = if month > 2 && leap {
        1
    } else {
        0
    };
    proof {
        assert(leaps_before(1970) == 477);
    }
    Some(365 * ((year as i64) - 1970) + leaps - 477 + ms + extra + (day as i64) - 1)
}

/// `"YYYY:MM:DD HH:MM:SS"` (surrounding whitespace ignored, anything after the
/// seconds ignored) as seconds since the epoch; `None` when the text is shorter
/// than 19 bytes, a field does not parse, or the date is out of range.  Hours,
/// minutes and seconds are not range-checked.
pub open spec fn parse_datetime_spec(s: Seq<char>) -> Option<int> {
    let t = trim_spec(s);
    if byte_offset(t, t.len() as int) < 19 {
        None
    } else {
        match (
            parse_signed(byte_slice(t, 0, 4)),
            parse_unsigned(byte_slice(t, 5, 7)),
            parse_unsigned(byte_slice(t, 8, 10)),
            parse_unsigned(byte_slice(t, 11, 13)),
            parse_unsigned(byte_slice(t, 14, 16)),
            parse_unsigned(byte_slice(t, 17, 19)),
        ) {
            (Some(y), Some(mo), Some(d), Some(h), Some(mi), Some(se)) => match days_from_epoch_spec(
                y,
                mo as int,
                d as int,
            ) {
                Some(days) => Some(days * 86400 + h * 3600 + mi * 60 + se),
                None => None,
            },
            _ => None,
        }
    }
}

/// The byte offsets at which the parse slices the trimmed text all fall
/// between chars (slicing elsewhere would panic).
pub open spec fn datetime_sliceable(s: Seq<char>) -> bool {
    let t = trim_spec(s);
    byte_offset(t, t.len() as int) >= 19 ==> {
        &&& is_boundary(t, 4)
        &&& is_boundary(t, 5)
        &&& is_boundary(t, 7)
        &&& is_boundary(t, 8)
        &&& is_boundary(t, 10)
        &&& is_boundary(t, 11)
        &&& is_boundary(t, 13)
        &&& is_boundary(t, 14)
        &&& is_boundary(t, 16)
        &&& is_boundary(t, 17)
        &&& is_boundary(t, 19)
    }
}

/// The chars between byte offsets `a` and `b` of `t`.
fn field(t: &Vec<char>, a: usize, b: usize) -> (r: Vec<char>)
    requires
        a < b <= 19,
        b - a <= 4,
        is_boundary(t@, a as int),
        is_boundary(t@, b as int),
    ensures
        r@ == byte_slice(t@, a as int, b as int),
        r@.len() <= 4,
{
    let ia = char_at_byte(t, a).unwrap();
    let ib = char_at_byte(t, b).unwrap();
    proof {
        if ib < ia {
            lemma_byte_offset_grows(t@, ib as int, ia as int);
        }
        // each char takes at least one byte
        assert(ib - ia <= byte_offset(t@, ib as int) - byte_offset(t@, ia as int)) by {
            lemma_chars_le_bytes(t@, ia as int, ib as int);
        }
    }
    slice_chars(t, ia, ib)
}

proof fn lemma_chars_le_bytes(t: Seq<char>, i: int, j: int)
    requires
        0 <= i <= j,
    ensures
        j - i <= byte_offset(t, j) - byte_offset(t, i),
    decreases j - i,
{
    if i < j {
        lemma_chars_le_bytes(t, i, j - 1);
    }
}

/// `str::trim` on a char vector.
pub(crate) fn trim_chars(v: &Vec<char>) -> (t: Vec<char>)
    ensures
        t@ == trim_spec(v@),
{
    let n = v.len();
    let mut a: usize = 0;
    while a < n && is_ws(v[a])
        invariant
            n == v@.len(),
            a <= n,
            first_non_ws(v@, 0) == first_non_ws(v@, a as int),
        decreases n - a,
    {
        a = a + 1;
    }
    proof {
        lemma_first_non_ws(v@, a as int);
    }
    if a >= n {
        return Vec::new();
    }
    let mut e: usize = n;
    while e > 0 && is_ws(v[e - 1])
        invariant
            n == v@.len(),
            e <= n,
            end_non_ws(v@, n as int) == end_non_ws(v@, e as int),
        decreases e,
    {
        e = e - 1;
    }
    proof {
        lemma_end_non_ws(v@, a as int, n as int);
    }
    slice_chars(v, a, e)
}

/// Parse an EXIF datetime `"YYYY:MM:DD HH:MM:SS"` to a Unix timestamp
/// (seconds, UTC).
pub fn parse_datetime(s: &str) -> (r: Option<i64>)
    requires
        datetime_sliceable(s@),
    ensures
        match r {
            Some(v) => parse_datetime_spec(s@) == Some(v as int),
            None => parse_datetime_spec(s@) is None,
        },
{
    let v = chars_of(s);
    let t = trim_chars(&v);
    proof {
        assert(t@ =~= trim_spec(s@));
    }
    let (i19, total) = scan_bytes(&t, 19);
    if total < 19 {
        return None;
    }
    proof {
        if (i19 as int) < t@.len() {
            lemma_byte_offset_grows(t@, i19 as int, t@.len() as int);
        }
        assert(byte_offset(t@, 0) == 0);
        assert(is_boundary(t@, 0));
    }
    let year = match parse_i32_short(&field(&t, 0, 4)) {
        Some(y) => y,
        None => return None,
    };
    let month = match parse_u32_short(&field(&t, 5, 7)) {
        Some(x) => x,
        None => return None,
    };
    let day = match parse_u32_short(&field(&t, 8, 10)) {
        Some(x) => x,
        None => return None,
    };
    let hour = match parse_u32_short(&field(&t, 11, 13)) {
        Some(x) => x,
        None => return None,
    };
    let min = match parse_u32_short(&field(&t, 14, 16)) {
        Some(x) => x,
        None => return None,
    };
    let sec = match parse_u32_short(&field(&t, 17, 19)) {
        Some(x) => x,
        None => return None,
    };
    let days = match days_from_epoch(year, month, day) {
        Some(d) => d,
        None => return None,
    };
    proof {
        lemma_civil_days_bound(year as int, month as int, day as int);
    }
    Some(days * 86400 + (hour as i64) * 3600 + (min as i64) * 60 + (sec as i64))
}

} // verus!
