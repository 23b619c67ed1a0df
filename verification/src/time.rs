//! The time normalizer: parses a `year/month/day` date and an `HH:MM` +
//! timezone-suffix time, expands two-digit years, resolves the suffix to
//! UTC or the logging application's fixed +09:00 local offset, converts to
//! UTC, and formats the ADIF 8-digit date and 4-digit time fields.

use vstd::prelude::*;
use crate::calendar::{
    valid_date, prev_day, day_number, days_in_month, days_in_month_x, prev_day_x,
    lemma_prev_day_valid, lemma_prev_day_number,
};
use crate::chars::{
    is_digit, is_letter, digit_val, digit_char, all_digits, digits_val, pow10,
    lemma_digits_val_snoc, lemma_digits_val_bounds, str_to_chars, chars_to_string,
};
use crate::errors::ConvError;

verus! {

/// Index of the first occurrence of `c` in `s` at or after `i`, or
/// `s.len()` if there is none.
pub open spec fn find_char(s: Seq<char>, c: char, i: int) -> int
    decreases s.len() - i,
{
    if i < 0 || i >= s.len() {
        s.len() as int
    } else if s[i] == c {
        i
    } else {
        find_char(s, c, i + 1)
    }
}

/// The parsed `(year, month, day)` groups of a date text of the shape
/// `\d{1,4}/\d{1,2}/\d{1,2}`, or `None` if the text is not of that shape.
pub open spec fn date_parse_spec(s: Seq<char>) -> Option<(int, int, int)> {
    let a = find_char(s, '/', 0);
    let b = find_char(s, '/', a + 1);
    if a >= s.len() || b >= s.len() {
        None
    } else {
        let g1 = s.subrange(0, a);
        let g2 = s.subrange(a + 1, b);
        let g3 = s.subrange(b + 1, s.len() as int);
        if 1 <= g1.len() <= 4 && 1 <= g2.len() <= 2 && 1 <= g3.len() <= 2 && all_digits(g1)
            && all_digits(g2) && all_digits(g3) {
            Some((digits_val(g1), digits_val(g2), digits_val(g3)))
        } else {
            None
        }
    }
}

/// The parsed `(hour, minute, suffix)` of a time text of the shape
/// `\d\d:\d\d` followed by one ASCII letter, or `None`.
pub open spec fn time_parse_spec(s: Seq<char>) -> Option<(int, int, char)> {
    if s.len() == 6 && is_digit(s[0]) && is_digit(s[1]) && s[2] == ':' && is_digit(s[3])
        && is_digit(s[4]) && is_letter(s[5]) {
        Some((digit_val(s[0]) * 10 + digit_val(s[1]), digit_val(s[3]) * 10 + digit_val(s[4]), s[5]))
    } else {
        None
    }
}

/// Two-digit years are pivoted at 65: above it they mean the 1900s,
/// at or below it the 2000s.  Longer years stand for themselves.
pub open spec fn expand_year(y: int) -> int {
    if y < 100 {
        if y > 65 {
            y + 1900
        } else {
            y + 2000
        }
    } else {
        y
    }
}

/// Suffix letters meaning UTC, compared case-insensitively.
pub open spec fn is_utc_suffix(c: char) -> bool {
    c == 'Z' || c == 'z' || c == 'U' || c == 'u'
}

/// Minutes of local offset selected by the timezone suffix: zero for UTC,
/// +09:00 for every other letter.
pub open spec fn tz_offset_min(c: char) -> int {
    if is_utc_suffix(c) {
        0
    } else {
        540
    }
}

/// The UTC instant `(year, month, day, hour, minute)` of a local instant
/// at `off` minutes ahead of UTC.  The offset is below one day, so the
/// date rolls back at most once.
pub open spec fn utc_of(y: int, m: int, d: int, h: int, mi: int, off: int) -> (
    int,
    int,
    int,
    int,
    int,
) {
    let t = h * 60 + mi - off;
    if t >= 0 {
        (y, m, d, t / 60, t % 60)
    } else {
        let (py, pm, pd) = prev_day(y, m, d);
        (py, pm, pd, (t + 1440) / 60, (t + 1440) % 60)
    }
}

/// The ADIF `YYYYMMDD` date field.
pub open spec fn date_digits8(y: int, m: int, d: int) -> Seq<char> {
    seq![
        digit_char(y / 1000),
        digit_char((y / 100) % 10),
        digit_char((y / 10) % 10),
        digit_char(y % 10),
        digit_char(m / 10),
        digit_char(m % 10),
        digit_char(d / 10),
        digit_char(d % 10),
    ]
}

/// The ADIF `HHMM` time field.
pub open spec fn time_digits4(h: int, mi: int) -> Seq<char> {
    seq![digit_char(h / 10), digit_char(h % 10), digit_char(mi / 10), digit_char(mi % 10)]
}

/// The whole normalization: `None` where either text fails its pattern or
/// denotes no real calendar date or clock time, the formatted UTC fields
/// otherwise.
pub open spec fn normalize_time_spec(date: Seq<char>, hour: Seq<char>) -> Option<
    (Seq<char>, Seq<char>),
> {
    match date_parse_spec(date) {
        None => None,
        Some((y0, m, d)) => match time_parse_spec(hour) {
            None => None,
            Some((h, mi, suffix)) => {
                let y = expand_year(y0);
                if valid_date(y, m, d) && h < 24 && mi < 60 {
                    let (uy, um, ud, uh, umi) = utc_of(y, m, d, h, mi, tz_offset_min(suffix));
                    Some((date_digits8(uy, um, ud), time_digits4(uh, umi)))
                } else {
                    None
                }
            },
        },
    }
}

/// `find_char` stays between its starting point and the end of the text.
pub proof fn lemma_find_char_bounds(s: Seq<char>, c: char, i: int)
    requires
        0 <= i <= s.len(),
    ensures
        i <= find_char(s, c, i) <= s.len(),
    decreases s.len() - i,
{
    if i < s.len() && s[i] != c {
        lemma_find_char_bounds(s, c, i + 1);
    }
}

/// First occurrence of `c` in `s` at or after `from`, executably.
pub fn find_char_x(s: &Vec<char>, c: char, from: usize) -> (j: usize)
    requires
        from <= s@.len(),
    ensures
        j == find_char(s@, c, from as int),
        from <= j <= s@.len(),
{
    let n = s.len();
    let mut i = from;
    while i < n
        invariant
            from <= i <= n,
            n == s@.len(),
            find_char(s@, c, from as int) == find_char(s@, c, i as int),
        decreases n - i,
    {
        if s[i] == c {
            return i;
        }
        i += 1;
    }
    n
}

/// The decimal value of `s[from..to]`, or `None` if any character there
/// is no digit.
pub fn digits_value(s: &Vec<char>, from: usize, to: usize) -> (r: Option<u32>)
    requires
        from <= to <= s@.len(),
        to - from <= 8,
    ensures
        match r {
            Some(v) => all_digits(s@.subrange(from as int, to as int)) && v == digits_val(
                s@.subrange(from as int, to as int),
            ),
            None => !all_digits(s@.subrange(from as int, to as int)),
        },
{
    let mut acc: u32 = 0;
    let mut i = from;
    while i < to
        invariant
            from <= i <= to <= s@.len(),
            to - from <= 8,
            all_digits(s@.subrange(from as int, i as int)),
            acc == digits_val(s@.subrange(from as int, i as int)),
            acc < pow10((i - from) as int),
        decreases to - i,
    {
        let c = s[i] as u32;
        if !(48 <= c && c <= 57) {
            assert(s@.subrange(from as int, to as int)[i - from] == s@[i as int]);
            assert(!is_digit(s@.subrange(from as int, to as int)[i - from]));
            return None;
        }
        let d: u32 = c - 48;
        proof {
            crate::chars::lemma_pow10_mono((i - from) as int, 7);
            crate::chars::lemma_pow10_values();
            lemma_digits_val_snoc(s@.subrange(from as int, i as int), s@[i as int]);
            assert(s@.subrange(from as int, i as int).push(s@[i as int]) =~= s@.subrange(
                from as int,
                i + 1,
            ));
            assert(pow10((i + 1 - from) as int) == 10 * pow10((i - from) as int));
        }
        acc = acc * 10 + d;
        i += 1;
    }
    assert(s@.subrange(from as int, i as int) =~= s@.subrange(from as int, to as int));
    Some(acc)
}

/// The parsed `(year, month, day)` groups of a date text, executably.
fn parse_date_chars(s: &Vec<char>) -> (r: Option<(u32, u32, u32)>)
    ensures
        match r {
            Some(t) => date_parse_spec(s@) == Some((t.0 as int, t.1 as int, t.2 as int)),
            None => date_parse_spec(s@) is None,
        },
{
    let n = s.len();
    let a = find_char_x(s, '/', 0);
    if a >= n {
        return None;
    }
    let b = find_char_x(s, '/', a + 1);
    if b >= n {
        return None;
    }
    if !(1 <= a && a <= 4 && a + 2 <= b && b <= a + 3 && b + 2 <= n && n <= b + 3) {
        return None;
    }
    let g1 = digits_value(s, 0, a);
    let g2 = digits_value(s, a + 1, b);
    let g3 = digits_value(s, b + 1, n);
    match (g1, g2, g3) {
        (Some(y), Some(m), Some(d)) => Some((y, m, d)),
        _ => None,
    }
}

/// The parsed `(hour, minute, suffix)` of a time text, executably.
fn parse_time_chars(s: &Vec<char>) -> (r: Option<(u32, u32, char)>)
    ensures
        match r {
            Some(t) => time_parse_spec(s@) == Some((t.0 as int, t.1 as int, t.2)),
            None => time_parse_spec(s@) is None,
        },
{
    if s.len() != 6 {
        return None;
    }
    let c0 = s[0] as u32;
    let c1 = s[1] as u32;
    let c2 = s[2];
    let c3 = s[3] as u32;
    let c4 = s[4] as u32;
    let c5 = s[5];
    if !(48 <= c0 && c0 <= 57 && 48 <= c1 && c1 <= 57 && c2 == ':' && 48 <= c3 && c3 <= 57 && 48
        <= c4 && c4 <= 57) {
        return None;
    }
    let l5 = c5 as u32;
    if !((65 <= l5 && l5 <= 90) || (97 <= l5 && l5 <= 122)) {
        return None;
    }
    let h = (c0 - 48) * 10 + (c1 - 48);
    let mi = (c3 - 48) * 10 + (c4 - 48);
    Some((h, mi, c5))
}

/// The digits of the value `v`, `width` many, zero-padded, most
/// significant first; used for both ADIF fields.
fn push_two_digits(out: &mut Vec<char>, v: u32)
    requires
        v < 100,
    ensures
        final(out)@ == old(out)@ + seq![digit_char(v as int / 10), digit_char(v as int % 10)],
{
    let hi: u8 = (48 + v / 10) as u8;
    let lo: u8 = (48 + v % 10) as u8;
    out.push(hi as char);
    out.push(lo as char);

}

/// The UTC shift, executably.
fn utc_shift_x(y: u32, m: u32, d: u32, h: u32, mi: u32, off: u32) -> (t: (u32, u32, u32, u32, u32))
    requires
        valid_date(y as int, m as int, d as int),
        1 <= y < 10000,
        h < 24,
        mi < 60,
        off == 0 || off == 540,
    ensures
        (t.0 as int, t.1 as int, t.2 as int, t.3 as int, t.4 as int) == utc_of(
            y as int,
            m as int,
            d as int,
            h as int,
            mi as int,
            off as int,
        ),
        t.0 < 10000 && t.1 < 100 && t.2 < 100 && t.3 < 100 && t.4 < 100,
{
    let t = h * 60 + mi;
    if t >= off {
        let t2 = t - off;
        (y, m, d, t2 / 60, t2 % 60)
    } else {
        let (py, pm, pd) = prev_day_x(y, m, d);
        proof {
            lemma_prev_day_valid(y as int, m as int, d as int);
        }
        let t2 = t + 1440 - off;
        (py, pm, pd, t2 / 60, t2 % 60)
    }
}

/// The ADIF date field, executably.
fn format_date8(y: u32, m: u32, d: u32) -> (v: Vec<char>)
    requires
        y < 10000,
        m < 100,
        d < 100,
    ensures
        v@ == date_digits8(y as int, m as int, d as int),
{
    let mut out: Vec<char> = Vec::new();
    push_two_digits(&mut out, y / 100);
    push_two_digits(&mut out, y % 100);
    push_two_digits(&mut out, m);
    push_two_digits(&mut out, d);
    proof {
        lemma_quotient_digits(y as int);
    }
    assert(out@ =~= date_digits8(y as int, m as int, d as int));
    out
}

/// The ADIF time field, executably.
fn format_time4(h: u32, mi: u32) -> (v: Vec<char>)
    requires
        h < 100,
        mi < 100,
    ensures
        v@ == time_digits4(h as int, mi as int),
{
    let mut out: Vec<char> = Vec::new();
    push_two_digits(&mut out, h);
    push_two_digits(&mut out, mi);
    assert(out@ =~= time_digits4(h as int, mi as int));
    out
}

/// Normalizes a date text and a time+zone text into the UTC-based ADIF
/// `(qso_date, time_on)` pair.  Returns a `FormatError` exactly where the
/// texts fail their patterns or denote no real calendar date or clock time.
#[verifier::rlimit(100)]
pub fn adif_time_from_hamlog(h_date: &str, h_hour: &str) -> (r: Result<(String, String), ConvError>)
    ensures
        match r {
            Ok(p) => normalize_time_spec(h_date@, h_hour@) == Some((p.0@, p.1@)),
            Err(e) => normalize_time_spec(h_date@, h_hour@) is None && e == ConvError::FormatError,
        },
{
    let date_chars = str_to_chars(h_date);
    let hour_chars = str_to_chars(h_hour);
    let Some((y0, m, d)) = parse_date_chars(&date_chars) else {
        return Err(ConvError::FormatError);
    };
    let Some((h, mi, suffix)) = parse_time_chars(&hour_chars) else {
        return Err(ConvError::FormatError);
    };
    proof {
        let sd = h_date@;
        let a = find_char(sd, '/', 0);
        lemma_find_char_bounds(sd, '/', 0);
        lemma_find_char_bounds(sd, '/', a + 1);
        let b = find_char(sd, '/', a + 1);
        lemma_digits_val_bounds(sd.subrange(0, a));
        lemma_digits_val_bounds(sd.subrange(a + 1, b));
        lemma_digits_val_bounds(sd.subrange(b + 1, sd.len() as int));
        crate::chars::lemma_pow10_values();
    }
    assert(y0 < 10000 && m < 100 && d < 100);
    let y: u32 = if y0 < 100 {
        if y0 > 65 {
            y0 + 1900
        } else {
            y0 + 2000
        }
    } else {
        y0
    };
    assert(y == expand_year(y0 as int));
    if !(1 <= m && m <= 12) {
        return Err(ConvError::FormatError);
    }
    if !(1 <= d && d <= days_in_month_x(y, m)) {
        return Err(ConvError::FormatError);
    }
    if !(h < 24 && mi < 60) {
        return Err(ConvError::FormatError);
    }
    let off: u32 = if suffix == 'Z' || suffix == 'z' || suffix == 'U' || suffix == 'u' {
        0
    } else {
        540
    };
    assert(off == tz_offset_min(suffix));
    let (uy, um, ud, uh, umi) = utc_shift_x(y, m, d, h, mi, off);
    let date_out = format_date8(uy, um, ud);
    let time_out = format_time4(uh, umi);
    Ok((chars_to_string(&date_out), chars_to_string(&time_out)))
}

/// Splitting a four-digit year into two two-digit halves gives the same
/// digits as taking its four digit positions directly.
proof fn lemma_quotient_digits(y: int)
    requires
        0 <= y < 10000,
    ensures
        (y / 100) / 10 == y / 1000,
        (y % 100) / 10 == (y / 10) % 10,
        (y % 100) % 10 == y % 10,
{
    vstd::arithmetic::div_mod::lemma_fundamental_div_mod(y, 100);
    vstd::arithmetic::div_mod::lemma_fundamental_div_mod(y, 10);
    vstd::arithmetic::div_mod::lemma_fundamental_div_mod(y / 10, 10);
    vstd::arithmetic::div_mod::lemma_fundamental_div_mod(y / 100, 10);
    vstd::arithmetic::div_mod::lemma_fundamental_div_mod(y % 100, 10);
    assert((y / 100) / 10 == y / 1000) by (nonlinear_arith)
        requires
            0 <= y < 10000,
    ;
    assert((y % 100) / 10 == (y / 10) % 10) by (nonlinear_arith)
        requires
            0 <= y < 10000,
    ;
    assert((y % 100) % 10 == y % 10) by (nonlinear_arith)
        requires
            0 <= y < 10000,
    ;
}

/// The decimal value of two digit characters side by side.
proof fn lemma_digits_val2(c0: char, c1: char)
    ensures
        digits_val(seq![c0, c1]) == digit_val(c0) * 10 + digit_val(c1),
{
    let s = seq![c0, c1];
    assert(s.drop_last() =~= seq![c0]);
    assert(seq![c0].drop_last() =~= Seq::<char>::empty());
    assert(digits_val(Seq::<char>::empty()) == 0);
    assert(digits_val(seq![c0]) == digit_val(c0));
    assert(digits_val(s) == digits_val(seq![c0]) * 10 + digit_val(c1));
}

/// The decimal value of four digit characters side by side.
proof fn lemma_digits_val4(c0: char, c1: char, c2: char, c3: char)
    ensures
        digits_val(seq![c0, c1, c2, c3]) == ((digit_val(c0) * 10 + digit_val(c1)) * 10 + digit_val(
            c2,
        )) * 10 + digit_val(c3),
{
    let s = seq![c0, c1, c2, c3];
    assert(s.drop_last() =~= seq![c0, c1, c2]);
    assert(seq![c0, c1, c2].drop_last() =~= seq![c0, c1]);
    lemma_digits_val2(c0, c1);
    assert(digits_val(seq![c0, c1, c2]) == digits_val(seq![c0, c1]) * 10 + digit_val(c2));
    assert(digits_val(s) == digits_val(seq![c0, c1, c2]) * 10 + digit_val(c3));
}

/// A digit character carries exactly its value.
proof fn lemma_digit_char_val(v: int)
    requires
        0 <= v < 10,
    ensures
        is_digit(digit_char(v)),
        digit_val(digit_char(v)) == v,
{
    assert(digit_char(v) as u32 == 48 + v);
}

/// The formatted ADIF date field reads back as exactly the date it was
/// made from: its first four digits are the year, the next two the month,
/// the last two the day.  With `lemma_normalize_time_round_trip` this is
/// the round-trip guarantee of the time normalizer.
pub proof fn lemma_date_digits_decode(y: int, m: int, d: int)
    requires
        0 <= y < 10000,
        0 <= m < 100,
        0 <= d < 100,
    ensures
        date_digits8(y, m, d).len() == 8,
        all_digits(date_digits8(y, m, d)),
        digits_val(date_digits8(y, m, d).subrange(0, 4)) == y,
        digits_val(date_digits8(y, m, d).subrange(4, 6)) == m,
        digits_val(date_digits8(y, m, d).subrange(6, 8)) == d,
{
    let s = date_digits8(y, m, d);
    lemma_digit_char_val(y / 1000);
    lemma_digit_char_val((y / 100) % 10);
    lemma_digit_char_val((y / 10) % 10);
    lemma_digit_char_val(y % 10);
    lemma_digit_char_val(m / 10);
    lemma_digit_char_val(m % 10);
    lemma_digit_char_val(d / 10);
    lemma_digit_char_val(d % 10);
    assert(s.subrange(0, 4) =~= seq![
        digit_char(y / 1000),
        digit_char((y / 100) % 10),
        digit_char((y / 10) % 10),
        digit_char(y % 10),
    ]);
    assert(s.subrange(4, 6) =~= seq![digit_char(m / 10), digit_char(m % 10)]);
    assert(s.subrange(6, 8) =~= seq![digit_char(d / 10), digit_char(d % 10)]);
    lemma_digits_val4(
        digit_char(y / 1000),
        digit_char((y / 100) % 10),
        digit_char((y / 10) % 10),
        digit_char(y % 10),
    );
    lemma_digits_val2(digit_char(m / 10), digit_char(m % 10));
    lemma_digits_val2(digit_char(d / 10), digit_char(d % 10));
    lemma_decimal_split(y);
    assert forall|i: int| 0 <= i < s.len() implies is_digit(#[trigger] s[i]) by {
        assert(s[i] == seq![
            digit_char(y / 1000),
            digit_char((y / 100) % 10),
            digit_char((y / 10) % 10),
            digit_char(y % 10),
            digit_char(m / 10),
            digit_char(m % 10),
            digit_char(d / 10),
            digit_char(d % 10),
        ][i]);
    }
}

/// The formatted ADIF time field reads back as the hour and minute it was
/// made from.
pub proof fn lemma_time_digits_decode(h: int, mi: int)
    requires
        0 <= h < 100,
        0 <= mi < 100,
    ensures
        time_digits4(h, mi).len() == 4,
        all_digits(time_digits4(h, mi)),
        digits_val(time_digits4(h, mi).subrange(0, 2)) == h,
        digits_val(time_digits4(h, mi).subrange(2, 4)) == mi,
{
    let s = time_digits4(h, mi);
    lemma_digit_char_val(h / 10);
    lemma_digit_char_val(h % 10);
    lemma_digit_char_val(mi / 10);
    lemma_digit_char_val(mi % 10);
    assert(s.subrange(0, 2) =~= seq![digit_char(h / 10), digit_char(h % 10)]);
    assert(s.subrange(2, 4) =~= seq![digit_char(mi / 10), digit_char(mi % 10)]);
    lemma_digits_val2(digit_char(h / 10), digit_char(h % 10));
    lemma_digits_val2(digit_char(mi / 10), digit_char(mi % 10));
}

/// A number below ten thousand is the weighted sum of its four decimal
/// digit positions.
proof fn lemma_decimal_split(y: int)
    requires
        0 <= y < 10000,
    ensures
        ((y / 1000 * 10 + (y / 100) % 10) * 10 + (y / 10) % 10) * 10 + y % 10 == y,
{
    vstd::arithmetic::div_mod::lemma_fundamental_div_mod(y, 10);
    vstd::arithmetic::div_mod::lemma_fundamental_div_mod(y / 10, 10);
    vstd::arithmetic::div_mod::lemma_fundamental_div_mod(y / 100, 10);
    assert((y / 10) / 10 == y / 100) by (nonlinear_arith)
        requires
            0 <= y < 10000,
    ;
    assert((y / 100) / 10 == y / 1000) by (nonlinear_arith)
        requires
            0 <= y < 10000,
    ;
}

/// The time normalizer round-trips the calendar date and clock time
/// through the UTC offset conversion: the UTC result is again a valid
/// date with a valid clock time, and, read as minutes on the linear day
/// numbering, it equals the local instant minus the offset.  Midnight
/// crossings and leap days are covered because `day_number` counts real
/// calendar days.
pub proof fn lemma_normalize_time_round_trip(y: int, m: int, d: int, h: int, mi: int, off: int)
    requires
        valid_date(y, m, d),
        y >= 1,
        0 <= h < 24,
        0 <= mi < 60,
        off == 0 || off == 540,
    ensures
        ({
            let (uy, um, ud, uh, umi) = utc_of(y, m, d, h, mi, off);
            &&& valid_date(uy, um, ud)
            &&& 0 <= uh < 24
            &&& 0 <= umi < 60
            &&& day_number(uy, um, ud) * 1440 + uh * 60 + umi == day_number(y, m, d) * 1440 + h * 60
                + mi - off
        }),
{
    let t = h * 60 + mi - off;
    if t >= 0 {
        vstd::arithmetic::div_mod::lemma_fundamental_div_mod(t, 60);
        assert(t / 60 < 24 && 0 <= t % 60 < 60) by (nonlinear_arith)
            requires
                0 <= t < 1440,
        ;
    } else {
        lemma_prev_day_valid(y, m, d);
        lemma_prev_day_number(y, m, d);
        let t2 = t + 1440;
        vstd::arithmetic::div_mod::lemma_fundamental_div_mod(t2, 60);
        assert(t2 / 60 < 24 && 0 <= t2 % 60 < 60) by (nonlinear_arith)
            requires
                0 <= t2 < 1440,
        ;
    }
}

/// A successful normalization yields an 8-digit date field and a 4-digit
/// time field, all characters decimal digits.
pub proof fn lemma_normalize_time_spec_shapes(date: Seq<char>, hour: Seq<char>)
    ensures
        normalize_time_spec(date, hour) matches Some(p) ==> p.0.len() == 8 && all_digits(p.0)
            && p.1.len() == 4 && all_digits(p.1),
{
    if normalize_time_spec(date, hour) is Some {
        let a = find_char(date, '/', 0);
        lemma_find_char_bounds(date, '/', 0);
        lemma_find_char_bounds(date, '/', a + 1);
        let b = find_char(date, '/', a + 1);
        lemma_digits_val_bounds(date.subrange(0, a));
        lemma_digits_val_bounds(date.subrange(a + 1, b));
        lemma_digits_val_bounds(date.subrange(b + 1, date.len() as int));
        crate::chars::lemma_pow10_values();
        let (y0, m, d) = date_parse_spec(date)->Some_0;
        let (h, mi, suffix) = time_parse_spec(hour)->Some_0;
        let y = expand_year(y0);
        assert(100 <= y < 10000);
        let off = tz_offset_min(suffix);
        lemma_normalize_time_round_trip(y, m, d, h, mi, off);
        let (uy, um, ud, uh, umi) = utc_of(y, m, d, h, mi, off);
        assert(0 <= uy < 10000);
        assert(days_in_month(uy, um) <= 31);
        assert(0 <= um < 100 && 0 <= ud < 100);
        lemma_date_digits_decode(uy, um, ud);
        lemma_time_digits_decode(uh, umi);
    }
}

} // verus!
